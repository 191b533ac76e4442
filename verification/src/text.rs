//! Cutting text into pieces and reading counts from it.

use vstd::prelude::*;
use vstd::string::*;

verus! {

/// What separates the pieces of a text.
#[derive(Clone, Copy, Debug)]
pub enum Separator {
    /// Any white space character.
    Whitespace,
    /// One given character.
    Symbol(char),
}

/// Whether `c` is a white space character.
pub open spec fn is_space(c: char) -> bool {
    let n: u32 = c as u32;
    ||| 0x9 <= n <= 0xd
    ||| n == 0x20
    ||| n == 0x85
    ||| n == 0xa0
    ||| n == 0x1680
    ||| 0x2000 <= n <= 0x200a
    ||| n == 0x2028
    ||| n == 0x2029
    ||| n == 0x202f
    ||| n == 0x205f
    ||| n == 0x3000
}

/// Decides whether `c` is a white space character.
pub fn is_space_char(c: char) -> (r: bool)
    ensures
        r == is_space(c),
{
    let n: u32 = c as u32;
    (0x9 <= n && n <= 0xd) || n == 0x20 || n == 0x85 || n == 0xa0 || n == 0x1680 || (0x2000 <= n
        && n <= 0x200a) || n == 0x2028 || n == 0x2029 || n == 0x202f || n == 0x205f || n == 0x3000
}

impl Separator {
    /// Whether `c` separates two pieces.
    pub open spec fn accepts(self, c: char) -> bool {
        match self {
            Separator::Whitespace => is_space(c),
            Separator::Symbol(d) => c == d,
        }
    }

    /// Decides whether `c` separates two pieces.
    pub fn splits_at(self, c: char) -> (r: bool)
        ensures
            r == self.accepts(c),
    {
        match self {
            Separator::Whitespace => is_space_char(c),
            Separator::Symbol(d) => c == d,
        }
    }
}

/// The number of characters at the start of `s` before the first separator.
pub open spec fn run_len(s: Seq<char>, sep: Separator) -> nat
    decreases s.len(),
{
    if s.len() == 0 || sep.accepts(s[0]) {
        0
    } else {
        1 + run_len(s.drop_first(), sep)
    }
}

/// The pieces of `s` between separators, in order. Empty pieces are left out
/// unless `keep_empty` is set.
pub open spec fn split(s: Seq<char>, sep: Separator, keep_empty: bool) -> Seq<Seq<char>>
    decreases s.len(),
{
    let n: int = run_len(s, sep) as int;
    let head = if n > 0 || keep_empty {
        seq![s.take(n)]
    } else {
        Seq::empty()
    };
    if n >= s.len() {
        head
    } else {
        head + split(s.skip(n + 1), sep, keep_empty)
    }
}

/// The texts that a sequence of strings holds.
pub open spec fn texts(v: Seq<String>) -> Seq<Seq<char>> {
    Seq::new(v.len(), |i: int| v[i]@)
}

/// A run that ends at the first separator, or at the end, has that length.
pub proof fn lemma_run_len(s: Seq<char>, sep: Separator, m: int)
    requires
        0 <= m <= s.len(),
        forall|j: int| 0 <= j < m ==> !sep.accepts(#[trigger] s[j]),
        m == s.len() || sep.accepts(s[m]),
    ensures
        run_len(s, sep) == m,
    decreases m,
{
    if m > 0 {
        let t = s.drop_first();
        assert forall|j: int| 0 <= j < m - 1 implies !sep.accepts(#[trigger] t[j]) by {
            assert(t[j] == s[j + 1]);
        }
        lemma_run_len(t, sep, m - 1);
    }
}

/// Cuts `text` at each separator and returns the pieces in order.
pub fn split_text(text: &str, sep: Separator, keep_empty: bool) -> (out: Vec<String>)
    ensures
        texts(out@) == split(text@, sep, keep_empty),
{
    let n: usize = text.unicode_len();
    let mut out: Vec<String> = Vec::new();
    let mut start: usize = 0;
    let mut i: usize = 0;
    assert(text@.skip(0) =~= text@);
    assert(texts(out@) =~= Seq::<Seq<char>>::empty());
    while i < n
        invariant
            n == text@.len(),
            start <= i <= n,
            forall|j: int| start <= j < i ==> !sep.accepts(#[trigger] text@[j]),
            split(text@, sep, keep_empty) == texts(out@) + split(
                text@.skip(start as int),
                sep,
                keep_empty,
            ),
        decreases n - i,
    {
        let c = text.get_char(i);
        if sep.splits_at(c) {
            let ghost rest = text@.skip(start as int);
            let ghost before = texts(out@);
            proof {
                lemma_run_len(rest, sep, i - start);
                assert(rest.skip(i - start + 1) =~= text@.skip(i + 1));
                assert(rest.take(i - start) =~= text@.subrange(start as int, i as int));
            }
            if i > start || keep_empty {
                let piece = String::from_str(text.substring_char(start, i));
                out.push(piece);
                proof {
                    assert(texts(out@) =~= before + seq![piece@]);
                    assert(before + (seq![piece@] + split(text@.skip(i + 1), sep, keep_empty))
                        =~= (before + seq![piece@]) + split(text@.skip(i + 1), sep, keep_empty));
                }
            } else {
                proof {
                    assert(Seq::<Seq<char>>::empty() + split(text@.skip(i + 1), sep, keep_empty)
                        =~= split(text@.skip(i + 1), sep, keep_empty));
                }
            }
            start = i + 1;
        }
        i += 1;
    }
    let ghost rest = text@.skip(start as int);
    let ghost before = texts(out@);
    proof {
        lemma_run_len(rest, sep, n - start);
        assert(rest.take(n - start) =~= text@.subrange(start as int, n as int));
    }
    if n > start || keep_empty {
        let piece = String::from_str(text.substring_char(start, n));
        out.push(piece);
        proof {
            assert(texts(out@) =~= before + seq![piece@]);
        }
    } else {
        proof {
            assert(before + Seq::<Seq<char>>::empty() =~= before);
        }
    }
    out
}

/// Whether `c` is a decimal digit.
pub open spec fn is_digit(c: char) -> bool {
    0x30 <= c as u32 <= 0x39
}

/// The number that a sequence of decimal digits writes.
pub open spec fn decimal_value(s: Seq<char>) -> nat
    decreases s.len(),
{
    if s.len() == 0 {
        0
    } else {
        (10 * decimal_value(s.drop_last()) + (s.last() as u32 - 0x30)) as nat
    }
}

/// The digits of a count: the text without one leading plus sign.
pub open spec fn count_digits(s: Seq<char>) -> Seq<char> {
    if s.len() > 0 && s[0] == '+' {
        s.skip(1)
    } else {
        s
    }
}

/// The count that `s` writes: an optional plus sign, then one or more decimal
/// digits, with a value that fits the machine word.
pub open spec fn count_of(s: Seq<char>) -> Option<usize> {
    let d = count_digits(s);
    if d.len() > 0 && (forall|i: int| 0 <= i < d.len() ==> is_digit(#[trigger] d[i]))
        && decimal_value(d) <= usize::MAX {
        Some(decimal_value(d) as usize)
    } else {
        None
    }
}

/// A longer run of digits writes no smaller a number.
pub proof fn lemma_decimal_grows(s: Seq<char>, k: int)
    requires
        0 <= k <= s.len(),
        forall|i: int| k <= i < s.len() ==> is_digit(#[trigger] s[i]),
    ensures
        decimal_value(s.take(k)) <= decimal_value(s),
    decreases s.len() - k,
{
    if k == s.len() {
        assert(s.take(k) =~= s);
    } else {
        assert(s.drop_last().take(k) =~= s.take(k));
        assert(is_digit(s[s.len() - 1]));
        lemma_decimal_grows(s.drop_last(), k);
    }
}

/// Reads a count from `text`.
pub fn parse_count(text: &str) -> (r: Option<usize>)
    ensures
        r == count_of(text@),
{
    let n: usize = text.unicode_len();
    if n == 0 {
        return None;
    }
    let first: usize = if text.get_char(0) == '+' {
        1
    } else {
        0
    };
    if first == n {
        return None;
    }
    let ghost d = count_digits(text@);
    let mut acc: usize = 0;
    let mut i: usize = first;
    assert(d.take(0) =~= Seq::<char>::empty());
    while i < n
        invariant
            n == text@.len(),
            first <= i <= n,
            first < n,
            d == count_digits(text@),
            d.len() == n - first,
            forall|j: int| 0 <= j < d.len() ==> d[j] == text@[j + first],
            forall|j: int| 0 <= j < i - first ==> is_digit(#[trigger] d[j]),
            acc == decimal_value(d.take(i - first)),
        decreases n - i,
    {
        let c = text.get_char(i);
        let v: u32 = c as u32;
        if v < 0x30 || v > 0x39 {
            assert(!is_digit(d[i - first]));
            return None;
        }
        let digit: usize = (v - 0x30) as usize;
        proof {
            assert(d.take(i - first + 1).drop_last() =~= d.take(i - first));
            assert(d.take(i - first + 1).last() == c);
        }
        if acc > (usize::MAX - digit) / 10 {
            proof {
                if forall|j: int| 0 <= j < d.len() ==> is_digit(#[trigger] d[j]) {
                    lemma_decimal_grows(d, i - first + 1);
                }
            }
            return None;
        }
        acc = acc * 10 + digit;
        i += 1;
    }
    assert(d.take(n - first) =~= d);
    Some(acc)
}

/// Whether the two texts are the same.
pub fn same_text(a: &str, b: &str) -> (r: bool)
    ensures
        r == (a@ == b@),
{
    let left = String::from_str(a);
    let right = String::from_str(b);
    left == right
}

/// The pieces written one after the other, with one space between each two.
pub open spec fn joined(pieces: Seq<Seq<char>>) -> Seq<char>
    decreases pieces.len(),
{
    if pieces.len() == 0 {
        Seq::empty()
    } else if pieces.len() == 1 {
        pieces[0]
    } else {
        joined(pieces.drop_last()) + " "@ + pieces.last()
    }
}

/// Writes the pieces from the place `from` on one after the other, with one
/// space between each two. Nothing where there is no such place.
pub fn join_from(pieces: &Vec<String>, from: usize) -> (r: String)
    ensures
        r@ == if from <= pieces.len() {
            joined(texts(pieces@).skip(from as int))
        } else {
            Seq::empty()
        },
{
    if from >= pieces.len() {
        return String::new();
    }
    let ghost rest = texts(pieces@).skip(from as int);
    let mut out = pieces[from].clone();
    let mut i: usize = from + 1;
    assert(rest.take(1) =~= seq![pieces@[from as int]@]);
    while i < pieces.len()
        invariant
            from < i <= pieces.len(),
            rest == texts(pieces@).skip(from as int),
            out@ == joined(rest.take(i - from)),
        decreases pieces.len() - i,
    {
        proof {
            assert(rest.take(i - from + 1).drop_last() =~= rest.take(i - from));
            assert(rest.take(i - from + 1).last() == pieces@[i as int]@);
        }
        out = out.concat(" ").concat(pieces[i].as_str());
        i += 1;
    }
    assert(rest.take(pieces.len() - from) =~= rest);
    out
}

/// The number of decimal digits that stand in `s` from the place `from` on,
/// one after the other.
pub open spec fn digits_len(s: Seq<char>, from: int) -> nat
    decreases s.len() - from,
{
    if 0 <= from < s.len() && is_digit(s[from]) {
        1 + digits_len(s, from + 1)
    } else {
        0
    }
}

/// Whether `c` is a plus or a minus sign.
pub open spec fn is_sign(c: char) -> bool {
    c == '+' || c == '-'
}

/// The place after the sign that may stand at `from`.
pub open spec fn after_sign(s: Seq<char>, from: int) -> int {
    if 0 <= from < s.len() && is_sign(s[from]) {
        from + 1
    } else {
        from
    }
}

/// Whether `s` writes a number: an optional sign; then decimal digits, with
/// at most one point before, between or after them, and at least one digit;
/// then, if anything follows, the letter `e` or `E`, an optional sign and
/// one or more decimal digits.
pub open spec fn number_text(s: Seq<char>) -> bool {
    let a = after_sign(s, 0);
    let whole = digits_len(s, a);
    let b = a + whole;
    let pointed = b < s.len() && s[b] == '.';
    let part = if pointed {
        digits_len(s, b + 1)
    } else {
        0
    };
    let c = if pointed {
        b + 1 + part
    } else {
        b
    };
    let d = after_sign(s, c + 1);
    &&& whole + part > 0
    &&& c == s.len() || {
        &&& c < s.len()
        &&& s[c] == 'e' || s[c] == 'E'
        &&& digits_len(s, d) > 0
        &&& d + digits_len(s, d) == s.len()
    }
}

/// The place after the decimal digits that stand in `text` from `from` on.
fn skip_digits(text: &str, from: usize) -> (to: usize)
    requires
        from <= text@.len(),
    ensures
        to == from + digits_len(text@, from as int),
        to <= text@.len(),
{
    let n: usize = text.unicode_len();
    let mut i: usize = from;
    while i < n
        invariant
            n == text@.len(),
            from <= i <= n,
            from + digits_len(text@, from as int) == i + digits_len(text@, i as int),
        decreases n - i,
    {
        let v: u32 = text.get_char(i) as u32;
        if v < 0x30 || v > 0x39 {
            return i;
        }
        i += 1;
    }
    i
}

/// The place after the sign that may stand in `text` at `from`.
fn skip_sign(text: &str, from: usize) -> (to: usize)
    requires
        from <= text@.len(),
    ensures
        to == after_sign(text@, from as int),
        to <= text@.len(),
{
    if from < text.unicode_len() {
        let c = text.get_char(from);
        if c == '+' || c == '-' {
            return from + 1;
        }
    }
    from
}

/// Decides whether `text` writes a number.
pub fn is_number_text(text: &str) -> (r: bool)
    ensures
        r == number_text(text@),
{
    let n: usize = text.unicode_len();
    let a = skip_sign(text, 0);
    let b = skip_digits(text, a);
    let mut digits: usize = b - a;
    let mut c = b;
    if b < n && text.get_char(b) == '.' {
        c = skip_digits(text, b + 1);
        digits = digits + (c - (b + 1));
    }
    if digits == 0 {
        return false;
    }
    if c == n {
        return true;
    }
    let e = text.get_char(c);
    if e != 'e' && e != 'E' {
        return false;
    }
    let d = skip_sign(text, c + 1);
    let end = skip_digits(text, d);
    end > d && end == n
}

} // verus!
