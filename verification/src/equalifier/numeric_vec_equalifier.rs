//! Answers that write a vector of numbers, separated by commas.

use crate::command::Answer;
use crate::scalar::{read_number, Distance, Scalar};
use crate::text::{number_text, split, split_text, texts, Separator};
use crate::cluster::table_of;
use vstd::prelude::*;
use vstd::string::*;

verus! {

/// How the difference of two vectors is measured.
#[allow(non_camel_case_types)]
#[derive(Clone, Copy, Debug, PartialEq, Eq, Structural)]
pub enum vec_dist_algo {
    /// The root of the sum of the squared differences.
    L2,
    /// The sum of the absolute differences.
    L1,
    /// The share of the places at which the two vectors differ.
    percent_not_equal,
    /// One minus the share of the values of both vectors that occur in each
    /// of them, each value counted once.
    iou,
}

/// The measure that `name` names.
pub open spec fn algo_named(name: Seq<char>) -> Option<vec_dist_algo> {
    if name == "l2"@ {
        Some(vec_dist_algo::L2)
    } else if name == "l1"@ {
        Some(vec_dist_algo::L1)
    } else if name == "percent_not_equal"@ {
        Some(vec_dist_algo::percent_not_equal)
    } else if name == "iou"@ {
        Some(vec_dist_algo::iou)
    } else {
        None
    }
}

impl vec_dist_algo {
    /// Reads a measure from its name: `l1`, `l2`, `percent_not_equal` or
    /// `iou`.
    pub fn from(name: &str) -> (r: Option<vec_dist_algo>)
        ensures
            r == algo_named(name@),
    {
        let given = String::from_str(name);
        if given == String::from_str("l2") {
            Some(vec_dist_algo::L2)
        } else if given == String::from_str("l1") {
            Some(vec_dist_algo::L1)
        } else if given == String::from_str("percent_not_equal") {
            Some(vec_dist_algo::percent_not_equal)
        } else if given == String::from_str("iou") {
            Some(vec_dist_algo::iou)
        } else {
            None
        }
    }
}

/// The fields of a content: its pieces between commas.
pub open spec fn fields(content: Seq<char>) -> Seq<Seq<char>> {
    split(content, Separator::Symbol(','), true)
}

/// The number of flags that are set.
pub open spec fn count_set(flags: Seq<bool>) -> nat
    decreases flags.len(),
{
    if flags.len() == 0 {
        0
    } else {
        count_set(flags.drop_last()) + if flags.last() {
            1nat
        } else {
            0nat
        }
    }
}

/// Whether one of the first `end` flags is set.
pub open spec fn seen(same: Seq<bool>, end: int) -> bool {
    exists|i: int| 0 <= i < end && i < same.len() && #[trigger] same[i]
}

/// Among the first `k` numbers of a vector, the number of those that no
/// earlier number of the vector equals and that occur in the other vector
/// (`shared` set) or do not occur there (`shared` not set). `own[i]` says
/// which numbers of the vector equal its number at `i`, and `other[i]` which
/// numbers of the other vector do.
pub open spec fn count_new(
    own: Seq<Seq<bool>>,
    other: Seq<Seq<bool>>,
    shared: bool,
    k: nat,
) -> nat
    decreases k,
{
    if k == 0 {
        0
    } else {
        let i: int = k - 1;
        let counts = i < own.len() && i < other.len() && !seen(own[i], i) && seen(
            other[i],
            other[i].len() as int,
        ) == shared;
        count_new(own, other, shared, (k - 1) as nat) + if counts {
            1nat
        } else {
            0nat
        }
    }
}

/// Whether each of the fields writes a number.
pub open spec fn all_numbers(fields: Seq<Seq<char>>) -> bool {
    forall|i: int| 0 <= i < fields.len() ==> number_text(#[trigger] fields[i])
}

/// Whether the two contents can be compared as vectors: each field of both
/// writes a number, and both have as many fields.
pub open spec fn comparable(a: Seq<char>, b: Seq<char>) -> bool {
    all_numbers(fields(a)) && all_numbers(fields(b)) && fields(a).len() == fields(b).len()
}

/// The numbers that the fields write.
pub open spec fn numbers<N: Scalar>(fields: Seq<Seq<char>>) -> Seq<N> {
    Seq::new(fields.len(), |i: int| N::written(fields[i]))
}

/// The sum of the absolute differences at the first `k` places.
pub open spec fn l1_of<N: Scalar>(a: Seq<N>, b: Seq<N>, k: nat) -> N
    decreases k,
{
    if k == 0 {
        N::ratio(0, 1)
    } else {
        l1_of(a, b, (k - 1) as nat).sum_of(a[k - 1].difference(b[k - 1]).absolute())
    }
}

/// The sum of the squared differences at the first `k` places.
pub open spec fn squares_of<N: Scalar>(a: Seq<N>, b: Seq<N>, k: nat) -> N
    decreases k,
{
    if k == 0 {
        N::ratio(0, 1)
    } else {
        squares_of(a, b, (k - 1) as nat).sum_of(
            a[k - 1].difference(b[k - 1]).product(a[k - 1].difference(b[k - 1])),
        )
    }
}

/// Says of each place whether the two vectors differ there.
pub open spec fn differing<N: Scalar>(a: Seq<N>, b: Seq<N>) -> Seq<bool> {
    Seq::new(a.len(), |i: int| !a[i].same(b[i]))
}

/// Says of each number of `w`, in a row of its own, which numbers of `v`
/// equal it.
pub open spec fn same_table<N: Scalar>(v: Seq<N>, w: Seq<N>) -> Seq<Seq<bool>> {
    Seq::new(w.len(), |i: int| Seq::new(v.len(), |j: int| v[j].same(w[i])))
}

/// The difference of two vectors of one length by the measure `algo`:
/// the sum of the absolute differences; the root of the sum of the squared
/// differences; the number of places that differ divided by the number of
/// places; or one minus the number of values in both vectors divided by the
/// number of values in either, each value counted once.
pub open spec fn raw_of<N: Scalar>(algo: vec_dist_algo, a: Seq<N>, b: Seq<N>) -> N {
    match algo {
        vec_dist_algo::L1 => l1_of(a, b, a.len()),
        vec_dist_algo::L2 => squares_of(a, b, a.len()).square_root(),
        vec_dist_algo::percent_not_equal => N::count(
            count_set(differing(a, b)) as usize,
        ).quotient(N::count(a.len() as usize)),
        vec_dist_algo::iou => {
            let both = count_new(same_table(a, a), same_table(b, a), true, a.len());
            let first_only = count_new(same_table(a, a), same_table(b, a), false, a.len());
            let second_only = count_new(same_table(b, b), same_table(a, b), false, b.len());
            N::ratio(1, 1).difference(
                N::count(both as usize).quotient(
                    N::count((first_only + both) as usize).sum_of(N::count(second_only as usize)),
                ),
            )
        },
    }
}

/// The distance of two contents as vectors: their difference by the
/// measure, divided by the allowed difference and moved into the range from
/// zero to one; one where they cannot be compared.
pub open spec fn vec_distance<N: Scalar>(
    e: NumericVecEqualifier<N>,
    a: Seq<char>,
    b: Seq<char>,
) -> Distance<N> {
    if comparable(a, b) {
        Distance::Measured(
            raw_of(e.diff_fn, numbers::<N>(fields(a)), numbers::<N>(fields(b))).quotient(
                e.allowed_difference,
            ).clamped(N::ratio(0, 1), N::ratio(1, 1)),
        )
    } else {
        Distance::One
    }
}

/// Reads the numbers that `content` writes between commas, one for each
/// field. `None` where a field writes no number.
pub fn split_to_vec<N: Scalar>(content: &str) -> (r: Option<Vec<N>>)
    ensures
        r is Some <==> all_numbers(fields(content@)),
        r matches Some(v) ==> v@ == numbers::<N>(fields(content@)),
{
    let pieces = split_text(content, Separator::Symbol(','), true);
    assert(texts(pieces@).len() == pieces.len());
    let mut out: Vec<N> = Vec::new();
    let mut i: usize = 0;
    while i < pieces.len()
        invariant
            i <= pieces.len(),
            out.len() == i,
            texts(pieces@) == fields(content@),
            forall|j: int| 0 <= j < i ==> number_text(#[trigger] fields(content@)[j]),
            forall|j: int| 0 <= j < i ==> out@[j] == N::written(fields(content@)[j]),
        decreases pieces.len() - i,
    {
        assert(texts(pieces@)[i as int] == pieces@[i as int]@);
        match read_number::<N>(pieces[i].as_str()) {
            Some(v) => out.push(v),
            None => {
                assert(!number_text(fields(content@)[i as int]));
                return None;
            },
        }
        i += 1;
    }
    assert(out@ =~= numbers::<N>(fields(content@)));
    Some(out)
}

/// Compares vectors of a fixed length.
#[derive(Clone, Copy, Debug)]
pub struct NumericVecEqualifier<N: Scalar> {
    pub allowed_difference: N,
    pub vec_length: usize,
    pub diff_fn: vec_dist_algo,
}

impl<N: Scalar> NumericVecEqualifier<N> {
    pub fn new(allowed_difference: N, diff_fn: vec_dist_algo, vec_length: usize) -> (e: Self)
        ensures
            e.allowed_difference == allowed_difference,
            e.diff_fn == diff_fn,
            e.vec_length == vec_length,
    {
        NumericVecEqualifier { allowed_difference, diff_fn, vec_length }
    }

    /// The sum of the absolute differences.
    fn l1(av: &Vec<N>, bv: &Vec<N>) -> (r: N)
        requires
            av.len() == bv.len(),
        ensures
            r == l1_of(av@, bv@, av.len() as nat),
    {
        let mut sum = N::from_ratio(0, 1);
        let mut i: usize = 0;
        while i < av.len()
            invariant
                av.len() == bv.len(),
                i <= av.len(),
                sum == l1_of(av@, bv@, i as nat),
            decreases av.len() - i,
        {
            sum = sum.plus(av[i].minus(bv[i]).magnitude());
            i += 1;
        }
        sum
    }

    /// The root of the sum of the squared differences.
    fn l2(av: &Vec<N>, bv: &Vec<N>) -> (r: N)
        requires
            av.len() == bv.len(),
        ensures
            r == squares_of(av@, bv@, av.len() as nat).square_root(),
    {
        let mut sum = N::from_ratio(0, 1);
        let mut i: usize = 0;
        while i < av.len()
            invariant
                av.len() == bv.len(),
                i <= av.len(),
                sum == squares_of(av@, bv@, i as nat),
            decreases av.len() - i,
        {
            let d = av[i].minus(bv[i]);
            sum = sum.plus(d.times(d));
            i += 1;
        }
        sum.root()
    }

    /// Says of each place whether the two vectors differ there.
    fn differ_flags(av: &Vec<N>, bv: &Vec<N>) -> (flags: Vec<bool>)
        requires
            av.len() == bv.len(),
        ensures
            flags@ == differing(av@, bv@),
    {
        let mut flags: Vec<bool> = Vec::new();
        let mut i: usize = 0;
        while i < av.len()
            invariant
                av.len() == bv.len(),
                i <= av.len(),
                flags.len() == i,
                forall|j: int| 0 <= j < i ==> flags@[j] == !av@[j].same(bv@[j]),
            decreases av.len() - i,
        {
            flags.push(!av[i].equals(bv[i]));
            i += 1;
        }
        assert(flags@ =~= differing(av@, bv@));
        flags
    }

    /// The share of the places at which two vectors differ, as a fraction:
    /// the number of places at which they differ, and the number of places.
    /// `differs` says of each place whether the vectors differ there.
    fn share_not_equal(differs: &Vec<bool>) -> (r: (usize, usize))
        ensures
            r.0 == count_set(differs@),
            r.1 == differs.len(),
    {
        let mut count: usize = 0;
        let mut i: usize = 0;
        assert(differs@.take(0) =~= Seq::<bool>::empty());
        while i < differs.len()
            invariant
                count <= i <= differs.len(),
                count == count_set(differs@.take(i as int)),
            decreases differs.len() - i,
        {
            assert(differs@.take(i + 1).drop_last() =~= differs@.take(i as int));
            if differs[i] {
                count += 1;
            }
            i += 1;
        }
        assert(differs@.take(differs.len() as int) =~= differs@);
        (count, differs.len())
    }

    /// Says of each number of `v` whether it equals `value`.
    fn equal_flags(v: &Vec<N>, value: N) -> (flags: Vec<bool>)
        ensures
            flags@ == Seq::new(v.len() as nat, |j: int| v@[j].same(value)),
    {
        let mut flags: Vec<bool> = Vec::new();
        let mut i: usize = 0;
        while i < v.len()
            invariant
                i <= v.len(),
                flags.len() == i,
                forall|j: int| 0 <= j < i ==> flags@[j] == v@[j].same(value),
            decreases v.len() - i,
        {
            flags.push(v[i].equals(value));
            i += 1;
        }
        assert(flags@ =~= Seq::new(v.len() as nat, |j: int| v@[j].same(value)));
        flags
    }

    /// Says of each number of `w`, in a row of its own, which numbers of `v`
    /// equal it.
    fn equal_table(v: &Vec<N>, w: &Vec<N>) -> (rows: Vec<Vec<bool>>)
        ensures
            table_of(rows@) == same_table(v@, w@),
    {
        let mut rows: Vec<Vec<bool>> = Vec::new();
        let mut i: usize = 0;
        while i < w.len()
            invariant
                i <= w.len(),
                rows.len() == i,
                forall|k: int| 0 <= k < i ==> (#[trigger] rows@[k])@ == same_table(v@, w@)[k],
            decreases w.len() - i,
        {
            let row = Self::equal_flags(v, w[i]);
            assert(row@ =~= same_table(v@, w@)[i as int]);
            rows.push(row);
            i += 1;
        }
        assert(table_of(rows@) =~= same_table(v@, w@));
        rows
    }

    /// Whether a value occurs among the first `end` numbers of a vector;
    /// `same` says of each number of the vector whether it equals the value.
    fn occurs(same: &Vec<bool>, end: usize) -> (r: bool)
        ensures
            r == seen(same@, end as int),
    {
        let mut i: usize = 0;
        while i < end && i < same.len()
            invariant
                forall|j: int| 0 <= j < i && j < same.len() ==> !#[trigger] same@[j],
            decreases same.len() - i,
        {
            if same[i] {
                return true;
            }
            i += 1;
        }
        false
    }

    /// How far two vectors are apart as sets of values, in counts: the
    /// number of values of the first vector, each counted once, that occur
    /// in the second; the number of values of the first, each counted once;
    /// and the number of values of the second, each counted once, that do
    /// not occur in the first. `own[i]` says which numbers of a vector equal
    /// its number at `i`, and `other[i]` which numbers of the other vector
    /// do.
    fn apart_as_sets(
        first_own: &Vec<Vec<bool>>,
        first_other: &Vec<Vec<bool>>,
        second_own: &Vec<Vec<bool>>,
        second_other: &Vec<Vec<bool>>,
    ) -> (r: (usize, usize, usize))
        requires
            first_own.len() == first_other.len(),
            second_own.len() == second_other.len(),
        ensures
            r.0 == count_new(
                table_of(first_own@),
                table_of(first_other@),
                true,
                first_own.len() as nat,
            ),
            r.1 == count_new(
                table_of(first_own@),
                table_of(first_other@),
                false,
                first_own.len() as nat,
            ) + r.0,
            r.2 == count_new(
                table_of(second_own@),
                table_of(second_other@),
                false,
                second_own.len() as nat,
            ),
    {
        let mut both: usize = 0;
        let mut alone: usize = 0;
        let mut i: usize = 0;
        while i < first_own.len()
            invariant
                first_own.len() == first_other.len(),
                i <= first_own.len(),
                both + alone <= i,
                both == count_new(table_of(first_own@), table_of(first_other@), true, i as nat),
                alone == count_new(table_of(first_own@), table_of(first_other@), false, i as nat),
            decreases first_own.len() - i,
        {
            if !Self::occurs(&first_own[i], i) {
                if Self::occurs(&first_other[i], first_other[i].len()) {
                    both += 1;
                } else {
                    alone += 1;
                }
            }
            i += 1;
        }
        let mut second_only: usize = 0;
        let mut j: usize = 0;
        while j < second_own.len()
            invariant
                second_own.len() == second_other.len(),
                second_only <= j <= second_own.len(),
                second_only == count_new(
                    table_of(second_own@),
                    table_of(second_other@),
                    false,
                    j as nat,
                ),
            decreases second_own.len() - j,
        {
            if !Self::occurs(&second_own[j], j) && !Self::occurs(
                &second_other[j],
                second_other[j].len(),
            ) {
                second_only += 1;
            }
            j += 1;
        }
        (both, both + alone, second_only)
    }

    /// The measured difference of the two answers, divided by the allowed
    /// difference and moved into the range from zero to one: a measured
    /// distance. One where the two vectors differ in length or a field
    /// writes no number.
    pub fn get_distance(&self, a: &Answer, b: &Answer) -> (r: Distance<N>)
        ensures
            r == vec_distance(*self, a.content@, b.content@),
    {
        let av = match split_to_vec::<N>(a.content.as_str()) {
            Some(v) => v,
            None => {
                return Distance::One;
            },
        };
        let bv = match split_to_vec::<N>(b.content.as_str()) {
            Some(v) => v,
            None => {
                return Distance::One;
            },
        };
        if av.len() != bv.len() {
            return Distance::One;
        }
        let raw = match self.diff_fn {
            vec_dist_algo::L2 => Self::l2(&av, &bv),
            vec_dist_algo::L1 => Self::l1(&av, &bv),
            vec_dist_algo::percent_not_equal => {
                let share = Self::share_not_equal(&Self::differ_flags(&av, &bv));
                N::from_count(share.0).over(N::from_count(share.1))
            },
            vec_dist_algo::iou => {
                let counts = Self::apart_as_sets(
                    &Self::equal_table(&av, &av),
                    &Self::equal_table(&bv, &av),
                    &Self::equal_table(&bv, &bv),
                    &Self::equal_table(&av, &bv),
                );
                let union = N::from_count(counts.1).plus(N::from_count(counts.2));
                N::from_ratio(1, 1).minus(N::from_count(counts.0).over(union))
            },
        };
        Distance::Measured(
            raw.over(self.allowed_difference).clamp_between(
                N::from_ratio(0, 1),
                N::from_ratio(1, 1),
            ),
        )
    }

    /// Whether the answer writes a vector of the fixed length: each field
    /// writes a number, and there are as many fields as the vectors are
    /// long.
    pub fn is_valid_answer(&self, a: &Answer) -> (r: bool)
        ensures
            r == (all_numbers(fields(a.content@)) && fields(a.content@).len() == self.vec_length),
    {
        match split_to_vec::<N>(a.content.as_str()) {
            Some(v) => v.len() == self.vec_length,
            None => false,
        }
    }
}

} // verus!
