//! Grouping answers into clusters of answers that belong together.

use vstd::prelude::*;

verus! {

/// Whether the table says that the answers at `a` and `b` belong together.
/// A place that the table does not have says no.
pub open spec fn linked(table: Seq<Seq<bool>>, a: int, b: int) -> bool {
    0 <= a < table.len() && 0 <= b < table[a].len() && table[a][b]
}

/// The table that a vector of rows holds.
pub open spec fn table_of(rows: Seq<Vec<bool>>) -> Seq<Seq<bool>> {
    Seq::new(rows.len(), |a: int| rows[a]@)
}

/// The first cluster, from `from` on, whose first member is linked to the
/// answer at `i`; the number of clusters if there is none.
pub open spec fn first_home(table: Seq<Seq<bool>>, groups: Seq<Seq<usize>>, i: int, from: int) -> int
    decreases groups.len() - from,
{
    if from >= groups.len() {
        groups.len() as int
    } else if groups[from].len() > 0 && linked(table, groups[from][0] as int, i) {
        from
    } else {
        first_home(table, groups, i, from + 1)
    }
}

/// The clusters of the first `k` answers. Each answer in turn joins the
/// first cluster whose first member it is linked to, and starts a cluster of
/// its own if there is none. So the members of a cluster stand in the order
/// in which they came, and the clusters in the order of their first members.
pub open spec fn grouping(table: Seq<Seq<bool>>, k: nat) -> Seq<Seq<usize>>
    decreases k,
{
    if k == 0 {
        Seq::empty()
    } else {
        let prev = grouping(table, (k - 1) as nat);
        let i: int = k - 1;
        let h = first_home(table, prev, i, 0);
        if h < prev.len() {
            prev.update(h, prev[h].push(i as usize))
        } else {
            prev.push(seq![i as usize])
        }
    }
}

/// The clusters that a vector of vectors holds.
pub open spec fn groups_of(v: Seq<Vec<usize>>) -> Seq<Seq<usize>> {
    Seq::new(v.len(), |c: int| v[c]@)
}

/// Every cluster has a member, every member is below `n`, and there is a
/// cluster as soon as there is an answer.
pub open spec fn well_grouped(groups: Seq<Seq<usize>>, n: nat) -> bool {
    &&& forall|c: int| 0 <= c < groups.len() ==> (#[trigger] groups[c]).len() > 0
    &&& forall|c: int, m: int|
        0 <= c < groups.len() && 0 <= m < groups[c].len() ==> (#[trigger] groups[c][m]) < n
    &&& n > 0 ==> groups.len() > 0
    &&& groups.len() <= n
}

/// The clusters of any number of answers are well grouped.
pub proof fn lemma_grouping_well_grouped(table: Seq<Seq<bool>>, k: nat)
    ensures
        well_grouped(grouping(table, k), k),
    decreases k,
{
    if k > 0 {
        lemma_grouping_well_grouped(table, (k - 1) as nat);
        let prev = grouping(table, (k - 1) as nat);
        let i: int = k - 1;
        let h = first_home(table, prev, i, 0);
        lemma_first_home(table, prev, i, 0);
        let next = grouping(table, k);
        assert forall|c: int, m: int| 0 <= c < next.len() && 0 <= m < next[c].len() implies (
        #[trigger] next[c][m]) < k by {
            if c < prev.len() && !(c == h) {
                assert(next[c] == prev[c]);
                assert(prev[c][m] < k - 1);
            } else if c == h && h < prev.len() {
                if m < prev[c].len() {
                    assert(prev[c][m] < k - 1);
                }
            }
        }
        assert forall|c: int| 0 <= c < next.len() implies (#[trigger] next[c]).len() > 0 by {
            if c < prev.len() && !(c == h) {
                assert(next[c] == prev[c]);
            }
        }
    }
}

/// Whether the cluster has the answer at `i` as a member.
pub open spec fn holds(group: Seq<usize>, i: int) -> bool {
    exists|m: int| 0 <= m < group.len() && #[trigger] group[m] == i
}

/// Whether one of the clusters has the answer at `i` as a member.
pub open spec fn placed(groups: Seq<Seq<usize>>, i: int) -> bool {
    exists|c: int| 0 <= c < groups.len() && #[trigger] holds(groups[c], i)
}

/// The clusters part the answers `0..n`: every answer is in a cluster, no
/// answer is in two, and the members of a cluster stand in the order in
/// which they came.
pub open spec fn partitions(groups: Seq<Seq<usize>>, n: nat) -> bool {
    &&& forall|i: int| 0 <= i < n ==> #[trigger] placed(groups, i)
    &&& forall|c: int, d: int, i: int|
        0 <= c < groups.len() && 0 <= d < groups.len() && #[trigger] holds(groups[c], i)
            && #[trigger] holds(groups[d], i) ==> c == d
    &&& forall|c: int, a: int, b: int|
        0 <= c < groups.len() && 0 <= a < b < groups[c].len() ==> (#[trigger] groups[c][a]) < (
        #[trigger] groups[c][b])
}

/// Every member is linked to the first member of its cluster, and the first
/// members of two clusters are not linked.
pub open spec fn led_by_first(table: Seq<Seq<bool>>, groups: Seq<Seq<usize>>) -> bool {
    &&& forall|c: int, m: int|
        0 <= c < groups.len() && 0 <= m < groups[c].len() ==> linked(
            table,
            groups[c][0] as int,
            (#[trigger] groups[c][m]) as int,
        )
    &&& forall|c: int, d: int|
        0 <= c < d < groups.len() ==> !linked(
            table,
            (#[trigger] groups[c])[0] as int,
            (#[trigger] groups[d])[0] as int,
        )
}

/// The table links each of the answers `0..n` to itself, links both ways,
/// and links the ends of a chain of two links.
pub open spec fn equivalence(table: Seq<Seq<bool>>, n: nat) -> bool {
    &&& forall|a: int| 0 <= a < n ==> #[trigger] linked(table, a, a)
    &&& forall|a: int, b: int|
        0 <= a < n && 0 <= b < n && #[trigger] linked(table, a, b) ==> linked(table, b, a)
    &&& forall|a: int, b: int, c: int|
        0 <= a < n && 0 <= b < n && 0 <= c < n && #[trigger] linked(table, a, b) && #[trigger] linked(
            table,
            b,
            c,
        ) ==> linked(table, a, c)
}

/// No cluster before the first home has a first member that is linked to
/// the answer, and the first home has one, where there is a first home.
pub proof fn lemma_first_home(table: Seq<Seq<bool>>, groups: Seq<Seq<usize>>, i: int, from: int)
    requires
        0 <= from <= groups.len(),
        forall|c: int| 0 <= c < groups.len() ==> (#[trigger] groups[c]).len() > 0,
    ensures
        from <= first_home(table, groups, i, from) <= groups.len(),
        forall|c: int|
            from <= c < first_home(table, groups, i, from) ==> !linked(
                table,
                (#[trigger] groups[c])[0] as int,
                i,
            ),
        first_home(table, groups, i, from) < groups.len() ==> linked(
            table,
            groups[first_home(table, groups, i, from)][0] as int,
            i,
        ),
    decreases groups.len() - from,
{
    if from < groups.len() && !(groups[from].len() > 0 && linked(table, groups[from][0] as int, i)) {
        lemma_first_home(table, groups, i, from + 1);
    }
}

/// The clusters of the first `k` answers part them.
pub proof fn lemma_grouping_partitions(table: Seq<Seq<bool>>, k: nat)
    requires
        k <= usize::MAX,
    ensures
        partitions(grouping(table, k), k),
    decreases k,
{
    if k > 0 {
        let prev = grouping(table, (k - 1) as nat);
        let next = grouping(table, k);
        let i: int = k - 1;
        let h = first_home(table, prev, i, 0);
        lemma_grouping_partitions(table, (k - 1) as nat);
        lemma_grouping_well_grouped(table, (k - 1) as nat);
        lemma_first_home(table, prev, i, 0);
        // What a cluster held before, it holds now.
        assert forall|c: int, j: int| 0 <= c < prev.len() && holds(prev[c], j) implies holds(
            next[c],
            j,
        ) by {
            let m = choose|m: int| 0 <= m < prev[c].len() && #[trigger] prev[c][m] == j;
            assert(next[c][m] == j);
        }
        // What a cluster holds now, it held before, but for the new answer.
        assert forall|c: int, j: int| 0 <= c < next.len() && holds(next[c], j) && j != i implies c
            < prev.len() && holds(prev[c], j) by {
            let m = choose|m: int| 0 <= m < next[c].len() && #[trigger] next[c][m] == j;
            if c < prev.len() && (c != h || m < prev[c].len()) {
                assert(prev[c][m] == j);
            } else {
                assert(next[c][m] == i);
            }
        }
        // The new answer is in one cluster only.
        assert forall|c: int| 0 <= c < next.len() && holds(next[c], i) implies c == h by {
            let m = choose|m: int| 0 <= m < next[c].len() && #[trigger] next[c][m] == i;
            if c != h {
                assert(prev[c][m] < k - 1);
            }
        }
        assert(holds(next[h], i)) by {
            assert(next[h][next[h].len() - 1] == i);
        }
        assert forall|j: int| 0 <= j < k implies #[trigger] placed(next, j) by {
            if j == i {
                assert(holds(next[h], j));
            } else {
                assert(placed(prev, j));
                let c = choose|c: int| 0 <= c < prev.len() && #[trigger] holds(prev[c], j);
                assert(holds(next[c], j));
            }
        }
        assert forall|c: int, d: int, j: int|
            0 <= c < next.len() && 0 <= d < next.len() && holds(next[c], j) && holds(
                next[d],
                j,
            ) implies c == d by {
            if j != i {
                assert(holds(prev[c], j) && holds(prev[d], j));
            }
        }
        assert forall|c: int, a: int, b: int|
            0 <= c < next.len() && 0 <= a < b < next[c].len() implies (#[trigger] next[c][a]) < (
        #[trigger] next[c][b]) by {
            if c < prev.len() {
                if b < prev[c].len() {
                    assert(prev[c][a] < prev[c][b]);
                } else {
                    assert(prev[c][a] < k - 1);
                }
            }
        }
    }
}

/// In the clusters of the first `k` answers every member is linked to the
/// first member of its cluster, if the table links each answer to itself;
/// and the first members of two clusters are not linked.
pub proof fn lemma_grouping_led_by_first(table: Seq<Seq<bool>>, k: nat)
    requires
        k <= usize::MAX,
        forall|a: int| 0 <= a < k ==> #[trigger] linked(table, a, a),
    ensures
        led_by_first(table, grouping(table, k)),
    decreases k,
{
    if k > 0 {
        let prev = grouping(table, (k - 1) as nat);
        let next = grouping(table, k);
        let i: int = k - 1;
        let h = first_home(table, prev, i, 0);
        lemma_grouping_led_by_first(table, (k - 1) as nat);
        lemma_grouping_well_grouped(table, (k - 1) as nat);
        lemma_first_home(table, prev, i, 0);
        assert(linked(table, i, i));
        assert forall|c: int, m: int| 0 <= c < next.len() && 0 <= m < next[c].len() implies linked(
            table,
            next[c][0] as int,
            (#[trigger] next[c][m]) as int,
        ) by {
            if c < prev.len() {
                assert(prev[c].len() > 0);
                assert(next[c][0] == prev[c][0]);
                if m < prev[c].len() {
                    assert(next[c][m] == prev[c][m]);
                    assert(linked(table, prev[c][0] as int, prev[c][m] as int));
                } else {
                    assert(c == h);
                    assert(next[c][m] == i);
                }
            } else {
                assert(next[c][m] == i);
            }
        }
        assert forall|c: int, d: int| 0 <= c < d < next.len() implies !linked(
            table,
            (#[trigger] next[c])[0] as int,
            (#[trigger] next[d])[0] as int,
        ) by {
            assert(prev[c].len() > 0);
            assert(next[c][0] == prev[c][0]);
            if d < prev.len() {
                assert(prev[d].len() > 0);
                assert(next[d][0] == prev[d][0]);
                assert(!linked(table, prev[c][0] as int, prev[d][0] as int));
            } else {
                assert(h == prev.len());
                assert(next[d][0] == i);
                assert(!linked(table, prev[c][0] as int, i));
            }
        }
    }
}

/// Where the table is an equivalence, two answers are in one cluster if and
/// only if the table links them.
pub proof fn law_same_cluster_iff_linked(
    table: Seq<Seq<bool>>,
    n: nat,
    c: int,
    d: int,
    i: int,
    j: int,
)
    requires
        n <= usize::MAX,
        equivalence(table, n),
        0 <= c < grouping(table, n).len(),
        0 <= d < grouping(table, n).len(),
        holds(grouping(table, n)[c], i),
        holds(grouping(table, n)[d], j),
    ensures
        c == d <==> linked(table, i, j),
{
    let groups = grouping(table, n);
    lemma_grouping_led_by_first(table, n);
    lemma_grouping_well_grouped(table, n);
    let a = choose|a: int| 0 <= a < groups[c].len() && #[trigger] groups[c][a] == i;
    let b = choose|b: int| 0 <= b < groups[d].len() && #[trigger] groups[d][b] == j;
    let first_c = groups[c][0] as int;
    let first_d = groups[d][0] as int;
    assert(groups[c].len() > 0 && groups[d].len() > 0);
    assert(groups[c][0] < n && groups[d][0] < n);
    assert(groups[c][a] < n && groups[d][b] < n);
    assert(linked(table, first_c, groups[c][a] as int));
    assert(linked(table, first_d, groups[d][b] as int));
    assert(linked(table, i, first_c));
    assert(linked(table, j, first_d));
    if c == d {
        assert(linked(table, i, j));
    } else if linked(table, i, j) {
        assert(linked(table, first_c, j));
        assert(linked(table, first_c, first_d));
        assert(linked(table, first_d, first_c));
        if c < d {
            assert(!linked(table, groups[c][0] as int, groups[d][0] as int));
        } else {
            assert(!linked(table, groups[d][0] as int, groups[c][0] as int));
        }
    }
}

/// Groups the answers `0..table.len()` into clusters. `table[a][b]` says
/// whether the answers at `a` and `b` belong together.
pub fn compute_clusters(table: &Vec<Vec<bool>>) -> (out: Vec<Vec<usize>>)
    ensures
        groups_of(out@) == grouping(table_of(table@), table.len() as nat),
        well_grouped(groups_of(out@), table.len() as nat),
        partitions(groups_of(out@), table.len() as nat),
{
    let n: usize = table.len();
    let mut out: Vec<Vec<usize>> = Vec::new();
    let mut i: usize = 0;
    let ghost links = table_of(table@);
    assert(groups_of(out@) =~= grouping(links, 0));
    while i < n
        invariant
            n == table.len(),
            i <= n,
            links == table_of(table@),
            groups_of(out@) == grouping(links, i as nat),
            well_grouped(groups_of(out@), i as nat),
        decreases n - i,
    {
        let ghost prev = groups_of(out@);
        let mut h: usize = 0;
        let mut found = false;
        while h < out.len() && !found
            invariant
                h <= out.len(),
                prev == groups_of(out@),
                well_grouped(prev, i as nat),
                i < n,
                n == table.len(),
                links == table_of(table@),
                first_home(links, prev, i as int, 0) == first_home(links, prev, i as int, h as int),
                found ==> h < out.len() && linked(links, prev[h as int][0] as int, i as int),
            decreases out.len() - h + (if found { 0int } else { 1int }),
        {
            assert(prev[h as int].len() > 0);
            assert(prev[h as int] == out@[h as int]@);
            let f: usize = out[h][0];
            if f < n && i < table[f].len() && table[f][i] {
                found = true;
            } else {
                h += 1;
            }
        }
        proof {
            lemma_grouping_well_grouped(links, (i + 1) as nat);
        }
        if found {
            assert(prev[h as int].len() > 0);
            let home = &mut out[h];
            home.push(i);
            assert(groups_of(out@) =~= prev.update(h as int, prev[h as int].push(i)));
        } else {
            let mut members: Vec<usize> = Vec::new();
            members.push(i);
            out.push(members);
            assert(groups_of(out@) =~= prev.push(seq![i]));
        }
        i += 1;
    }
    proof {
        lemma_grouping_partitions(links, n as nat);
    }
    out
}

} // verus!
