//! The belief graph: sources, questions, and the rule that ties the quality
//! of a source to the confidence in the answers that it gave.

use crate::cluster::{
    compute_clusters, equivalence, grouping, groups_of, holds, law_same_cluster_iff_linked,
    lemma_grouping_well_grouped, linked, table_of, well_grouped,
};
use crate::command::{
    Answer, AnswerConfidencePair, Command, CommandResponse, CommandType, CommandView,
};
use crate::config::{find_parameter, parameter, words, ConfigParameter};
use crate::equalifier::exact_equalifier::ExactEqualifier;
use crate::equalifier::numeric_vec_equalifier::{algo_named, vec_dist_algo, NumericVecEqualifier};
use crate::equalifier::{distance_of, Equalifier, NumericEqualifier};
use crate::scalar::{read_number, Distance, Scalar, Weight};
use crate::text::{
    count_of, number_text, parse_count, same_text, split_text, texts, Separator,
};
use std::collections::HashSet;
use vstd::prelude::*;
use vstd::std_specs::hash::*;
use vstd::string::*;

verus! {

/// A source of answers.
#[derive(Debug)]
pub struct Source<N: Scalar> {
    pub name: String,
    /// Roughly the probability that the source answers correctly.
    pub quality: N,
    /// The amount of evidence behind `quality`.
    pub strength: N,
}

/// A question with the answers given to it.
#[derive(Debug)]
pub struct Question<N: Scalar> {
    pub name: String,
    /// The answers of the cluster that is believed to be correct.
    pub correct_answers: Vec<Answer>,
    /// How much this question moves the quality of its sources.
    pub weight: Weight<N>,
    /// The confidence in the believed cluster.
    pub confidence: N,
    pub sources: Vec<String>,
    /// Every answer given, in the order in which they came.
    pub answers: Vec<Answer>,
}

impl<N: Scalar> Default for Question<N> {
    fn default() -> (q: Self)
        ensures
            q.name@ == Seq::<char>::empty(),
            q.correct_answers@ == Seq::<Answer>::empty(),
            q.answers@ == Seq::<Answer>::empty(),
            q.sources@ == Seq::<String>::empty(),
            q.weight is Nothing,
            q.confidence == N::ratio(0, 1),
    {
        Question {
            name: String::new(),
            correct_answers: Vec::new(),
            confidence: N::from_ratio(0, 1),
            weight: Weight::Nothing,
            sources: Vec::new(),
            answers: Vec::new(),
        }
    }
}

/// The clusters of a question's answers, the confidence in each, and the
/// cluster with the highest confidence.
pub struct AnswerClustersWithConfidences<N: Scalar> {
    pub clusters: Vec<Vec<usize>>,
    pub cluster_confidences: Vec<N>,
    pub correct_cluster: usize,
}

/// The graph.
pub struct Graph<N: Scalar> {
    /// All sources, each name once.
    pub sources: Vec<Source<N>>,
    /// All questions, each name once.
    pub questions: Vec<Question<N>>,
    /// The quality that a new source starts with.
    pub default_source_quality: N,
    /// The strength that a new source starts with.
    pub initial_source_strength: N,
    /// The largest strength that a source can have.
    pub maximum_strength: N,
    /// The base of the logarithm that turns confidence into weight.
    pub log_weight_factor: N,
    /// The quality given to a source that is believed.
    pub quality_of_believed_sources: N,
    /// How answers are compared.
    pub equalifier: Equalifier<N>,
}

/// Whether a source of that name is among `sources`.
pub open spec fn named<N: Scalar>(sources: Seq<Source<N>>, name: Seq<char>) -> bool {
    exists|i: int| 0 <= i < sources.len() && (#[trigger] sources[i]).name@ == name
}

/// Whether a question of that name is among `questions`.
pub open spec fn asked<N: Scalar>(questions: Seq<Question<N>>, name: Seq<char>) -> bool {
    exists|i: int| 0 <= i < questions.len() && (#[trigger] questions[i]).name@ == name
}

/// No two sources share a name.
pub open spec fn distinct_sources<N: Scalar>(sources: Seq<Source<N>>) -> bool {
    forall|i: int, j: int|
        0 <= i < j < sources.len() ==> (#[trigger] sources[i]).name@ != (#[trigger] sources[j]).name@
}

/// No two questions share a name.
pub open spec fn distinct_questions<N: Scalar>(questions: Seq<Question<N>>) -> bool {
    forall|i: int, j: int|
        0 <= i < j < questions.len() ==> (#[trigger] questions[i]).name@ != (
        #[trigger] questions[j]).name@
}

/// Every answer in `correct` is one of `answers`.
pub open spec fn chosen_from(correct: Seq<Answer>, answers: Seq<Answer>) -> bool {
    forall|k: int| 0 <= k < correct.len() ==> one_of(answers, #[trigger] correct[k])
}

/// Whether the two answers have the same content, source and fingerprint.
pub open spec fn same_answer(a: Answer, b: Answer) -> bool {
    a.matches_answer(&b)
}

/// Whether `answer` is one of `answers`.
pub open spec fn one_of(answers: Seq<Answer>, answer: Answer) -> bool {
    exists|j: int| 0 <= j < answers.len() && same_answer(#[trigger] answers[j], answer)
}

/// The answers of a question come from known sources and carry the
/// fingerprint of their content, the answers that it believes are among its
/// answers, and it has no weight if and only if it believes at most one
/// answer.
pub open spec fn question_ok<N: Scalar>(q: Question<N>, sources: Seq<Source<N>>) -> bool {
    &&& forall|a: int|
        0 <= a < q.answers.len() ==> named(sources, (#[trigger] q.answers[a]).source@)
    &&& forall|a: int| 0 <= a < q.answers.len() ==> marked(#[trigger] q.answers[a])
    &&& chosen_from(q.correct_answers@, q.answers@)
    &&& q.correct_answers.len() <= 1 <==> q.weight is Nothing
}

/// Whether the answer carries the fingerprint of its content.
pub open spec fn marked(a: Answer) -> bool {
    a.well_marked()
}

/// The same sources by name, in the same order.
pub open spec fn same_names<N: Scalar>(a: Seq<Source<N>>, b: Seq<Source<N>>) -> bool {
    &&& a.len() == b.len()
    &&& forall|i: int| 0 <= i < a.len() ==> (#[trigger] a[i]).name@ == b[i].name@
}

/// Whether the question holds an answer from the source of that name.
pub open spec fn answered_by<N: Scalar>(q: Question<N>, name: Seq<char>) -> bool {
    exists|a: int| 0 <= a < q.answers.len() && (#[trigger] q.answers[a]).source@ == name
}

/// Whether one of the answers in `correct` has the fingerprint `hash`.
pub open spec fn credited(correct: Seq<Answer>, hash: u64) -> bool {
    exists|k: int| 0 <= k < correct.len() && (#[trigger] correct[k]).hash == hash
}

/// A question that is in order stays so when the sources keep their names.
pub proof fn lemma_names_kept<N: Scalar>(q: Question<N>, a: Seq<Source<N>>, b: Seq<Source<N>>)
    requires
        same_names(a, b),
        question_ok(q, a),
    ensures
        question_ok(q, b),
{
    assert forall|k: int| 0 <= k < q.answers.len() implies named(
        b,
        (#[trigger] q.answers[k]).source@,
    ) by {
        let i = choose|i: int| 0 <= i < a.len() && (#[trigger] a[i]).name@ == q.answers[k].source@;
        assert(b[i].name@ == q.answers[k].source@);
    }
}

/// The fingerprints of the answers, as a set.
fn hashes_of(answers: &Vec<Answer>) -> (r: HashSet<u64>)
    ensures
        forall|hash: u64| r@.contains(hash) <==> credited(answers@, hash),
{
    broadcast use vstd::std_specs::hash::group_hash_axioms;

    let mut r: HashSet<u64> = HashSet::new();
    let mut k: usize = 0;
    while k < answers.len()
        invariant
            k <= answers.len(),
            forall|hash: u64| r@.contains(hash) <==> credited(answers@.take(k as int), hash),
        decreases answers.len() - k,
    {
        proof {
            assert(answers@.take(k + 1) =~= answers@.take(k as int).push(answers@[k as int]));
            assert forall|hash: u64|
                credited(answers@.take(k + 1), hash) <==> credited(answers@.take(k as int), hash)
                    || answers@[k as int].hash == hash by {
                lemma_credited_push(answers@.take(k as int), answers@[k as int], hash);
            }
        }
        r.insert(answers[k].hash);
        k += 1;
    }
    assert(answers@.take(k as int) =~= answers@);
    r
}

/// The index that stands highest after the first `k` values were looked at,
/// one after the other, from the first on: a value takes the place of the one
/// that stood highest before it if it beats that one. `beats[i][j]` says
/// whether the value at `i` beats the value at `j`; a place that the table
/// does not have says no. So of several values that are highest the first
/// stands, as long as no value beats its equal.
pub open spec fn running_best(beats: Seq<Seq<bool>>, k: nat) -> int
    decreases k,
{
    if k == 0 {
        0
    } else {
        let best = running_best(beats, (k - 1) as nat);
        let i: int = k - 1;
        if i < beats.len() && 0 <= best < beats[i].len() && beats[i][best] {
            i
        } else {
            best
        }
    }
}

/// Says of each two numbers whether the first exceeds the second.
pub open spec fn beats_of<N: Scalar>(values: Seq<N>) -> Seq<Seq<bool>> {
    Seq::new(values.len(), |i: int| Seq::new(values.len(), |j: int| values[i].above(values[j])))
}

/// The index that stands highest lies below the number of values looked at.
pub proof fn lemma_running_best_range(beats: Seq<Seq<bool>>, k: nat)
    ensures
        0 <= running_best(beats, k),
        k > 0 ==> running_best(beats, k) < k,
    decreases k,
{
    if k > 0 {
        lemma_running_best_range(beats, (k - 1) as nat);
    }
}

/// The index of the highest value; of the first, where several are highest.
/// `beats[i][j]` says whether the value at `i` exceeds the value at `j`.
fn argmaxf(beats: &Vec<Vec<bool>>) -> (r: usize)
    ensures
        r == running_best(table_of(beats@), beats.len() as nat),
        beats.len() > 0 ==> r < beats.len(),
{
    let mut highest_index: usize = 0;
    let mut i: usize = 0;
    while i < beats.len()
        invariant
            i <= beats.len(),
            highest_index == running_best(table_of(beats@), i as nat),
        decreases beats.len() - i,
    {
        proof {
            lemma_running_best_range(table_of(beats@), i as nat);
        }
        if highest_index < beats[i].len() && beats[i][highest_index] {
            highest_index = i;
        }
        i += 1;
    }
    proof {
        lemma_running_best_range(table_of(beats@), beats.len() as nat);
    }
    highest_index
}

/// The table that says of each two answers whether their contents are equal.
pub open spec fn exact_table(answers: Seq<Answer>) -> Seq<Seq<bool>> {
    Seq::new(
        answers.len(),
        |a: int| Seq::new(answers.len(), |b: int| answers[a].content@ == answers[b].content@),
    )
}

/// Under exact comparison two answers are in one cluster if and only if
/// their contents are equal.
pub proof fn law_exact_clusters(answers: Seq<Answer>, c: int, d: int, i: int, j: int)
    requires
        answers.len() <= usize::MAX,
        0 <= c < grouping(exact_table(answers), answers.len()).len(),
        0 <= d < grouping(exact_table(answers), answers.len()).len(),
        holds(grouping(exact_table(answers), answers.len())[c], i),
        holds(grouping(exact_table(answers), answers.len())[d], j),
    ensures
        0 <= i < answers.len(),
        0 <= j < answers.len(),
        c == d <==> answers[i].content@ == answers[j].content@,
{
    let table = exact_table(answers);
    let n = answers.len();
    let groups = grouping(table, n);
    lemma_grouping_well_grouped(table, n);
    let a = choose|a: int| 0 <= a < groups[c].len() && #[trigger] groups[c][a] == i;
    let b = choose|b: int| 0 <= b < groups[d].len() && #[trigger] groups[d][b] == j;
    assert(groups[c][a] < n && groups[d][b] < n);
    assert forall|x: int, y: int| 0 <= x < n && 0 <= y < n implies (#[trigger] linked(table, x, y)
        <==> answers[x].content@ == answers[y].content@) by {}
    assert(equivalence(table, n));
    law_same_cluster_iff_linked(table, n, c, d, i, j);
}

/// The answers at the places that a cluster names.
pub open spec fn members(answers: Seq<Answer>, group: Seq<usize>) -> Seq<Answer> {
    Seq::new(group.len(), |m: int| answers[group[m] as int])
}


impl<N: Scalar> Source<N> {
    /// Gives the source the quality and the strength that were computed for
    /// it, if they are sound; if not, the source starts afresh.
    fn settle(
        &mut self,
        quality: N,
        strength: N,
        sound: bool,
        fresh_quality: N,
        fresh_strength: N,
    )
        ensures
            final(self).name == old(self).name,
            final(self).quality == if sound {
                quality
            } else {
                fresh_quality
            },
            final(self).strength == if sound {
                strength
            } else {
                fresh_strength
            },
    {
        if sound {
            self.quality = quality;
            self.strength = strength;
        } else {
            self.quality = fresh_quality;
            self.strength = fresh_strength;
        }
    }

    /// What an answer adds to the evidence on a source: `whole` where the
    /// answer counts as correct, `nothing` where not.
    fn credit_of(whole: N, nothing: N, credit: bool) -> (r: N)
        ensures
            r == if credit {
                whole
            } else {
                nothing
            },
    {
        if credit {
            whole
        } else {
            nothing
        }
    }

    /// The source after what an answer to a question of weight `weight`
    /// added to it is taken back; `credit` says whether the answer counted as
    /// correct. The quality becomes (quality · strength − weight · credit)
    /// / (strength − weight) and the strength becomes strength − weight, each
    /// moved into its range. Where the strength equals the weight, or the
    /// new quality or strength does not equal itself, the source starts
    /// afresh.
    pub open spec fn withdrawn(
        self,
        weight: N,
        credit: bool,
        fresh_quality: N,
        fresh_strength: N,
        maximum_strength: N,
    ) -> Source<N> {
        let counted = if credit {
            weight.product(N::ratio(1, 1))
        } else {
            weight.product(N::ratio(0, 1))
        };
        let quality = self.quality.product(self.strength).difference(counted).quotient(
            self.strength.difference(weight),
        ).clamped(N::ratio(0, 1), N::ratio(1, 1));
        let strength = self.strength.difference(weight).clamped(N::ratio(0, 1), maximum_strength);
        if !self.strength.same(weight) && quality.same(quality) && strength.same(strength) {
            Source { name: self.name, quality, strength }
        } else {
            Source { name: self.name, quality: fresh_quality, strength: fresh_strength }
        }
    }

    /// The source after an answer to a question of weight `weight` is added
    /// to the evidence on it; `credit` says whether the answer counts as
    /// correct. The quality becomes (quality · strength + weight · credit)
    /// / (strength + weight) and the strength becomes strength + weight, each
    /// moved into its range. Where the new quality or strength does not
    /// equal itself, the source starts afresh.
    pub open spec fn absorbed(
        self,
        weight: N,
        credit: bool,
        fresh_quality: N,
        fresh_strength: N,
        maximum_strength: N,
    ) -> Source<N> {
        let counted = if credit {
            weight.product(N::ratio(1, 1))
        } else {
            weight.product(N::ratio(0, 1))
        };
        let quality = self.quality.product(self.strength).sum_of(counted).quotient(
            self.strength.sum_of(weight),
        ).clamped(N::ratio(0, 1), N::ratio(1, 1));
        let strength = self.strength.sum_of(weight).clamped(N::ratio(0, 1), maximum_strength);
        if quality.same(quality) && strength.same(strength) {
            Source { name: self.name, quality, strength }
        } else {
            Source { name: self.name, quality: fresh_quality, strength: fresh_strength }
        }
    }

    /// Takes back what an answer to a question of weight `weight` added to
    /// this source; `credit` says whether the answer counted as correct.
    fn withdraw(
        &mut self,
        weight: N,
        credit: bool,
        fresh_quality: N,
        fresh_strength: N,
        maximum_strength: N,
    )
        ensures
            *final(self) == old(self).withdrawn(
                weight,
                credit,
                fresh_quality,
                fresh_strength,
                maximum_strength,
            ),
    {
        let zero = N::from_ratio(0, 1);
        let one = N::from_ratio(1, 1);
        let divides = !self.strength.equals(weight);
        let counted = Self::credit_of(weight.times(one), weight.times(zero), credit);
        let quality = self.quality.times(self.strength).minus(counted).over(
            self.strength.minus(weight),
        ).clamp_between(zero, one);
        let strength = self.strength.minus(weight).clamp_between(zero, maximum_strength);
        let sound = divides && quality.equals(quality) && strength.equals(strength);
        self.settle(quality, strength, sound, fresh_quality, fresh_strength);
    }

    /// Adds an answer to a question of weight `weight` to the evidence on
    /// this source; `credit` says whether the answer counts as correct.
    fn absorb(
        &mut self,
        weight: N,
        credit: bool,
        fresh_quality: N,
        fresh_strength: N,
        maximum_strength: N,
    )
        ensures
            *final(self) == old(self).absorbed(
                weight,
                credit,
                fresh_quality,
                fresh_strength,
                maximum_strength,
            ),
    {
        let zero = N::from_ratio(0, 1);
        let one = N::from_ratio(1, 1);
        let counted = Self::credit_of(weight.times(one), weight.times(zero), credit);
        let quality = self.quality.times(self.strength).plus(counted).over(
            self.strength.plus(weight),
        ).clamp_between(zero, one);
        let strength = self.strength.plus(weight).clamp_between(zero, maximum_strength);
        let sound = quality.equals(quality) && strength.equals(strength);
        self.settle(quality, strength, sound, fresh_quality, fresh_strength);
    }
}

/// The table that says of each two answers whether they belong together
/// under the comparison `e`: whether their distance is below one.
pub open spec fn link_table<N: Scalar>(e: Equalifier<N>, answers: Seq<Answer>) -> Seq<Seq<bool>> {
    Seq::new(
        answers.len(),
        |a: int|
            Seq::new(
                answers.len(),
                |b: int| distance_of(e, answers[a].content@, answers[b].content@).close(),
            ),
    )
}

/// The chance that the sources behind the first `m` answers of a cluster
/// are all wrong: the product of one minus the quality of each.
pub open spec fn chance<N: Scalar>(
    sources: Seq<Source<N>>,
    answers: Seq<Answer>,
    group: Seq<usize>,
    m: nat,
) -> N
    decreases m,
{
    if m == 0 {
        N::ratio(1, 1)
    } else {
        chance(sources, answers, group, (m - 1) as nat).product(
            N::ratio(1, 1).difference(
                source_named(sources, answers[group[m - 1] as int].source@).quality,
            ),
        )
    }
}

/// The confidence in a cluster: one minus the chance that the sources
/// behind its answers are all wrong.
pub open spec fn confidence_of<N: Scalar>(
    sources: Seq<Source<N>>,
    answers: Seq<Answer>,
    group: Seq<usize>,
) -> N {
    N::ratio(1, 1).difference(chance(sources, answers, group, group.len()))
}

/// The confidence in each of the clusters.
pub open spec fn confidences<N: Scalar>(
    sources: Seq<Source<N>>,
    answers: Seq<Answer>,
    groups: Seq<Seq<usize>>,
) -> Seq<N> {
    Seq::new(groups.len(), |c: int| confidence_of(sources, answers, groups[c]))
}

/// Whether `x` is a number moved into the range from `low` to `high`.
pub open spec fn moved_into<N: Scalar>(x: N, low: N, high: N) -> bool {
    exists|raw: N| x == #[trigger] raw.clamped(low, high)
}

/// After the effect of an answer is taken back from a source or added to
/// it, the quality of the source is a number moved into the range from zero
/// to one, or the quality that a new source starts with; and its strength
/// is a number moved into the range from zero to the largest strength, or
/// the strength that a new source starts with.
pub proof fn law_numbers_are_moved_into_range<N: Scalar>(
    source: Source<N>,
    weight: N,
    credit: bool,
    fresh_quality: N,
    fresh_strength: N,
    maximum_strength: N,
)
    ensures
        ({
            let after = source.withdrawn(
                weight,
                credit,
                fresh_quality,
                fresh_strength,
                maximum_strength,
            );
            &&& after.quality == fresh_quality || moved_into(
                after.quality,
                N::ratio(0, 1),
                N::ratio(1, 1),
            )
            &&& after.strength == fresh_strength || moved_into(
                after.strength,
                N::ratio(0, 1),
                maximum_strength,
            )
        }),
        ({
            let after = source.absorbed(
                weight,
                credit,
                fresh_quality,
                fresh_strength,
                maximum_strength,
            );
            &&& after.quality == fresh_quality || moved_into(
                after.quality,
                N::ratio(0, 1),
                N::ratio(1, 1),
            )
            &&& after.strength == fresh_strength || moved_into(
                after.strength,
                N::ratio(0, 1),
                maximum_strength,
            )
        }),
{
}

/// The place of the source of that name, where there is one.
pub open spec fn place_of<N: Scalar>(sources: Seq<Source<N>>, name: Seq<char>) -> int {
    choose|i: int| 0 <= i < sources.len() && (#[trigger] sources[i]).name@ == name
}

/// Where no name occurs twice, the place of a name is that of the source
/// that has it.
pub proof fn lemma_place_of<N: Scalar>(sources: Seq<Source<N>>, i: int)
    requires
        distinct_sources(sources),
        0 <= i < sources.len(),
    ensures
        place_of(sources, sources[i].name@) == i,
{
    let name = sources[i].name@;
    let j = choose|j: int| 0 <= j < sources.len() && (#[trigger] sources[j]).name@ == name;
    if j < i {
        assert(sources[j].name@ != sources[i].name@);
    } else if i < j {
        assert(sources[i].name@ != sources[j].name@);
    }
}

/// The sources after the effect of the first `k` answers of a question is
/// taken back from them, answer by answer: each answer changes the source
/// that gave it, by the weight of the question, and counts as correct if
/// its fingerprint is that of a believed answer.
pub open spec fn withdrawn_all<N: Scalar>(
    sources: Seq<Source<N>>,
    q: Question<N>,
    k: nat,
    fresh_quality: N,
    fresh_strength: N,
    maximum_strength: N,
) -> Seq<Source<N>>
    decreases k,
{
    if k == 0 {
        sources
    } else {
        let prev = withdrawn_all(
            sources,
            q,
            (k - 1) as nat,
            fresh_quality,
            fresh_strength,
            maximum_strength,
        );
        let answer = q.answers[k - 1];
        if named(prev, answer.source@) {
            let i = place_of(prev, answer.source@);
            prev.update(
                i,
                prev[i].withdrawn(
                    q.weight.number(),
                    credited(q.correct_answers@, answer.hash),
                    fresh_quality,
                    fresh_strength,
                    maximum_strength,
                ),
            )
        } else {
            prev
        }
    }
}

/// The sources after the effect of the first `k` answers of a question is
/// added to them, answer by answer: each answer changes the source that
/// gave it, by the weight of the question, and counts as correct if its
/// fingerprint is that of a believed answer.
pub open spec fn absorbed_all<N: Scalar>(
    sources: Seq<Source<N>>,
    q: Question<N>,
    k: nat,
    fresh_quality: N,
    fresh_strength: N,
    maximum_strength: N,
) -> Seq<Source<N>>
    decreases k,
{
    if k == 0 {
        sources
    } else {
        let prev = absorbed_all(
            sources,
            q,
            (k - 1) as nat,
            fresh_quality,
            fresh_strength,
            maximum_strength,
        );
        let answer = q.answers[k - 1];
        if named(prev, answer.source@) {
            let i = place_of(prev, answer.source@);
            prev.update(
                i,
                prev[i].absorbed(
                    q.weight.number(),
                    credited(q.correct_answers@, answer.hash),
                    fresh_quality,
                    fresh_strength,
                    maximum_strength,
                ),
            )
        } else {
            prev
        }
    }
}

/// The cluster with the highest confidence, the first of several.
pub open spec fn best_cluster<N: Scalar>(
    e: Equalifier<N>,
    sources: Seq<Source<N>>,
    answers: Seq<Answer>,
) -> int {
    let groups = clusters_of(e, answers);
    running_best(beats_of(confidences(sources, answers, groups)), groups.len())
}

/// What a question believes after a new look: the members of the cluster
/// with the highest confidence, in the order in which they came.
pub open spec fn believed_anew<N: Scalar>(
    e: Equalifier<N>,
    sources: Seq<Source<N>>,
    answers: Seq<Answer>,
) -> Seq<Answer> {
    let groups = clusters_of(e, answers);
    if groups.len() > 0 {
        members(answers, groups[best_cluster(e, sources, answers)])
    } else {
        Seq::empty()
    }
}

/// The confidence of a question after a new look: that of the cluster with
/// the highest confidence, moved into the range from zero to one; zero
/// where there is no cluster.
pub open spec fn confidence_anew<N: Scalar>(
    e: Equalifier<N>,
    sources: Seq<Source<N>>,
    answers: Seq<Answer>,
) -> N {
    let groups = clusters_of(e, answers);
    if groups.len() > 0 {
        confidences(sources, answers, groups)[best_cluster(e, sources, answers)].clamped(
            N::ratio(0, 1),
            N::ratio(1, 1),
        )
    } else {
        N::ratio(0, 1)
    }
}

/// The weight of a question after a new look: none where it believes at
/// most one answer; else minus the logarithm of one minus its confidence to
/// the base `base`, and zero where that is below zero.
pub open spec fn weight_anew<N: Scalar>(
    e: Equalifier<N>,
    sources: Seq<Source<N>>,
    answers: Seq<Answer>,
    base: N,
) -> Weight<N> {
    if believed_anew(e, sources, answers).len() > 1 {
        let raised = N::ratio(0, 1).difference(
            N::ratio(1, 1).difference(confidence_anew(e, sources, answers)).logarithm(base),
        );
        if N::ratio(0, 1).above(raised) {
            Weight::Measured(N::ratio(0, 1))
        } else {
            Weight::Measured(raised)
        }
    } else {
        Weight::Nothing
    }
}

/// Whether `table` is what the comparison `e` says of the answers.
pub open spec fn measured<N: Scalar>(
    e: Equalifier<N>,
    answers: Seq<Answer>,
    table: Seq<Seq<bool>>,
) -> bool {
    table == link_table(e, answers)
}

/// The clusters of the answers under the comparison `e`.
pub open spec fn clusters_of<N: Scalar>(e: Equalifier<N>, answers: Seq<Answer>) -> Seq<Seq<usize>> {
    grouping(link_table(e, answers), answers.len() as nat)
}

/// Under exact comparison two answers belong together if and only if their
/// contents are equal.
pub proof fn lemma_exact_links<N: Scalar>(e: Equalifier<N>, answers: Seq<Answer>)
    requires
        e is Exact,
    ensures
        link_table(e, answers) == exact_table(answers),
{
    assert(link_table(e, answers) =~~= exact_table(answers));
}

/// Whether `groups` are the clusters of the answers under the comparison
/// `e`.
pub open spec fn clustered<N: Scalar>(
    e: Equalifier<N>,
    answers: Seq<Answer>,
    groups: Seq<Seq<usize>>,
) -> bool {
    exists|table: Seq<Seq<bool>>| #[trigger]
        measured(e, answers, table) && groups == grouping(table, answers.len() as nat)
}

/// Whether the believed answers are the members of one of the clusters.
pub open spec fn one_cluster(correct: Seq<Answer>, answers: Seq<Answer>, groups: Seq<Seq<usize>>) -> bool {
    exists|c: int| 0 <= c < groups.len() && correct == members(answers, #[trigger] groups[c])
}

/// What a question must believe: answers of the question, none if and only
/// if it has no answer, and otherwise the members of one cluster of its
/// answers. It has no weight if and only if it believes at most one answer.
pub open spec fn belief_ok<N: Scalar>(q: Question<N>, e: Equalifier<N>) -> bool {
    &&& chosen_from(q.correct_answers@, q.answers@)
    &&& q.answers.len() > 0 <==> q.correct_answers.len() > 0
    &&& q.correct_answers.len() <= 1 <==> q.weight is Nothing
    &&& q.answers.len() > 0 ==> exists|groups: Seq<Seq<usize>>| #[trigger]
        clustered(e, q.answers@, groups) && one_cluster(q.correct_answers@, q.answers@, groups)
}

/// Under exact comparison the clusters of the answers are those of the
/// table of equal contents.
pub proof fn law_clusters_of_equal_contents<N: Scalar>(
    e: Equalifier<N>,
    answers: Seq<Answer>,
    groups: Seq<Seq<usize>>,
)
    requires
        e is Exact,
        clustered(e, answers, groups),
    ensures
        groups == grouping(exact_table(answers), answers.len() as nat),
{
    lemma_exact_links(e, answers);
}


/// The question of that name, where there is one.
pub open spec fn question_named<N: Scalar>(questions: Seq<Question<N>>, name: Seq<char>) -> Question<
    N,
> {
    questions[choose|i: int| 0 <= i < questions.len() && (#[trigger] questions[i]).name@ == name]
}

/// The source of that name, where there is one.
pub open spec fn source_named<N: Scalar>(sources: Seq<Source<N>>, name: Seq<char>) -> Source<N> {
    sources[choose|i: int| 0 <= i < sources.len() && (#[trigger] sources[i]).name@ == name]
}

/// The answers that the question of that name holds; none where there is no
/// such question.
pub open spec fn answers_to<N: Scalar>(questions: Seq<Question<N>>, name: Seq<char>) -> Seq<
    Answer,
> {
    if asked(questions, name) {
        question_named(questions, name).answers@
    } else {
        Seq::empty()
    }
}

/// Where no name occurs twice, the question of a name is the one that has it.
pub proof fn lemma_question_named<N: Scalar>(questions: Seq<Question<N>>, i: int)
    requires
        distinct_questions(questions),
        0 <= i < questions.len(),
    ensures
        asked(questions, questions[i].name@),
        question_named(questions, questions[i].name@) == questions[i],
{
    let name = questions[i].name@;
    let j = choose|j: int| 0 <= j < questions.len() && (#[trigger] questions[j]).name@ == name;
    if j < i {
        assert(questions[j].name@ != questions[i].name@);
    } else if i < j {
        assert(questions[i].name@ != questions[j].name@);
    }
}

/// Where no name occurs twice, the source of a name is the one that has it.
pub proof fn lemma_source_named<N: Scalar>(sources: Seq<Source<N>>, i: int)
    requires
        distinct_sources(sources),
        0 <= i < sources.len(),
    ensures
        named(sources, sources[i].name@),
        source_named(sources, sources[i].name@) == sources[i],
{
    let name = sources[i].name@;
    let j = choose|j: int| 0 <= j < sources.len() && (#[trigger] sources[j]).name@ == name;
    if j < i {
        assert(sources[j].name@ != sources[i].name@);
    } else if i < j {
        assert(sources[i].name@ != sources[j].name@);
    }
}

/// Whether one of `answers` has the content `content`.
pub open spec fn told(answers: Seq<Answer>, content: Seq<char>) -> bool {
    exists|j: int| 0 <= j < answers.len() && (#[trigger] answers[j]).content@ == content
}

/// The content of the first believed answer; the word `None` where nothing
/// is believed.
pub open spec fn best_answer<N: Scalar>(q: Question<N>) -> Seq<char> {
    if q.correct_answers.len() > 0 {
        q.correct_answers[0].content@
    } else {
        "None"@
    }
}


/// Why a command was not carried out.
#[derive(Debug, Clone, Copy, PartialEq, Eq, Structural)]
pub enum GraphError {
    /// The command lacks a field that its kind needs.
    MissingField,
    /// The value of a configuration lacks a parameter, or writes one that
    /// cannot be read.
    ConfigMissingParameter(ConfigParameter),
    /// The configuration key is not known.
    ConfigUnknownKey,
    /// The comparison method is not known.
    ConfigUnknownMethod,
    /// The graph does not carry out commands of this kind.
    NotImplemented,
}

impl GraphError {
    /// The error in words.
    pub open spec fn text(self) -> Seq<char> {
        match self {
            GraphError::MissingField => "a field of the command is missing"@,
            GraphError::ConfigMissingParameter(ConfigParameter::MaxDistance) =>
                "max_distance must be specified"@,
            GraphError::ConfigMissingParameter(ConfigParameter::AllowedDifference) =>
                "allowed_difference must be specified (try 1.0)"@,
            GraphError::ConfigMissingParameter(ConfigParameter::VecLength) =>
                "vec_length must be specified (vector lengths must be fixed)"@,
            GraphError::ConfigMissingParameter(ConfigParameter::DiffFn) =>
                "diff_fn must be specified (l1, l2, percent_not_equal, iou)"@,
            GraphError::ConfigMissingParameter(ConfigParameter::Value) =>
                "the value must be a number"@,
            GraphError::ConfigUnknownKey => "Unknown configuration key"@,
            GraphError::ConfigUnknownMethod =>
                "unknown comparison method. Try exact, numeric, or numeric_vec"@,
            GraphError::NotImplemented => "Not implemented or invalid command"@,
        }
    }

    /// The error in words.
    pub fn message(&self) -> (r: String)
        ensures
            r@ == self.text(),
    {
        match self {
            GraphError::MissingField => String::from_str("a field of the command is missing"),
            GraphError::ConfigMissingParameter(ConfigParameter::MaxDistance) => String::from_str(
                "max_distance must be specified",
            ),
            GraphError::ConfigMissingParameter(ConfigParameter::AllowedDifference) =>
                String::from_str("allowed_difference must be specified (try 1.0)"),
            GraphError::ConfigMissingParameter(ConfigParameter::VecLength) => String::from_str(
                "vec_length must be specified (vector lengths must be fixed)",
            ),
            GraphError::ConfigMissingParameter(ConfigParameter::DiffFn) => String::from_str(
                "diff_fn must be specified (l1, l2, percent_not_equal, iou)",
            ),
            GraphError::ConfigMissingParameter(ConfigParameter::Value) => String::from_str(
                "the value must be a number",
            ),
            GraphError::ConfigUnknownKey => String::from_str("Unknown configuration key"),
            GraphError::ConfigUnknownMethod => String::from_str(
                "unknown comparison method. Try exact, numeric, or numeric_vec",
            ),
            GraphError::NotImplemented => String::from_str("Not implemented or invalid command"),
        }
    }

    /// The error of a configuration in words, with the key of the
    /// configuration where the key or the method is not known.
    pub fn message_for(&self, key: &str) -> (r: String)
        ensures
            r@ == match *self {
                GraphError::ConfigUnknownKey => "Unknown configuration key: \""@ + key@ + "\""@,
                GraphError::ConfigUnknownMethod => "unknown comparison method \""@ + key@
                    + "\". Try exact, numeric, or numeric_vec"@,
                _ => self.text(),
            },
    {
        match self {
            GraphError::ConfigUnknownKey => String::from_str(
                "Unknown configuration key: \"",
            ).concat(key).concat("\""),
            GraphError::ConfigUnknownMethod => String::from_str(
                "unknown comparison method \"",
            ).concat(key).concat("\". Try exact, numeric, or numeric_vec"),
            _ => self.message(),
        }
    }
}

/// Whether a parameter is given and writes a count.
pub open spec fn count_given(w: Seq<Seq<char>>, key: Seq<char>) -> bool {
    parameter(w, key) is Some && count_of(parameter(w, key)->0) is Some
}

/// Whether a parameter is given and names a measure.
pub open spec fn algo_given(w: Seq<Seq<char>>, key: Seq<char>) -> bool {
    parameter(w, key) is Some && algo_named(parameter(w, key)->0) is Some
}

/// A change of the comparison in use or of one setting.
#[derive(Clone, Copy, Debug)]
pub enum Configuration<N: Scalar> {
    Comparison(Equalifier<N>),
    DefaultSourceQuality(N),
    LogWeightFactor(N),
    InitialSourceStrength(N),
    MaximumStrength(N),
}

/// Whether a parameter is given and writes a number.
pub open spec fn number_given(w: Seq<Seq<char>>, key: Seq<char>) -> bool {
    parameter(w, key) is Some && number_text(parameter(w, key)->0)
}

/// The result is the error `e`.
pub open spec fn fails_with<N: Scalar>(
    r: Result<Configuration<N>, GraphError>,
    e: GraphError,
) -> bool {
    r is Err && r->Err_0 == e
}

/// What reading the value of a setting returns: a configuration where the
/// value writes a number, and an error where not.
pub open spec fn setting_read<N: Scalar>(
    val: Seq<char>,
    r: Result<Configuration<N>, GraphError>,
) -> bool {
    if number_text(val) {
        r is Ok
    } else {
        fails_with(r, GraphError::ConfigMissingParameter(ConfigParameter::Value))
    }
}

/// What reading a configuration returns.
///
/// The key `comparison_method` takes a method as the first word of the
/// value, `exact`, `numeric` or `numeric_vec`, and the parameters of the
/// method as further words: the number `max_distance` for `numeric`; the
/// number `allowed_difference`, the count `vec_length` and the measure
/// `diff_fn` for `numeric_vec`. The first parameter that is missing or
/// cannot be read gives the error. Each other key names a setting and takes
/// a number as its value.
pub open spec fn configuration_read<N: Scalar>(
    key: Seq<char>,
    val: Seq<char>,
    r: Result<Configuration<N>, GraphError>,
) -> bool {
    let w = words(val);
    if key == "comparison_method"@ {
        if w.len() > 0 && w[0] == "exact"@ {
            r is Ok && r->Ok_0 is Comparison && r->Ok_0->Comparison_0 is Exact
        } else if w.len() > 0 && w[0] == "numeric"@ {
            if number_given(w, "max_distance"@) {
                &&& r is Ok
                &&& r->Ok_0 is Comparison
                &&& r->Ok_0->Comparison_0 is Numeric
                &&& r->Ok_0->Comparison_0->Numeric_0.max_distance == N::written(
                    parameter(w, "max_distance"@)->0,
                )
            } else {
                fails_with(r, GraphError::ConfigMissingParameter(ConfigParameter::MaxDistance))
            }
        } else if w.len() > 0 && w[0] == "numeric_vec"@ {
            if !number_given(w, "allowed_difference"@) {
                fails_with(
                    r,
                    GraphError::ConfigMissingParameter(ConfigParameter::AllowedDifference),
                )
            } else if !count_given(w, "vec_length"@) {
                fails_with(r, GraphError::ConfigMissingParameter(ConfigParameter::VecLength))
            } else if !algo_given(w, "diff_fn"@) {
                fails_with(r, GraphError::ConfigMissingParameter(ConfigParameter::DiffFn))
            } else {
                &&& r is Ok
                &&& r->Ok_0 is Comparison
                &&& r->Ok_0->Comparison_0 is NumericVec
                &&& r->Ok_0->Comparison_0->NumericVec_0.allowed_difference == N::written(
                    parameter(w, "allowed_difference"@)->0,
                )
                &&& Some(r->Ok_0->Comparison_0->NumericVec_0.vec_length) == count_of(
                    parameter(w, "vec_length"@)->0,
                )
                &&& Some(r->Ok_0->Comparison_0->NumericVec_0.diff_fn) == algo_named(
                    parameter(w, "diff_fn"@)->0,
                )
            }
        } else {
            fails_with(r, GraphError::ConfigUnknownMethod)
        }
    } else if key == "default_source_quality"@ {
        setting_read(val, r) && (r is Ok ==> r->Ok_0 == Configuration::DefaultSourceQuality(N::written(val)))
    } else if key == "log_weight_factor"@ {
        setting_read(val, r) && (r is Ok ==> r->Ok_0 == Configuration::LogWeightFactor(N::written(val)))
    } else if key == "initial_source_strength"@ {
        setting_read(val, r) && (r is Ok ==> r->Ok_0 == Configuration::InitialSourceStrength(N::written(val)))
    } else if key == "maximum_strength"@ {
        setting_read(val, r) && (r is Ok ==> r->Ok_0 == Configuration::MaximumStrength(N::written(val)))
    } else {
        fails_with(r, GraphError::ConfigUnknownKey)
    }
}

/// The value of a setting, from what was read of its text: the number, or
/// the error that says that the text writes none.
fn read_value<N: Scalar>(parsed: Option<N>) -> (r: Result<N, GraphError>)
    ensures
        r == match parsed {
            Some(v) => Ok::<N, GraphError>(v),
            None => Err::<N, GraphError>(
                GraphError::ConfigMissingParameter(ConfigParameter::Value),
            ),
        },
{
    match parsed {
        Some(v) => Ok(v),
        None => Err(GraphError::ConfigMissingParameter(ConfigParameter::Value)),
    }
}

/// Reads a configuration from its key and its value.
pub fn read_configuration<N: Scalar>(key: &str, val: &str) -> (r: Result<
    Configuration<N>,
    GraphError,
>)
    ensures
        configuration_read(key@, val@, r),
{
    if same_text(key, "comparison_method") {
        let items = split_text(val, Separator::Whitespace, false);
        assert(texts(items@) == words(val@));
        if items.len() == 0 {
            return Err(GraphError::ConfigUnknownMethod);
        }
        assert(texts(items@)[0] == items@[0]@);
        let method = items[0].as_str();
        if same_text(method, "exact") {
            Ok(Configuration::Comparison(Equalifier::Exact(ExactEqualifier::new())))
        } else if same_text(method, "numeric") {
            let max_distance = match find_parameter(&items, "max_distance") {
                Some(t) => read_number::<N>(t.as_str()),
                None => None,
            };
            match max_distance {
                Some(m) => Ok(
                    Configuration::Comparison(Equalifier::Numeric(NumericEqualifier::new(m))),
                ),
                None => Err(GraphError::ConfigMissingParameter(ConfigParameter::MaxDistance)),
            }
        } else if same_text(method, "numeric_vec") {
            let allowed_difference = match find_parameter(&items, "allowed_difference") {
                Some(t) => read_number::<N>(t.as_str()),
                None => None,
            };
            let vec_length = match find_parameter(&items, "vec_length") {
                Some(t) => parse_count(t.as_str()),
                None => None,
            };
            let diff_fn = match find_parameter(&items, "diff_fn") {
                Some(t) => vec_dist_algo::from(t.as_str()),
                None => None,
            };
            match (allowed_difference, vec_length, diff_fn) {
                (None, _, _) => Err(
                    GraphError::ConfigMissingParameter(ConfigParameter::AllowedDifference),
                ),
                (Some(_), None, _) => Err(
                    GraphError::ConfigMissingParameter(ConfigParameter::VecLength),
                ),
                (Some(_), Some(_), None) => Err(
                    GraphError::ConfigMissingParameter(ConfigParameter::DiffFn),
                ),
                (Some(a), Some(n), Some(d)) => Ok(
                    Configuration::Comparison(
                        Equalifier::NumericVec(NumericVecEqualifier::new(a, d, n)),
                    ),
                ),
            }
        } else {
            Err(GraphError::ConfigUnknownMethod)
        }
    } else if same_text(key, "default_source_quality") {
        match read_value::<N>(read_number::<N>(val)) {
            Ok(v) => Ok(Configuration::DefaultSourceQuality(v)),
            Err(e) => Err(e),
        }
    } else if same_text(key, "log_weight_factor") {
        match read_value::<N>(read_number::<N>(val)) {
            Ok(v) => Ok(Configuration::LogWeightFactor(v)),
            Err(e) => Err(e),
        }
    } else if same_text(key, "initial_source_strength") {
        match read_value::<N>(read_number::<N>(val)) {
            Ok(v) => Ok(Configuration::InitialSourceStrength(v)),
            Err(e) => Err(e),
        }
    } else if same_text(key, "maximum_strength") {
        match read_value::<N>(read_number::<N>(val)) {
            Ok(v) => Ok(Configuration::MaximumStrength(v)),
            Err(e) => Err(e),
        }
    } else {
        Err(GraphError::ConfigUnknownKey)
    }
}

/// The contents of the answers in a list of pairs.
pub open spec fn pair_texts<N: Scalar>(pairs: Seq<AnswerConfidencePair<N>>) -> Seq<Seq<char>> {
    Seq::new(pairs.len(), |k: int| pairs[k].answer@)
}


/// The answers of the clusters, cluster by cluster, in each cluster in the
/// order of its members.
pub open spec fn walk(answers: Seq<Answer>, groups: Seq<Seq<usize>>) -> Seq<Answer>
    decreases groups.len(),
{
    if groups.len() == 0 {
        Seq::empty()
    } else {
        walk(answers, groups.drop_last()) + members(answers, groups.last())
    }
}

/// The contents of those answers whose fingerprint no earlier answer has, in
/// order.
pub open spec fn first_told(walked: Seq<Answer>) -> Seq<Seq<char>>
    decreases walked.len(),
{
    if walked.len() == 0 {
        Seq::empty()
    } else if credited(walked.drop_last(), walked.last().hash) {
        first_told(walked.drop_last())
    } else {
        first_told(walked.drop_last()).push(walked.last().content@)
    }
}

/// The confidences in the clusters, cluster by cluster, each as often as the
/// cluster has members: for each answer on the way through the clusters,
/// the confidence in its cluster.
pub open spec fn walk_confidences<N: Scalar>(confs: Seq<N>, groups: Seq<Seq<usize>>) -> Seq<N>
    decreases groups.len(),
{
    if groups.len() == 0 {
        Seq::empty()
    } else {
        walk_confidences(confs, groups.drop_last()) + Seq::new(
            groups.last().len(),
            |m: int| confs[groups.len() - 1],
        )
    }
}

/// Of the numbers given with the answers, those of the answers whose
/// fingerprint no earlier answer has, in order.
pub open spec fn first_confidences<N: Scalar>(walked: Seq<Answer>, given: Seq<N>) -> Seq<N>
    decreases walked.len(),
{
    if walked.len() == 0 {
        Seq::empty()
    } else if credited(walked.drop_last(), walked.last().hash) {
        first_confidences(walked.drop_last(), given.drop_last())
    } else {
        first_confidences(walked.drop_last(), given.drop_last()).push(given.last())
    }
}

/// The confidences in a list of pairs.
pub open spec fn pair_confidences<N: Scalar>(pairs: Seq<AnswerConfidencePair<N>>) -> Seq<N> {
    Seq::new(pairs.len(), |k: int| pairs[k].confidence)
}

/// A fingerprint is among those of a list with one answer more if it was
/// among them before or is that of the new answer.
pub proof fn lemma_credited_push(walked: Seq<Answer>, a: Answer, hash: u64)
    ensures
        credited(walked.push(a), hash) <==> credited(walked, hash) || a.hash == hash,
{
    let longer = walked.push(a);
    if credited(walked, hash) {
        let k = choose|k: int| 0 <= k < walked.len() && (#[trigger] walked[k]).hash == hash;
        assert(longer[k].hash == hash);
    }
    if a.hash == hash {
        assert(longer[walked.len() as int].hash == hash);
    }
    if credited(longer, hash) {
        let k = choose|k: int| 0 <= k < longer.len() && (#[trigger] longer[k]).hash == hash;
        if k < walked.len() {
            assert(walked[k].hash == hash);
        }
    }
}

impl<N: Scalar> Graph<N> {
    /// The graph is in order: no name occurs twice, and every question is in
    /// order.
    pub open spec fn wf(&self) -> bool {
        &&& distinct_sources(self.sources@)
        &&& distinct_questions(self.questions@)
        &&& forall|q: int|
            0 <= q < self.questions.len() ==> question_ok(#[trigger] self.questions[q], self.sources@)
    }

    /// The two graphs have the same settings and the same comparison.
    pub open spec fn same_settings(&self, other: &Graph<N>) -> bool {
        &&& self.default_source_quality == other.default_source_quality
        &&& self.initial_source_strength == other.initial_source_strength
        &&& self.maximum_strength == other.maximum_strength
        &&& self.log_weight_factor == other.log_weight_factor
        &&& self.quality_of_believed_sources == other.quality_of_believed_sources
        &&& self.equalifier == other.equalifier
    }

    /// An empty graph with the given settings and comparison.
    pub fn with_settings(
        default_source_quality: N,
        initial_source_strength: N,
        maximum_strength: N,
        log_weight_factor: N,
        quality_of_believed_sources: N,
        equalifier: Equalifier<N>,
    ) -> (g: Graph<N>)
        ensures
            g.wf(),
            g.sources@ == Seq::<Source<N>>::empty(),
            g.questions@ == Seq::<Question<N>>::empty(),
            g.default_source_quality == default_source_quality,
            g.initial_source_strength == initial_source_strength,
            g.maximum_strength == maximum_strength,
            g.log_weight_factor == log_weight_factor,
            g.quality_of_believed_sources == quality_of_believed_sources,
            g.equalifier == equalifier,
    {
        Graph {
            sources: Vec::new(),
            questions: Vec::new(),
            default_source_quality,
            initial_source_strength,
            maximum_strength,
            log_weight_factor,
            quality_of_believed_sources,
            equalifier,
        }
    }

    /// An empty graph that compares answers exactly, with the usual
    /// settings: a new source has the quality 1/2 and the strength 1, no
    /// strength exceeds 100, weights are logarithms to the base 10, and a
    /// believed source has the quality 999/1000.
    pub fn new() -> (g: Graph<N>)
        ensures
            g.wf(),
            g.sources@ == Seq::<Source<N>>::empty(),
            g.questions@ == Seq::<Question<N>>::empty(),
            g.equalifier == Equalifier::<N>::Exact(ExactEqualifier {  }),
            g.default_source_quality == N::ratio(1, 2),
            g.initial_source_strength == N::ratio(1, 1),
            g.maximum_strength == N::ratio(100, 1),
            g.log_weight_factor == N::ratio(10, 1),
            g.quality_of_believed_sources == N::ratio(999, 1000),
    {
        Graph::with_settings(
            N::from_ratio(1, 2),
            N::from_ratio(1, 1),
            N::from_ratio(100, 1),
            N::from_ratio(10, 1),
            N::from_ratio(999, 1000),
            Equalifier::Exact(ExactEqualifier::new()),
        )
    }

    /// An empty graph that compares answers as `equalifier` does, with the
    /// usual settings.
    pub fn new_with_equalifier(equalifier: Equalifier<N>) -> (g: Graph<N>)
        ensures
            g.wf(),
            g.sources@ == Seq::<Source<N>>::empty(),
            g.questions@ == Seq::<Question<N>>::empty(),
            g.equalifier == equalifier,
            g.default_source_quality == N::ratio(1, 2),
            g.initial_source_strength == N::ratio(1, 1),
            g.maximum_strength == N::ratio(100, 1),
            g.log_weight_factor == N::ratio(10, 1),
            g.quality_of_believed_sources == N::ratio(999, 1000),
    {
        let mut g = Graph::new();
        g.equalifier = equalifier;
        g
    }

    /// Decides whether no two sources share a name.
    fn has_distinct_sources(&self) -> (r: bool)
        ensures
            r == distinct_sources(self.sources@),
    {
        let mut j: usize = 0;
        while j < self.sources.len()
            invariant
                j <= self.sources.len(),
                forall|a: int, b: int|
                    0 <= a < b < j ==> (#[trigger] self.sources@[a]).name@ != (
                    #[trigger] self.sources@[b]).name@,
            decreases self.sources.len() - j,
        {
            let mut i: usize = 0;
            while i < j
                invariant
                    i <= j < self.sources.len(),
                    forall|a: int|
                        0 <= a < i ==> (#[trigger] self.sources@[a]).name@
                            != self.sources@[j as int].name@,
                decreases j - i,
            {
                if self.sources[i].name == self.sources[j].name {
                    assert(self.sources@[i as int].name@ == self.sources@[j as int].name@);
                    return false;
                }
                i += 1;
            }
            j += 1;
        }
        true
    }

    /// Decides whether no two questions share a name.
    fn has_distinct_questions(&self) -> (r: bool)
        ensures
            r == distinct_questions(self.questions@),
    {
        let mut j: usize = 0;
        while j < self.questions.len()
            invariant
                j <= self.questions.len(),
                forall|a: int, b: int|
                    0 <= a < b < j ==> (#[trigger] self.questions@[a]).name@ != (
                    #[trigger] self.questions@[b]).name@,
            decreases self.questions.len() - j,
        {
            let mut i: usize = 0;
            while i < j
                invariant
                    i <= j < self.questions.len(),
                    forall|a: int|
                        0 <= a < i ==> (#[trigger] self.questions@[a]).name@
                            != self.questions@[j as int].name@,
                decreases j - i,
            {
                if self.questions[i].name == self.questions[j].name {
                    assert(self.questions@[i as int].name@ == self.questions@[j as int].name@);
                    return false;
                }
                i += 1;
            }
            j += 1;
        }
        true
    }

    /// Decides whether the question at `qi` is in order.
    fn has_question_in_order(&self, qi: usize) -> (r: bool)
        requires
            qi < self.questions.len(),
        ensures
            r == question_ok(self.questions[qi as int], self.sources@),
    {
        let q = &self.questions[qi];
        let weightless = match q.weight {
            Weight::Nothing => true,
            Weight::Measured(_) => false,
        };
        if weightless != (q.correct_answers.len() <= 1) {
            return false;
        }
        let mut a: usize = 0;
        while a < q.answers.len()
            invariant
                qi < self.questions.len(),
                *q == self.questions[qi as int],
                q.correct_answers.len() <= 1 <==> q.weight is Nothing,
                a <= q.answers.len(),
                forall|x: int|
                    0 <= x < a ==> named(self.sources@, (#[trigger] q.answers@[x]).source@)
                        && marked(q.answers@[x]),
            decreases q.answers.len() - a,
        {
            match self.find_source(q.answers[a].source.as_str()) {
                Some(i) => {
                    assert(self.sources@[i as int].name@ == q.answers@[a as int].source@);
                },
                None => {
                    assert(!named(self.sources@, q.answers[a as int].source@));
                    assert(!question_ok(*q, self.sources@));
                    return false;
                },
            }
            if !q.answers[a].is_well_marked() {
                assert(!marked(q.answers[a as int]));
                assert(!question_ok(*q, self.sources@));
                return false;
            }
            a += 1;
        }
        let mut k: usize = 0;
        while k < q.correct_answers.len()
            invariant
                qi < self.questions.len(),
                *q == self.questions[qi as int],
                q.correct_answers.len() <= 1 <==> q.weight is Nothing,
                forall|x: int|
                    0 <= x < q.answers.len() ==> named(
                        self.sources@,
                        (#[trigger] q.answers@[x]).source@,
                    ) && marked(q.answers@[x]),
                k <= q.correct_answers.len(),
                forall|x: int|
                    0 <= x < k ==> one_of(q.answers@, #[trigger] q.correct_answers@[x]),
            decreases q.correct_answers.len() - k,
        {
            let mut j: usize = 0;
            let mut found = false;
            while j < q.answers.len() && !found
                invariant
                    j <= q.answers.len(),
                    k < q.correct_answers.len(),
                    forall|y: int|
                        0 <= y < j ==> !same_answer(
                            #[trigger] q.answers@[y],
                            q.correct_answers@[k as int],
                        ),
                    found ==> one_of(q.answers@, q.correct_answers@[k as int]),
                decreases q.answers.len() - j + (if found {
                    0int
                } else {
                    1int
                }),
            {
                if q.answers[j].same_as(&q.correct_answers[k]) {
                    assert(same_answer(q.answers@[j as int], q.correct_answers@[k as int]));
                    found = true;
                } else {
                    j += 1;
                }
            }
            if !found {
                assert(!one_of(q.answers@, q.correct_answers@[k as int]));
                assert(!chosen_from(q.correct_answers@, q.answers@));
                return false;
            }
            k += 1;
        }
        assert(question_ok(*q, self.sources@));
        true
    }

    /// Decides whether the graph is in order.
    pub fn is_in_order(&self) -> (r: bool)
        ensures
            r == self.wf(),
    {
        if !self.has_distinct_sources() || !self.has_distinct_questions() {
            return false;
        }
        let mut q: usize = 0;
        while q < self.questions.len()
            invariant
                q <= self.questions.len(),
                forall|x: int|
                    0 <= x < q ==> question_ok(#[trigger] self.questions@[x], self.sources@),
            decreases self.questions.len() - q,
        {
            if !self.has_question_in_order(q) {
                return false;
            }
            q += 1;
        }
        true
    }

    /// The place of the source of that name.
    pub fn find_source(&self, source_name: &str) -> (r: Option<usize>)
        ensures
            match r {
                Some(i) => i < self.sources.len() && self.sources[i as int].name@ == source_name@,
                None => !named(self.sources@, source_name@),
            },
    {
        let wanted = String::from_str(source_name);
        let mut i: usize = 0;
        while i < self.sources.len()
            invariant
                i <= self.sources.len(),
                wanted@ == source_name@,
                forall|j: int| 0 <= j < i ==> (#[trigger] self.sources@[j]).name@ != source_name@,
            decreases self.sources.len() - i,
        {
            if self.sources[i].name == wanted {
                return Some(i);
            }
            i += 1;
        }
        None
    }

    /// The place of the question of that name.
    pub fn find_question(&self, question_name: &str) -> (r: Option<usize>)
        ensures
            match r {
                Some(i) => i < self.questions.len() && self.questions[i as int].name@
                    == question_name@,
                None => !asked(self.questions@, question_name@),
            },
    {
        let wanted = String::from_str(question_name);
        let mut i: usize = 0;
        while i < self.questions.len()
            invariant
                i <= self.questions.len(),
                wanted@ == question_name@,
                forall|j: int|
                    0 <= j < i ==> (#[trigger] self.questions@[j]).name@ != question_name@,
            decreases self.questions.len() - i,
        {
            if self.questions[i].name == wanted {
                return Some(i);
            }
            i += 1;
        }
        None
    }

    /// Adds a source of that name, with the quality and the strength that a
    /// new source starts with, unless there is one already.
    pub fn create_source_if_not_exists(&mut self, source_name: &str)
        requires
            old(self).wf(),
        ensures
            final(self).wf(),
            final(self).same_settings(old(self)),
            final(self).questions@ == old(self).questions@,
            named(final(self).sources@, source_name@),
            named(old(self).sources@, source_name@) ==> final(self).sources@ == old(self).sources@,
            !named(old(self).sources@, source_name@) ==> {
                &&& final(self).sources@.len() == old(self).sources@.len() + 1
                &&& final(self).sources@.drop_last() == old(self).sources@
                &&& final(self).sources@.last().name@ == source_name@
                &&& final(self).sources@.last().quality == old(self).default_source_quality
                &&& final(self).sources@.last().strength == old(self).initial_source_strength
            },
    {
        match self.find_source(source_name) {
            Some(i) => {
                assert(self.sources@[i as int].name@ == source_name@);
            },
            None => {
                let ghost before = self.sources@;
                self.sources.push(
                    Source {
                        name: String::from_str(source_name),
                        quality: self.default_source_quality,
                        strength: self.initial_source_strength,
                    },
                );
                proof {
                    let after = self.sources@;
                    assert(after.drop_last() =~= before);
                    assert(after[after.len() - 1].name@ == source_name@);
                    assert forall|q: int| 0 <= q < self.questions.len() implies question_ok(
                        #[trigger] self.questions[q],
                        after,
                    ) by {
                        let qu = self.questions[q];
                        assert(question_ok(qu, before));
                        assert forall|a: int| 0 <= a < qu.answers.len() implies named(
                            after,
                            (#[trigger] qu.answers[a]).source@,
                        ) by {
                            let i = choose|i: int|
                                0 <= i < before.len() && (#[trigger] before[i]).name@
                                    == qu.answers[a].source@;
                            assert(after[i].name@ == qu.answers[a].source@);
                        }
                    }
                    assert forall|i: int, j: int| 0 <= i < j < after.len() implies (
                    #[trigger] after[i]).name@ != (#[trigger] after[j]).name@ by {
                        if j < before.len() {
                            assert(before[i].name@ != before[j].name@);
                        } else {
                            assert(before[i].name@ != source_name@);
                        }
                    }
                }
            },
        }
    }

    /// Adds a question of that name, with no answers, unless there is one
    /// already.
    pub fn create_question_if_not_exists(&mut self, question_name: &str)
        requires
            old(self).wf(),
        ensures
            final(self).wf(),
            final(self).same_settings(old(self)),
            final(self).sources@ == old(self).sources@,
            asked(final(self).questions@, question_name@),
            asked(old(self).questions@, question_name@) ==> final(self).questions@ == old(
                self,
            ).questions@,
            !asked(old(self).questions@, question_name@) ==> {
                &&& final(self).questions@.len() == old(self).questions@.len() + 1
                &&& final(self).questions@.drop_last() == old(self).questions@
                &&& final(self).questions@.last().name@ == question_name@
                &&& final(self).questions@.last().answers@ == Seq::<Answer>::empty()
                &&& final(self).questions@.last().correct_answers@ == Seq::<Answer>::empty()
                &&& final(self).questions@.last().confidence == N::ratio(0, 1)
                &&& final(self).questions@.last().weight is Nothing
            },
    {
        match self.find_question(question_name) {
            Some(i) => {
                assert(self.questions@[i as int].name@ == question_name@);
            },
            None => {
                let ghost before = self.questions@;
                let mut question: Question<N> = Question::default();
                question.name = String::from_str(question_name);
                self.questions.push(question);
                proof {
                    let after = self.questions@;
                    assert(after.drop_last() =~= before);
                    assert(after[after.len() - 1].name@ == question_name@);
                    assert forall|q: int| 0 <= q < after.len() implies question_ok(
                        #[trigger] after[q],
                        self.sources@,
                    ) by {
                        if q < before.len() {
                            assert(after[q] == before[q]);
                        }
                    }
                    assert forall|i: int, j: int| 0 <= i < j < after.len() implies (
                    #[trigger] after[i]).name@ != (#[trigger] after[j]).name@ by {
                        if j < before.len() {
                            assert(before[i].name@ != before[j].name@);
                        } else {
                            assert(before[i].name@ != question_name@);
                        }
                    }
                }
            },
        }
    }

    /// What a change of the sources' numbers on account of the question at
    /// `q` keeps: the settings, the questions, the names of the sources, and
    /// every source that gave the question no answer.
    pub open spec fn effect_kept(&self, pre: &Graph<N>, q: int) -> bool {
        &&& self.same_settings(pre)
        &&& self.questions@ == pre.questions@
        &&& same_names(pre.sources@, self.sources@)
        &&& forall|i: int|
            0 <= i < pre.sources.len() && !answered_by(
                pre.questions[q],
                (#[trigger] pre.sources[i]).name@,
            ) ==> self.sources[i] == pre.sources[i]
    }

    /// What a new look at the question at `q` changes: only what that
    /// question believes, its confidence and its weight.
    pub open spec fn recomputed(&self, pre: &Graph<N>, q: int) -> bool {
        &&& self.same_settings(pre)
        &&& self.sources@ == pre.sources@
        &&& self.questions.len() == pre.questions.len()
        &&& forall|j: int|
            0 <= j < pre.questions.len() && j != q ==> #[trigger] self.questions[j]
                == pre.questions[j]
        &&& self.questions[q].name == pre.questions[q].name
        &&& self.questions[q].answers@ == pre.questions[q].answers@
        &&& belief_ok(self.questions[q], self.equalifier)
        &&& self.questions[q].correct_answers@ == believed_anew(
            pre.equalifier,
            pre.sources@,
            pre.questions[q].answers@,
        )
        &&& self.questions[q].confidence == confidence_anew(
            pre.equalifier,
            pre.sources@,
            pre.questions[q].answers@,
        )
        &&& self.questions[q].weight == weight_anew(
            pre.equalifier,
            pre.sources@,
            pre.questions[q].answers@,
            pre.log_weight_factor,
        )
    }

    /// A graph in order stays so when the questions stay and the sources
    /// keep their names.
    pub proof fn lemma_wf_kept(&self, pre: &Graph<N>)
        requires
            pre.wf(),
            self.questions@ == pre.questions@,
            same_names(pre.sources@, self.sources@),
        ensures
            self.wf(),
    {
        assert forall|q: int| 0 <= q < self.questions.len() implies question_ok(
            #[trigger] self.questions[q],
            self.sources@,
        ) by {
            assert(question_ok(pre.questions[q], pre.sources@));
            lemma_names_kept(pre.questions[q], pre.sources@, self.sources@);
        }
        assert forall|i: int, j: int| 0 <= i < j < self.sources.len() implies (
        #[trigger] self.sources[i]).name@ != (#[trigger] self.sources[j]).name@ by {
            assert(pre.sources[i].name@ != pre.sources[j].name@);
        }
    }

    /// Takes back from the sources what the question at `qi` added to them,
    /// answer by answer.
    pub fn remove_question_effect(&mut self, qi: usize)
        requires
            old(self).wf(),
            qi < old(self).questions.len(),
        ensures
            final(self).wf(),
            final(self).effect_kept(old(self), qi as int),
            final(self).sources@ == withdrawn_all(
                old(self).sources@,
                old(self).questions[qi as int],
                old(self).questions[qi as int].answers.len() as nat,
                old(self).default_source_quality,
                old(self).initial_source_strength,
                old(self).maximum_strength,
            ),
    {
        let weight = self.questions[qi].weight.value();
        let fresh_quality = self.default_source_quality;
        let fresh_strength = self.initial_source_strength;
        let maximum_strength = self.maximum_strength;
        let n: usize = self.questions[qi].answers.len();
        let correct = hashes_of(&self.questions[qi].correct_answers);
        let ghost q = self.questions[qi as int];
        let mut k: usize = 0;
        while k < n
            invariant
                qi < self.questions.len(),
                k <= n,
                forall|hash: u64| correct@.contains(hash) <==> credited(q.correct_answers@, hash),
                n == self.questions[qi as int].answers.len(),
                q == old(self).questions[qi as int],
                q == self.questions[qi as int],
                weight == q.weight.number(),
                fresh_quality == old(self).default_source_quality,
                fresh_strength == old(self).initial_source_strength,
                maximum_strength == old(self).maximum_strength,
                old(self).wf(),
                self.effect_kept(old(self), qi as int),
                self.sources@ == withdrawn_all(
                    old(self).sources@,
                    q,
                    k as nat,
                    fresh_quality,
                    fresh_strength,
                    maximum_strength,
                ),
            decreases n - k,
        {
            let credit = correct.contains(&self.questions[qi].answers[k].hash);
            let found = self.find_source(self.questions[qi].answers[k].source.as_str());
            let ghost before = self.sources@;
            proof {
                self.lemma_wf_kept(old(self));
            }
            if let Some(i) = found {
                proof {
                    lemma_place_of(before, i as int);
                }
                let source = &mut self.sources[i];
                source.withdraw(weight, credit, fresh_quality, fresh_strength, maximum_strength);
                proof {
                    assert(self.sources@ =~= before.update(i as int, self.sources@[i as int]));
                    assert(old(self).questions[qi as int].answers[k as int].source@ == old(
                        self,
                    ).sources[i as int].name@);
                    assert(answered_by(
                        old(self).questions[qi as int],
                        old(self).sources[i as int].name@,
                    ));
                }
            }
            k += 1;
        }
        proof {
            self.lemma_wf_kept(old(self));
        }
    }

    /// Adds to the sources what the question at `qi` says of them, answer by
    /// answer.
    pub fn add_question_effect(&mut self, qi: usize)
        requires
            old(self).wf(),
            qi < old(self).questions.len(),
        ensures
            final(self).wf(),
            final(self).effect_kept(old(self), qi as int),
            final(self).sources@ == absorbed_all(
                old(self).sources@,
                old(self).questions[qi as int],
                old(self).questions[qi as int].answers.len() as nat,
                old(self).default_source_quality,
                old(self).initial_source_strength,
                old(self).maximum_strength,
            ),
    {
        let weight = self.questions[qi].weight.value();
        let fresh_quality = self.default_source_quality;
        let fresh_strength = self.initial_source_strength;
        let maximum_strength = self.maximum_strength;
        let n: usize = self.questions[qi].answers.len();
        let correct = hashes_of(&self.questions[qi].correct_answers);
        let ghost q = self.questions[qi as int];
        let mut k: usize = 0;
        while k < n
            invariant
                qi < self.questions.len(),
                k <= n,
                forall|hash: u64| correct@.contains(hash) <==> credited(q.correct_answers@, hash),
                n == self.questions[qi as int].answers.len(),
                q == old(self).questions[qi as int],
                q == self.questions[qi as int],
                weight == q.weight.number(),
                fresh_quality == old(self).default_source_quality,
                fresh_strength == old(self).initial_source_strength,
                maximum_strength == old(self).maximum_strength,
                old(self).wf(),
                self.effect_kept(old(self), qi as int),
                self.sources@ == absorbed_all(
                    old(self).sources@,
                    q,
                    k as nat,
                    fresh_quality,
                    fresh_strength,
                    maximum_strength,
                ),
            decreases n - k,
        {
            let credit = correct.contains(&self.questions[qi].answers[k].hash);
            let found = self.find_source(self.questions[qi].answers[k].source.as_str());
            let ghost before = self.sources@;
            proof {
                self.lemma_wf_kept(old(self));
            }
            if let Some(i) = found {
                proof {
                    lemma_place_of(before, i as int);
                }
                let source = &mut self.sources[i];
                source.absorb(weight, credit, fresh_quality, fresh_strength, maximum_strength);
                proof {
                    assert(self.sources@ =~= before.update(i as int, self.sources@[i as int]));
                    assert(old(self).questions[qi as int].answers[k as int].source@ == old(
                        self,
                    ).sources[i as int].name@);
                    assert(answered_by(
                        old(self).questions[qi as int],
                        old(self).sources[i as int].name@,
                    ));
                }
            }
            k += 1;
        }
        proof {
            self.lemma_wf_kept(old(self));
        }
    }

    /// Says of each two answers whether they belong together.
    fn similarity_table(&self, answers: &Vec<Answer>) -> (t: Vec<Vec<bool>>)
        ensures
            t.len() == answers.len(),
            table_of(t@) == link_table(self.equalifier, answers@),
    {
        let n: usize = answers.len();
        let mut t: Vec<Vec<bool>> = Vec::new();
        let mut a: usize = 0;
        while a < n
            invariant
                n == answers.len(),
                a <= n,
                t.len() == a,
                forall|i: int|
                    0 <= i < a ==> (#[trigger] t@[i])@ == link_table(self.equalifier, answers@)[i],
            decreases n - a,
        {
            let mut row: Vec<bool> = Vec::new();
            let mut b: usize = 0;
            while b < n
                invariant
                    n == answers.len(),
                    a < n,
                    b <= n,
                    row.len() == b,
                    forall|j: int|
                        0 <= j < b ==> #[trigger] row@[j] == distance_of(
                            self.equalifier,
                            answers@[a as int].content@,
                            answers@[j].content@,
                        ).close(),
                decreases n - b,
            {
                row.push(self.equalifier.similar(&answers[a], &answers[b]));
                b += 1;
            }
            assert(row@ =~= link_table(self.equalifier, answers@)[a as int]);
            t.push(row);
            a += 1;
        }
        assert(table_of(t@) =~= link_table(self.equalifier, answers@));
        t
    }

    /// Groups the answers of the question at `qi` into clusters, computes
    /// the confidence in each, one minus the chance that every source behind
    /// the cluster is wrong, and finds the cluster with the highest
    /// confidence, the first of several.
    pub fn compute_answer_clusters_with_confidence(&self, qi: usize) -> (r:
        AnswerClustersWithConfidences<N>)
        requires
            self.wf(),
            qi < self.questions.len(),
        ensures
            groups_of(r.clusters@) == clusters_of(
                self.equalifier,
                self.questions[qi as int].answers@,
            ),
            r.cluster_confidences@ == confidences(
                self.sources@,
                self.questions[qi as int].answers@,
                groups_of(r.clusters@),
            ),
            r.correct_cluster == running_best(
                beats_of(r.cluster_confidences@),
                r.clusters.len() as nat,
            ),
            well_grouped(groups_of(r.clusters@), self.questions[qi as int].answers.len() as nat),
            r.clusters.len() > 0 ==> r.correct_cluster < r.clusters.len(),
            clustered(
                self.equalifier,
                self.questions[qi as int].answers@,
                groups_of(r.clusters@),
            ),
    {
        let question = &self.questions[qi];
        let table = self.similarity_table(&question.answers);
        let clusters = compute_clusters(&table);
        assert(measured(self.equalifier, question.answers@, table_of(table@)));
        assert(question_ok(*question, self.sources@));
        let ghost groups = groups_of(clusters@);
        let ghost answers = question.answers@;
        let one = N::from_ratio(1, 1);
        let mut cluster_confidences: Vec<N> = Vec::new();
        let mut c: usize = 0;
        while c < clusters.len()
            invariant
                c <= clusters.len(),
                cluster_confidences.len() == c,
                groups == groups_of(clusters@),
                answers == question.answers@,
                one == N::ratio(1, 1),
                self.wf(),
                question_ok(*question, self.sources@),
                well_grouped(groups, answers.len() as nat),
                forall|k: int|
                    0 <= k < c ==> #[trigger] cluster_confidences@[k] == confidence_of(
                        self.sources@,
                        answers,
                        groups[k],
                    ),
            decreases clusters.len() - c,
        {
            let mut incorrect_chance = one;
            let mut m: usize = 0;
            assert(groups[c as int] == clusters@[c as int]@);
            while m < clusters[c].len()
                invariant
                    c < clusters.len(),
                    m <= clusters[c as int].len(),
                    groups == groups_of(clusters@),
                    groups[c as int] == clusters@[c as int]@,
                    answers == question.answers@,
                    one == N::ratio(1, 1),
                    self.wf(),
                    question_ok(*question, self.sources@),
                    well_grouped(groups, answers.len() as nat),
                    incorrect_chance == chance(self.sources@, answers, groups[c as int], m as nat),
                decreases clusters[c as int].len() - m,
            {
                assert(groups[c as int][m as int] < answers.len());
                let answer = &question.answers[clusters[c][m]];
                let quality = match self.find_source(answer.source.as_str()) {
                    Some(i) => {
                        proof {
                            lemma_source_named(self.sources@, i as int);
                        }
                        self.sources[i].quality
                    },
                    None => {
                        assert(named(self.sources@, answer.source@));
                        self.default_source_quality
                    },
                };
                incorrect_chance = incorrect_chance.times(one.minus(quality));
                m += 1;
            }
            cluster_confidences.push(one.minus(incorrect_chance));
            c += 1;
        }
        assert(cluster_confidences@ =~= confidences(self.sources@, answers, groups));
        let mut beats: Vec<Vec<bool>> = Vec::new();
        let mut i: usize = 0;
        while i < cluster_confidences.len()
            invariant
                i <= cluster_confidences.len(),
                beats.len() == i,
                forall|k: int|
                    0 <= k < i ==> (#[trigger] beats@[k])@ == beats_of(cluster_confidences@)[k],
            decreases cluster_confidences.len() - i,
        {
            let mut row: Vec<bool> = Vec::new();
            let mut j: usize = 0;
            while j < cluster_confidences.len()
                invariant
                    i < cluster_confidences.len(),
                    j <= cluster_confidences.len(),
                    row.len() == j,
                    forall|k: int|
                        0 <= k < j ==> #[trigger] row@[k] == cluster_confidences@[i as int].above(
                            cluster_confidences@[k],
                        ),
                decreases cluster_confidences.len() - j,
            {
                row.push(cluster_confidences[i].exceeds(cluster_confidences[j]));
                j += 1;
            }
            assert(row@ =~= beats_of(cluster_confidences@)[i as int]);
            beats.push(row);
            i += 1;
        }
        assert(table_of(beats@) =~= beats_of(cluster_confidences@));
        let correct_cluster: usize = argmaxf(&beats);
        AnswerClustersWithConfidences { clusters, cluster_confidences, correct_cluster }
    }

    /// Looks at the question at `qi` anew: the cluster with the highest
    /// confidence becomes what it believes, that confidence its confidence,
    /// and its weight follows from the two.
    pub fn compute_question_answers(&mut self, qi: usize)
        requires
            old(self).wf(),
            qi < old(self).questions.len(),
        ensures
            final(self).wf(),
            final(self).recomputed(old(self), qi as int),
    {
        let analysis = self.compute_answer_clusters_with_confidence(qi);
        let zero = N::from_ratio(0, 1);
        let one = N::from_ratio(1, 1);
        let base = self.log_weight_factor;
        let ghost groups = groups_of(analysis.clusters@);
        let question = &mut self.questions[qi];
        let ghost answers = question.answers@;
        let mut correct: Vec<Answer> = Vec::new();
        let mut confidence = zero;
        if analysis.clusters.len() > 0 {
            let cluster = &analysis.clusters[analysis.correct_cluster];
            assert(groups[analysis.correct_cluster as int] == cluster@);
            let mut m: usize = 0;
            while m < cluster.len()
                invariant
                    m <= cluster.len(),
                    answers == question.answers@,
                    well_grouped(groups, answers.len() as nat),
                    analysis.correct_cluster < groups.len(),
                    groups[analysis.correct_cluster as int] == cluster@,
                    correct@ == members(answers, cluster@).take(m as int),
                decreases cluster.len() - m,
            {
                assert(groups[analysis.correct_cluster as int][m as int] < answers.len());
                correct.push(question.answers[cluster[m]].duplicate());
                assert(correct@ =~= members(answers, cluster@).take(m + 1));
                m += 1;
            }
            assert(correct@ =~= members(answers, cluster@));
            confidence = analysis.cluster_confidences[analysis.correct_cluster].clamp_between(
                zero,
                one,
            );
            proof {
                assert forall|k: int| 0 <= k < correct.len() implies one_of(
                    answers,
                    #[trigger] correct@[k],
                ) by {
                    let j = cluster@[k] as int;
                    assert(groups[analysis.correct_cluster as int][k] < answers.len());
                    assert(answers[j] == correct@[k]);
                }
            }
        }
        let weight = if correct.len() > 1 {
            let raised = zero.minus(one.minus(confidence).log_base(base));
            if zero.exceeds(raised) {
                Weight::Measured(zero)
            } else {
                Weight::Measured(raised)
            }
        } else {
            Weight::Nothing
        };
        question.correct_answers = correct;
        question.confidence = confidence;
        question.weight = weight;
        proof {
            assert forall|q: int| 0 <= q < self.questions.len() implies question_ok(
                #[trigger] self.questions[q],
                self.sources@,
            ) by {
                assert(question_ok(old(self).questions[q], old(self).sources@));
                if q != qi {
                    assert(self.questions[q] == old(self).questions[q]);
                } else {
                    assert forall|a: int| 0 <= a < self.questions[q].answers.len() implies named(
                        self.sources@,
                        (#[trigger] self.questions[q].answers[a]).source@,
                    ) by {
                        assert(self.questions[q].answers[a] == old(self).questions[q].answers[a]);
                    }
                }
            }
            assert forall|i: int, j: int| 0 <= i < j < self.questions.len() implies (
            #[trigger] self.questions[i]).name@ != (#[trigger] self.questions[j]).name@ by {
                assert(old(self).questions[i].name@ != old(self).questions[j].name@);
            }
        }
    }

    /// What a revision of the question at `q` does: the question takes the
    /// new answer, if there is one; no other question changes; the sources
    /// keep their names, and a source that gave the question no answer
    /// keeps its numbers too. The effect of the question is taken back from
    /// the sources; then the question believes anew, by the sources as they
    /// then are; then its new effect is added to them.
    pub open spec fn revised(&self, pre: &Graph<N>, q: int, extra: Option<Answer>) -> bool {
        &&& self.same_settings(pre)
        &&& same_names(pre.sources@, self.sources@)
        &&& self.questions.len() == pre.questions.len()
        &&& forall|j: int|
            0 <= j < pre.questions.len() && j != q ==> #[trigger] self.questions[j]
                == pre.questions[j]
        &&& self.questions[q].name == pre.questions[q].name
        &&& self.questions[q].answers@ == match extra {
            Some(a) => pre.questions[q].answers@.push(a),
            None => pre.questions[q].answers@,
        }
        &&& belief_ok(self.questions[q], self.equalifier)
        &&& forall|i: int|
            0 <= i < pre.sources.len() && !answered_by(
                self.questions[q],
                (#[trigger] pre.sources[i]).name@,
            ) ==> self.sources[i] == pre.sources[i]
        &&& self.questions[q].correct_answers@ == believed_anew(
            pre.equalifier,
            pre.taken_back(q),
            self.questions[q].answers@,
        )
        &&& self.questions[q].confidence == confidence_anew(
            pre.equalifier,
            pre.taken_back(q),
            self.questions[q].answers@,
        )
        &&& self.questions[q].weight == weight_anew(
            pre.equalifier,
            pre.taken_back(q),
            self.questions[q].answers@,
            pre.log_weight_factor,
        )
        &&& self.sources@ == absorbed_all(
            pre.taken_back(q),
            self.questions[q],
            self.questions[q].answers.len() as nat,
            pre.default_source_quality,
            pre.initial_source_strength,
            pre.maximum_strength,
        )
    }

    /// The sources after the effect of the question at `q` is taken back
    /// from them.
    pub open spec fn taken_back(&self, q: int) -> Seq<Source<N>> {
        withdrawn_all(
            self.sources@,
            self.questions[q],
            self.questions[q].answers.len() as nat,
            self.default_source_quality,
            self.initial_source_strength,
            self.maximum_strength,
        )
    }

    /// Revises the question at `qi`: takes back its effect on the sources,
    /// adds the new answer, if there is one, looks at the question anew, and
    /// adds its effect again.
    pub fn revise(&mut self, qi: usize, extra: Option<Answer>)
        requires
            old(self).wf(),
            qi < old(self).questions.len(),
            extra matches Some(a) ==> named(old(self).sources@, a.source@) && marked(a),
        ensures
            final(self).wf(),
            final(self).revised(old(self), qi as int, extra),
    {
        self.remove_question_effect(qi);
        let ghost g1 = *self;
        if let Some(a) = extra {
            let question = &mut self.questions[qi];
            let ghost before = question.answers@;
            question.answers.push(a);
            proof {
                assert(question.answers@.drop_last() =~= before);
                assert forall|k: int| 0 <= k < question.correct_answers.len() implies one_of(
                    question.answers@,
                    #[trigger] question.correct_answers@[k],
                ) by {
                    assert(one_of(before, question.correct_answers@[k]));
                    let j = choose|j: int|
                        0 <= j < before.len() && same_answer(
                            #[trigger] before[j],
                            question.correct_answers@[k],
                        );
                    assert(same_answer(question.answers@[j], question.correct_answers@[k]));
                }
            }
            proof {
                lemma_names_kept(g1.questions[qi as int], old(self).sources@, g1.sources@);
                assert forall|q: int| 0 <= q < self.questions.len() implies question_ok(
                    #[trigger] self.questions[q],
                    self.sources@,
                ) by {
                    assert(question_ok(g1.questions[q], g1.sources@));
                    if q == qi {
                        assert forall|k: int|
                            0 <= k < self.questions[q].answers.len() implies named(
                            self.sources@,
                            (#[trigger] self.questions[q].answers[k]).source@,
                        ) by {
                            if k < g1.questions[q].answers.len() {
                                assert(self.questions[q].answers[k] == g1.questions[q].answers[k]);
                            } else {
                                let i = choose|i: int|
                                    0 <= i < old(self).sources.len() && (#[trigger] old(
                                        self,
                                    ).sources[i]).name@ == a.source@;
                                assert(self.sources[i].name@ == a.source@);
                            }
                        }
                    } else {
                        assert(self.questions[q] == g1.questions[q]);
                    }
                }
                assert forall|i: int, j: int| 0 <= i < j < self.questions.len() implies (
                #[trigger] self.questions[i]).name@ != (#[trigger] self.questions[j]).name@ by {
                    assert(g1.questions[i].name@ != g1.questions[j].name@);
                }
            }
        }
        let ghost g2 = *self;
        self.compute_question_answers(qi);
        let ghost g3 = *self;
        self.add_question_effect(qi);
        proof {
            assert forall|i: int| 0 <= i < self.sources.len() implies (#[trigger] old(
                self,
            ).sources[i]).name@ == self.sources[i].name@ by {
                assert(old(self).sources[i].name@ == g1.sources[i].name@);
                assert(g3.sources[i].name@ == self.sources[i].name@);
            }
            assert forall|i: int|
                0 <= i < old(self).sources.len() && !answered_by(
                    self.questions[qi as int],
                    (#[trigger] old(self).sources[i]).name@,
                ) implies self.sources[i] == old(self).sources[i] by {
                let name = old(self).sources[i].name@;
                assert(g3.sources[i].name@ == name);
                if answered_by(old(self).questions[qi as int], name) {
                    let k = choose|k: int|
                        0 <= k < old(self).questions[qi as int].answers.len() && (#[trigger] old(
                            self,
                        ).questions[qi as int].answers[k]).source@ == name;
                    assert(self.questions[qi as int].answers[k].source@ == name);
                }
                assert(g1.sources[i] == old(self).sources[i]);
                assert(g3.sources[i] == g1.sources[i]);
                assert(self.sources[i] == g3.sources[i]);
            }
        }
    }

    /// How the tables grow when a command names a source or a question: a
    /// name that is new is added at the end, and nothing else moves.
    pub open spec fn grown_from(
        &self,
        pre: &Graph<N>,
        source: Option<Seq<char>>,
        question: Option<Seq<char>>,
    ) -> bool {
        &&& self.sources.len() == pre.sources.len() + (if source is Some && !named(
            pre.sources@,
            source->0,
        ) {
            1int
        } else {
            0int
        })
        &&& same_names(pre.sources@, self.sources@.take(pre.sources.len() as int))
        &&& source is Some ==> named(self.sources@, source->0)
        &&& self.questions.len() == pre.questions.len() + (if question is Some && !asked(
            pre.questions@,
            question->0,
        ) {
            1int
        } else {
            0int
        })
        &&& forall|j: int|
            0 <= j < pre.questions.len() ==> (#[trigger] self.questions[j]).name@
                == pre.questions[j].name@
        &&& forall|j: int|
            0 <= j < pre.questions.len() && question != Some(pre.questions[j].name@)
                ==> #[trigger] self.questions[j] == pre.questions[j]
        &&& question is Some ==> asked(self.questions@, question->0)
    }

    /// What setting an answer does: the question holds one answer more, the
    /// new one at the end; it believes anew; and a source that gave the
    /// question no answer keeps its numbers. In full: the source and the
    /// question are added where they are new, and the question is revised
    /// with the new answer.
    pub open spec fn answer_set(
        &self,
        pre: &Graph<N>,
        question: Seq<char>,
        content: Seq<char>,
        source: Seq<char>,
    ) -> bool {
        let q = question_named(self.questions@, question);
        &&& self.same_settings(pre)
        &&& self.grown_from(pre, Some(source), Some(question))
        &&& q.answers@.len() > 0
        &&& q.answers@.drop_last() == answers_to(pre.questions@, question)
        &&& q.answers@.last().content@ == content
        &&& q.answers@.last().source@ == source
        &&& q.answers@.last().hash == crate::command::metro_hash64(content)
        &&& belief_ok(q, self.equalifier)
        &&& forall|i: int|
            0 <= i < pre.sources.len() && !answered_by(q, (#[trigger] pre.sources[i]).name@)
                ==> self.sources[i] == pre.sources[i]
        &&& exists|a: Graph<N>, b: Graph<N>, qi: int, answer: Answer|
            {
                &&& a.with_source(pre, source)
                &&& #[trigger] b.with_question(&a, question)
                &&& 0 <= qi < b.questions.len()
                &&& b.questions[qi].name@ == question
                &&& answer.content@ == content
                &&& answer.source@ == source
                &&& answer.well_marked()
                &&& #[trigger] self.revised(&b, qi, Some(answer))
            }
    }

    /// The graph is `pre` with a source of that name added where the name
    /// was new, with the quality and the strength that a new source starts
    /// with.
    pub open spec fn with_source(&self, pre: &Graph<N>, name: Seq<char>) -> bool {
        &&& self.same_settings(pre)
        &&& self.questions@ == pre.questions@
        &&& named(self.sources@, name)
        &&& named(pre.sources@, name) ==> self.sources@ == pre.sources@
        &&& !named(pre.sources@, name) ==> {
            &&& self.sources@.len() == pre.sources@.len() + 1
            &&& self.sources@.drop_last() == pre.sources@
            &&& self.sources@.last().name@ == name
            &&& self.sources@.last().quality == pre.default_source_quality
            &&& self.sources@.last().strength == pre.initial_source_strength
        }
    }

    /// The graph is `pre` with a question of that name added where the name
    /// was new, with no answers, the confidence zero and no weight.
    pub open spec fn with_question(&self, pre: &Graph<N>, name: Seq<char>) -> bool {
        &&& self.same_settings(pre)
        &&& self.sources@ == pre.sources@
        &&& asked(self.questions@, name)
        &&& asked(pre.questions@, name) ==> self.questions@ == pre.questions@
        &&& !asked(pre.questions@, name) ==> {
            &&& self.questions@.len() == pre.questions@.len() + 1
            &&& self.questions@.drop_last() == pre.questions@
            &&& self.questions@.last().name@ == name
            &&& self.questions@.last().answers@ == Seq::<Answer>::empty()
            &&& self.questions@.last().correct_answers@ == Seq::<Answer>::empty()
            &&& self.questions@.last().confidence == N::ratio(0, 1)
            &&& self.questions@.last().weight is Nothing
        }
    }

    /// What reading the answer to a question does and returns: the question
    /// keeps its answers and believes anew; a source that gave it no answer
    /// keeps its numbers; the answer is the content of the first believed
    /// answer, and the confidence is that of the question. In full: the
    /// question is added where it is new, and is revised with no new
    /// answer.
    pub open spec fn answer_read(
        &self,
        pre: &Graph<N>,
        question: Seq<char>,
        answer: Seq<char>,
        confidence: N,
    ) -> bool {
        let q = question_named(self.questions@, question);
        &&& self.same_settings(pre)
        &&& self.grown_from(pre, None, Some(question))
        &&& q.answers@ == answers_to(pre.questions@, question)
        &&& belief_ok(q, self.equalifier)
        &&& forall|i: int|
            0 <= i < pre.sources.len() && !answered_by(q, (#[trigger] pre.sources[i]).name@)
                ==> self.sources[i] == pre.sources[i]
        &&& answer == best_answer(q)
        &&& confidence == q.confidence
        &&& q.answers.len() > 0 ==> told(q.answers@, answer)
        &&& exists|b: Graph<N>, qi: int|
            {
                &&& b.with_question(pre, question)
                &&& 0 <= qi < b.questions.len()
                &&& b.questions[qi].name@ == question
                &&& #[trigger] self.revised(&b, qi, None)
            }
    }

    /// Sets an answer: `source_name` says that the answer to `question_name`
    /// is `content`. The source and the question are added where they are
    /// new.
    pub fn set_answer(&mut self, question_name: &str, content: &str, source_name: &str)
        requires
            old(self).wf(),
        ensures
            final(self).wf(),
            final(self).answer_set(old(self), question_name@, content@, source_name@),
    {
        self.create_source_if_not_exists(source_name);
        let ghost g1 = *self;
        self.create_question_if_not_exists(question_name);
        let ghost g2 = *self;
        let answer = Answer::new(String::from_str(content), String::from_str(source_name));
        let ghost given = answer;
        match self.find_question(question_name) {
            Some(qi) => {
                self.revise(qi, Some(answer));
                proof {
                    assert(g1.with_source(old(self), source_name@));
                    assert(g2.with_question(&g1, question_name@));
                    assert(self.revised(&g2, qi as int, Some(given)));
                    self.lemma_grown(old(self), &g2, qi as int, Some(source_name@), question_name@);
                    let q = self.questions[qi as int];
                    assert(q.answers@.drop_last() =~= g2.questions[qi as int].answers@);
                    assert forall|i: int|
                        0 <= i < old(self).sources.len() && !answered_by(
                            q,
                            (#[trigger] old(self).sources[i]).name@,
                        ) implies self.sources[i] == old(self).sources[i] by {
                        assert(g2.sources[i].name@ == old(self).sources[i].name@);
                    }
                }
            },
            None => {},
        }
    }

    /// After the tables grew for a command and the question at `qi` was
    /// revised, the tables have grown as the command asks, and the question
    /// of that name is the one at `qi`, with the answers that it had before
    /// the command.
    pub proof fn lemma_grown(
        &self,
        pre: &Graph<N>,
        mid: &Graph<N>,
        qi: int,
        source: Option<Seq<char>>,
        question: Seq<char>,
    )
        requires
            pre.wf(),
            mid.wf(),
            self.wf(),
            0 <= qi < mid.questions.len(),
            mid.questions[qi].name@ == question,
            source is Some ==> named(mid.sources@, source->0),
            source is Some && named(pre.sources@, source->0) ==> mid.sources@ == pre.sources@,
            source is Some && !named(pre.sources@, source->0) ==> mid.sources@.drop_last()
                == pre.sources@ && mid.sources.len() == pre.sources.len() + 1,
            source is None ==> mid.sources@ == pre.sources@,
            asked(pre.questions@, question) ==> mid.questions@ == pre.questions@,
            !asked(pre.questions@, question) ==> mid.questions@.drop_last() == pre.questions@
                && mid.questions.len() == pre.questions.len() + 1
                && mid.questions@.last().answers@ == Seq::<Answer>::empty(),
            same_names(mid.sources@, self.sources@),
            self.questions.len() == mid.questions.len(),
            forall|j: int|
                0 <= j < mid.questions.len() && j != qi ==> #[trigger] self.questions[j]
                    == mid.questions[j],
            self.questions[qi].name == mid.questions[qi].name,
        ensures
            self.grown_from(pre, source, Some(question)),
            question_named(self.questions@, question) == self.questions[qi],
            mid.questions[qi].answers@ == answers_to(pre.questions@, question),
            forall|i: int|
                0 <= i < pre.sources.len() ==> (#[trigger] pre.sources[i]).name@
                    == mid.sources[i].name@,
    {
        lemma_question_named(self.questions@, qi);
        lemma_question_named(mid.questions@, qi);
        assert forall|i: int| 0 <= i < pre.sources.len() implies (#[trigger] pre.sources[i]).name@
            == mid.sources[i].name@ by {
            if source is Some && !named(pre.sources@, source->0) {
                assert(mid.sources@.drop_last()[i] == mid.sources[i]);
            }
        }
        assert forall|j: int| 0 <= j < pre.questions.len() implies pre.questions[j]
            == #[trigger] mid.questions[j] by {
            if !asked(pre.questions@, question) {
                assert(mid.questions@.drop_last()[j] == mid.questions[j]);
            }
        }
        assert(same_names(pre.sources@, self.sources@.take(pre.sources.len() as int))) by {
            assert forall|i: int| 0 <= i < pre.sources.len() implies (
            #[trigger] pre.sources@[i]).name@ == self.sources@.take(
                pre.sources.len() as int,
            )[i].name@ by {
                assert(pre.sources[i].name@ == mid.sources[i].name@);
                assert(mid.sources@[i].name@ == self.sources[i].name@);
            }
        }
        if source is Some {
            let i = choose|i: int|
                0 <= i < mid.sources.len() && (#[trigger] mid.sources[i]).name@ == source->0;
            assert(mid.sources@[i].name@ == self.sources[i].name@);
        }
        assert forall|j: int| 0 <= j < pre.questions.len() implies (
        #[trigger] self.questions[j]).name@ == pre.questions[j].name@ by {
            assert(pre.questions[j] == mid.questions[j]);
        }
        assert forall|j: int|
            0 <= j < pre.questions.len() && Some(question) != Some(
                pre.questions[j].name@,
            ) implies #[trigger] self.questions[j] == pre.questions[j] by {
            assert(pre.questions[j] == mid.questions[j]);
        }
        if asked(pre.questions@, question) {
            lemma_question_named(pre.questions@, qi);
        } else {
            if qi < pre.questions.len() {
                assert(pre.questions[qi] == mid.questions[qi]);
                assert(pre.questions[qi].name@ == question);
            }
        }
    }

    /// Reads the answer to a question, after looking at the question anew:
    /// the content of the first answer that it believes, or the word `None`,
    /// and its confidence. The question is added where it is new.
    pub fn get_answer(&mut self, question_name: &str) -> (r: (String, N))
        requires
            old(self).wf(),
        ensures
            final(self).wf(),
            final(self).answer_read(old(self), question_name@, r.0@, r.1),
    {
        self.create_question_if_not_exists(question_name);
        let ghost g2 = *self;
        match self.find_question(question_name) {
            Some(qi) => {
                self.revise(qi, None);
                proof {
                    assert(g2.with_question(old(self), question_name@));
                    assert(self.revised(&g2, qi as int, None));
                    self.lemma_grown(old(self), &g2, qi as int, None, question_name@);
                    assert(self.sources@.take(old(self).sources.len() as int) =~= self.sources@);
                }
                let question = &self.questions[qi];
                let answer = if question.correct_answers.len() > 0 {
                    proof {
                        let first = question.correct_answers@[0];
                        assert(one_of(question.answers@, first));
                        let j = choose|j: int|
                            0 <= j < question.answers.len() && same_answer(
                                #[trigger] question.answers@[j],
                                first,
                            );
                        assert(question.answers@[j].content@ == first.content@);
                    }
                    question.correct_answers[0].content.clone()
                } else {
                    String::from_str("None")
                };
                (answer, question.confidence)
            },
            None => (String::from_str("None"), self.default_source_quality),
        }
    }

    /// The two graphs hold the same sources, questions and settings.
    pub open spec fn same_state(&self, pre: &Graph<N>) -> bool {
        &&& self.same_settings(pre)
        &&& self.sources@ == pre.sources@
        &&& self.questions@ == pre.questions@
    }

    /// What reading a source does and returns: the source is added where it
    /// is new, with the numbers that a new source starts with, and nothing
    /// else changes; the quality is that of the source.
    pub open spec fn source_read(&self, pre: &Graph<N>, source: Seq<char>, quality: N) -> bool {
        &&& self.same_settings(pre)
        &&& self.questions@ == pre.questions@
        &&& named(self.sources@, source)
        &&& named(pre.sources@, source) ==> self.sources@ == pre.sources@
        &&& !named(pre.sources@, source) ==> {
            &&& self.sources@.len() == pre.sources@.len() + 1
            &&& self.sources@.drop_last() == pre.sources@
            &&& self.sources@.last().name@ == source
            &&& self.sources@.last().quality == pre.default_source_quality
            &&& self.sources@.last().strength == pre.initial_source_strength
        }
        &&& quality == source_named(self.sources@, source).quality
    }

    /// What believing a source does: the source is added where it is new,
    /// gets the quality of believed sources and the largest strength, and
    /// nothing else changes.
    pub open spec fn believed(&self, pre: &Graph<N>, source: Seq<char>) -> bool {
        &&& self.same_settings(pre)
        &&& self.questions@ == pre.questions@
        &&& self.grown_from(pre, Some(source), None)
        &&& source_named(self.sources@, source).quality == pre.quality_of_believed_sources
        &&& source_named(self.sources@, source).strength == pre.maximum_strength
        &&& forall|i: int|
            0 <= i < pre.sources.len() && (#[trigger] pre.sources[i]).name@ != source
                ==> self.sources[i] == pre.sources[i]
    }

    /// Reads the quality of a source. The source is added where it is new.
    pub fn get_source(&mut self, source_name: &str) -> (quality: N)
        requires
            old(self).wf(),
        ensures
            final(self).wf(),
            final(self).source_read(old(self), source_name@, quality),
    {
        self.create_source_if_not_exists(source_name);
        match self.find_source(source_name) {
            Some(i) => {
                proof {
                    lemma_source_named(self.sources@, i as int);
                }
                self.sources[i].quality
            },
            None => self.default_source_quality,
        }
    }

    /// Believes a source: it gets the quality of believed sources and the
    /// largest strength. The source is added where it is new.
    pub fn believe(&mut self, source_name: &str)
        requires
            old(self).wf(),
        ensures
            final(self).wf(),
            final(self).believed(old(self), source_name@),
    {
        self.create_source_if_not_exists(source_name);
        let ghost g1 = *self;
        let quality = self.quality_of_believed_sources;
        let strength = self.maximum_strength;
        match self.find_source(source_name) {
            Some(i) => {
                let source = &mut self.sources[i];
                source.quality = quality;
                source.strength = strength;
                proof {
                    assert(same_names(g1.sources@, self.sources@));
                    self.lemma_wf_kept(&g1);
                    lemma_source_named(self.sources@, i as int);
                    assert forall|j: int| 0 <= j < old(self).sources.len() implies (#[trigger] old(
                        self,
                    ).sources[j]) == g1.sources[j] by {
                        if !named(old(self).sources@, source_name@) {
                            assert(g1.sources@.drop_last()[j] == g1.sources[j]);
                        }
                    }
                    assert(same_names(
                        old(self).sources@,
                        self.sources@.take(old(self).sources.len() as int),
                    ));
                    assert(self.sources[i as int].name@ == source_name@);
                }
            },
            None => {},
        }
    }

    /// The distance between two contents under the comparison in use.
    pub fn test_equality(&self, answer1: &str, answer2: &str) -> (r: Distance<N>)
        ensures
            r == distance_of(self.equalifier, answer1@, answer2@),
            self.equalifier is Exact && answer1@ == answer2@ ==> r is Zero,
    {
        let a = Answer::new(String::from_str(answer1), String::from_str("None"));
        let b = Answer::new(String::from_str(answer2), String::from_str("None"));
        self.equalifier.get_distance(&a, &b)
    }

    /// What installing a configuration does: the comparison or the setting
    /// that it names takes the value that it holds, and nothing else
    /// changes.
    pub open spec fn installed(&self, pre: &Graph<N>, c: Configuration<N>) -> bool {
        &&& self.sources@ == pre.sources@
        &&& self.questions@ == pre.questions@
        &&& self.quality_of_believed_sources == pre.quality_of_believed_sources
        &&& self.equalifier == if c is Comparison {
            c->Comparison_0
        } else {
            pre.equalifier
        }
        &&& self.default_source_quality == if c is DefaultSourceQuality {
            c->DefaultSourceQuality_0
        } else {
            pre.default_source_quality
        }
        &&& self.log_weight_factor == if c is LogWeightFactor {
            c->LogWeightFactor_0
        } else {
            pre.log_weight_factor
        }
        &&& self.initial_source_strength == if c is InitialSourceStrength {
            c->InitialSourceStrength_0
        } else {
            pre.initial_source_strength
        }
        &&& self.maximum_strength == if c is MaximumStrength {
            c->MaximumStrength_0
        } else {
            pre.maximum_strength
        }
    }

    /// What a configuration does and returns: it installs what the key and
    /// the value write, or fails as they say and changes nothing.
    pub open spec fn configured(
        &self,
        pre: &Graph<N>,
        key: Seq<char>,
        val: Seq<char>,
        r: Result<(), GraphError>,
    ) -> bool {
        match r {
            Ok(_) => exists|c: Configuration<N>| #[trigger]
                configuration_read(key, val, Ok::<Configuration<N>, GraphError>(c))
                    && self.installed(pre, c),
            Err(e) => configuration_read(key, val, Err::<Configuration<N>, GraphError>(e))
                && self.same_state(pre),
        }
    }

    /// Installs a configuration.
    pub fn install(&mut self, c: Configuration<N>)
        requires
            old(self).wf(),
        ensures
            final(self).wf(),
            final(self).installed(old(self), c),
    {
        match c {
            Configuration::Comparison(e) => {
                self.equalifier = e;
            },
            Configuration::DefaultSourceQuality(v) => {
                self.default_source_quality = v;
            },
            Configuration::LogWeightFactor(v) => {
                self.log_weight_factor = v;
            },
            Configuration::InitialSourceStrength(v) => {
                self.initial_source_strength = v;
            },
            Configuration::MaximumStrength(v) => {
                self.maximum_strength = v;
            },
        }
    }

    /// Changes a setting or the comparison in use.
    pub fn configure(&mut self, key: &str, val: &str) -> (r: Result<(), GraphError>)
        requires
            old(self).wf(),
        ensures
            final(self).wf(),
            final(self).configured(old(self), key@, val@, r),
    {
        match read_configuration::<N>(key, val) {
            Ok(c) => {
                self.install(c);
                Ok(())
            },
            Err(e) => Err(e),
        }
    }

    /// What reading all answers to a question returns: nothing where there
    /// is no such question; and otherwise the content of the first answer of
    /// each fingerprint, on the way through the clusters of its answers,
    /// each with the confidence in its cluster.
    pub open spec fn answers_read(
        &self,
        question: Seq<char>,
        told_now: Seq<Seq<char>>,
        trusted_now: Seq<N>,
    ) -> bool {
        let answers = answers_to(self.questions@, question);
        let groups = clusters_of(self.equalifier, answers);
        &&& told_now.len() == trusted_now.len()
        &&& !asked(self.questions@, question) ==> told_now.len() == 0
        &&& forall|k: int| 0 <= k < told_now.len() ==> told(answers, #[trigger] told_now[k])
        &&& asked(self.questions@, question) ==> told_now == first_told(walk(answers, groups))
        &&& asked(self.questions@, question) ==> trusted_now == first_confidences(
            walk(answers, groups),
            walk_confidences(confidences(self.sources@, answers, groups), groups),
        )
    }

    /// The answers to a question, one for each fingerprint, each with the
    /// confidence in the cluster that holds it; cluster by cluster, and in a
    /// cluster in the order in which the answers came. Nothing where there
    /// is no such question.
    pub fn get_answers(&self, question_name: &str) -> (r: Vec<AnswerConfidencePair<N>>)
        requires
            self.wf(),
        ensures
            self.answers_read(question_name@, pair_texts(r@), pair_confidences(r@)),
    {
        broadcast use vstd::std_specs::hash::group_hash_axioms;

        let mut out: Vec<AnswerConfidencePair<N>> = Vec::new();
        let qi = match self.find_question(question_name) {
            Some(qi) => qi,
            None => {
                return out;
            },
        };
        proof {
            lemma_question_named(self.questions@, qi as int);
        }
        let analysis = self.compute_answer_clusters_with_confidence(qi);
        let question = &self.questions[qi];
        let ghost answers = question.answers@;
        let ghost groups = groups_of(analysis.clusters@);
        let ghost confs = analysis.cluster_confidences@;
        let ghost mut walked: Seq<Answer> = Seq::empty();
        let ghost mut given: Seq<N> = Seq::empty();
        let mut seen: HashSet<u64> = HashSet::new();
        let mut c: usize = 0;
        assert(pair_texts(out@) =~= first_told(walked));
        assert(pair_confidences(out@) =~= first_confidences(walked, given));
        assert(groups.take(0) =~= Seq::<Seq<usize>>::empty());
        while c < analysis.clusters.len()
            invariant
                c <= analysis.clusters.len(),
                analysis.cluster_confidences.len() == analysis.clusters.len(),
                answers == question.answers@,
                groups == groups_of(analysis.clusters@),
                well_grouped(groups, answers.len() as nat),
                walked == walk(answers, groups.take(c as int)),
                pair_texts(out@) == first_told(walked),
                confs == analysis.cluster_confidences@,
                given == walk_confidences(confs, groups.take(c as int)),
                given.len() == walked.len(),
                pair_confidences(out@) == first_confidences(walked, given),
                forall|h: u64| seen@.contains(h) <==> credited(walked, h),
                forall|k: int| 0 <= k < out.len() ==> told(answers, #[trigger] pair_texts(out@)[k]),
            decreases analysis.clusters.len() - c,
        {
            let ghost start = walked;
            let ghost given_start = given;
            let mut m: usize = 0;
            assert(given_start + Seq::new(0, |x: int| confs[c as int]) =~= given_start);
            assert(members(answers, groups[c as int]).take(0) =~= Seq::<Answer>::empty());
            assert(start + Seq::<Answer>::empty() =~= start);
            while m < analysis.clusters[c].len()
                invariant
                    c < analysis.clusters.len(),
                    m <= analysis.clusters[c as int].len(),
                    analysis.cluster_confidences.len() == analysis.clusters.len(),
                    answers == question.answers@,
                    groups == groups_of(analysis.clusters@),
                    well_grouped(groups, answers.len() as nat),
                    walked == start + members(answers, groups[c as int]).take(m as int),
                    pair_texts(out@) == first_told(walked),
                    confs == analysis.cluster_confidences@,
                    given == given_start + Seq::new(m as nat, |x: int| confs[c as int]),
                    given.len() == walked.len(),
                    pair_confidences(out@) == first_confidences(walked, given),
                    forall|h: u64| seen@.contains(h) <==> credited(walked, h),
                    forall|k: int|
                        0 <= k < out.len() ==> told(answers, #[trigger] pair_texts(out@)[k]),
                decreases analysis.clusters[c as int].len() - m,
            {
                assert(groups[c as int][m as int] == analysis.clusters@[c as int]@[m as int]);
                let answer = &question.answers[analysis.clusters[c][m]];
                let ghost before = walked;
                let ghost told_before = pair_texts(out@);
                let ghost trusted_before = pair_confidences(out@);
                let ghost given_before = given;
                let known = seen.contains(&answer.hash);
                proof {
                    walked = walked.push(*answer);
                    given = given.push(confs[c as int]);
                    assert(given.drop_last() =~= given_before);
                    assert(given =~= given_start + Seq::new(
                        (m + 1) as nat,
                        |x: int| confs[c as int],
                    ));
                    assert(walked.drop_last() =~= before);
                    assert(walked =~= start + members(answers, groups[c as int]).take(m + 1));
                    assert forall|h: u64|
                        credited(walked, h) <==> credited(before, h) || answer.hash == h by {
                        lemma_credited_push(before, *answer, h);
                    }
                }
                if !known {
                    seen.insert(answer.hash);
                    out.push(
                        AnswerConfidencePair {
                            answer: answer.content.clone(),
                            confidence: analysis.cluster_confidences[c],
                        },
                    );
                    proof {
                        assert(pair_texts(out@) =~= told_before.push(answer.content@));
                        assert(pair_confidences(out@) =~= trusted_before.push(confs[c as int]));
                        assert forall|k: int| 0 <= k < out.len() implies told(
                            answers,
                            #[trigger] pair_texts(out@)[k],
                        ) by {
                            if k < told_before.len() {
                                assert(pair_texts(out@)[k] == told_before[k]);
                            } else {
                                assert(answers[groups[c as int][m as int] as int].content@
                                    == pair_texts(out@)[k]);
                            }
                        }
                    }
                }
                m += 1;
            }
            proof {
                assert(members(answers, groups[c as int]).take(m as int) =~= members(
                    answers,
                    groups[c as int],
                ));
                assert(groups.take(c + 1).drop_last() =~= groups.take(c as int));
                assert(groups.take(c + 1).last() == groups[c as int]);
                assert(groups[c as int].len() == m);
                assert(given =~= walk_confidences(confs, groups.take(c + 1)));
            }
            c += 1;
        }
        proof {
            assert(groups.take(c as int) =~= groups);
            assert(answers == answers_to(self.questions@, question_name@));
            assert(groups == clusters_of(self.equalifier, answers));
            assert(pair_texts(out@) == first_told(walk(answers, groups)));
        }
        out
    }

    /// The command was refused with the error `e`, and nothing changed.
    pub open spec fn refused(
        &self,
        pre: &Graph<N>,
        r: Result<CommandResponse<N>, GraphError>,
        e: GraphError,
    ) -> bool {
        &&& r is Err
        &&& r->Err_0 == e
        &&& self.same_state(pre)
    }

    /// What a command does and returns, kind by kind. A command that lacks
    /// a field of its kind is refused, and so is a command of no kind.
    pub open spec fn executed(
        &self,
        pre: &Graph<N>,
        cmd: CommandView,
        r: Result<CommandResponse<N>, GraphError>,
    ) -> bool {
        match cmd.cmd {
            CommandType::SetAnswer => if cmd.source is Some && cmd.question is Some
                && cmd.answer is Some {
                &&& r is Ok
                &&& r->Ok_0.cmd == CommandType::SetAnswer
                &&& r->Ok_0.is_bare()
                &&& self.answer_set(pre, cmd.question->0, cmd.answer->0, cmd.source->0)
            } else {
                self.refused(pre, r, GraphError::MissingField)
            },
            CommandType::GetAnswer => if cmd.question is Some {
                &&& r is Ok
                &&& r->Ok_0.cmd == CommandType::GetAnswer
                &&& r->Ok_0.answer is Some
                &&& r->Ok_0.confidence is Some
                &&& r->Ok_0.quality is None
                &&& r->Ok_0.distance is None
                &&& r->Ok_0.answers is None
                &&& self.answer_read(
                    pre,
                    cmd.question->0,
                    r->Ok_0.answer->0@,
                    r->Ok_0.confidence->0,
                )
            } else {
                self.refused(pre, r, GraphError::MissingField)
            },
            CommandType::GetSource => if cmd.source is Some {
                &&& r is Ok
                &&& r->Ok_0.cmd == CommandType::GetSource
                &&& r->Ok_0.quality is Some
                &&& r->Ok_0.answer is None
                &&& r->Ok_0.confidence is None
                &&& r->Ok_0.distance is None
                &&& r->Ok_0.answers is None
                &&& self.source_read(pre, cmd.source->0, r->Ok_0.quality->0)
            } else {
                self.refused(pre, r, GraphError::MissingField)
            },
            CommandType::Believe => if cmd.source is Some {
                &&& r is Ok
                &&& r->Ok_0.cmd == CommandType::Believe
                &&& r->Ok_0.is_bare()
                &&& self.believed(pre, cmd.source->0)
            } else {
                self.refused(pre, r, GraphError::MissingField)
            },
            CommandType::Configure => if cmd.config_key is Some && cmd.config_val is Some {
                &&& self.configured(
                    pre,
                    cmd.config_key->0,
                    cmd.config_val->0,
                    match r {
                        Ok(_) => Ok(()),
                        Err(e) => Err(e),
                    },
                )
                &&& r is Ok ==> r->Ok_0.cmd == CommandType::Configure && r->Ok_0.is_bare()
            } else {
                self.refused(pre, r, GraphError::MissingField)
            },
            CommandType::TestEquality => if cmd.answer1 is Some && cmd.answer2 is Some {
                &&& self.same_state(pre)
                &&& r is Ok
                &&& r->Ok_0.cmd == CommandType::TestEquality
                &&& r->Ok_0.distance is Some
                &&& r->Ok_0.answer is None
                &&& r->Ok_0.confidence is None
                &&& r->Ok_0.quality is None
                &&& r->Ok_0.answers is None
                &&& r->Ok_0.distance->0 == distance_of(
                    pre.equalifier,
                    cmd.answer1->0,
                    cmd.answer2->0,
                )
            } else {
                self.refused(pre, r, GraphError::MissingField)
            },
            CommandType::GetAnswers => if cmd.question is Some {
                &&& self.same_state(pre)
                &&& r is Ok
                &&& r->Ok_0.cmd == CommandType::GetAnswers
                &&& r->Ok_0.answers is Some
                &&& r->Ok_0.answer is None
                &&& r->Ok_0.confidence is None
                &&& r->Ok_0.quality is None
                &&& r->Ok_0.distance is None
                &&& pre.answers_read(
                    cmd.question->0,
                    pair_texts(r->Ok_0.answers->0@),
                    pair_confidences(r->Ok_0.answers->0@),
                )
            } else {
                self.refused(pre, r, GraphError::MissingField)
            },
            CommandType::Invalid => self.refused(pre, r, GraphError::NotImplemented),
        }
    }

    /// Carries out a command and returns its response.
    pub fn execute_command(&mut self, cmd: &Command) -> (r: Result<CommandResponse<N>, GraphError>)
        requires
            old(self).wf(),
        ensures
            final(self).wf(),
            final(self).executed(old(self), cmd@, r),
    {
        match cmd.cmd {
            CommandType::SetAnswer => {
                match (&cmd.source, &cmd.question, &cmd.answer) {
                    (Some(source), Some(question), Some(answer)) => {
                        self.set_answer(question.as_str(), answer.as_str(), source.as_str());
                        Ok(CommandResponse::tagged(CommandType::SetAnswer))
                    },
                    _ => Err(GraphError::MissingField),
                }
            },
            CommandType::GetAnswer => {
                match &cmd.question {
                    Some(question) => {
                        let (answer, confidence) = self.get_answer(question.as_str());
                        let mut response = CommandResponse::tagged(CommandType::GetAnswer);
                        response.answer = Some(answer);
                        response.confidence = Some(confidence);
                        Ok(response)
                    },
                    None => Err(GraphError::MissingField),
                }
            },
            CommandType::GetSource => {
                match &cmd.source {
                    Some(source) => {
                        let quality = self.get_source(source.as_str());
                        let mut response = CommandResponse::tagged(CommandType::GetSource);
                        response.quality = Some(quality);
                        Ok(response)
                    },
                    None => Err(GraphError::MissingField),
                }
            },
            CommandType::Believe => {
                match &cmd.source {
                    Some(source) => {
                        self.believe(source.as_str());
                        Ok(CommandResponse::tagged(CommandType::Believe))
                    },
                    None => Err(GraphError::MissingField),
                }
            },
            CommandType::Configure => {
                match (&cmd.config_key, &cmd.config_val) {
                    (Some(key), Some(val)) => {
                        match self.configure(key.as_str(), val.as_str()) {
                            Ok(()) => Ok(CommandResponse::tagged(CommandType::Configure)),
                            Err(e) => Err(e),
                        }
                    },
                    _ => Err(GraphError::MissingField),
                }
            },
            CommandType::TestEquality => {
                match (&cmd.answer1, &cmd.answer2) {
                    (Some(answer1), Some(answer2)) => {
                        let distance = self.test_equality(answer1.as_str(), answer2.as_str());
                        let mut response = CommandResponse::tagged(CommandType::TestEquality);
                        response.distance = Some(distance);
                        Ok(response)
                    },
                    _ => Err(GraphError::MissingField),
                }
            },
            CommandType::GetAnswers => {
                match &cmd.question {
                    Some(question) => {
                        let answers = self.get_answers(question.as_str());
                        let mut response = CommandResponse::tagged(CommandType::GetAnswers);
                        response.answers = Some(answers);
                        Ok(response)
                    },
                    None => Err(GraphError::MissingField),
                }
            },
            CommandType::Invalid => Err(GraphError::NotImplemented),
        }
    }

    /// Carries out a command if the graph is in order, and returns its
    /// response; does nothing and returns nothing if the graph is not in
    /// order.
    pub fn try_execute(&mut self, cmd: &Command) -> (r: Option<
        Result<CommandResponse<N>, GraphError>,
    >)
        ensures
            r is Some <==> old(self).wf(),
            r matches Some(response) ==> final(self).wf() && final(self).executed(
                old(self),
                cmd@,
                response,
            ),
            r is None ==> final(self).same_state(old(self)),
    {
        if self.is_in_order() {
            Some(self.execute_command(cmd))
        } else {
            None
        }
    }

    /// Setting an answer to a question and then reading the answer to that
    /// question returns the content of an answer that the question holds.
    pub proof fn law_set_then_get(
        &self,
        first: &Graph<N>,
        second: &Graph<N>,
        question: Seq<char>,
        content: Seq<char>,
        source: Seq<char>,
        answer: Seq<char>,
        confidence: N,
    )
        requires
            first.answer_set(self, question, content, source),
            second.answer_read(first, question, answer, confidence),
        ensures
            told(answers_to(first.questions@, question), answer),
            told(answers_to(second.questions@, question), answer),
    {
    }

    /// Believing a source and then reading it returns the quality of
    /// believed sources.
    pub proof fn law_believe_then_read(
        &self,
        first: &Graph<N>,
        second: &Graph<N>,
        source: Seq<char>,
        quality: N,
    )
        requires
            first.believed(self, source),
            second.source_read(first, source, quality),
        ensures
            quality == self.quality_of_believed_sources,
    {
    }

    /// Under exact comparison a content is at distance zero from itself.
    pub proof fn law_same_content_zero(
        &self,
        post: &Graph<N>,
        cmd: CommandView,
        r: Result<CommandResponse<N>, GraphError>,
    )
        requires
            self.equalifier is Exact,
            cmd.cmd == CommandType::TestEquality,
            cmd.answer1 is Some,
            cmd.answer1 == cmd.answer2,
            post.executed(self, cmd, r),
        ensures
            r is Ok,
            r->Ok_0.distance == Some(Distance::<N>::Zero),
    {
    }

    /// Reading the answer to a question twice in a row: the question holds
    /// the same answers after each read, and where it holds any, each read
    /// returns the content of one of them.
    pub proof fn law_read_twice(
        &self,
        first: &Graph<N>,
        second: &Graph<N>,
        question: Seq<char>,
        answer1: Seq<char>,
        confidence1: N,
        answer2: Seq<char>,
        confidence2: N,
    )
        requires
            first.answer_read(self, question, answer1, confidence1),
            second.answer_read(first, question, answer2, confidence2),
        ensures
            answers_to(first.questions@, question) == answers_to(self.questions@, question),
            answers_to(second.questions@, question) == answers_to(self.questions@, question),
            answers_to(self.questions@, question).len() > 0 ==> told(
                answers_to(self.questions@, question),
                answer1,
            ) && told(answers_to(self.questions@, question), answer2),
            answers_to(self.questions@, question).len() == 0 ==> answer1 == "None"@ && answer2
                == "None"@,
    {
    }

    /// In a graph in order, two answers to a question with the same content
    /// have the same fingerprint, and so an answer with the content of a
    /// believed answer counts as correct.
    pub proof fn law_equal_content_equal_hash(&self, q: int, a: int, b: int)
        requires
            self.wf(),
            0 <= q < self.questions.len(),
            0 <= a < self.questions[q].answers.len(),
            0 <= b < self.questions[q].answers.len(),
            self.questions[q].answers[a].content@ == self.questions[q].answers[b].content@,
        ensures
            self.questions[q].answers[a].hash == self.questions[q].answers[b].hash,
            one_of(self.questions[q].correct_answers@, self.questions[q].answers[b]) ==> credited(
                self.questions[q].correct_answers@,
                self.questions[q].answers[a].hash,
            ),
    {
        let qu = self.questions[q];
        assert(question_ok(qu, self.sources@));
        assert(marked(qu.answers[a]) && marked(qu.answers[b]));
        if one_of(qu.correct_answers@, qu.answers[b]) {
            let k = choose|k: int|
                0 <= k < qu.correct_answers.len() && same_answer(
                    #[trigger] qu.correct_answers@[k],
                    qu.answers[b],
                );
            assert(qu.correct_answers[k].hash == qu.answers[a].hash);
        }
    }

    /// In a graph in order, each believed answer of a question is one of the
    /// answers of that question. Every command keeps the graph in order.
    pub proof fn law_believed_are_answers(&self, q: int, k: int)
        requires
            self.wf(),
            0 <= q < self.questions.len(),
            0 <= k < self.questions[q].correct_answers.len(),
        ensures
            one_of(self.questions[q].answers@, self.questions[q].correct_answers[k]),
    {
        assert(question_ok(self.questions[q], self.sources@));
    }
}

} // verus!
