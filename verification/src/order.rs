//! The order in which scores rank the positions of a pool.

use vstd::prelude::*;
use vstd::seq_lib::{to_multiset_build, to_multiset_insert};

verus! {

/// Whether position `a` comes before position `b` in the ranking: the
/// higher score first, and of equal scores the earlier position.
pub open spec fn ranks_before(scores: Seq<nat>, a: int, b: int) -> bool {
    scores[a] > scores[b] || (scores[a] == scores[b] && a < b)
}

/// Where the position `x` goes in `order`, a list of positions by falling
/// score: behind every position whose score is at least that of `x`.
pub open spec fn insertion_point(order: Seq<int>, scores: Seq<nat>, x: int) -> int
    decreases order.len(),
{
    if order.len() == 0 || scores[order.last()] >= scores[x] {
        order.len() as int
    } else {
        insertion_point(order.drop_last(), scores, x)
    }
}

/// The first `count` positions in ranking order.
pub open spec fn ranking_of_prefix(scores: Seq<nat>, count: nat) -> Seq<int>
    decreases count,
{
    if count == 0 {
        Seq::empty()
    } else {
        let before = ranking_of_prefix(scores, (count - 1) as nat);
        before.insert(insertion_point(before, scores, count - 1), count - 1)
    }
}

/// The positions of a pool in ranking order: the highest score first, and
/// of two positions with the same score the earlier one first.
pub open spec fn ranking(scores: Seq<nat>) -> Seq<int> {
    ranking_of_prefix(scores, scores.len())
}

/// The items found at the positions that `order` lists, in its order.
pub open spec fn arranged<T>(items: Seq<T>, order: Seq<int>) -> Seq<T> {
    Seq::new(order.len(), |k: int| items[order[k]])
}

/// The items of a pool in the order in which `scores` ranks them.
pub open spec fn ranked<T>(items: Seq<T>, scores: Seq<nat>) -> Seq<T> {
    arranged(items, ranking(scores))
}

/// The sum of the first `count` of `values`.
pub open spec fn sum_of_prefix(values: Seq<nat>, count: nat) -> nat
    decreases count,
{
    if count == 0 {
        0
    } else {
        sum_of_prefix(values, (count - 1) as nat) + values[count - 1]
    }
}

/// The sum of `values`.
pub open spec fn total(values: Seq<nat>) -> nat {
    sum_of_prefix(values, values.len())
}

/// Scores read as natural numbers.
pub open spec fn numbers(scores: Seq<u32>) -> Seq<nat> {
    Seq::new(scores.len(), |i: int| scores[i] as nat)
}

/// Positions read as integers.
pub open spec fn positions(order: Seq<usize>) -> Seq<int> {
    Seq::new(order.len(), |k: int| order[k] as int)
}

/// The insertion point lies within the list, with only lower scores behind
/// it and a score at least as high just before it.
proof fn lemma_insertion_point(order: Seq<int>, scores: Seq<nat>, x: int)
    ensures
        0 <= insertion_point(order, scores, x) <= order.len(),
        forall|k: int|
            insertion_point(order, scores, x) <= k < order.len() ==> scores[#[trigger] order[k]]
                < scores[x],
        insertion_point(order, scores, x) > 0 ==> scores[order[insertion_point(order, scores, x)
            - 1]] >= scores[x],
    decreases order.len(),
{
    if !(order.len() == 0 || scores[order.last()] >= scores[x]) {
        let shorter = order.drop_last();
        lemma_insertion_point(shorter, scores, x);
        let p = insertion_point(shorter, scores, x);
        assert forall|k: int| p <= k < order.len() implies scores[#[trigger] order[k]]
            < scores[x] by {
            if k < shorter.len() {
                assert(order[k] == shorter[k]);
            }
        }
        if p > 0 {
            assert(order[p - 1] == shorter[p - 1]);
        }
    }
}

/// A scan from the end that stops at `p` has found the insertion point.
proof fn lemma_insertion_point_found(order: Seq<int>, scores: Seq<nat>, x: int, p: int)
    requires
        0 <= p <= order.len(),
        forall|k: int| p <= k < order.len() ==> scores[#[trigger] order[k]] < scores[x],
        p > 0 ==> scores[order[p - 1]] >= scores[x],
    ensures
        insertion_point(order, scores, x) == p,
    decreases order.len(),
{
    if order.len() > 0 && p < order.len() {
        let shorter = order.drop_last();
        assert(scores[order[order.len() - 1]] < scores[x]);
        assert forall|k: int| p <= k < shorter.len() implies scores[#[trigger] shorter[k]]
            < scores[x] by {
            assert(shorter[k] == order[k]);
        }
        if p > 0 {
            assert(shorter[p - 1] == order[p - 1]);
        }
        lemma_insertion_point_found(shorter, scores, x, p);
    }
}

/// The ranking of the first `count` positions lists each of them once, and
/// each before all that it ranks before.
proof fn lemma_ranking_of_prefix(scores: Seq<nat>, count: nat)
    requires
        count <= scores.len(),
    ensures
        ranking_of_prefix(scores, count).len() == count,
        forall|k: int| 0 <= k < count ==> 0 <= #[trigger] ranking_of_prefix(scores, count)[k] < count,
        ranking_of_prefix(scores, count).no_duplicates(),
        forall|k: int, l: int|
            0 <= k < l < count ==> ranks_before(
                scores,
                #[trigger] ranking_of_prefix(scores, count)[k],
                #[trigger] ranking_of_prefix(scores, count)[l],
            ),
    decreases count,
{
    if count > 0 {
        let x = count - 1;
        let before = ranking_of_prefix(scores, x as nat);
        lemma_ranking_of_prefix(scores, x as nat);
        lemma_insertion_point(before, scores, x);
        let p = insertion_point(before, scores, x);
        let after = before.insert(p, x);
        assert forall|k: int| 0 <= k < count implies 0 <= #[trigger] after[k] < count by {
            if k < p {
                assert(after[k] == before[k]);
            } else if k > p {
                assert(after[k] == before[k - 1]);
            }
        }
        assert forall|k: int, l: int| 0 <= k < l < count implies ranks_before(
            scores,
            #[trigger] after[k],
            #[trigger] after[l],
        ) by {
            if l < p {
                assert(after[k] == before[k] && after[l] == before[l]);
            } else if l == p {
                assert(after[k] == before[k]);
                if k < p - 1 {
                    assert(ranks_before(scores, before[k], before[p - 1]));
                }
            } else if k < p {
                assert(after[k] == before[k] && after[l] == before[l - 1]);
            } else if k == p {
                assert(after[l] == before[l - 1]);
            } else {
                assert(after[k] == before[k - 1] && after[l] == before[l - 1]);
            }
        }
        assert forall|k: int, l: int| 0 <= k < count && 0 <= l < count && k != l implies after[k]
            != after[l] by {
            if k < l {
                assert(ranks_before(scores, after[k], after[l]));
            } else {
                assert(ranks_before(scores, after[l], after[k]));
            }
        }
    }
}

/// The ranking lists every position of the pool, and each only once.
pub proof fn ranking_lists_each_position_once(scores: Seq<nat>)
    ensures
        ranking(scores).len() == scores.len(),
        forall|k: int| 0 <= k < scores.len() ==> 0 <= #[trigger] ranking(scores)[k] < scores.len(),
        ranking(scores).no_duplicates(),
{
    lemma_ranking_of_prefix(scores, scores.len());
}

/// Along the ranking the scores never rise, and positions of equal score
/// stand in their order in the pool.
pub proof fn ranking_is_by_falling_score(scores: Seq<nat>)
    ensures
        forall|k: int, l: int|
            0 <= k < l < scores.len() ==> ranks_before(
                scores,
                #[trigger] ranking(scores)[k],
                #[trigger] ranking(scores)[l],
            ),
{
    lemma_ranking_of_prefix(scores, scores.len());
}

/// Scores that never rise leave every position where it is.
pub proof fn ranking_of_falling_scores_is_identity(scores: Seq<nat>)
    requires
        forall|k: int, l: int| 0 <= k < l < scores.len() ==> scores[k] >= scores[l],
    ensures
        ranking(scores) == Seq::new(scores.len(), |k: int| k),
{
    lemma_ranking_of_falling_prefix(scores, scores.len());
}

proof fn lemma_ranking_of_falling_prefix(scores: Seq<nat>, count: nat)
    requires
        count <= scores.len(),
        forall|k: int, l: int| 0 <= k < l < scores.len() ==> scores[k] >= scores[l],
    ensures
        ranking_of_prefix(scores, count) == Seq::new(count, |k: int| k),
    decreases count,
{
    if count > 0 {
        let x = count - 1;
        lemma_ranking_of_falling_prefix(scores, x as nat);
        let before = Seq::new(x as nat, |k: int| k);
        lemma_insertion_point_found(before, scores, x, x);
        assert(before.insert(x, x) =~= Seq::new(count, |k: int| k));
    }
}

/// Ranking keeps the items of a pool: each occurs as often as before.
pub proof fn ranked_keeps_items<T>(items: Seq<T>, scores: Seq<nat>)
    requires
        items.len() == scores.len(),
    ensures
        ranked(items, scores).len() == items.len(),
        ranked(items, scores).to_multiset() == items.to_multiset(),
{
    lemma_ranking_of_prefix(scores, scores.len());
    lemma_arranged_prefix_keeps_items(items, scores, scores.len());
    assert(items.take(items.len() as int) =~= items);
}

proof fn lemma_arranged_prefix_keeps_items<T>(items: Seq<T>, scores: Seq<nat>, count: nat)
    requires
        items.len() == scores.len(),
        count <= scores.len(),
    ensures
        arranged(items, ranking_of_prefix(scores, count)).to_multiset() == items.take(
            count as int,
        ).to_multiset(),
    decreases count,
{
    let now = arranged(items, ranking_of_prefix(scores, count));
    if count == 0 {
        assert(now =~= items.take(0));
    } else {
        let x = count - 1;
        let before = ranking_of_prefix(scores, x as nat);
        lemma_ranking_of_prefix(scores, x as nat);
        lemma_insertion_point(before, scores, x);
        lemma_arranged_prefix_keeps_items(items, scores, x as nat);
        let p = insertion_point(before, scores, x);
        let earlier = arranged(items, before);
        assert(now =~= earlier.insert(p, items[x]));
        to_multiset_insert(earlier, p, items[x]);
        to_multiset_build(items.take(x), items[x]);
        assert(items.take(x).push(items[x]) =~= items.take(count as int));
    }
}

/// Ranking items that are all different leaves them all different.
pub proof fn ranked_keeps_distinct<T>(items: Seq<T>, scores: Seq<nat>)
    requires
        items.len() == scores.len(),
        items.no_duplicates(),
    ensures
        ranked(items, scores).no_duplicates(),
{
    lemma_ranking_of_prefix(scores, scores.len());
}

/// Sums that run over the same leading values are equal.
proof fn lemma_sum_of_prefix_agrees(a: Seq<nat>, b: Seq<nat>, count: nat)
    requires
        count <= a.len(),
        count <= b.len(),
        forall|k: int| 0 <= k < count ==> a[k] == b[k],
    ensures
        sum_of_prefix(a, count) == sum_of_prefix(b, count),
    decreases count,
{
    if count > 0 {
        lemma_sum_of_prefix_agrees(a, b, (count - 1) as nat);
    }
}

/// A value put in anywhere adds itself to the sum.
proof fn lemma_total_of_insert(values: Seq<nat>, p: int, x: nat)
    requires
        0 <= p <= values.len(),
    ensures
        total(values.insert(p, x)) == total(values) + x,
    decreases values.len(),
{
    let longer = values.insert(p, x);
    if p == values.len() {
        lemma_sum_of_prefix_agrees(longer, values, values.len());
    } else {
        let shorter = values.drop_last();
        lemma_total_of_insert(shorter, p, x);
        lemma_sum_of_prefix_agrees(longer, shorter.insert(p, x), values.len());
        lemma_sum_of_prefix_agrees(values, shorter, shorter.len());
    }
}

/// Ranking does not change the sum of the values that it arranges.
pub proof fn total_of_ranked(values: Seq<nat>, scores: Seq<nat>)
    requires
        values.len() == scores.len(),
    ensures
        total(ranked(values, scores)) == total(values),
{
    lemma_total_of_arranged_prefix(values, scores, scores.len());
    lemma_ranking_of_prefix(scores, scores.len());
}

proof fn lemma_total_of_arranged_prefix(values: Seq<nat>, scores: Seq<nat>, count: nat)
    requires
        values.len() == scores.len(),
        count <= scores.len(),
    ensures
        total(arranged(values, ranking_of_prefix(scores, count))) == sum_of_prefix(values, count),
    decreases count,
{
    if count > 0 {
        let x = count - 1;
        let before = ranking_of_prefix(scores, x as nat);
        lemma_ranking_of_prefix(scores, x as nat);
        lemma_ranking_of_prefix(scores, count);
        lemma_insertion_point(before, scores, x);
        lemma_total_of_arranged_prefix(values, scores, x as nat);
        let p = insertion_point(before, scores, x);
        let earlier = arranged(values, before);
        assert(arranged(values, ranking_of_prefix(scores, count)) =~= earlier.insert(
            p,
            values[x],
        ));
        lemma_total_of_insert(earlier, p, values[x]);
    }
}

/// Lists the positions of `scores` in ranking order.
pub fn ranking_order(scores: &Vec<u32>) -> (order: Vec<usize>)
    ensures
        positions(order@) == ranking(numbers(scores@)),
        order.len() == scores.len(),
        forall|k: int| 0 <= k < order.len() ==> (#[trigger] order[k]) < scores.len(),
{
    let ghost values = numbers(scores@);
    let n = scores.len();
    let mut order: Vec<usize> = Vec::new();
    let mut i: usize = 0;
    while i < n
        invariant
            n == scores.len(),
            values == numbers(scores@),
            i <= n,
            order.len() == i,
            forall|k: int| 0 <= k < i ==> (#[trigger] order[k]) < i,
            positions(order@) == ranking_of_prefix(values, i as nat),
        decreases n - i,
    {
        let mut p: usize = i;
        while p > 0 && scores[order[p - 1]] < scores[i]
            invariant
                n == scores.len(),
                values == numbers(scores@),
                i < n,
                order.len() == i,
                p <= i,
                forall|k: int| 0 <= k < i ==> (#[trigger] order[k]) < i,
                forall|k: int|
                    p <= k < i ==> values[#[trigger] positions(order@)[k]] < values[i as int],
            decreases p,
        {
            p -= 1;
        }
        proof {
            lemma_insertion_point_found(positions(order@), values, i as int, p as int);
        }
        let ghost before = positions(order@);
        order.insert(p, i);
        assert(positions(order@) =~= before.insert(p as int, i as int));
        i += 1;
    }
    order
}

} // verus!
