//! Ranking of scored entries: highest score first, earliest entry first among
//! equal scores.

use vstd::prelude::*;
use crate::score::{Ratio, Score, lemma_at_most_transitive};

verus! {

/// Entry `i` comes before entry `j` in a ranking of `scores`: its score is
/// higher, or the scores are equal and `i` was stored first.
pub open spec fn outranks(scores: Seq<Ratio>, i: int, j: int) -> bool {
    ||| !scores[i].at_most(scores[j])
    ||| (scores[j].at_most(scores[i]) && i < j)
}

/// Whether `j` occurs in `order`.
pub open spec fn ranked(order: Seq<usize>, j: int) -> bool {
    exists|r: int| 0 <= r < order.len() && #[trigger] order[r] == j
}

/// `order` lists the `k` best entries of `scores`, best first; all of them
/// where there are fewer than `k`.
pub open spec fn is_ranking(scores: Seq<Ratio>, k: nat, order: Seq<usize>) -> bool {
    &&& order.len() == if k <= scores.len() { k } else { scores.len() }
    &&& forall|r: int| 0 <= r < order.len() ==> #[trigger] order[r] < scores.len()
    &&& forall|r1: int, r2: int|
        #![trigger order[r1], order[r2]]
        0 <= r1 < r2 < order.len() ==> outranks(scores, order[r1] as int, order[r2] as int)
    &&& forall|r: int, j: int|
        #![trigger order[r], ranked(order, j)]
        0 <= r < order.len() && 0 <= j < scores.len() && !ranked(order, j) ==> outranks(
            scores,
            order[r] as int,
            j,
        )
}

/// The values of a list of scores.
pub open spec fn values(scores: Seq<Score>) -> Seq<Ratio> {
    Seq::new(scores.len(), |i: int| scores[i]@)
}

/// Number of entries not yet taken.
spec fn free_count(taken: Seq<bool>) -> nat
    decreases taken.len(),
{
    if taken.len() == 0 {
        0
    } else {
        free_count(taken.drop_last()) + if taken.last() {
            0nat
        } else {
            1nat
        }
    }
}

proof fn lemma_free_count_take(taken: Seq<bool>, i: int)
    requires
        0 <= i < taken.len(),
        !taken[i],
    ensures
        free_count(taken.update(i, true)) + 1 == free_count(taken),
    decreases taken.len(),
{
    let after = taken.update(i, true);
    if i == taken.len() - 1 {
        assert(after.drop_last() =~= taken.drop_last());
    } else {
        lemma_free_count_take(taken.drop_last(), i);
        assert(after.drop_last() =~= taken.drop_last().update(i, true));
    }
}

proof fn lemma_free_count_witness(taken: Seq<bool>) -> (i: int)
    requires
        free_count(taken) > 0,
    ensures
        0 <= i < taken.len(),
        !taken[i],
    decreases taken.len(),
{
    if !taken.last() {
        taken.len() - 1
    } else {
        lemma_free_count_witness(taken.drop_last())
    }
}

/// The entries not yet taken, as a fresh list of `n` flags.
fn no_entry_taken(n: usize) -> (taken: Vec<bool>)
    ensures
        taken@.len() == n,
        forall|j: int| 0 <= j < n ==> !taken@[j],
        free_count(taken@) == n,
{
    let mut taken: Vec<bool> = Vec::new();
    while taken.len() < n
        invariant
            taken@.len() <= n,
            forall|j: int| 0 <= j < taken@.len() ==> !taken@[j],
            free_count(taken@) == taken@.len(),
        decreases n - taken@.len(),
    {
        let ghost before = taken@;
        taken.push(false);
        assert(taken@.drop_last() =~= before);
    }
    taken
}

/// The best entry among those not yet taken, if any is left.
fn best_free(scores: &Vec<Score>, taken: &Vec<bool>) -> (best: Option<usize>)
    requires
        taken@.len() == scores@.len(),
    ensures
        best is None ==> forall|j: int| 0 <= j < taken@.len() ==> taken@[j],
        best matches Some(b) ==> {
            &&& b < scores@.len()
            &&& !taken@[b as int]
            &&& forall|j: int|
                0 <= j < scores@.len() && !taken@[j] && j != b ==> outranks(
                    values(scores@),
                    b as int,
                    j,
                )
        },
{
    let n = scores.len();
    let ghost vals = values(scores@);
    let mut best: Option<usize> = None;
    let mut j: usize = 0;
    while j < n
        invariant
            j <= n,
            n == scores@.len(),
            taken@.len() == n,
            vals == values(scores@),
            forall|i: int| 0 <= i < j ==> (#[trigger] vals[i]).proper(),
            best is None ==> forall|i: int| 0 <= i < j ==> taken@[i],
            best matches Some(b) ==> {
                &&& b < j
                &&& !taken@[b as int]
                &&& forall|i: int| 0 <= i < j && !taken@[i] && i != b ==> outranks(vals, b as int, i)
            },
        decreases n - j,
    {
        let denominator: u64 = scores[j].denominator();
        assert(vals[j as int].den == denominator);
        if !taken[j] {
            match best {
                None => {
                    best = Some(j);
                },
                Some(b) => {
                    let keep = scores[b].at_least(&scores[j]);
                    if !keep {
                        assert forall|i: int| 0 <= i < j + 1 && !taken@[i] && i != j implies outranks(
                            vals,
                            j as int,
                            i,
                        ) by {
                            if i != b && vals[j as int].at_most(vals[i]) {
                                assert(outranks(vals, b as int, i));
                                lemma_at_most_transitive(vals[j as int], vals[i], vals[b as int]);
                            }
                        }
                        best = Some(j);
                    }
                },
            }
        }
        j = j + 1;
    }
    best
}

/// The `k` best entries of `scores`, best first: by descending score, and by
/// position among equal scores.
pub fn rank_top(scores: &Vec<Score>, k: usize) -> (order: Vec<usize>)
    ensures
        is_ranking(values(scores@), k as nat, order@),
{
    let n = scores.len();
    let limit = if k <= n { k } else { n };
    let ghost vals = values(scores@);
    let mut taken = no_entry_taken(n);
    let mut order: Vec<usize> = Vec::new();
    while order.len() < limit
        invariant
            limit <= n,
            n == scores@.len(),
            vals == values(scores@),
            taken@.len() == n,
            order@.len() <= limit,
            free_count(taken@) + order@.len() == n,
            forall|r: int| 0 <= r < order@.len() ==> #[trigger] order@[r] < n,
            forall|j: int| 0 <= j < n ==> (taken@[j] <==> ranked(order@, j)),
            forall|r1: int, r2: int|
                #![trigger order@[r1], order@[r2]]
                0 <= r1 < r2 < order@.len() ==> outranks(vals, order@[r1] as int, order@[r2] as int),
            forall|r: int, j: int|
                #![trigger order@[r], taken@[j]]
                0 <= r < order@.len() && 0 <= j < n && !taken@[j] ==> outranks(
                    vals,
                    order@[r] as int,
                    j,
                ),
        decreases limit - order@.len(),
    {
        let found = best_free(scores, &taken);
        proof {
            let free = lemma_free_count_witness(taken@);
            assert(!taken@[free]);
        }
        let b = found.unwrap();
        let ghost old_taken = taken@;
        let ghost old_order = order@;
        proof {
            lemma_free_count_take(taken@, b as int);
        }
        taken.set(b, true);
        order.push(b);
        proof {
            assert(order@[old_order.len() as int] == b);
            assert forall|j: int| 0 <= j < n implies (taken@[j] <==> ranked(order@, j)) by {
                if j == b {
                    assert(ranked(order@, j));
                } else if old_taken[j] {
                    let r = choose|r: int| 0 <= r < old_order.len() && #[trigger] old_order[r] == j;
                    assert(order@[r] == j);
                } else if ranked(order@, j) {
                    let r = choose|r: int| 0 <= r < order@.len() && #[trigger] order@[r] == j;
                    assert(old_order[r] == j);
                    assert(ranked(old_order, j));
                }
            }
            assert forall|r1: int, r2: int|
                #![trigger order@[r1], order@[r2]]
                0 <= r1 < r2 < order@.len() implies outranks(
                vals,
                order@[r1] as int,
                order@[r2] as int,
            ) by {
                if r2 == old_order.len() {
                    assert(order@[r1] == old_order[r1]);
                    assert(!old_taken[b as int]);
                } else {
                    assert(order@[r1] == old_order[r1]);
                    assert(order@[r2] == old_order[r2]);
                }
            }
            assert forall|r: int, j: int|
                #![trigger order@[r], taken@[j]]
                0 <= r < order@.len() && 0 <= j < n && !taken@[j] implies outranks(
                vals,
                order@[r] as int,
                j,
            ) by {
                assert(!old_taken[j]);
                if r < old_order.len() {
                    assert(order@[r] == old_order[r]);
                }
            }
        }
    }
    proof {
        assert forall|r: int, j: int|
            #![trigger order@[r], ranked(order@, j)]
            0 <= r < order@.len() && 0 <= j < vals.len() && !ranked(order@, j) implies outranks(
            vals,
            order@[r] as int,
            j,
        ) by {
            assert(!taken@[j]);
        }
    }
    order
}

/// A ranking holds at most `k` entries, and no more than there are.
pub proof fn lemma_ranking_bounded(scores: Seq<Ratio>, k: nat, order: Seq<usize>)
    requires
        is_ranking(scores, k, order),
    ensures
        order.len() <= k,
        order.len() <= scores.len(),
        scores.len() == 0 || k == 0 ==> order.len() == 0,
        k >= scores.len() ==> order.len() == scores.len(),
{
}

/// Down a ranking the score never rises, and among equal scores the entry
/// stored first comes first. No entry is listed twice.
pub proof fn lemma_ranking_descends(scores: Seq<Ratio>, k: nat, order: Seq<usize>, r1: int, r2: int)
    requires
        is_ranking(scores, k, order),
        0 <= r1 < r2 < order.len(),
    ensures
        scores[order[r2] as int].at_most(scores[order[r1] as int]),
        scores[order[r1] as int].at_most(scores[order[r2] as int]) ==> order[r1] < order[r2],
        order[r1] != order[r2],
{
    assert(outranks(scores, order[r1] as int, order[r2] as int));
}

/// An entry that the ranking leaves out scores no higher than any that it lists.
pub proof fn lemma_ranking_keeps_best(scores: Seq<Ratio>, k: nat, order: Seq<usize>, r: int, j: int)
    requires
        is_ranking(scores, k, order),
        0 <= r < order.len(),
        0 <= j < scores.len(),
        !ranked(order, j),
    ensures
        scores[j].at_most(scores[order[r] as int]),
{
    assert(outranks(scores, order[r] as int, j));
}

/// Where some entry's score is the highest of all, the first of a ranking has
/// that score too, and is the earliest entry that has it.
pub proof fn lemma_ranking_starts_with_best(scores: Seq<Ratio>, k: nat, order: Seq<usize>, i: int)
    requires
        is_ranking(scores, k, order),
        k >= 1,
        0 <= i < scores.len(),
        forall|j: int| 0 <= j < scores.len() ==> (#[trigger] scores[j]).proper(),
        forall|j: int| 0 <= j < scores.len() ==> (#[trigger] scores[j]).at_most(scores[i]),
    ensures
        order.len() >= 1,
        order[0] <= i,
        scores[order[0] as int].same(scores[i]),
        forall|j: int| 0 <= j < order[0] ==> !scores[i].at_most(#[trigger] scores[j]),
{
    let t = order[0] as int;
    assert(scores[t].at_most(scores[i]));
    if t != i {
        if ranked(order, i) {
            let r = choose|r: int| 0 <= r < order.len() && #[trigger] order[r] == i;
            assert(outranks(scores, order[0] as int, order[r] as int));
        } else {
            assert(outranks(scores, order[0] as int, i));
        }
    }
    assert forall|j: int| 0 <= j < t implies !scores[i].at_most(#[trigger] scores[j]) by {
        if scores[i].at_most(scores[j]) {
            lemma_at_most_transitive(scores[t], scores[i], scores[j]);
            if ranked(order, j) {
                let r = choose|r: int| 0 <= r < order.len() && #[trigger] order[r] == j;
                assert(outranks(scores, order[0] as int, order[r] as int));
            } else {
                assert(outranks(scores, order[0] as int, j));
            }
        }
    }
}

/// A list of scores has one ranking only.
pub proof fn lemma_ranking_unique(scores: Seq<Ratio>, k: nat, first: Seq<usize>, second: Seq<usize>)
    requires
        is_ranking(scores, k, first),
        is_ranking(scores, k, second),
    ensures
        first == second,
{
    assert forall|r: int| 0 <= r < first.len() implies first[r] == second[r] by {
        lemma_rankings_agree(scores, k, first, second, r);
    }
    assert(first =~= second);
}

proof fn lemma_rankings_agree(scores: Seq<Ratio>, k: nat, first: Seq<usize>, second: Seq<usize>, r: int)
    requires
        is_ranking(scores, k, first),
        is_ranking(scores, k, second),
        0 <= r < first.len(),
    ensures
        forall|t: int| 0 <= t <= r ==> first[t] == second[t],
    decreases r,
{
    if r > 0 {
        lemma_rankings_agree(scores, k, first, second, r - 1);
    }
    let a = first[r] as int;
    let b = second[r] as int;
    if a != b {
        lemma_entry_comes_later(scores, k, first, second, r, b);
        lemma_entry_comes_later(scores, k, second, first, r, a);
        assert(outranks(scores, a, b));
        assert(outranks(scores, b, a));
    }
}

/// An entry that another ranking, equal before position `r`, has at `r` comes
/// after the entry that this ranking has there.
proof fn lemma_entry_comes_later(
    scores: Seq<Ratio>,
    k: nat,
    order: Seq<usize>,
    other: Seq<usize>,
    r: int,
    j: int,
)
    requires
        is_ranking(scores, k, order),
        is_ranking(scores, k, other),
        0 <= r < order.len(),
        forall|t: int| 0 <= t < r ==> order[t] == other[t],
        j == other[r],
        j != order[r],
    ensures
        outranks(scores, order[r] as int, j),
{
    if ranked(order, j) {
        let p = choose|p: int| 0 <= p < order.len() && #[trigger] order[p] == j;
        if p < r {
            assert(other[p] == j);
            assert(outranks(scores, other[p] as int, other[r] as int));
        } else {
            assert(outranks(scores, order[r] as int, order[p] as int));
        }
    } else {
        assert(outranks(scores, order[r] as int, j));
    }
}

} // verus!
