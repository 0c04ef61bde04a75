//! Ranked hits, as both indexes return them.

use vstd::prelude::*;
use crate::chunk::{Chunk, ChunkView};
use crate::rank::{is_ranking, lemma_ranking_descends, rank_top, values};
use crate::score::{Ratio, Score};

verus! {

/// One hit of a search.
#[derive(Debug)]
pub struct SearchResult {
    /// The chunk that was found.
    pub chunk: Chunk,
    /// How well it matches the query.
    pub score: Score,
    /// Its place among the results, from 0 for the best.
    pub rank: usize,
    /// Its place in the index, in order of insertion.
    pub entry: usize,
}

/// The index entries that a list of results names, in order.
pub open spec fn result_entries(results: Seq<SearchResult>) -> Seq<usize> {
    Seq::new(results.len(), |r: int| results[r].entry)
}

/// `results` are the `k` best of the entries with the given scores and
/// chunks: ranked by descending score, entries stored earlier first among
/// equal scores, each with its chunk, its score and its rank.
pub open spec fn is_search_result(
    scores: Seq<Ratio>,
    chunks: Seq<ChunkView>,
    k: nat,
    results: Seq<SearchResult>,
) -> bool {
    &&& is_ranking(scores, k, result_entries(results))
    &&& forall|r: int|
        0 <= r < results.len() ==> {
            &&& (#[trigger] results[r]).rank == r
            &&& results[r].chunk@ == chunks[results[r].entry as int]
            &&& results[r].score@ == scores[results[r].entry as int]
        }
}

/// The views of a list of borrowed chunks.
pub open spec fn borrowed_views(chunks: Seq<&Chunk>) -> Seq<ChunkView> {
    Seq::new(chunks.len(), |i: int| chunks[i]@)
}

/// The `k` best of the given chunks by their scores, as search results.
pub(crate) fn rank_chunks(
    chunks: &Vec<&Chunk>,
    scores: &Vec<Score>,
    k: usize,
) -> (results: Vec<SearchResult>)
    requires
        chunks@.len() == scores@.len(),
    ensures
        is_search_result(values(scores@), borrowed_views(chunks@), k as nat, results@),
{
    let order = rank_top(scores, k);
    let mut results: Vec<SearchResult> = Vec::new();
    let mut r: usize = 0;
    while r < order.len()
        invariant
            r <= order@.len(),
            results@.len() == r,
            chunks@.len() == scores@.len(),
            is_ranking(values(scores@), k as nat, order@),
            forall|t: int|
                0 <= t < r ==> {
                    &&& (#[trigger] results@[t]).rank == t
                    &&& results@[t].entry == order@[t]
                    &&& results@[t].chunk@ == chunks@[order@[t] as int]@
                    &&& results@[t].score@ == scores@[order@[t] as int]@
                },
        decreases order@.len() - r,
    {
        let entry = order[r];
        assert(order@[r as int] < scores@.len());
        let chunk = chunks[entry].clone();
        results.push(SearchResult { chunk, score: scores[entry], rank: r, entry });
        r = r + 1;
    }
    assert(result_entries(results@) =~= order@);
    results
}

/// A search returns at most `k` results and no more than there are entries;
/// none from an empty index. Down the results the score never rises, and of
/// two results with equal scores the one stored first comes first.
pub proof fn lemma_results_descend(
    scores: Seq<Ratio>,
    chunks: Seq<ChunkView>,
    k: nat,
    results: Seq<SearchResult>,
    r1: int,
    r2: int,
)
    requires
        is_search_result(scores, chunks, k, results),
        0 <= r1 < r2 < results.len(),
    ensures
        results.len() <= k,
        results.len() <= scores.len(),
        results[r2].score@.at_most(results[r1].score@),
        results[r1].score@.at_most(results[r2].score@) ==> results[r1].entry < results[r2].entry,
        results[r1].entry != results[r2].entry,
{
    let order = result_entries(results);
    assert(order[r1] == results[r1].entry && order[r2] == results[r2].entry);
    lemma_ranking_descends(scores, k, order, r1, r2);
}

/// A search of an empty index, or for no results, returns none; a search for
/// at least as many results as there are entries returns them all.
pub proof fn lemma_results_count(
    scores: Seq<Ratio>,
    chunks: Seq<ChunkView>,
    k: nat,
    results: Seq<SearchResult>,
)
    requires
        is_search_result(scores, chunks, k, results),
    ensures
        results.len() == if k <= scores.len() {
            k
        } else {
            scores.len()
        },
        scores.len() == 0 || k == 0 ==> results.len() == 0,
{
}

} // verus!
