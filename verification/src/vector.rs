//! The vector index: chunks with their embeddings, searched by cosine
//! similarity.

use vstd::prelude::*;
use crate::chunk::{Chunk, ChunkView};
use crate::embedding::{
    Embedding,
    VectorSpace,
    lemma_cauchy_schwarz,
    lemma_similarity_at_most_one,
    norm_squared,
    similarity,
};
use crate::rank::{is_ranking, lemma_ranking_starts_with_best, values};
use crate::score::{Ratio, Score};
use crate::search::{SearchResult, borrowed_views, is_search_result, rank_chunks};

verus! {

/// A stored chunk with its embedding.
pub struct VectorEntry<S: VectorSpace> {
    pub chunk: Chunk,
    pub embedding: Embedding<S>,
}

/// What a vector entry is: a chunk and the components of its embedding.
pub struct VectorEntryView {
    pub chunk: ChunkView,
    pub embedding: Seq<i8>,
}

impl<S: VectorSpace> View for VectorEntry<S> {
    type V = VectorEntryView;

    open spec fn view(&self) -> VectorEntryView {
        VectorEntryView { chunk: self.chunk@, embedding: self.embedding@ }
    }
}

/// The chunks of a list of entries.
pub open spec fn entry_chunks(entries: Seq<VectorEntryView>) -> Seq<ChunkView> {
    Seq::new(entries.len(), |i: int| entries[i].chunk)
}

/// The similarity of each entry to a query.
pub open spec fn entry_scores(entries: Seq<VectorEntryView>, query: Seq<i8>) -> Seq<Ratio> {
    Seq::new(entries.len(), |i: int| similarity(entries[i].embedding, query))
}

/// Chunks with their embeddings in the space `S`, in order of insertion.
pub struct VectorIndex<S: VectorSpace> {
    entries: Vec<VectorEntry<S>>,
}

impl<S: VectorSpace> View for VectorIndex<S> {
    type V = Seq<VectorEntryView>;

    closed spec fn view(&self) -> Seq<VectorEntryView> {
        Seq::new(self.entries@.len(), |i: int| self.entries@[i]@)
    }
}

impl<S: VectorSpace> VectorIndex<S> {
    /// An index that holds nothing.
    pub fn new() -> (index: Self)
        ensures
            index@ == Seq::<VectorEntryView>::empty(),
    {
        let index = VectorIndex { entries: Vec::new() };
        assert(index@ =~= Seq::<VectorEntryView>::empty());
        index
    }

    /// Number of entries.
    pub fn len(&self) -> (n: usize)
        ensures
            n == self@.len(),
    {
        self.entries.len()
    }

    /// Whether the index holds nothing.
    pub fn is_empty(&self) -> (b: bool)
        ensures
            b == (self@.len() == 0),
    {
        self.entries.len() == 0
    }

    /// The chunk of entry `i`, if there is one.
    pub fn chunk(&self, i: usize) -> (c: Option<&Chunk>)
        ensures
            c is Some <==> i < self@.len(),
            c matches Some(chunk) ==> chunk@ == self@[i as int].chunk,
    {
        if i < self.entries.len() {
            Some(&self.entries[i].chunk)
        } else {
            None
        }
    }

    /// Stores a chunk with its embedding, after all that are stored.
    pub fn insert(&mut self, chunk: Chunk, embedding: Embedding<S>)
        ensures
            final(self)@ == old(self)@.push(
                VectorEntryView { chunk: chunk@, embedding: embedding@ },
            ),
    {
        self.entries.push(VectorEntry { chunk, embedding });
        assert(self@ =~= old(self)@.push(VectorEntryView { chunk: chunk@, embedding: embedding@ }));
    }

    /// The `k` entries most similar to `embedding`, most similar first;
    /// fewer where the index holds fewer.
    pub fn query(&self, embedding: &Embedding<S>, k: usize) -> (results: Vec<SearchResult>)
        ensures
            is_search_result(
                entry_scores(self@, embedding@),
                entry_chunks(self@),
                k as nat,
                results@,
            ),
    {
        let n = self.entries.len();
        let mut scores: Vec<Score> = Vec::new();
        let mut chunks: Vec<&Chunk> = Vec::new();
        let mut i: usize = 0;
        while i < n
            invariant
                i <= n,
                n == self.entries@.len(),
                scores@.len() == i,
                chunks@.len() == i,
                forall|j: int|
                    0 <= j < i ==> (#[trigger] scores@[j])@ == similarity(
                        self.entries@[j]@.embedding,
                        embedding@,
                    ),
                forall|j: int| 0 <= j < i ==> (#[trigger] chunks@[j])@ == self.entries@[j]@.chunk,
            decreases n - i,
        {
            let score = self.entries[i].embedding.similarity(embedding);
            scores.push(score);
            chunks.push(&self.entries[i].chunk);
            i = i + 1;
        }
        assert(values(scores@) =~= entry_scores(self@, embedding@));
        assert(borrowed_views(chunks@) =~= entry_chunks(self@));
        rank_chunks(&chunks, &scores, k)
    }
}

/// Where an entry's embedding is the query itself, and is not zero, the best
/// hit has similarity one, and it is that entry unless an earlier one has
/// similarity one as well.
pub proof fn lemma_exact_embedding_ranks_first(
    entries: Seq<VectorEntryView>,
    query: Seq<i8>,
    k: nat,
    order: Seq<usize>,
    i: int,
)
    requires
        is_ranking(entry_scores(entries, query), k, order),
        k >= 1,
        0 <= i < entries.len(),
        entries[i].embedding == query,
        norm_squared(query) > 0,
    ensures
        order.len() >= 1,
        entry_scores(entries, query)[order[0] as int].is_one(),
        order[0] <= i,
        (forall|j: int| 0 <= j < i ==> !(#[trigger] entry_scores(entries, query)[j]).is_one())
            ==> order[0] == i,
{
    let scores = entry_scores(entries, query);
    assert(scores[i].is_one() && scores[i].den > 0) by {
        lemma_cauchy_schwarz(query, query, query.len() as int);
        let n = norm_squared(query);
        assert(n * n > 0) by (nonlinear_arith)
            requires
                n > 0,
        ;
    }
    assert forall|j: int| 0 <= j < scores.len() implies (#[trigger] scores[j]).proper()
        && scores[j].at_most(scores[i]) by {
        lemma_similarity_at_most_one(entries[j].embedding, query);
        let (a, b, c) = (scores[j].num, scores[j].den, scores[i].den);
        assert(a * c <= c * b) by (nonlinear_arith)
            requires
                a <= b,
                c > 0,
        ;
    }
    lemma_ranking_starts_with_best(scores, k, order, i);
    let t = order[0] as int;
    let (a, b, c) = (scores[t].num, scores[t].den, scores[i].den);
    lemma_similarity_at_most_one(entries[t].embedding, query);
    assert(a == b) by (nonlinear_arith)
        requires
            a * c == c * b,
            c > 0,
    ;
}

} // verus!
