//! The two databases: each chunks documents by its strategy and fills its
//! index, one with embeddings and one with the chunks' text.

use vstd::prelude::*;
use crate::chunk::{Chunk, ChunkStrategy, ChunkView, Chunker, Document, DocumentView, chunk_views};
use crate::embedding::{Embedding, VectorSpace};
use crate::error::{ConfigurationError, EmbeddingError};
use crate::fuzzy::{FuzzyEntryView, FuzzyIndex, fuzzy_chunks, fuzzy_scores};
use crate::search::{SearchResult, is_search_result};
use crate::vector::{VectorEntryView, VectorIndex, entry_chunks, entry_scores};

verus! {

/// The capability that turns a text into an embedding of the space `S`. It
/// may fail, and nothing is known of what it returns.
pub trait Embedder<S: VectorSpace> {
    fn embed(&mut self, input: &str) -> Result<Embedding<S>, EmbeddingError>;
}

/// The views of a list of documents.
pub open spec fn document_views(documents: Seq<Document>) -> Seq<DocumentView> {
    Seq::new(documents.len(), |i: int| documents[i]@)
}

/// The chunks of a list of documents: those of the first document, then
/// those of the second, and so on.
pub open spec fn all_chunks(strategy: ChunkStrategy, documents: Seq<DocumentView>) -> Seq<ChunkView>
    decreases documents.len(),
{
    if documents.len() == 0 {
        Seq::empty()
    } else {
        all_chunks(strategy, documents.drop_last()) + strategy.chunks(documents.last())
    }
}

/// The chunks of the first `d` documents begin the chunks of them all.
pub proof fn lemma_all_chunks_take(strategy: ChunkStrategy, documents: Seq<DocumentView>, d: int)
    requires
        0 <= d <= documents.len(),
    ensures
        all_chunks(strategy, documents.take(d)).len() <= all_chunks(strategy, documents).len(),
        all_chunks(strategy, documents).take(all_chunks(strategy, documents.take(d)).len() as int)
            == all_chunks(strategy, documents.take(d)),
    decreases documents.len(),
{
    if d == documents.len() {
        assert(documents.take(d) =~= documents);
        assert(all_chunks(strategy, documents).take(all_chunks(strategy, documents).len() as int)
            =~= all_chunks(strategy, documents));
    } else {
        let shorter = documents.drop_last();
        lemma_all_chunks_take(strategy, shorter, d);
        assert(shorter.take(d) =~= documents.take(d));
        let part = all_chunks(strategy, documents.take(d));
        assert(all_chunks(strategy, documents).take(part.len() as int) =~= all_chunks(
            strategy,
            shorter,
        ).take(part.len() as int));
    }
}

/// The chunks of the first `d + 1` documents are those of the first `d` and
/// then those of document `d`.
pub proof fn lemma_all_chunks_step(strategy: ChunkStrategy, documents: Seq<DocumentView>, d: int)
    requires
        0 <= d < documents.len(),
    ensures
        all_chunks(strategy, documents.take(d + 1)) == all_chunks(strategy, documents.take(d))
            + strategy.chunks(documents[d]),
{
    assert(documents.take(d + 1).drop_last() =~= documents.take(d));
}

/// `after` is `before` with entries for the first chunks of `chunks` behind
/// it, in order: nothing that was stored has changed.
pub open spec fn grown_by(
    before: Seq<VectorEntryView>,
    after: Seq<VectorEntryView>,
    chunks: Seq<ChunkView>,
) -> bool {
    &&& before.len() <= after.len() <= before.len() + chunks.len()
    &&& after.take(before.len() as int) == before
    &&& entry_chunks(after).skip(before.len() as int) == chunks.take(after.len() - before.len())
}

/// The entries that a fuzzy database stores for a list of chunks: each chunk
/// with its own text.
pub open spec fn text_entries(chunks: Seq<ChunkView>) -> Seq<FuzzyEntryView> {
    Seq::new(chunks.len(), |i: int| FuzzyEntryView { chunk: chunks[i], text: chunks[i].text })
}

/// Documents chunked and embedded, searched by meaning.
pub struct DocumentDatabase<S: VectorSpace> {
    index: VectorIndex<S>,
    chunker: Chunker,
}

impl<S: VectorSpace> DocumentDatabase<S> {
    /// The stored entries, in order of insertion.
    pub closed spec fn entries(&self) -> Seq<VectorEntryView> {
        self.index@
    }

    /// The strategy by which documents are chunked.
    pub closed spec fn plan(&self) -> ChunkStrategy {
        self.chunker@
    }

    /// An empty database that chunks by `strategy`, where the strategy's
    /// parameters can be used.
    pub fn new(strategy: ChunkStrategy) -> (r: Result<Self, ConfigurationError>)
        ensures
            match strategy.defect() {
                None => r matches Ok(db) && db.plan() == strategy && db.entries()
                    == Seq::<VectorEntryView>::empty(),
                Some(e) => r matches Err(x) && x == e,
            },
    {
        match Chunker::new(strategy) {
            Ok(chunker) => Ok(DocumentDatabase { index: VectorIndex::new(), chunker }),
            Err(e) => Err(e),
        }
    }

    /// The strategy by which documents are chunked.
    pub fn strategy(&self) -> (s: ChunkStrategy)
        ensures
            s == self.plan(),
            s.valid(),
    {
        self.chunker.strategy()
    }

    /// Number of stored chunks.
    pub fn len(&self) -> (n: usize)
        ensures
            n == self.entries().len(),
    {
        self.index.len()
    }

    /// The chunk of entry `i`, if there is one.
    pub fn chunk(&self, i: usize) -> (c: Option<&Chunk>)
        ensures
            c is Some <==> i < self.entries().len(),
            c matches Some(chunk) ==> chunk@ == self.entries()[i as int].chunk,
    {
        self.index.chunk(i)
    }

    /// The chunks that `extend` makes of a document, in the order in which it
    /// embeds and stores them.
    pub fn chunks_of(&self, document: &Document) -> (chunks: Vec<Chunk>)
        ensures
            chunk_views(chunks@) == self.plan().chunks(document@),
    {
        self.chunker.chunk(document)
    }

    /// Takes what the embedding capability returned for a chunk: stores the
    /// chunk with its embedding, or hands the failure on and stores nothing.
    pub fn absorb(&mut self, chunk: Chunk, outcome: Result<Embedding<S>, EmbeddingError>) -> (r:
        Result<(), EmbeddingError>)
        ensures
            final(self).plan() == old(self).plan(),
            match outcome {
                Ok(embedding) => r is Ok && final(self).entries() == old(self).entries().push(
                    VectorEntryView { chunk: chunk@, embedding: embedding@ },
                ),
                Err(e) => r == Err::<(), EmbeddingError>(e) && final(self).entries() == old(
                    self,
                ).entries(),
            },
    {
        match outcome {
            Ok(embedding) => {
                self.index.insert(chunk, embedding);
                Ok(())
            },
            Err(e) => Err(e),
        }
    }

    /// Chunks each document, embeds each chunk and stores it, in order. The
    /// first failure of the embedding capability ends the call and is
    /// returned; the chunks before it stay stored.
    pub fn extend<E: Embedder<S>>(&mut self, embedder: &mut E, documents: &Vec<Document>) -> (r:
        Result<(), EmbeddingError>)
        ensures
            final(self).plan() == old(self).plan(),
            grown_by(
                old(self).entries(),
                final(self).entries(),
                all_chunks(old(self).plan(), document_views(documents@)),
            ),
            r is Ok <==> final(self).entries().len() == old(self).entries().len() + all_chunks(
                old(self).plan(),
                document_views(documents@),
            ).len(),
    {
        let ghost before = self.entries();
        let ghost plan = self.plan();
        let ghost docs = document_views(documents@);
        let ghost all = all_chunks(plan, docs);
        let mut d: usize = 0;
        assert(docs.take(0) =~= Seq::<DocumentView>::empty());
        assert(entry_chunks(before).skip(before.len() as int) =~= Seq::<ChunkView>::empty());
        assert(before.take(before.len() as int) =~= before);
        while d < documents.len()
            invariant
                d <= documents@.len(),
                docs == document_views(documents@),
                all == all_chunks(plan, docs),
                plan == self.plan(),
                plan == old(self).plan(),
                before == old(self).entries(),
                self.entries().len() == before.len() + all_chunks(plan, docs.take(d as int)).len(),
                self.entries().take(before.len() as int) == before,
                entry_chunks(self.entries()).skip(before.len() as int) == all_chunks(
                    plan,
                    docs.take(d as int),
                ),
            decreases documents@.len() - d,
        {
            let chunks = self.chunker.chunk(&documents[d]);
            let ghost pre = all_chunks(plan, docs.take(d as int));
            let ghost cur = plan.chunks(docs[d as int]);
            proof {
                lemma_all_chunks_step(plan, docs, d as int);
                lemma_all_chunks_take(plan, docs, d + 1);
                assert(cur.take(0) =~= Seq::<ChunkView>::empty());
                assert(pre + cur.take(0) =~= pre);
            }
            let mut c: usize = 0;
            while c < chunks.len()
                invariant
                    c <= chunks@.len(),
                    chunk_views(chunks@) == cur,
                    plan == self.plan(),
                    plan == old(self).plan(),
                    before == old(self).entries(),
                    docs == document_views(documents@),
                    all == all_chunks(plan, docs),
                    pre.len() + cur.len() <= all.len(),
                    all.take((pre.len() + cur.len()) as int) == pre + cur,
                    self.entries().len() == before.len() + pre.len() + c,
                    self.entries().take(before.len() as int) == before,
                    entry_chunks(self.entries()).skip(before.len() as int) == pre + cur.take(
                        c as int,
                    ),
                decreases chunks@.len() - c,
            {
                let chunk = chunks[c].clone();
                let ghost held = self.entries();
                let outcome = embedder.embed(chunk.text.as_str());
                match self.absorb(chunk, outcome) {
                    Ok(()) => {},
                    Err(e) => {
                        proof {
                            assert(all.take((pre.len() + c) as int) =~= pre + cur.take(c as int));
                        }
                        return Err(e);
                    },
                }
                proof {
                    let now = self.entries();
                    assert(chunk_views(chunks@)[c as int] == chunks@[c as int]@);
                    assert(now.take(before.len() as int) =~= held.take(before.len() as int));
                    assert(entry_chunks(now).skip(before.len() as int) =~= entry_chunks(held).skip(
                        before.len() as int,
                    ).push(cur[c as int]));
                    assert(pre + cur.take(c + 1) =~= (pre + cur.take(c as int)).push(cur[c as int]));
                }
                c = c + 1;
            }
            proof {
                assert(cur.take(cur.len() as int) =~= cur);
            }
            d = d + 1;
        }
        proof {
            assert(docs.take(docs.len() as int) =~= docs);
            assert(all.take(all.len() as int) =~= all);
        }
        Ok(())
    }

    /// The `k` chunks most similar to an embedded query, most similar first.
    pub fn search_embedding(&self, query: &Embedding<S>, k: usize) -> (results: Vec<SearchResult>)
        ensures
            is_search_result(
                entry_scores(self.entries(), query@),
                entry_chunks(self.entries()),
                k as nat,
                results@,
            ),
    {
        self.index.query(query, k)
    }

    /// Embeds the query and returns the `k` chunks most similar to it, most
    /// similar first. A failure to embed the query is returned as it is.
    pub fn search<E: Embedder<S>>(&self, embedder: &mut E, query: &str, k: usize) -> (r: Result<
        Vec<SearchResult>,
        EmbeddingError,
    >)
        ensures
            r matches Ok(results) ==> exists|embedded: Seq<i8>|
                is_search_result(
                    #[trigger] entry_scores(self.entries(), embedded),
                    entry_chunks(self.entries()),
                    k as nat,
                    results@,
                ),
    {
        let outcome = embedder.embed(query);
        let ghost given = outcome;
        let r = self.search_with(outcome, k);
        assert(r matches Ok(results) ==> is_search_result(
            entry_scores(self.entries(), given->Ok_0@),
            entry_chunks(self.entries()),
            k as nat,
            results@,
        ));
        r
    }

    /// Takes what the embedding capability returned for a query: returns the
    /// `k` chunks most similar to the embedding, most similar first, or hands
    /// the failure on.
    pub fn search_with(&self, outcome: Result<Embedding<S>, EmbeddingError>, k: usize) -> (r:
        Result<Vec<SearchResult>, EmbeddingError>)
        ensures
            match outcome {
                Ok(embedding) => r matches Ok(results) && is_search_result(
                    entry_scores(self.entries(), embedding@),
                    entry_chunks(self.entries()),
                    k as nat,
                    results@,
                ),
                Err(e) => r matches Err(x) && x == e,
            },
    {
        match outcome {
            Ok(embedding) => Ok(self.search_embedding(&embedding, k)),
            Err(e) => Err(e),
        }
    }
}

/// Documents chunked and stored by their text, searched by spelling.
pub struct FuzzySearchIndex {
    index: FuzzyIndex,
    chunker: Chunker,
}

impl FuzzySearchIndex {
    /// The stored entries, in order of insertion.
    pub closed spec fn entries(&self) -> Seq<FuzzyEntryView> {
        self.index@
    }

    /// The strategy by which documents are chunked.
    pub closed spec fn plan(&self) -> ChunkStrategy {
        self.chunker@
    }

    /// An empty index that chunks by `strategy`, where the strategy's
    /// parameters can be used.
    pub fn new(strategy: ChunkStrategy) -> (r: Result<Self, ConfigurationError>)
        ensures
            match strategy.defect() {
                None => r matches Ok(db) && db.plan() == strategy && db.entries()
                    == Seq::<FuzzyEntryView>::empty(),
                Some(e) => r matches Err(x) && x == e,
            },
    {
        match Chunker::new(strategy) {
            Ok(chunker) => Ok(FuzzySearchIndex { index: FuzzyIndex::new(), chunker }),
            Err(e) => Err(e),
        }
    }

    /// The strategy by which documents are chunked.
    pub fn strategy(&self) -> (s: ChunkStrategy)
        ensures
            s == self.plan(),
            s.valid(),
    {
        self.chunker.strategy()
    }

    /// Number of stored chunks.
    pub fn len(&self) -> (n: usize)
        ensures
            n == self.entries().len(),
    {
        self.index.len()
    }

    /// The chunk of entry `i`, if there is one.
    pub fn chunk(&self, i: usize) -> (c: Option<&Chunk>)
        ensures
            c is Some <==> i < self.entries().len(),
            c matches Some(chunk) ==> chunk@ == self.entries()[i as int].chunk,
    {
        self.index.chunk(i)
    }

    /// The chunks that `extend` makes of a document, in the order in which it
    /// stores them.
    pub fn chunks_of(&self, document: &Document) -> (chunks: Vec<Chunk>)
        ensures
            chunk_views(chunks@) == self.plan().chunks(document@),
    {
        self.chunker.chunk(document)
    }

    /// Chunks each document and stores each chunk with its text, in order.
    /// It cannot fail.
    pub fn extend(&mut self, documents: &Vec<Document>) -> (r: Result<(), ConfigurationError>)
        ensures
            r is Ok,
            final(self).plan() == old(self).plan(),
            final(self).entries() == old(self).entries() + text_entries(
                all_chunks(old(self).plan(), document_views(documents@)),
            ),
    {
        let ghost before = self.entries();
        let ghost plan = self.plan();
        let ghost docs = document_views(documents@);
        let mut d: usize = 0;
        assert(docs.take(0) =~= Seq::<DocumentView>::empty());
        assert(before + text_entries(all_chunks(plan, docs.take(0))) =~= before);
        while d < documents.len()
            invariant
                d <= documents@.len(),
                docs == document_views(documents@),
                plan == self.plan(),
                self.entries() == before + text_entries(all_chunks(plan, docs.take(d as int))),
            decreases documents@.len() - d,
        {
            let chunks = self.chunker.chunk(&documents[d]);
            let ghost pre = all_chunks(plan, docs.take(d as int));
            let ghost cur = plan.chunks(docs[d as int]);
            proof {
                lemma_all_chunks_step(plan, docs, d as int);
                assert(pre + cur.take(0) =~= pre);
            }
            let mut c: usize = 0;
            while c < chunks.len()
                invariant
                    c <= chunks@.len(),
                    chunk_views(chunks@) == cur,
                    plan == self.plan(),
                    self.entries() == before + text_entries(pre + cur.take(c as int)),
                decreases chunks@.len() - c,
            {
                let chunk = chunks[c].clone();
                let ghost held = self.entries();
                let text = chunk.text.clone();
                self.index.insert(chunk, text.as_str());
                proof {
                    assert(chunk_views(chunks@)[c as int] == chunks@[c as int]@);
                    assert(pre + cur.take(c + 1) =~= (pre + cur.take(c as int)).push(cur[c as int]));
                    assert(self.entries() =~= before + text_entries(pre + cur.take(c + 1)));
                }
                c = c + 1;
            }
            proof {
                assert(cur.take(cur.len() as int) =~= cur);
            }
            d = d + 1;
        }
        proof {
            assert(docs.take(docs.len() as int) =~= docs);
        }
        Ok(())
    }

    /// The `k` chunks whose text is most similar to the query, most similar
    /// first.
    pub fn search(&self, query: &str, k: usize) -> (results: Vec<SearchResult>)
        ensures
            is_search_result(
                fuzzy_scores(self.entries(), query@),
                fuzzy_chunks(self.entries()),
                k as nat,
                results@,
            ),
    {
        self.index.query(query, k)
    }
}

} // verus!
