//! Documents, and their division into overlapping windows of sentences.

use vstd::prelude::*;
use vstd::arithmetic::div_mod::{lemma_fundamental_div_mod, lemma_mod_pos_bound};
use crate::error::ConfigurationError;
use crate::text::{chars_of, is_terminator, is_whitespace, slice_text, terminator, whitespace};

verus! {

/// One input text with its identifier.
#[derive(Debug)]
pub struct Document {
    pub id: u64,
    pub text: String,
}

/// What a document is: its identifier and its characters.
pub struct DocumentView {
    pub id: u64,
    pub text: Seq<char>,
}

impl View for Document {
    type V = DocumentView;

    open spec fn view(&self) -> DocumentView {
        DocumentView { id: self.id, text: self.text@ }
    }
}

impl Document {
    pub fn new(id: u64, text: &str) -> (d: Document)
        ensures
            d@ == (DocumentView { id, text: text@ }),
    {
        Document { id, text: text.to_owned() }
    }
}

/// A contiguous piece of a document: the characters `start..end` of its text.
#[derive(Debug)]
pub struct Chunk {
    pub document: u64,
    pub start: usize,
    pub end: usize,
    pub text: String,
}

/// What a chunk is: its document, its extent there, and its characters.
pub struct ChunkView {
    pub document: u64,
    pub start: int,
    pub end: int,
    pub text: Seq<char>,
}

impl View for Chunk {
    type V = ChunkView;

    open spec fn view(&self) -> ChunkView {
        ChunkView {
            document: self.document,
            start: self.start as int,
            end: self.end as int,
            text: self.text@,
        }
    }
}

impl Clone for Chunk {
    fn clone(&self) -> (c: Self)
        ensures
            c == *self,
    {
        Chunk { document: self.document, start: self.start, end: self.end, text: self.text.clone() }
    }
}

/// The views of a list of chunks.
pub open spec fn chunk_views(chunks: Seq<Chunk>) -> Seq<ChunkView> {
    Seq::new(chunks.len(), |i: int| chunks[i]@)
}

/// The characters `start..end` of a text.
#[derive(Clone, Copy, Debug, PartialEq, Eq, Structural)]
pub struct Span {
    pub start: usize,
    pub end: usize,
}

/// The extents of a list of spans.
pub open spec fn span_pairs(spans: Seq<Span>) -> Seq<(int, int)> {
    Seq::new(spans.len(), |i: int| (spans[i].start as int, spans[i].end as int))
}

/// A sentence may end just before position `p`: the character before is a
/// terminator, and the text ends there or goes on with whitespace.
pub open spec fn is_break(text: Seq<char>, p: int) -> bool {
    &&& 0 < p <= text.len()
    &&& is_terminator(text[p - 1])
    &&& (p == text.len() || is_whitespace(text[p]))
}

/// The first position at or after `i` that holds no whitespace.
pub open spec fn skip_whitespace(text: Seq<char>, i: int) -> int
    decreases text.len() - i,
{
    if 0 <= i < text.len() && is_whitespace(text[i]) {
        skip_whitespace(text, i + 1)
    } else {
        i
    }
}

/// Where the sentence that holds position `i` ends: at the first break after
/// `i`, or with the text.
pub open spec fn sentence_end(text: Seq<char>, i: int) -> int
    decreases text.len() - i,
{
    if i + 1 >= text.len() {
        text.len() as int
    } else if is_break(text, i + 1) {
        i + 1
    } else {
        sentence_end(text, i + 1)
    }
}

/// The sentences that begin at or after position `i`, as `(start, end)`.
pub open spec fn sentences_from(text: Seq<char>, i: int) -> Seq<(int, int)>
    decreases text.len() - i,
{
    let start = skip_whitespace(text, i);
    let end = sentence_end(text, start);
    if 0 <= i <= start && start < end <= text.len() {
        seq![(start, end)] + sentences_from(text, end)
    } else {
        Seq::empty()
    }
}

/// The sentences of a text, in order. A sentence starts at the first
/// character after the previous one that is no whitespace, and runs to the
/// next break; text after the last break is a sentence too.
pub open spec fn sentences(text: Seq<char>) -> Seq<(int, int)> {
    sentences_from(text, 0)
}

/// Skipping whitespace moves forward only, and stops inside the text on a
/// character that is none.
pub proof fn lemma_skip_whitespace(text: Seq<char>, i: int)
    requires
        0 <= i,
    ensures
        i <= skip_whitespace(text, i),
        i <= text.len() ==> skip_whitespace(text, i) <= text.len(),
        skip_whitespace(text, i) < text.len() ==> !is_whitespace(text[skip_whitespace(text, i)]),
    decreases text.len() - i,
{
    if i < text.len() && is_whitespace(text[i]) {
        lemma_skip_whitespace(text, i + 1);
    }
}

/// A sentence ends after the position it holds, within the text.
pub proof fn lemma_sentence_end(text: Seq<char>, i: int)
    requires
        0 <= i < text.len(),
    ensures
        i < sentence_end(text, i) <= text.len(),
    decreases text.len() - i,
{
    if i + 1 < text.len() && !is_break(text, i + 1) {
        lemma_sentence_end(text, i + 1);
    }
}

/// Sentences are non-empty, lie within the text, start on a character that is
/// no whitespace, and follow each other without overlap.
pub proof fn lemma_sentences_ordered(text: Seq<char>, i: int)
    requires
        0 <= i,
    ensures
        forall|k: int|
            0 <= k < sentences_from(text, i).len() ==> {
                &&& i <= (#[trigger] sentences_from(text, i)[k]).0
                &&& sentences_from(text, i)[k].0 < sentences_from(text, i)[k].1
                &&& sentences_from(text, i)[k].1 <= text.len()
                &&& !is_whitespace(text[sentences_from(text, i)[k].0])
            },
        forall|k1: int, k2: int|
            0 <= k1 < k2 < sentences_from(text, i).len() ==> (#[trigger] sentences_from(
                text,
                i,
            )[k1]).1 <= (#[trigger] sentences_from(text, i)[k2]).0,
    decreases text.len() - i,
{
    let start = skip_whitespace(text, i);
    let end = sentence_end(text, start);
    lemma_skip_whitespace(text, i);
    if start < text.len() {
        lemma_sentence_end(text, start);
        lemma_sentences_ordered(text, end);
        let all = sentences_from(text, i);
        let rest = sentences_from(text, end);
        assert(all == seq![(start, end)] + rest);
        assert forall|k: int| 0 <= k < all.len() implies {
            &&& i <= (#[trigger] all[k]).0
            &&& all[k].0 < all[k].1
            &&& all[k].1 <= text.len()
            &&& !is_whitespace(text[all[k].0])
        } by {
            if k > 0 {
                assert(all[k] == rest[k - 1]);
            }
        }
        assert forall|k1: int, k2: int| 0 <= k1 < k2 < all.len() implies (#[trigger] all[k1]).1 <= (
        #[trigger] all[k2]).0 by {
            assert(all[k2] == rest[k2 - 1]);
            if k1 > 0 {
                assert(all[k1] == rest[k1 - 1]);
            }
        }
    }
}

/// The sentences of `text`, in order.
pub fn split_sentences(text: &Vec<char>) -> (spans: Vec<Span>)
    ensures
        span_pairs(spans@) == sentences(text@),
        forall|k: int|
            0 <= k < spans@.len() ==> (#[trigger] spans@[k]).start < spans@[k].end <= text@.len(),
        forall|k1: int, k2: int|
            0 <= k1 < k2 < spans@.len() ==> (#[trigger] spans@[k1]).end <= (
            #[trigger] spans@[k2]).start,
{
    let n = text.len();
    let mut spans: Vec<Span> = Vec::new();
    let mut pos: usize = 0;
    assert(span_pairs(spans@) + sentences_from(text@, 0) =~= sentences(text@));
    while pos < n
        invariant
            n == text@.len(),
            pos <= n,
            sentences(text@) == span_pairs(spans@) + sentences_from(text@, pos as int),
            forall|k: int|
                0 <= k < spans@.len() ==> (#[trigger] spans@[k]).start < spans@[k].end <= pos,
            forall|k1: int, k2: int|
                0 <= k1 < k2 < spans@.len() ==> (#[trigger] spans@[k1]).end <= (
                #[trigger] spans@[k2]).start,
        decreases n - pos,
    {
        let mut start: usize = pos;
        while start < n && whitespace(text[start])
            invariant
                n == text@.len(),
                pos <= start <= n,
                skip_whitespace(text@, start as int) == skip_whitespace(text@, pos as int),
            decreases n - start,
        {
            start = start + 1;
        }
        assert(skip_whitespace(text@, pos as int) == start);
        if start < n {
            let mut i: usize = start;
            while i + 1 < n && !(terminator(text[i]) && whitespace(text[i + 1]))
                invariant
                    n == text@.len(),
                    start <= i < n,
                    sentence_end(text@, i as int) == sentence_end(text@, start as int),
                decreases n - i,
            {
                i = i + 1;
            }
            let end: usize = i + 1;
            assert(sentence_end(text@, start as int) == end);
            let ghost before = spans@;
            spans.push(Span { start, end });
            proof {
                let rest = sentences_from(text@, end as int);
                assert(sentences_from(text@, pos as int) == seq![(start as int, end as int)] + rest);
                assert(span_pairs(spans@) =~= span_pairs(before) + seq![(start as int, end as int)]);
                assert(span_pairs(spans@) + rest =~= span_pairs(before) + (seq![
                    (start as int, end as int),
                ] + rest));
            }
            pos = end;
        } else {
            assert(sentences_from(text@, pos as int) =~= Seq::empty());
            assert(sentences_from(text@, n as int) =~= Seq::empty());
            pos = n;
        }
    }
    assert(sentences_from(text@, n as int) =~= Seq::empty());
    assert(span_pairs(spans@) + Seq::<(int, int)>::empty() =~= span_pairs(spans@));
    spans
}

/// Number of windows of `n` sentences that overlap by `o` over `s`
/// sentences: none over no sentence, one where the overlap already holds
/// them all, else one for each stride of `n - o` that brings a new sentence.
pub open spec fn window_count(s: int, n: int, o: int) -> int {
    if s <= 0 {
        0
    } else if s <= o {
        1
    } else {
        (s - o + (n - o) - 1) / (n - o)
    }
}

/// Index of the first sentence of window `j`.
pub open spec fn window_first(j: int, n: int, o: int) -> int {
    j * (n - o)
}

/// Index after the last sentence of window `j`: the window is cut where the
/// sentences end.
pub open spec fn window_end(j: int, s: int, n: int, o: int) -> int {
    if window_first(j, n, o) + n <= s {
        window_first(j, n, o) + n
    } else {
        s
    }
}

/// Window `j` is among the windows exactly if it is the first, or if it holds
/// a sentence beyond those it shares with the window before.
pub proof fn lemma_window_exists(s: int, n: int, o: int, j: int)
    requires
        0 <= o < n,
        0 < s,
        0 <= j,
    ensures
        j < window_count(s, n, o) <==> (j == 0 || window_first(j, n, o) + o < s),
{
    let d = n - o;
    if s <= o {
        if j >= 1 {
            assert(j * d >= 0) by (nonlinear_arith)
                requires
                    j >= 1,
                    d >= 1,
            ;
        }
    } else {
        let x = s - o + d - 1;
        let q = x / d;
        lemma_fundamental_div_mod(x, d);
        lemma_mod_pos_bound(x, d);
        assert(d * q <= x < d * q + d);
        if j < q {
            assert(j * d <= d * q - d) by (nonlinear_arith)
                requires
                    j <= q - 1,
                    d >= 1,
            ;
        } else {
            assert(j * d >= d * q) by (nonlinear_arith)
                requires
                    j >= q,
                    d >= 1,
            ;
            if j == 0 {
                assert(d * q <= 0) by (nonlinear_arith)
                    requires
                        q <= 0,
                        d >= 1,
                ;
            }
        }
    }
}

/// A window that has a successor is full, and shares exactly `o` sentences
/// with it.
pub proof fn lemma_consecutive_windows_overlap(s: int, n: int, o: int, j: int)
    requires
        0 <= o < n,
        0 <= j,
        j + 1 < window_count(s, n, o),
    ensures
        window_end(j, s, n, o) == window_first(j, n, o) + n,
        window_end(j, s, n, o) - window_first(j + 1, n, o) == o,
{
    lemma_window_exists(s, n, o, j + 1);
    assert((j + 1) * (n - o) == j * (n - o) + (n - o)) by (nonlinear_arith);
}

/// Every sentence lies in some window.
pub proof fn lemma_windows_cover(s: int, n: int, o: int, t: int)
    requires
        0 <= o < n,
        0 <= t < s,
    ensures
        exists|j: int|
            0 <= j < window_count(s, n, o) && #[trigger] window_first(j, n, o) <= t < window_end(
                j,
                s,
                n,
                o,
            ),
{
    let d = n - o;
    let j0 = t / d;
    lemma_fundamental_div_mod(t, d);
    lemma_mod_pos_bound(t, d);
    assert(d * j0 <= t < d * j0 + d);
    assert(j0 >= 0) by (nonlinear_arith)
        requires
            d * j0 + d > 0,
            d >= 1,
    ;
    let count = window_count(s, n, o);
    lemma_window_exists(s, n, o, 0);
    if j0 < count {
        assert(j0 * d == d * j0) by (nonlinear_arith);
        assert(window_first(j0, n, o) <= t < window_end(j0, s, n, o));
    } else {
        let j = count - 1;
        lemma_window_exists(s, n, o, j + 1);
        assert((j + 1) * d == j * d + d) by (nonlinear_arith);
        assert(j * d <= d * j0) by (nonlinear_arith)
            requires
                0 <= j <= j0,
                d >= 1,
        ;
        assert(window_first(j, n, o) <= t < window_end(j, s, n, o));
    }
}

/// The chunk that window `j` of the sentences `sents` makes of a document.
pub open spec fn window_chunk(
    doc: DocumentView,
    sents: Seq<(int, int)>,
    n: int,
    o: int,
    j: int,
) -> ChunkView {
    let start = sents[window_first(j, n, o)].0;
    let end = sents[window_end(j, sents.len() as int, n, o) - 1].1;
    ChunkView { document: doc.id, start, end, text: doc.text.subrange(start, end) }
}

/// The chunks of a document under windows of `n` sentences that overlap by
/// `o`, in document order.
pub open spec fn sentence_windows(doc: DocumentView, n: int, o: int) -> Seq<ChunkView> {
    let sents = sentences(doc.text);
    Seq::new(
        window_count(sents.len() as int, n, o) as nat,
        |j: int| window_chunk(doc, sents, n, o, j),
    )
}

/// How a document is split into chunks.
#[derive(Clone, Copy, Debug, PartialEq, Eq, Structural)]
pub enum ChunkStrategy {
    /// Windows of `sentence_count` consecutive sentences, each sharing
    /// `overlap` sentences with the one before.
    Sentence { sentence_count: usize, overlap: usize },
}

impl ChunkStrategy {
    /// What is wrong with the strategy's parameters, if anything.
    pub open spec fn defect(self) -> Option<ConfigurationError> {
        match self {
            ChunkStrategy::Sentence { sentence_count, overlap } => if sentence_count == 0 {
                Some(ConfigurationError::ZeroSentenceCount)
            } else if overlap >= sentence_count {
                Some(ConfigurationError::OverlapTooLarge)
            } else {
                None
            },
        }
    }

    /// The window holds a sentence, and advances.
    pub open spec fn valid(self) -> bool {
        self.defect() is None
    }

    /// The chunks that the strategy makes of a document.
    pub open spec fn chunks(self, doc: DocumentView) -> Seq<ChunkView> {
        match self {
            ChunkStrategy::Sentence { sentence_count, overlap } => sentence_windows(
                doc,
                sentence_count as int,
                overlap as int,
            ),
        }
    }

    /// Sentence windows, where the parameters allow them.
    pub fn sentence(sentence_count: usize, overlap: usize) -> (r: Result<
        ChunkStrategy,
        ConfigurationError,
    >)
        ensures
            r == match (ChunkStrategy::Sentence { sentence_count, overlap }).defect() {
                None => Ok::<ChunkStrategy, ConfigurationError>(
                    ChunkStrategy::Sentence { sentence_count, overlap },
                ),
                Some(e) => Err(e),
            },
    {
        let strategy = ChunkStrategy::Sentence { sentence_count, overlap };
        match strategy.validate() {
            Ok(()) => Ok(strategy),
            Err(e) => Err(e),
        }
    }

    /// Checks the parameters.
    pub fn validate(&self) -> (r: Result<(), ConfigurationError>)
        ensures
            r == match self.defect() {
                None => Ok::<(), ConfigurationError>(()),
                Some(e) => Err(e),
            },
    {
        match self {
            ChunkStrategy::Sentence { sentence_count, overlap } => {
                if *sentence_count == 0 {
                    Err(ConfigurationError::ZeroSentenceCount)
                } else if *overlap >= *sentence_count {
                    Err(ConfigurationError::OverlapTooLarge)
                } else {
                    Ok(())
                }
            },
        }
    }

    /// Splits a document into chunks, in document order. Parameters that
    /// cannot be used are reported before the document is looked at.
    pub fn chunk(&self, document: &Document) -> (r: Result<Vec<Chunk>, ConfigurationError>)
        ensures
            match self.defect() {
                None => r matches Ok(chunks) && chunk_views(chunks@) == self.chunks(document@),
                Some(e) => r == Err::<Vec<Chunk>, ConfigurationError>(e),
            },
    {
        match self.validate() {
            Err(e) => Err(e),
            Ok(()) => {
                match self {
                    ChunkStrategy::Sentence { sentence_count, overlap } => Ok(
                        chunk_sentences(document, *sentence_count, *overlap),
                    ),
                }
            },
        }
    }
}

/// Splits documents by a strategy whose parameters were checked when the
/// chunker was made.
#[derive(Clone, Copy, Debug)]
pub struct Chunker {
    strategy: ChunkStrategy,
}

impl View for Chunker {
    type V = ChunkStrategy;

    closed spec fn view(&self) -> ChunkStrategy {
        self.strategy
    }
}

impl Chunker {
    #[verifier::type_invariant]
    spec fn inv(self) -> bool {
        self.strategy.valid()
    }

    /// A chunker for `strategy`, where the strategy's parameters can be used.
    pub fn new(strategy: ChunkStrategy) -> (r: Result<Chunker, ConfigurationError>)
        ensures
            match strategy.defect() {
                None => r matches Ok(chunker) && chunker@ == strategy,
                Some(e) => r matches Err(x) && x == e,
            },
    {
        match strategy.validate() {
            Ok(()) => Ok(Chunker { strategy }),
            Err(e) => Err(e),
        }
    }

    /// The strategy.
    pub fn strategy(&self) -> (s: ChunkStrategy)
        ensures
            s == self@,
            s.valid(),
    {
        proof {
            use_type_invariant(self);
        }
        self.strategy
    }

    /// Splits a document into chunks, in document order.
    pub fn chunk(&self, document: &Document) -> (chunks: Vec<Chunk>)
        ensures
            chunk_views(chunks@) == self@.chunks(document@),
            self@.valid(),
    {
        proof {
            use_type_invariant(self);
        }
        match self.strategy {
            ChunkStrategy::Sentence { sentence_count, overlap } => chunk_sentences(
                document,
                sentence_count,
                overlap,
            ),
        }
    }
}

/// The chunks of a document under windows of `sentence_count` sentences that
/// overlap by `overlap`.
pub(crate) fn chunk_sentences(
    document: &Document,
    sentence_count: usize,
    overlap: usize,
) -> (chunks: Vec<Chunk>)
    requires
        overlap < sentence_count,
    ensures
        chunk_views(chunks@) == sentence_windows(document@, sentence_count as int, overlap as int),
{
    let chars = chars_of(document.text.as_str());
    let spans = split_sentences(&chars);
    let s = spans.len();
    let stride = sentence_count - overlap;
    let ghost doc = document@;
    let ghost sents = sentences(doc.text);
    let ghost n = sentence_count as int;
    let ghost o = overlap as int;
    let ghost count = window_count(s as int, n, o);
    let mut chunks: Vec<Chunk> = Vec::new();
    let mut first: usize = 0;
    proof {
        if s > 0 {
            lemma_window_exists(s as int, n, o, 0);
        }
        assert(0 * (n - o) == 0) by (nonlinear_arith);
    }
    while first < s
        invariant
            s == spans@.len(),
            first <= s,
            overlap < sentence_count,
            stride == sentence_count - overlap,
            n == sentence_count as int,
            o == overlap as int,
            doc == document@,
            chars@ == doc.text,
            sents == sentences(doc.text),
            span_pairs(spans@) == sents,
            count == window_count(s as int, n, o),
            forall|k: int|
                0 <= k < spans@.len() ==> (#[trigger] spans@[k]).start < spans@[k].end
                    <= chars@.len(),
            forall|k1: int, k2: int|
                0 <= k1 < k2 < spans@.len() ==> (#[trigger] spans@[k1]).end <= (
                #[trigger] spans@[k2]).start,
            first < s ==> chunks@.len() < count && first == window_first(chunks@.len() as int, n, o),
            first >= s ==> chunks@.len() == count,
            forall|j: int|
                0 <= j < chunks@.len() ==> (#[trigger] chunks@[j])@ == window_chunk(
                    doc,
                    sents,
                    n,
                    o,
                    j,
                ),
        decreases s - first,
    {
        let ghost j = chunks@.len() as int;
        let full = s - first > sentence_count;
        let last: usize = if full {
            first + sentence_count
        } else {
            s
        };
        assert(last == window_end(j, s as int, n, o));
        let start = spans[first].start;
        let end = spans[last - 1].end;
        assert(spans@[first as int].end <= spans@[last - 1].start || first == last - 1);
        assert(sents[first as int] == (start as int, spans@[first as int].end as int));
        assert(sents[last - 1] == (spans@[last - 1].start as int, end as int));
        let text = slice_text(&document.text, start, end);
        let chunk = Chunk { document: document.id, start, end, text };
        assert(chunk@ == window_chunk(doc, sents, n, o, j));
        chunks.push(chunk);
        proof {
            lemma_window_exists(s as int, n, o, j + 1);
            assert((j + 1) * (n - o) == j * (n - o) + (n - o)) by (nonlinear_arith);
        }
        if full {
            first = first + stride;
        } else {
            first = s;
        }
    }
    assert(chunk_views(chunks@) =~= sentence_windows(doc, n, o));
    chunks
}

/// Every chunk is a piece of its document: it names the document, lies within
/// its text, is not empty, and holds exactly the characters of its extent.
pub proof fn lemma_chunk_within_document(doc: DocumentView, n: int, o: int, j: int)
    requires
        0 <= o < n,
        0 <= j < sentence_windows(doc, n, o).len(),
    ensures
        sentence_windows(doc, n, o)[j].document == doc.id,
        0 <= sentence_windows(doc, n, o)[j].start < sentence_windows(doc, n, o)[j].end
            <= doc.text.len(),
        sentence_windows(doc, n, o)[j].text == doc.text.subrange(
            sentence_windows(doc, n, o)[j].start,
            sentence_windows(doc, n, o)[j].end,
        ),
{
    let sents = sentences(doc.text);
    let s = sents.len() as int;
    lemma_sentences_ordered(doc.text, 0);
    lemma_window_bounds(s, n, o, j);
    let a = window_first(j, n, o);
    let b = window_end(j, s, n, o);
    if a < b - 1 {
        assert(sents[a].1 <= sents[b - 1].0);
    }
}

/// A window holds at least one sentence, and only sentences that exist.
pub proof fn lemma_window_bounds(s: int, n: int, o: int, j: int)
    requires
        0 <= o < n,
        0 <= j < window_count(s, n, o),
    ensures
        0 <= window_first(j, n, o) < window_end(j, s, n, o) <= s,
        window_end(j, s, n, o) - window_first(j, n, o) <= n,
{
    lemma_window_exists(s, n, o, j);
    assert(j * (n - o) >= 0) by (nonlinear_arith)
        requires
            j >= 0,
            n - o >= 1,
    ;
}

/// Every sentence of a document lies within some chunk of it.
pub proof fn lemma_chunks_cover_sentences(doc: DocumentView, n: int, o: int, t: int)
    requires
        0 <= o < n,
        0 <= t < sentences(doc.text).len(),
    ensures
        exists|j: int|
            0 <= j < sentence_windows(doc, n, o).len() && (#[trigger] sentence_windows(
                doc,
                n,
                o,
            )[j]).start <= sentences(doc.text)[t].0 && sentences(doc.text)[t].1
                <= sentence_windows(doc, n, o)[j].end,
{
    let sents = sentences(doc.text);
    let s = sents.len() as int;
    lemma_windows_cover(s, n, o, t);
    let j = choose|j: int|
        0 <= j < window_count(s, n, o) && #[trigger] window_first(j, n, o) <= t < window_end(
            j,
            s,
            n,
            o,
        );
    lemma_sentences_ordered(doc.text, 0);
    let a = window_first(j, n, o);
    let b = window_end(j, s, n, o);
    let c = sentence_windows(doc, n, o)[j];
    assert(c == window_chunk(doc, sents, n, o, j));
    if a < t {
        assert(sents[a].1 <= sents[t].0);
    }
    if t < b - 1 {
        assert(sents[t].1 <= sents[b - 1].0);
    }
    assert(c.start <= sents[t].0 && sents[t].1 <= c.end);
}

} // verus!
