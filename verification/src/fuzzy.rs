//! The fuzzy index: chunks with their text, searched by edit distance.

use vstd::prelude::*;
use crate::chunk::{Chunk, ChunkView};
use crate::rank::{is_ranking, lemma_ranking_starts_with_best, values};
use crate::score::{Ratio, Score};
use crate::search::{SearchResult, borrowed_views, is_search_result, rank_chunks};
use crate::text::chars_of;

verus! {

/// The least of three numbers.
pub open spec fn min3(x: nat, y: nat, z: nat) -> nat {
    if x <= y && x <= z {
        x
    } else if y <= z {
        y
    } else {
        z
    }
}

/// Levenshtein distance: the least number of characters to delete, insert or
/// replace to turn `a` into `b`.
pub open spec fn edit_distance(a: Seq<char>, b: Seq<char>) -> nat
    decreases a.len() + b.len(),
{
    if a.len() == 0 {
        b.len()
    } else if b.len() == 0 {
        a.len()
    } else {
        min3(
            edit_distance(a.drop_last(), b) + 1,
            edit_distance(a, b.drop_last()) + 1,
            edit_distance(a.drop_last(), b.drop_last()) + if a.last() == b.last() {
                0nat
            } else {
                1nat
            },
        )
    }
}

/// The longer of two lengths.
pub open spec fn longer(a: Seq<char>, b: Seq<char>) -> nat {
    if a.len() >= b.len() {
        a.len()
    } else {
        b.len()
    }
}

/// Lexical similarity of a query and a text, from 0 for nothing in common to
/// 1 for equal: the share of the longer one's characters that need no edit.
pub open spec fn fuzzy_similarity(query: Seq<char>, text: Seq<char>) -> Ratio {
    let m = longer(query, text);
    if m == 0 {
        Ratio { num: 1, den: 1 }
    } else {
        Ratio { num: m - edit_distance(query, text), den: m as int }
    }
}

/// The distance is at most the longer length.
pub proof fn lemma_edit_distance_bound(a: Seq<char>, b: Seq<char>)
    ensures
        edit_distance(a, b) <= longer(a, b),
    decreases a.len() + b.len(),
{
    if a.len() > 0 && b.len() > 0 {
        lemma_edit_distance_bound(a.drop_last(), b.drop_last());
    }
}

/// A text is at distance zero from itself.
pub proof fn lemma_edit_distance_self(a: Seq<char>)
    ensures
        edit_distance(a, a) == 0,
    decreases a.len(),
{
    if a.len() > 0 {
        lemma_edit_distance_self(a.drop_last());
    }
}

/// Only equal texts are at distance zero.
pub proof fn lemma_edit_distance_zero(a: Seq<char>, b: Seq<char>)
    requires
        edit_distance(a, b) == 0,
    ensures
        a == b,
    decreases a.len() + b.len(),
{
    if a.len() == 0 || b.len() == 0 {
        assert(a =~= b);
    } else {
        lemma_edit_distance_zero(a.drop_last(), b.drop_last());
        assert(a =~= a.drop_last().push(a.last()));
        assert(b =~= b.drop_last().push(b.last()));
    }
}

/// The distance does not depend on the order of the texts.
pub proof fn lemma_edit_distance_symmetric(a: Seq<char>, b: Seq<char>)
    ensures
        edit_distance(a, b) == edit_distance(b, a),
    decreases a.len() + b.len(),
{
    if a.len() > 0 && b.len() > 0 {
        lemma_edit_distance_symmetric(a.drop_last(), b);
        lemma_edit_distance_symmetric(a, b.drop_last());
        lemma_edit_distance_symmetric(a.drop_last(), b.drop_last());
    }
}

/// A query equal to a text scores one against it; no query scores higher,
/// and any other query scores lower.
pub proof fn lemma_exact_text_scores_highest(query: Seq<char>, text: Seq<char>)
    ensures
        fuzzy_similarity(text, text).is_one(),
        fuzzy_similarity(query, text).proper(),
        0 <= fuzzy_similarity(query, text).num <= fuzzy_similarity(query, text).den,
        fuzzy_similarity(query, text).at_most(fuzzy_similarity(text, text)),
        query != text ==> !fuzzy_similarity(text, text).at_most(fuzzy_similarity(query, text)),
        fuzzy_similarity(query, text).is_one() <==> query == text,
{
    lemma_edit_distance_self(text);
    lemma_edit_distance_bound(query, text);
    let q = fuzzy_similarity(query, text);
    let t = fuzzy_similarity(text, text);
    if query != text {
        if edit_distance(query, text) == 0 {
            lemma_edit_distance_zero(query, text);
        }
        assert(q.num < q.den);
    }
    let (a, b, c) = (q.num, q.den, t.den);
    assert(t.num == c && c > 0);
    assert(a * c <= c * b) by (nonlinear_arith)
        requires
            a <= b,
            c > 0,
    ;
    if a < b {
        assert(a * c < c * b) by (nonlinear_arith)
            requires
                a < b,
                c > 0,
        ;
    }
}

/// The edit distance between two texts.
pub fn edit_distance_of(a: &Vec<char>, b: &Vec<char>) -> (d: usize)
    ensures
        d == edit_distance(a@, b@),
{
    let n = a.len();
    let m = b.len();
    if m == 0 {
        return n;
    }
    let mut row: Vec<usize> = Vec::new();
    let mut j: usize = 0;
    while j < m
        invariant
            j <= m,
            m == b@.len(),
            row@.len() == j,
            forall|t: int|
                0 <= t < j ==> #[trigger] row@[t] == edit_distance(a@.take(0), b@.take(t + 1)),
        decreases m - j,
    {
        row.push(j + 1);
        j = j + 1;
    }
    let mut i: usize = 0;
    while i < n
        invariant
            i <= n,
            n == a@.len(),
            m == b@.len(),
            m > 0,
            row@.len() == m,
            forall|t: int|
                0 <= t < m ==> #[trigger] row@[t] == edit_distance(a@.take(i as int), b@.take(t + 1)),
        decreases n - i,
    {
        let mut diag: usize = i;
        let mut left: usize = i + 1;
        let mut j: usize = 0;
        assert(b@.take(0).len() == 0);
        while j < m
            invariant
                j <= m,
                i < n,
                n == a@.len(),
                m == b@.len(),
                row@.len() == m,
                diag == edit_distance(a@.take(i as int), b@.take(j as int)),
                left == edit_distance(a@.take(i + 1), b@.take(j as int)),
                forall|t: int|
                    0 <= t < j ==> #[trigger] row@[t] == edit_distance(
                        a@.take(i + 1),
                        b@.take(t + 1),
                    ),
                forall|t: int|
                    j <= t < m ==> #[trigger] row@[t] == edit_distance(
                        a@.take(i as int),
                        b@.take(t + 1),
                    ),
            decreases m - j,
        {
            let up = row[j];
            let cost: usize = if a[i] == b[j] {
                0
            } else {
                1
            };
            proof {
                lemma_edit_distance_bound(a@.take(i as int), b@.take(j as int));
                assert(a@.take(i + 1).drop_last() =~= a@.take(i as int));
                assert(b@.take(j + 1).drop_last() =~= b@.take(j as int));
                assert(a@.take(i + 1).last() == a@[i as int]);
                assert(b@.take(j + 1).last() == b@[j as int]);
            }
            let mut best: usize = diag + cost;
            if up < best {
                best = up + 1;
            }
            if left < best {
                best = left + 1;
            }
            assert(best == edit_distance(a@.take(i + 1), b@.take(j + 1)));
            row.set(j, best);
            diag = up;
            left = best;
            j = j + 1;
        }
        i = i + 1;
    }
    assert(a@.take(n as int) =~= a@);
    assert(b@.take(m as int) =~= b@);
    row[m - 1]
}

/// The lexical similarity of a query and a text.
pub fn fuzzy_score(query: &Vec<char>, text: &Vec<char>) -> (s: Score)
    ensures
        s@ == fuzzy_similarity(query@, text@),
{
    let d = edit_distance_of(query, text);
    let m = if query.len() >= text.len() {
        query.len()
    } else {
        text.len()
    };
    proof {
        lemma_edit_distance_bound(query@, text@);
    }
    if m == 0 {
        Score::one()
    } else {
        Score::exact((m - d) as i128, m as u64)
    }
}

/// A stored chunk with the text that queries are matched against.
pub struct FuzzyEntry {
    pub chunk: Chunk,
    pub text: Vec<char>,
}

/// What a fuzzy entry is: a chunk and the characters of its text.
pub struct FuzzyEntryView {
    pub chunk: ChunkView,
    pub text: Seq<char>,
}

impl View for FuzzyEntry {
    type V = FuzzyEntryView;

    open spec fn view(&self) -> FuzzyEntryView {
        FuzzyEntryView { chunk: self.chunk@, text: self.text@ }
    }
}

/// The chunks of a list of entries.
pub open spec fn fuzzy_chunks(entries: Seq<FuzzyEntryView>) -> Seq<ChunkView> {
    Seq::new(entries.len(), |i: int| entries[i].chunk)
}

/// The similarity of each entry's text to a query.
pub open spec fn fuzzy_scores(entries: Seq<FuzzyEntryView>, query: Seq<char>) -> Seq<Ratio> {
    Seq::new(entries.len(), |i: int| fuzzy_similarity(query, entries[i].text))
}

/// Chunks with their texts, in order of insertion.
pub struct FuzzyIndex {
    entries: Vec<FuzzyEntry>,
}

impl View for FuzzyIndex {
    type V = Seq<FuzzyEntryView>;

    closed spec fn view(&self) -> Seq<FuzzyEntryView> {
        Seq::new(self.entries@.len(), |i: int| self.entries@[i]@)
    }
}

impl FuzzyIndex {
    /// An index that holds nothing.
    pub fn new() -> (index: Self)
        ensures
            index@ == Seq::<FuzzyEntryView>::empty(),
    {
        let index = FuzzyIndex { entries: Vec::new() };
        assert(index@ =~= Seq::<FuzzyEntryView>::empty());
        index
    }

    /// Number of entries.
    pub fn len(&self) -> (n: usize)
        ensures
            n == self@.len(),
    {
        self.entries.len()
    }

    /// Whether the index holds nothing.
    pub fn is_empty(&self) -> (b: bool)
        ensures
            b == (self@.len() == 0),
    {
        self.entries.len() == 0
    }

    /// The chunk of entry `i`, if there is one.
    pub fn chunk(&self, i: usize) -> (c: Option<&Chunk>)
        ensures
            c is Some <==> i < self@.len(),
            c matches Some(chunk) ==> chunk@ == self@[i as int].chunk,
    {
        if i < self.entries.len() {
            Some(&self.entries[i].chunk)
        } else {
            None
        }
    }

    /// Stores a chunk with the text to match, after all that are stored.
    pub fn insert(&mut self, chunk: Chunk, text: &str)
        ensures
            final(self)@ == old(self)@.push(FuzzyEntryView { chunk: chunk@, text: text@ }),
    {
        let text = chars_of(text);
        self.entries.push(FuzzyEntry { chunk, text });
        assert(self@ =~= old(self)@.push(FuzzyEntryView { chunk: chunk@, text: text@ }));
    }

    /// The `k` entries whose text is most similar to `text`, most similar
    /// first; fewer where the index holds fewer.
    pub fn query(&self, text: &str, k: usize) -> (results: Vec<SearchResult>)
        ensures
            is_search_result(fuzzy_scores(self@, text@), fuzzy_chunks(self@), k as nat, results@),
    {
        let query = chars_of(text);
        let n = self.entries.len();
        let mut scores: Vec<Score> = Vec::new();
        let mut chunks: Vec<&Chunk> = Vec::new();
        let mut i: usize = 0;
        while i < n
            invariant
                i <= n,
                n == self.entries@.len(),
                query@ == text@,
                scores@.len() == i,
                chunks@.len() == i,
                forall|j: int|
                    0 <= j < i ==> (#[trigger] scores@[j])@ == fuzzy_similarity(
                        query@,
                        self.entries@[j]@.text,
                    ),
                forall|j: int| 0 <= j < i ==> (#[trigger] chunks@[j])@ == self.entries@[j]@.chunk,
            decreases n - i,
        {
            let score = fuzzy_score(&query, &self.entries[i].text);
            scores.push(score);
            chunks.push(&self.entries[i].chunk);
            i = i + 1;
        }
        assert(values(scores@) =~= fuzzy_scores(self@, text@));
        assert(borrowed_views(chunks@) =~= fuzzy_chunks(self@));
        rank_chunks(&chunks, &scores, k)
    }
}

/// Where an entry's text is the query itself, the best hit has similarity
/// one and the same text, and is the earliest entry with that text.
pub proof fn lemma_exact_text_ranks_first(
    entries: Seq<FuzzyEntryView>,
    query: Seq<char>,
    k: nat,
    order: Seq<usize>,
    i: int,
)
    requires
        is_ranking(fuzzy_scores(entries, query), k, order),
        k >= 1,
        0 <= i < entries.len(),
        entries[i].text == query,
    ensures
        order.len() >= 1,
        fuzzy_scores(entries, query)[order[0] as int].is_one(),
        entries[order[0] as int].text == query,
        order[0] <= i,
        forall|j: int| 0 <= j < order[0] ==> (#[trigger] entries[j]).text != query,
{
    let scores = fuzzy_scores(entries, query);
    lemma_exact_text_scores_highest(query, query);
    assert forall|j: int| 0 <= j < scores.len() implies (#[trigger] scores[j]).proper()
        && scores[j].at_most(scores[i]) by {
        lemma_exact_text_scores_highest(query, entries[j].text);
        let (a, b, c) = (scores[j].num, scores[j].den, scores[i].den);
        assert(a * c <= c * b) by (nonlinear_arith)
            requires
                a <= b,
                c > 0,
        ;
    }
    lemma_ranking_starts_with_best(scores, k, order, i);
    let t = order[0] as int;
    lemma_exact_text_scores_highest(query, entries[t].text);
    let (a, b, c) = (scores[t].num, scores[t].den, scores[i].den);
    assert(a == b) by (nonlinear_arith)
        requires
            a * c == c * b,
            c > 0,
    ;
    assert forall|j: int| 0 <= j < order[0] implies (#[trigger] entries[j]).text != query by {
        if entries[j].text == query {
            assert(scores[j] == scores[i]);
            assert(scores[i].at_most(scores[j]));
        }
    }
}

} // verus!
