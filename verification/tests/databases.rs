use floneumin_language::{
    ChunkStrategy, ConfigurationError, Document, DocumentDatabase, Embedder, Embedding,
    EmbeddingError, FuzzySearchIndex, VectorSpace,
};

struct Words;

impl VectorSpace for Words {
    const DIMENSION: usize = 4;
}

/// Counts the words cat, dog, mat and park.
struct WordCounter {
    calls: usize,
    fail_at: Option<usize>,
}

impl WordCounter {
    fn reliable() -> WordCounter {
        WordCounter { calls: 0, fail_at: None }
    }

    fn failing_at(call: usize) -> WordCounter {
        WordCounter { calls: 0, fail_at: Some(call) }
    }
}

impl Embedder<Words> for WordCounter {
    fn embed(&mut self, input: &str) -> Result<Embedding<Words>, EmbeddingError> {
        self.calls += 1;
        if self.fail_at == Some(self.calls) {
            return Err(EmbeddingError::new(format!("no embedding for call {}", self.calls)));
        }
        let lower = input.to_lowercase();
        let mut counts = vec![0i8; 4];
        for word in lower.split(|c: char| !c.is_alphanumeric()) {
            match word {
                "cat" => counts[0] += 1,
                "dog" => counts[1] += 1,
                "mat" => counts[2] += 1,
                "park" => counts[3] += 1,
                _ => {}
            }
        }
        Ok(Embedding::new(counts).unwrap())
    }
}

const PETS: &str = "The cat sat on the mat. The dog ran in the park.";

fn one_sentence() -> ChunkStrategy {
    ChunkStrategy::Sentence { sentence_count: 1, overlap: 0 }
}

fn stored_texts(db: &DocumentDatabase<Words>) -> Vec<String> {
    (0..db.len()).map(|i| db.chunk(i).unwrap().text.clone()).collect()
}

fn stored_fuzzy_texts(db: &FuzzySearchIndex) -> Vec<String> {
    (0..db.len()).map(|i| db.chunk(i).unwrap().text.clone()).collect()
}

#[test]
fn document_database_rejects_an_unusable_strategy() {
    let zero = ChunkStrategy::Sentence { sentence_count: 0, overlap: 0 };
    assert!(matches!(
        DocumentDatabase::<Words>::new(zero),
        Err(ConfigurationError::ZeroSentenceCount)
    ));
    let stuck = ChunkStrategy::Sentence { sentence_count: 2, overlap: 2 };
    assert!(matches!(
        DocumentDatabase::<Words>::new(stuck),
        Err(ConfigurationError::OverlapTooLarge)
    ));
}

#[test]
fn fuzzy_search_index_rejects_an_unusable_strategy() {
    let zero = ChunkStrategy::Sentence { sentence_count: 0, overlap: 1 };
    assert!(matches!(FuzzySearchIndex::new(zero), Err(ConfigurationError::ZeroSentenceCount)));
    let stuck = ChunkStrategy::Sentence { sentence_count: 3, overlap: 7 };
    assert!(matches!(FuzzySearchIndex::new(stuck), Err(ConfigurationError::OverlapTooLarge)));
}

#[test]
fn new_databases_are_empty_and_keep_their_strategy() {
    let db = DocumentDatabase::<Words>::new(one_sentence()).unwrap();
    assert_eq!(db.len(), 0);
    assert_eq!(db.strategy(), one_sentence());
    assert!(db.chunk(0).is_none());
    let fuzzy = FuzzySearchIndex::new(one_sentence()).unwrap();
    assert_eq!(fuzzy.len(), 0);
    assert_eq!(fuzzy.strategy(), one_sentence());
    assert!(fuzzy.chunk(0).is_none());
}

#[test]
fn semantic_search_finds_the_sentence_about_the_cat() {
    let mut db = DocumentDatabase::<Words>::new(one_sentence()).unwrap();
    let mut embedder = WordCounter::reliable();
    assert!(db.extend(&mut embedder, &vec![Document::new(1, PETS)]).is_ok());
    assert_eq!(stored_texts(&db), vec!["The cat sat on the mat.", "The dog ran in the park."]);
    let results = db.search(&mut embedder, "cat", 2).unwrap();
    assert_eq!(results.len(), 2);
    assert_eq!(results[0].chunk.text, "The cat sat on the mat.");
    assert_eq!(results[0].entry, 0);
    assert_eq!(results[0].rank, 0);
    assert_eq!(results[1].chunk.text, "The dog ran in the park.");
    assert_eq!(results[1].rank, 1);
    assert_eq!((results[0].score.numerator(), results[0].score.denominator()), (1, 2));
    assert_eq!((results[1].score.numerator(), results[1].score.denominator()), (0, 2));
    assert!(!results[1].score.at_least(&results[0].score));
}

#[test]
fn fuzzy_search_finds_the_sentence_about_the_cat_despite_a_typo() {
    let mut fuzzy = FuzzySearchIndex::new(one_sentence()).unwrap();
    assert_eq!(fuzzy.extend(&vec![Document::new(1, PETS)]), Ok(()));
    assert_eq!(
        stored_fuzzy_texts(&fuzzy),
        vec!["The cat sat on the mat.", "The dog ran in the park."]
    );
    let results = fuzzy.search("caat", 2);
    assert_eq!(results.len(), 2);
    assert_eq!(results[0].chunk.text, "The cat sat on the mat.");
    assert_eq!(results[0].rank, 0);
    assert_eq!(results[1].chunk.text, "The dog ran in the park.");
    assert!(!results[1].score.at_least(&results[0].score));
    assert_eq!((results[0].score.numerator(), results[0].score.denominator()), (4, 23));
}

#[test]
fn failed_embedding_ends_extend_and_keeps_the_chunks_before_it() {
    let mut db = DocumentDatabase::<Words>::new(one_sentence()).unwrap();
    let mut embedder = WordCounter::failing_at(2);
    let outcome = db.extend(&mut embedder, &vec![Document::new(1, PETS)]);
    assert_eq!(outcome.unwrap_err().message(), "no embedding for call 2");
    assert_eq!(stored_texts(&db), vec!["The cat sat on the mat."]);
    assert_eq!(embedder.calls, 2);
}

#[test]
fn failed_embedding_on_the_first_chunk_stores_nothing() {
    let mut db = DocumentDatabase::<Words>::new(one_sentence()).unwrap();
    let mut embedder = WordCounter::failing_at(1);
    assert!(db.extend(&mut embedder, &vec![Document::new(1, PETS)]).is_err());
    assert_eq!(db.len(), 0);
}

#[test]
fn failed_extend_leaves_earlier_documents_in_place() {
    let mut db = DocumentDatabase::<Words>::new(one_sentence()).unwrap();
    let mut embedder = WordCounter::failing_at(4);
    let docs = vec![
        Document::new(1, "A cat. A dog."),
        Document::new(2, "A mat. A park. A cat."),
        Document::new(3, "Never reached."),
    ];
    assert!(db.extend(&mut embedder, &docs).is_err());
    assert_eq!(stored_texts(&db), vec!["A cat.", "A dog.", "A mat."]);
    assert_eq!(db.chunk(2).unwrap().document, 2);
    let mut retry = WordCounter::reliable();
    assert!(db.extend(&mut retry, &vec![Document::new(3, "A park.")]).is_ok());
    assert_eq!(stored_texts(&db), vec!["A cat.", "A dog.", "A mat.", "A park."]);
}

#[test]
fn extend_stores_the_chunks_of_all_documents_in_order() {
    let strategy = ChunkStrategy::Sentence { sentence_count: 2, overlap: 1 };
    let mut db = DocumentDatabase::<Words>::new(strategy).unwrap();
    let mut embedder = WordCounter::reliable();
    let docs = vec![
        Document::new(10, "One. Two. Three."),
        Document::new(11, ""),
        Document::new(12, "Four."),
    ];
    assert!(db.extend(&mut embedder, &docs).is_ok());
    assert_eq!(stored_texts(&db), vec!["One. Two.", "Two. Three.", "Four."]);
    assert_eq!(db.chunk(0).unwrap().document, 10);
    assert_eq!(db.chunk(2).unwrap().document, 12);
    assert_eq!(embedder.calls, 3);
    assert!(db.extend(&mut embedder, &Vec::new()).is_ok());
    assert_eq!(db.len(), 3);
}

#[test]
fn fuzzy_extend_stores_the_chunks_of_all_documents_in_order() {
    let strategy = ChunkStrategy::Sentence { sentence_count: 2, overlap: 1 };
    let mut fuzzy = FuzzySearchIndex::new(strategy).unwrap();
    let docs = vec![Document::new(10, "One. Two. Three."), Document::new(12, "Four.")];
    assert_eq!(fuzzy.extend(&docs), Ok(()));
    assert_eq!(fuzzy.extend(&vec![Document::new(13, "Five. Six.")]), Ok(()));
    assert_eq!(stored_fuzzy_texts(&fuzzy), vec!["One. Two.", "Two. Three.", "Four.", "Five. Six."]);
    assert_eq!(fuzzy.chunk(3).unwrap().document, 13);
    assert_eq!(fuzzy.search("Four.", 1)[0].entry, 2);
}

#[test]
fn search_on_empty_databases_is_empty() {
    let db = DocumentDatabase::<Words>::new(one_sentence()).unwrap();
    let mut embedder = WordCounter::reliable();
    assert!(db.search(&mut embedder, "cat", 5).unwrap().is_empty());
    let fuzzy = FuzzySearchIndex::new(one_sentence()).unwrap();
    assert!(fuzzy.search("cat", 5).is_empty());
}

#[test]
fn search_for_zero_results_is_empty() {
    let mut db = DocumentDatabase::<Words>::new(one_sentence()).unwrap();
    let mut embedder = WordCounter::reliable();
    db.extend(&mut embedder, &vec![Document::new(1, PETS)]).unwrap();
    assert!(db.search(&mut embedder, "cat", 0).unwrap().is_empty());
    let mut fuzzy = FuzzySearchIndex::new(one_sentence()).unwrap();
    fuzzy.extend(&vec![Document::new(1, PETS)]).unwrap();
    assert!(fuzzy.search("cat", 0).is_empty());
}

#[test]
fn search_returns_fewer_results_than_asked_when_the_index_is_small() {
    let mut db = DocumentDatabase::<Words>::new(one_sentence()).unwrap();
    let mut embedder = WordCounter::reliable();
    db.extend(&mut embedder, &vec![Document::new(1, PETS)]).unwrap();
    assert_eq!(db.search(&mut embedder, "dog", 5).unwrap().len(), 2);
    assert_eq!(db.search(&mut embedder, "dog", 1).unwrap()[0].chunk.text, "The dog ran in the park.");
}

#[test]
fn failed_query_embedding_is_returned_as_it_is() {
    let mut db = DocumentDatabase::<Words>::new(one_sentence()).unwrap();
    let mut embedder = WordCounter::reliable();
    db.extend(&mut embedder, &vec![Document::new(1, PETS)]).unwrap();
    let mut broken = WordCounter::failing_at(1);
    let outcome = db.search(&mut broken, "cat", 2);
    assert_eq!(outcome.unwrap_err().message(), "no embedding for call 1");
    assert_eq!(db.len(), 2);
}

#[test]
fn absorb_stores_an_embedding_and_hands_a_failure_on() {
    let mut db = DocumentDatabase::<Words>::new(one_sentence()).unwrap();
    let chunks = one_sentence().chunk(&Document::new(5, "A cat. A dog.")).unwrap();
    let first = Ok(Embedding::new(vec![1, 0, 0, 0]).unwrap());
    assert!(db.absorb(chunks[0].clone(), first).is_ok());
    assert_eq!(db.len(), 1);
    let second = Err(EmbeddingError::new("rate limited".to_string()));
    assert_eq!(db.absorb(chunks[1].clone(), second).unwrap_err().message(), "rate limited");
    assert_eq!(stored_texts(&db), vec!["A cat."]);
}

#[test]
fn search_by_embedding_ranks_stored_chunks() {
    let mut db = DocumentDatabase::<Words>::new(one_sentence()).unwrap();
    let mut embedder = WordCounter::reliable();
    db.extend(&mut embedder, &vec![Document::new(1, PETS)]).unwrap();
    let park = Embedding::new(vec![0, 0, 0, 1]).unwrap();
    let results = db.search_embedding(&park, 2);
    assert_eq!(results[0].chunk.text, "The dog ran in the park.");
    assert_eq!((results[0].score.numerator(), results[0].score.denominator()), (1, 2));
    assert_eq!(results[1].score.numerator(), 0);
}

#[test]
fn chunks_of_lists_what_extend_would_store() {
    let strategy = ChunkStrategy::Sentence { sentence_count: 2, overlap: 1 };
    let db = DocumentDatabase::<Words>::new(strategy).unwrap();
    let doc = Document::new(8, "One. Two. Three.");
    let texts: Vec<String> = db.chunks_of(&doc).into_iter().map(|c| c.text).collect();
    assert_eq!(texts, vec!["One. Two.", "Two. Three."]);
    assert_eq!(db.len(), 0);
    let fuzzy = FuzzySearchIndex::new(strategy).unwrap();
    let texts: Vec<String> = fuzzy.chunks_of(&doc).into_iter().map(|c| c.text).collect();
    assert_eq!(texts, vec!["One. Two.", "Two. Three."]);
}

#[test]
fn chunks_can_be_embedded_and_absorbed_one_by_one() {
    let mut db = DocumentDatabase::<Words>::new(one_sentence()).unwrap();
    let mut embedder = WordCounter::failing_at(2);
    let mut failure = None;
    for chunk in db.chunks_of(&Document::new(1, PETS)) {
        let outcome = embedder.embed(&chunk.text);
        if let Err(e) = db.absorb(chunk, outcome) {
            failure = Some(e.message());
            break;
        }
    }
    assert_eq!(failure, Some("no embedding for call 2".to_string()));
    assert_eq!(stored_texts(&db), vec!["The cat sat on the mat."]);
}

#[test]
fn search_with_ranks_for_an_embedding_and_hands_a_failure_on() {
    let mut db = DocumentDatabase::<Words>::new(one_sentence()).unwrap();
    let mut embedder = WordCounter::reliable();
    db.extend(&mut embedder, &vec![Document::new(1, PETS)]).unwrap();
    let dog = Ok(Embedding::new(vec![0, 1, 0, 0]).unwrap());
    let results = db.search_with(dog, 1).unwrap();
    assert_eq!(results.len(), 1);
    assert_eq!(results[0].chunk.text, "The dog ran in the park.");
    assert_eq!((results[0].score.numerator(), results[0].score.denominator()), (1, 2));
    let failed = Err(EmbeddingError::new("timed out".to_string()));
    assert_eq!(db.search_with(failed, 1).unwrap_err().message(), "timed out");
}
