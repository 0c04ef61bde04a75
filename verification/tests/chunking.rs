use floneumin_language::chunk::{split_sentences, Chunk, ChunkStrategy, Chunker, Document, Span};
use floneumin_language::error::ConfigurationError;
use floneumin_language::text::chars_of;

fn texts(chunks: &[Chunk]) -> Vec<String> {
    chunks.iter().map(|c| c.text.clone()).collect()
}

fn spans_of(text: &str) -> Vec<(usize, usize)> {
    split_sentences(&chars_of(text)).iter().map(|s| (s.start, s.end)).collect()
}

#[test]
fn strategy_with_zero_sentence_count_is_rejected() {
    assert_eq!(ChunkStrategy::sentence(0, 0), Err(ConfigurationError::ZeroSentenceCount));
    assert_eq!(ChunkStrategy::sentence(0, 3), Err(ConfigurationError::ZeroSentenceCount));
}

#[test]
fn strategy_with_overlap_not_below_count_is_rejected() {
    assert_eq!(ChunkStrategy::sentence(2, 2), Err(ConfigurationError::OverlapTooLarge));
    assert_eq!(ChunkStrategy::sentence(1, 5), Err(ConfigurationError::OverlapTooLarge));
}

#[test]
fn strategy_with_overlap_below_count_is_accepted() {
    assert_eq!(
        ChunkStrategy::sentence(3, 2),
        Ok(ChunkStrategy::Sentence { sentence_count: 3, overlap: 2 })
    );
    assert_eq!(ChunkStrategy::Sentence { sentence_count: 1, overlap: 0 }.validate(), Ok(()));
}

#[test]
fn chunker_is_made_only_of_a_usable_strategy() {
    assert!(matches!(
        Chunker::new(ChunkStrategy::Sentence { sentence_count: 0, overlap: 0 }),
        Err(ConfigurationError::ZeroSentenceCount)
    ));
    assert!(matches!(
        Chunker::new(ChunkStrategy::Sentence { sentence_count: 2, overlap: 3 }),
        Err(ConfigurationError::OverlapTooLarge)
    ));
    let chunker = Chunker::new(ChunkStrategy::Sentence { sentence_count: 2, overlap: 1 }).unwrap();
    assert_eq!(chunker.strategy(), ChunkStrategy::Sentence { sentence_count: 2, overlap: 1 });
}

#[test]
fn chunking_with_unusable_strategy_fails_before_reading_the_document() {
    let doc = Document::new(1, "One. Two.");
    let bad = ChunkStrategy::Sentence { sentence_count: 2, overlap: 2 };
    assert!(matches!(bad.chunk(&doc), Err(ConfigurationError::OverlapTooLarge)));
    let zero = ChunkStrategy::Sentence { sentence_count: 0, overlap: 0 };
    assert!(matches!(zero.chunk(&doc), Err(ConfigurationError::ZeroSentenceCount)));
}

#[test]
fn configuration_errors_describe_themselves() {
    assert_eq!(ConfigurationError::ZeroSentenceCount.message(), "sentence_count must be at least 1");
    assert_eq!(
        ConfigurationError::OverlapTooLarge.message(),
        "overlap must be smaller than sentence_count"
    );
}

#[test]
fn sentences_end_at_a_terminator_before_whitespace() {
    assert_eq!(
        spans_of("The cat sat on the mat. The dog ran in the park."),
        vec![(0, 23), (24, 48)]
    );
    assert_eq!(spans_of("Stop! Why? Because."), vec![(0, 5), (6, 10), (11, 19)]);
}

#[test]
fn a_terminator_inside_a_word_does_not_end_a_sentence() {
    assert_eq!(spans_of("3.14 is pi. Wow!"), vec![(0, 11), (12, 16)]);
    assert_eq!(spans_of("Wait... what?"), vec![(0, 7), (8, 13)]);
}

#[test]
fn text_without_terminator_is_one_sentence() {
    assert_eq!(spans_of("no end in sight"), vec![(0, 15)]);
    assert_eq!(spans_of("First. and then"), vec![(0, 6), (7, 15)]);
}

#[test]
fn whitespace_between_sentences_belongs_to_none() {
    assert_eq!(spans_of("  Hi.  \n\tBye. "), vec![(2, 5), (9, 13)]);
}

#[test]
fn empty_and_blank_text_have_no_sentence() {
    assert_eq!(spans_of(""), Vec::<(usize, usize)>::new());
    assert_eq!(spans_of(" \n\t \r"), Vec::<(usize, usize)>::new());
}

#[test]
fn sentence_spans_count_characters_not_bytes() {
    assert_eq!(spans_of("Über. Öl."), vec![(0, 5), (6, 9)]);
    let doc = Document::new(3, "Über. Öl.");
    let chunks = ChunkStrategy::Sentence { sentence_count: 1, overlap: 0 }.chunk(&doc).unwrap();
    assert_eq!(texts(&chunks), vec!["Über.", "Öl."]);
}

#[test]
fn split_sentences_returns_spans() {
    let spans = split_sentences(&chars_of("A. B."));
    assert_eq!(spans, vec![Span { start: 0, end: 2 }, Span { start: 3, end: 5 }]);
}

#[test]
fn one_sentence_per_chunk() {
    let doc = Document::new(7, "The cat sat on the mat. The dog ran in the park.");
    let chunks = ChunkStrategy::Sentence { sentence_count: 1, overlap: 0 }.chunk(&doc).unwrap();
    assert_eq!(texts(&chunks), vec!["The cat sat on the mat.", "The dog ran in the park."]);
    assert_eq!((chunks[0].start, chunks[0].end), (0, 23));
    assert_eq!((chunks[1].start, chunks[1].end), (24, 48));
    assert_eq!(chunks[0].document, 7);
    assert_eq!(chunks[1].document, 7);
}

#[test]
fn windows_advance_by_count_minus_overlap() {
    let doc = Document::new(1, "A. B. C. D. E.");
    let chunks = ChunkStrategy::Sentence { sentence_count: 3, overlap: 1 }.chunk(&doc).unwrap();
    assert_eq!(texts(&chunks), vec!["A. B. C.", "C. D. E."]);
    let chunks = ChunkStrategy::Sentence { sentence_count: 3, overlap: 2 }.chunk(&doc).unwrap();
    assert_eq!(texts(&chunks), vec!["A. B. C.", "B. C. D.", "C. D. E."]);
}

#[test]
fn final_short_window_is_emitted() {
    let doc = Document::new(1, "A. B. C. D. E.");
    let chunks = ChunkStrategy::Sentence { sentence_count: 2, overlap: 0 }.chunk(&doc).unwrap();
    assert_eq!(texts(&chunks), vec!["A. B.", "C. D.", "E."]);
    let chunks = ChunkStrategy::Sentence { sentence_count: 4, overlap: 1 }.chunk(&doc).unwrap();
    assert_eq!(texts(&chunks), vec!["A. B. C. D.", "D. E."]);
}

#[test]
fn document_shorter_than_the_overlap_is_one_chunk() {
    let doc = Document::new(1, "Only one.");
    let chunks = ChunkStrategy::Sentence { sentence_count: 3, overlap: 2 }.chunk(&doc).unwrap();
    assert_eq!(texts(&chunks), vec!["Only one."]);
    let doc = Document::new(1, "One. Two.");
    let chunks = ChunkStrategy::Sentence { sentence_count: 5, overlap: 3 }.chunk(&doc).unwrap();
    assert_eq!(texts(&chunks), vec!["One. Two."]);
}

#[test]
fn document_without_sentences_has_no_chunks() {
    let strategy = ChunkStrategy::Sentence { sentence_count: 2, overlap: 1 };
    assert!(strategy.chunk(&Document::new(1, "")).unwrap().is_empty());
    assert!(strategy.chunk(&Document::new(1, "   \n ")).unwrap().is_empty());
}

#[test]
fn window_count_follows_the_stride() {
    // s sentences, windows of n overlapping by o: ceil((s - o) / (n - o)) for s > o.
    let cases: Vec<(usize, usize, usize, usize)> = vec![
        (5, 3, 1, 2),
        (5, 3, 2, 3),
        (5, 2, 0, 3),
        (6, 2, 0, 3),
        (7, 3, 1, 3),
        (1, 3, 2, 1),
        (2, 3, 2, 1),
        (3, 3, 2, 1),
        (4, 3, 2, 2),
        (10, 1, 0, 10),
        (10, 10, 9, 1),
        (10, 20, 0, 1),
    ];
    for (s, n, o, expected) in cases {
        let text = vec!["X."; s].join(" ");
        let doc = Document::new(0, &text);
        let chunks = ChunkStrategy::Sentence { sentence_count: n, overlap: o }.chunk(&doc).unwrap();
        assert_eq!(chunks.len(), expected);
    }
}

#[test]
fn neighbouring_chunks_share_the_overlap_and_cover_every_sentence() {
    let text = "S0. S1. S2. S3. S4. S5. S6. S7. S8. S9. S10.";
    let doc = Document::new(0, text);
    let sentences = spans_of(text);
    for n in 1..6usize {
        for o in 0..n {
            let chunks =
                ChunkStrategy::Sentence { sentence_count: n, overlap: o }.chunk(&doc).unwrap();
            for pair in chunks.windows(2) {
                let shared = sentences
                    .iter()
                    .filter(|s| pair[0].start <= s.0 && s.1 <= pair[0].end)
                    .filter(|s| pair[1].start <= s.0 && s.1 <= pair[1].end)
                    .count();
                assert_eq!(shared, o);
            }
            for s in &sentences {
                assert!(chunks.iter().any(|c| c.start <= s.0 && s.1 <= c.end));
            }
        }
    }
}

#[test]
fn chunk_text_is_a_verbatim_piece_of_the_document() {
    let text = "Alpha beta.  Gamma!\nDelta? Epsilon";
    let doc = Document::new(9, text);
    let all: Vec<char> = text.chars().collect();
    let chunks = ChunkStrategy::Sentence { sentence_count: 2, overlap: 1 }.chunk(&doc).unwrap();
    assert_eq!(chunks.len(), 3);
    for c in &chunks {
        let piece: String = all[c.start..c.end].iter().collect();
        assert_eq!(c.text, piece);
        assert_eq!(c.document, 9);
    }
    assert_eq!(texts(&chunks), vec!["Alpha beta.  Gamma!", "Gamma!\nDelta?", "Delta? Epsilon"]);
}

#[test]
fn chunking_twice_gives_the_same_chunks() {
    let doc = Document::new(2, "One. Two. Three.");
    let chunker = Chunker::new(ChunkStrategy::Sentence { sentence_count: 2, overlap: 1 }).unwrap();
    assert_eq!(texts(&chunker.chunk(&doc)), texts(&chunker.chunk(&doc)));
    assert_eq!(texts(&chunker.chunk(&doc)), vec!["One. Two.", "Two. Three."]);
}

#[test]
fn chunk_clone_keeps_every_field() {
    let doc = Document::new(4, "One. Two.");
    let chunks = ChunkStrategy::Sentence { sentence_count: 1, overlap: 0 }.chunk(&doc).unwrap();
    let copy = chunks[1].clone();
    assert_eq!(copy.document, 4);
    assert_eq!((copy.start, copy.end), (5, 9));
    assert_eq!(copy.text, "Two.");
}

#[test]
fn chunks_are_the_windows_of_the_sentences() {
    for s in 0..12usize {
        let text = (0..s).map(|i| format!("S{}.", i)).collect::<Vec<_>>().join(" ");
        let sentences = spans_of(&text);
        assert_eq!(sentences.len(), s);
        let doc = Document::new(0, &text);
        for n in 1..6usize {
            for o in 0..n {
                let chunks =
                    ChunkStrategy::Sentence { sentence_count: n, overlap: o }.chunk(&doc).unwrap();
                let mut expected: Vec<(usize, usize)> = Vec::new();
                let mut first = 0;
                while first < s {
                    let last = (first + n).min(s);
                    expected.push((sentences[first].0, sentences[last - 1].1));
                    if last == s {
                        break;
                    }
                    first += n - o;
                }
                let got: Vec<(usize, usize)> = chunks.iter().map(|c| (c.start, c.end)).collect();
                assert_eq!(got, expected);
            }
        }
    }
}
