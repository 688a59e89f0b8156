use wordify::Annotation;
use wordify::AnnotatedWord;
use wordify::InputChunk;
use wordify::OutputChunk;
use wordify::WordCategory;
use wordify::consolidate_chunks;
use wordify::reconstruct_a;
use wordify::reconstruct_b;
use wordify::wordify;
use wordify::wordify_diff;

#[test]
fn test_reconstruct_a_delete() {
    let chunks = vec![
        InputChunk::Equal("Hello wor".to_string()),
        InputChunk::Delete("l".to_string()),
        InputChunk::Equal("d".to_string()),
    ];

    let annotated = reconstruct_a(&chunks);
    assert_eq!(annotated.string, "Hello world");
    assert_eq!(
        annotated.annotations,
        vec![
            Annotation { start: 0, chunk: 0 },
            Annotation { start: 9, chunk: 1 },
            Annotation { start: 10, chunk: 2 },
        ]
    )
}

#[test]
fn test_reconstruct_a_insert() {
    let chunks = vec![
        InputChunk::Equal("Hello wor".to_string()),
        InputChunk::Insert("l".to_string()),
        InputChunk::Equal("d".to_string()),
    ];

    let annotated = reconstruct_a(&chunks);
    assert_eq!(annotated.string, "Hello word");
    assert_eq!(
        annotated.annotations,
        vec![
            Annotation { start: 0, chunk: 0 },
            Annotation { start: 9, chunk: 2 },
        ]
    )
}

#[test]
fn test_reconstruct_b_delete() {
    let chunks = vec![
        InputChunk::Equal("Hello wor".to_string()),
        InputChunk::Delete("l".to_string()),
        InputChunk::Equal("d".to_string()),
    ];

    let annotated = reconstruct_b(&chunks);
    assert_eq!(annotated.string, "Hello word");
    assert_eq!(
        annotated.annotations,
        vec![
            Annotation { start: 0, chunk: 0 },
            Annotation { start: 9, chunk: 2 },
        ]
    )
}

#[test]
fn test_reconstruct_b_insert() {
    let chunks = vec![
        InputChunk::Equal("Hello wor".to_string()),
        InputChunk::Insert("l".to_string()),
        InputChunk::Equal("d".to_string()),
    ];

    let annotated = reconstruct_b(&chunks);
    assert_eq!(annotated.string, "Hello world");
    assert_eq!(
        annotated.annotations,
        vec![
            Annotation { start: 0, chunk: 0 },
            Annotation { start: 9, chunk: 1 },
            Annotation { start: 10, chunk: 2 },
        ]
    )
}

#[test]
fn test_annotated_words_a_delete() {
    let chunks = vec![
        InputChunk::Equal("Hello wor".to_string()),
        InputChunk::Delete("l".to_string()),
        InputChunk::Equal("d".to_string()),
    ];

    let annotated = reconstruct_a(&chunks);
    let annotated_words = annotated.words(&chunks);

    assert_eq!(
        annotated_words,
        vec![
            AnnotatedWord {
                category: WordCategory::Word,
                word: "Hello".to_string(),
                chunks: vec![0],
            },
            AnnotatedWord {
                category: WordCategory::Between,
                word: " ".to_string(),
                chunks: vec![0],
            },
            AnnotatedWord {
                category: WordCategory::Word,
                word: "world".to_string(),
                chunks: vec![0, 1, 2],
            },
        ]
    )
}

#[test]
fn test_annotated_words_a_insert() {
    let chunks = vec![
        InputChunk::Equal("Hello wor".to_string()),
        InputChunk::Insert("l".to_string()),
        InputChunk::Equal("d".to_string()),
    ];

    let annotated = reconstruct_a(&chunks);
    let annotated_words = annotated.words(&chunks);

    assert_eq!(
        annotated_words,
        vec![
            AnnotatedWord {
                category: WordCategory::Word,
                word: "Hello".to_string(),
                chunks: vec![0],
            },
            AnnotatedWord {
                category: WordCategory::Between,
                word: " ".to_string(),
                chunks: vec![0],
            },
            AnnotatedWord {
                category: WordCategory::Word,
                word: "word".to_string(),
                chunks: vec![0, 2],
            },
        ]
    )
}

#[test]
fn test_annotated_words_a_separate_chunks() {
    let chunks = vec![
        InputChunk::Equal("Hello ".to_string()),
        InputChunk::Delete("bar".to_string()),
        InputChunk::Insert("foo".to_string()),
    ];

    let annotated = reconstruct_a(&chunks);
    let annotated_words = annotated.words(&chunks);

    assert_eq!(
        annotated_words,
        vec![
            AnnotatedWord {
                category: WordCategory::Word,
                word: "Hello".to_string(),
                chunks: vec![0],
            },
            AnnotatedWord {
                category: WordCategory::Between,
                word: " ".to_string(),
                chunks: vec![0],
            },
            AnnotatedWord {
                category: WordCategory::Word,
                word: "bar".to_string(),
                chunks: vec![1],
            },
        ]
    )
}

#[test]
fn test_annotated_words_extra_whitespace() {
    let chunks = vec![
        InputChunk::Equal("Hello   ".to_string()),
        InputChunk::Delete("bar".to_string()),
        InputChunk::Insert("foo".to_string()),
    ];

    let annotated = reconstruct_a(&chunks);
    let annotated_words = annotated.words(&chunks);

    assert_eq!(
        annotated_words,
        vec![
            AnnotatedWord {
                category: WordCategory::Word,
                word: "Hello".to_string(),
                chunks: vec![0],
            },
            AnnotatedWord {
                category: WordCategory::Between,
                word: "   ".to_string(),
                chunks: vec![0],
            },
            AnnotatedWord {
                category: WordCategory::Word,
                word: "bar".to_string(),
                chunks: vec![1],
            },
        ]
    )
}

#[test]
fn test_annotated_words_punctuation() {
    let chunks = vec![
        InputChunk::Equal("Hello / ".to_string()),
        InputChunk::Delete("bar".to_string()),
        InputChunk::Insert("foo".to_string()),
    ];

    let annotated = reconstruct_a(&chunks);
    let annotated_words = annotated.words(&chunks);

    assert_eq!(
        annotated_words,
        vec![
            AnnotatedWord {
                category: WordCategory::Word,
                word: "Hello".to_string(),
                chunks: vec![0],
            },
            AnnotatedWord {
                category: WordCategory::Between,
                word: " / ".to_string(),
                chunks: vec![0],
            },
            AnnotatedWord {
                category: WordCategory::Word,
                word: "bar".to_string(),
                chunks: vec![1],
            },
        ]
    )
}

#[test]
fn test_wordify() {
    let chunks = vec![
        InputChunk::Equal("Hello wor".to_string()),
        InputChunk::Delete("l".to_string()),
        InputChunk::Equal("d".to_string()),
    ];

    let chunks = wordify(&chunks).unwrap();
    assert_eq!(
        chunks,
        vec![
            OutputChunk::Equal("Hello ".to_string()),
            OutputChunk::Delete("world".to_string()),
            OutputChunk::Insert("word".to_string()),
        ]
    );
}

#[test]
fn test_wordify2() {
    let chunks = vec![
        InputChunk::Equal("Hello ".to_string()),
        InputChunk::Delete("foo".to_string()),
        InputChunk::Insert("bar".to_string()),
    ];

    let chunks = wordify(&chunks).unwrap();
    assert_eq!(
        chunks,
        vec![
            OutputChunk::Equal("Hello ".to_string()),
            OutputChunk::Delete("foo".to_string()),
            OutputChunk::Insert("bar".to_string()),
        ]
    );
}

#[test]
fn test_wordify_diff() {
    let a = "Hello world";
    let b = "Hello word, bye universe!";
    let chunks = wordify_diff(a, b).unwrap();
    assert_eq!(
        chunks,
        vec![
            OutputChunk::Equal("Hello ".to_string()),
            OutputChunk::Delete("world".to_string()),
            OutputChunk::Insert("word, bye universe!".to_string()),
        ]
    );
}

#[test]
fn test_wordify_diff_substitution_inside_word() {
    let chunks = wordify_diff("Hello world", "Hello word").unwrap();
    assert_eq!(
        chunks,
        vec![
            OutputChunk::Equal("Hello ".to_string()),
            OutputChunk::Delete("world".to_string()),
            OutputChunk::Insert("word".to_string()),
        ]
    );
}

#[test]
fn test_wordify_diff_empty_texts() {
    assert_eq!(wordify_diff("", "").unwrap(), vec![]);
}

#[test]
fn test_wordify_diff_identical_texts() {
    assert_eq!(
        wordify_diff("abc", "abc").unwrap(),
        vec![OutputChunk::Equal("abc".to_string())]
    );
}

#[test]
fn test_wordify_empty_script() {
    assert_eq!(wordify(&vec![]).unwrap(), vec![]);
}

#[test]
fn test_wordify_single_equal_chunk() {
    let chunks = vec![InputChunk::Equal("abc".to_string())];
    assert_eq!(
        wordify(&chunks).unwrap(),
        vec![OutputChunk::Equal("abc".to_string())]
    );
}

#[test]
fn test_wordify_boundary_preservation() {
    // an edit confined to the middle word leaves the neighbouring words as
    // Equal runs on both sides
    let chunks = vec![
        InputChunk::Equal("aa ".to_string()),
        InputChunk::Delete("bb".to_string()),
        InputChunk::Insert("xx".to_string()),
        InputChunk::Equal(" cc".to_string()),
    ];
    assert_eq!(
        wordify(&chunks).unwrap(),
        vec![
            OutputChunk::Equal("aa ".to_string()),
            OutputChunk::Delete("bb".to_string()),
            OutputChunk::Insert("xx".to_string()),
            OutputChunk::Equal(" cc".to_string()),
        ]
    );
}

#[test]
fn test_wordify_substitution_whole_word() {
    // the shared prefix and suffix of the edited word surface inside the
    // whole-word Delete and Insert runs, never as separate Equal fragments
    let chunks = vec![
        InputChunk::Equal("ab".to_string()),
        InputChunk::Delete("y".to_string()),
        InputChunk::Insert("x".to_string()),
        InputChunk::Equal("cd".to_string()),
    ];
    assert_eq!(
        wordify(&chunks).unwrap(),
        vec![
            OutputChunk::Delete("abycd".to_string()),
            OutputChunk::Insert("abxcd".to_string()),
        ]
    );
}

#[test]
fn test_wordify_substitution_insert_first() {
    // the same edit with the Insert chunk ahead of the Delete chunk
    let chunks = vec![
        InputChunk::Equal("ab".to_string()),
        InputChunk::Insert("x".to_string()),
        InputChunk::Delete("y".to_string()),
        InputChunk::Equal("cd".to_string()),
    ];
    assert_eq!(
        wordify(&chunks).unwrap(),
        vec![
            OutputChunk::Delete("abycd".to_string()),
            OutputChunk::Insert("abxcd".to_string()),
        ]
    );
}

#[test]
fn test_wordify_trailing_deletion() {
    let chunks = vec![
        InputChunk::Equal("aa".to_string()),
        InputChunk::Delete(" bb".to_string()),
    ];
    assert_eq!(
        wordify(&chunks).unwrap(),
        vec![
            OutputChunk::Equal("aa".to_string()),
            OutputChunk::Delete(" bb".to_string()),
        ]
    );
}

#[test]
fn test_wordify_leading_deletion() {
    // deletions before the first shared word surface first
    let chunks = vec![
        InputChunk::Delete("x ".to_string()),
        InputChunk::Equal("a".to_string()),
    ];
    assert_eq!(
        wordify(&chunks).unwrap(),
        vec![
            OutputChunk::Delete("x ".to_string()),
            OutputChunk::Equal("a".to_string()),
        ]
    );
}

#[test]
fn test_wordify_rejects_misaligned_script() {
    // the B side's separator run spans two chunks while the A side's stay
    // inside one, so the two sides' equal words differ and no output can be
    // trusted: the pipeline signals the inconsistency instead
    let chunks = vec![
        InputChunk::Equal("a ".to_string()),
        InputChunk::Delete("x".to_string()),
        InputChunk::Equal(" b".to_string()),
    ];
    assert_eq!(wordify(&chunks), None);
}

#[test]
fn test_input_chunk_len_and_value() {
    let equal = InputChunk::Equal("abc".to_string());
    let delete = InputChunk::Delete("de".to_string());
    let insert = InputChunk::Insert("f".to_string());
    assert_eq!(equal.len(), 3);
    assert_eq!(delete.len(), 2);
    assert_eq!(insert.len(), 1);
    assert_eq!(equal.value(), "abc");
    assert_eq!(delete.value(), "de");
    assert_eq!(insert.value(), "f");
}

#[test]
fn test_word_is_equal() {
    let chunks = vec![
        InputChunk::Equal("Hello ".to_string()),
        InputChunk::Delete("bar".to_string()),
    ];
    let words = reconstruct_a(&chunks).words(&chunks);
    assert!(words[0].is_equal(&chunks));
    assert!(words[1].is_equal(&chunks));
    assert!(!words[2].is_equal(&chunks));
}

#[test]
fn test_consolidate_chunks_merges_adjacent() {
    let runs = vec![
        OutputChunk::Equal("a".to_string()),
        OutputChunk::Equal("b".to_string()),
        OutputChunk::Delete("c".to_string()),
        OutputChunk::Insert("d".to_string()),
        OutputChunk::Insert("e".to_string()),
        OutputChunk::Delete("f".to_string()),
    ];
    assert_eq!(
        consolidate_chunks(&runs),
        vec![
            OutputChunk::Equal("ab".to_string()),
            OutputChunk::Delete("c".to_string()),
            OutputChunk::Insert("de".to_string()),
            OutputChunk::Delete("f".to_string()),
        ]
    );
}

#[test]
fn test_consolidate_chunks_empty() {
    assert_eq!(consolidate_chunks(&vec![]), vec![]);
}
