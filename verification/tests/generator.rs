use text_analyzer::{analyze_text_fast, analyze_text_slow, generate_test_text};

#[test]
fn no_words_give_the_empty_text() {
    assert_eq!(generate_test_text(0), "");
}

#[test]
fn one_word_has_no_space() {
    assert_eq!(generate_test_text(1), "rust");
}

#[test]
fn words_come_in_the_vocabulary_order() {
    assert_eq!(generate_test_text(3), "rust performance optimization");
    assert_eq!(
        generate_test_text(10),
        "rust performance optimization memory speed efficiency benchmark algorithm data structure"
    );
}

#[test]
fn the_vocabulary_starts_over() {
    assert_eq!(
        generate_test_text(12),
        "rust performance optimization memory speed efficiency benchmark algorithm data structure \
         rust performance"
    );
}

#[test]
fn generated_text_has_the_requested_number_of_words() {
    for size in [0usize, 1, 9, 10, 11, 57, 1000] {
        let text = generate_test_text(size);
        assert_eq!(text.split(' ').filter(|w| !w.is_empty()).count(), size);
        assert!(!text.starts_with(' '));
        assert!(!text.ends_with(' '));
    }
}

#[test]
fn analysis_of_generated_text() {
    let text = generate_test_text(50);
    for stats in [analyze_text_fast(&text), analyze_text_slow(&text)] {
        assert_eq!(stats.word_count, 10);
        assert_eq!(stats.char_count, 5 * 79);
        let words: Vec<&str> = stats.top_words.iter().map(|(w, _)| w.as_str()).collect();
        assert_eq!(
            words,
            [
                "algorithm",
                "benchmark",
                "data",
                "efficiency",
                "memory",
                "optimization",
                "performance",
                "rust",
                "speed",
                "structure"
            ]
        );
        assert!(stats.top_words.iter().all(|(_, n)| *n == 5));
        assert_eq!(
            stats.longest_words,
            ["optimization", "performance", "efficiency", "algorithm", "benchmark"]
        );
    }
}

#[test]
fn uneven_generated_text_ranks_the_early_words_first() {
    let text = generate_test_text(13);
    let stats = analyze_text_fast(&text);
    assert_eq!(stats.word_count, 10);
    assert_eq!(
        &stats.top_words[..3],
        &[
            ("optimization".to_string(), 2),
            ("performance".to_string(), 2),
            ("rust".to_string(), 2)
        ]
    );
    assert_eq!(stats.top_words[3], ("algorithm".to_string(), 1));
}
