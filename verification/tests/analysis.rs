use std::collections::HashMap;
use text_analyzer::{analyze_text_fast, analyze_text_slow, TextStats};

fn pairs(listed: &[(&str, usize)]) -> Vec<(String, usize)> {
    listed.iter().map(|(w, n)| (w.to_string(), *n)).collect()
}

fn names(listed: &[&str]) -> Vec<String> {
    listed.iter().map(|w| w.to_string()).collect()
}

fn both(text: &str) -> (TextStats, TextStats) {
    (analyze_text_fast(text), analyze_text_slow(text))
}

fn assert_same(a: &TextStats, b: &TextStats) {
    assert_eq!(a.word_count, b.word_count);
    assert_eq!(a.char_count, b.char_count);
    assert_eq!(a.top_words, b.top_words);
    assert_eq!(a.longest_words, b.longest_words);
}

fn assert_empty(stats: &TextStats) {
    assert_eq!(stats.word_count, 0);
    assert_eq!(stats.char_count, 0);
    assert!(stats.top_words.is_empty());
    assert!(stats.longest_words.is_empty());
}

/// What the analysis must give, worked out with std's map and sort.
fn expected(text: &str) -> (usize, usize, Vec<(String, usize)>, Vec<String>) {
    let mut freq: HashMap<String, usize> = HashMap::new();
    let mut letters = 0;
    for token in text.split_whitespace() {
        letters += token.chars().filter(|c| c.is_alphabetic()).count();
        let word: String =
            token.chars().filter(|c| c.is_alphabetic()).map(|c| c.to_ascii_lowercase()).collect();
        if !word.is_empty() {
            *freq.entry(word).or_insert(0) += 1;
        }
    }
    let mut by_count: Vec<(String, usize)> = freq.iter().map(|(w, n)| (w.clone(), *n)).collect();
    by_count.sort_by(|a, b| b.1.cmp(&a.1).then(a.0.cmp(&b.0)));
    by_count.truncate(10);
    let mut by_len: Vec<String> = freq.keys().cloned().collect();
    by_len.sort_by(|a, b| b.chars().count().cmp(&a.chars().count()).then(a.cmp(b)));
    by_len.truncate(5);
    (freq.len(), letters, by_count, by_len)
}

fn assert_expected(text: &str) {
    let (words, letters, top, longest) = expected(text);
    for stats in [analyze_text_fast(text), analyze_text_slow(text)] {
        assert_eq!(stats.word_count, words);
        assert_eq!(stats.char_count, letters);
        assert_eq!(stats.top_words, top);
        assert_eq!(stats.longest_words, longest);
    }
}

/// A text of `n` pseudo-random words over a small alphabet.
fn scrambled(n: usize, seed: u64) -> String {
    let mut state = seed;
    let mut text = String::new();
    for i in 0..n {
        if i > 0 {
            text.push(if i % 7 == 0 { '\n' } else { ' ' });
        }
        state = state.wrapping_mul(6364136223846793005).wrapping_add(1442695040888963407);
        let len = 1 + (state >> 60) as usize % 4;
        for j in 0..len {
            let pick = (state >> (8 * j + 3)) % 5;
            text.push((b'a' + pick as u8) as char);
        }
        if i % 5 == 0 {
            text.push('!');
        }
    }
    text
}

#[test]
fn empty_text_has_empty_analysis() {
    let (fast, slow) = both("");
    assert_empty(&fast);
    assert_empty(&slow);
}

#[test]
fn whitespace_only_is_like_empty() {
    for text in [" ", "   \t\n  ", "\r\n\r\n", "\u{00A0}\u{2003}\u{3000}"] {
        let (fast, slow) = both(text);
        assert_empty(&fast);
        assert_empty(&slow);
    }
}

#[test]
fn tokens_without_letters_give_nothing() {
    for text in ["123 456", "!!! ... ---", "42", "1,000.50 $$ (#)"] {
        let (fast, slow) = both(text);
        assert_empty(&fast);
        assert_empty(&slow);
    }
}

#[test]
fn the_quick_fox_scenario() {
    let (fast, slow) = both("the Quick quick THE fox");
    for stats in [&fast, &slow] {
        assert_eq!(stats.word_count, 3);
        assert_eq!(stats.char_count, 19);
        assert_eq!(stats.top_words, pairs(&[("quick", 2), ("the", 2), ("fox", 1)]));
        assert_eq!(stats.longest_words, names(&["quick", "fox", "the"]));
    }
}

#[test]
fn ten_distinct_words_are_all_listed() {
    let text = "apple banana cherry date elderberry fig grape honeydew kiwi lemon";
    let (fast, slow) = both(text);
    for stats in [&fast, &slow] {
        assert_eq!(stats.word_count, 10);
        assert_eq!(stats.char_count, 56);
        assert_eq!(
            stats.top_words,
            pairs(&[
                ("apple", 1),
                ("banana", 1),
                ("cherry", 1),
                ("date", 1),
                ("elderberry", 1),
                ("fig", 1),
                ("grape", 1),
                ("honeydew", 1),
                ("kiwi", 1),
                ("lemon", 1),
            ])
        );
        assert_eq!(
            stats.longest_words,
            names(&["elderberry", "honeydew", "banana", "cherry", "apple"])
        );
    }
}

#[test]
fn the_eleventh_word_is_left_out() {
    let text = "mango lemon kiwi honeydew grape fig elderberry date cherry banana apple";
    let (fast, slow) = both(text);
    for stats in [&fast, &slow] {
        assert_eq!(stats.word_count, 11);
        assert_eq!(stats.top_words.len(), 10);
        assert!(stats.top_words.iter().all(|(w, _)| w != "mango"));
        assert_eq!(stats.top_words[0], ("apple".to_string(), 1));
        assert_eq!(stats.top_words[9], ("lemon".to_string(), 1));
        assert_eq!(stats.longest_words.len(), 5);
    }
}

#[test]
fn a_frequent_word_displaces_a_rare_one() {
    let text = "a b c d e f g h i j zz zz";
    let (fast, slow) = both(text);
    for stats in [&fast, &slow] {
        assert_eq!(stats.word_count, 11);
        assert_eq!(stats.top_words[0], ("zz".to_string(), 2));
        assert_eq!(stats.top_words[1], ("a".to_string(), 1));
        assert_eq!(stats.top_words[9], ("i".to_string(), 1));
        assert_eq!(stats.longest_words, names(&["zz", "a", "b", "c", "d"]));
    }
}

#[test]
fn fewer_than_five_words_are_not_padded() {
    let (fast, slow) = both("one two two three three three");
    for stats in [&fast, &slow] {
        assert_eq!(stats.word_count, 3);
        assert_eq!(stats.top_words, pairs(&[("three", 3), ("two", 2), ("one", 1)]));
        assert_eq!(stats.longest_words, names(&["three", "one", "two"]));
    }
    let (fast, slow) = both("solo");
    for stats in [&fast, &slow] {
        assert_eq!(stats.top_words, pairs(&[("solo", 1)]));
        assert_eq!(stats.longest_words, names(&["solo"]));
    }
}

#[test]
fn repeated_words_are_listed_once_among_the_longest() {
    let (fast, slow) = both("hello hello hello hi");
    for stats in [&fast, &slow] {
        assert_eq!(stats.word_count, 2);
        assert_eq!(stats.longest_words, names(&["hello", "hi"]));
    }
}

#[test]
fn punctuation_and_digits_are_dropped_from_words() {
    let (fast, slow) = both("Don't stop, don't  STOP!  r2d2 (x)");
    for stats in [&fast, &slow] {
        assert_eq!(stats.word_count, 4);
        assert_eq!(stats.char_count, 19);
        assert_eq!(
            stats.top_words,
            pairs(&[("dont", 2), ("stop", 2), ("rd", 1), ("x", 1)])
        );
        assert_eq!(stats.longest_words, names(&["dont", "stop", "rd", "x"]));
    }
}

#[test]
fn letters_follow_unicode_and_case_follows_ascii() {
    let (fast, slow) = both("Caf\u{e9} \u{c9}T\u{c9} caf\u{e9} 京都 x\u{2014}y");
    for stats in [&fast, &slow] {
        assert_eq!(stats.word_count, 4);
        assert_eq!(stats.char_count, 15);
        assert_eq!(
            stats.top_words,
            pairs(&[("caf\u{e9}", 2), ("xy", 1), ("\u{c9}t\u{c9}", 1), ("京都", 1)])
        );
        assert_eq!(
            stats.longest_words,
            names(&["caf\u{e9}", "\u{c9}t\u{c9}", "xy", "京都"])
        );
    }
}

#[test]
fn unicode_whitespace_separates_tokens() {
    let (fast, slow) = both("left\u{00A0}right\u{2003}left\u{3000}mid\u{0085}end");
    for stats in [&fast, &slow] {
        assert_eq!(stats.word_count, 4);
        assert_eq!(stats.char_count, 19);
        assert_eq!(stats.top_words[0], ("left".to_string(), 2));
        assert_eq!(stats.longest_words, names(&["right", "left", "end", "mid"]));
    }
}

#[test]
fn a_prefix_comes_before_the_longer_word() {
    let (fast, slow) = both("ab abc a b");
    for stats in [&fast, &slow] {
        assert_eq!(stats.top_words, pairs(&[("a", 1), ("ab", 1), ("abc", 1), ("b", 1)]));
        assert_eq!(stats.longest_words, names(&["abc", "ab", "a", "b"]));
    }
}

#[test]
fn analysis_is_repeatable() {
    let text = scrambled(500, 11);
    let first = analyze_text_fast(&text);
    let second = analyze_text_fast(&text);
    assert_same(&first, &second);
    let third = analyze_text_slow(&text);
    assert_same(&first, &third);
}

#[test]
fn counts_never_rise_and_nothing_left_out_is_better() {
    let text = scrambled(2000, 5);
    let (words, _, _, _) = expected(&text);
    let stats = analyze_text_fast(&text);
    assert_eq!(stats.top_words.len(), words.min(10));
    assert_eq!(stats.longest_words.len(), words.min(5));
    for pair in stats.top_words.windows(2) {
        assert!(pair[0].1 >= pair[1].1);
    }
    for pair in stats.longest_words.windows(2) {
        assert!(pair[0].chars().count() >= pair[1].chars().count());
    }
}

#[test]
fn analyses_match_a_plain_reckoning() {
    for seed in 0..40u64 {
        let text = scrambled((seed as usize * 37) % 400, seed);
        assert_expected(&text);
    }
    assert_expected("");
    assert_expected("x");
    assert_expected("b a c a b a");
    assert_expected(&scrambled(5000, 99));
}

#[test]
fn many_distinct_words_keep_the_ten_best() {
    let mut text = String::new();
    for i in 0..300usize {
        let word: String = format!("w{}", i)
            .chars()
            .map(|c| if c.is_ascii_digit() { (b'a' + (c as u8 - b'0')) as char } else { c })
            .collect();
        for _ in 0..(1 + (i * 7919) % 23) {
            text.push_str(&word);
            text.push(' ');
        }
    }
    assert_expected(&text);
    let stats = analyze_text_fast(&text);
    assert_eq!(stats.word_count, 300);
    assert_eq!(stats.top_words[0].1, 23);
}

#[test]
fn long_text_of_one_word() {
    let text = "echo ".repeat(10_000);
    let (fast, slow) = both(&text);
    for stats in [&fast, &slow] {
        assert_eq!(stats.word_count, 1);
        assert_eq!(stats.char_count, 40_000);
        assert_eq!(stats.top_words, pairs(&[("echo", 10_000)]));
        assert_eq!(stats.longest_words, names(&["echo"]));
    }
}
