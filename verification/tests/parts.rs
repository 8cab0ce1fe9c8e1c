use text_analyzer::heap::{heap_pop, heap_push};
use text_analyzer::letters::to_lower;
use text_analyzer::order::word_precedes;
use text_analyzer::rank::{beats, score, Metric};
use text_analyzer::select::{select_by_scanning, select_with_heap};
use text_analyzer::stats::{count_letters, count_words, tally_text};
use text_analyzer::table::{string_of, FrequencyTable};
use text_analyzer::tokens::{normalize_token, split_tokens};

fn chars(s: &str) -> Vec<char> {
    s.chars().collect()
}

fn table_of(words: &[&str]) -> FrequencyTable {
    let mut table = FrequencyTable::new();
    for w in words {
        table.record(chars(w));
    }
    table
}

fn words_at(table: &FrequencyTable, picked: &[usize]) -> Vec<String> {
    picked.iter().map(|&i| string_of(table.word(i))).collect()
}

#[test]
fn ascii_capitals_are_lowered() {
    assert_eq!(to_lower('A'), 'a');
    assert_eq!(to_lower('M'), 'm');
    assert_eq!(to_lower('Z'), 'z');
}

#[test]
fn other_characters_keep_their_case() {
    for c in ['a', 'z', '@', '[', '0', ' ', '\u{c9}', '\u{e9}', '京'] {
        assert_eq!(to_lower(c), c);
    }
}

#[test]
fn lower_case_agrees_with_std_on_every_ascii_character() {
    for code in 0u8..128 {
        let c = code as char;
        assert_eq!(to_lower(c), c.to_ascii_lowercase());
    }
}

#[test]
fn words_are_ordered_by_code_point() {
    assert!(word_precedes(&chars("a"), &chars("b")));
    assert!(!word_precedes(&chars("b"), &chars("a")));
    assert!(word_precedes(&chars("ab"), &chars("abc")));
    assert!(!word_precedes(&chars("abc"), &chars("ab")));
    assert!(!word_precedes(&chars("same"), &chars("same")));
    assert!(word_precedes(&chars(""), &chars("a")));
    assert!(!word_precedes(&chars(""), &chars("")));
    assert!(!word_precedes(&chars("a"), &chars("")));
    assert!(word_precedes(&chars("Z"), &chars("a")));
    assert!(word_precedes(&chars("z"), &chars("\u{e9}")));
    assert!(word_precedes(&chars("abd"), &chars("abz")));
}

#[test]
fn word_order_agrees_with_the_order_of_strings() {
    let samples = ["", "a", "ab", "abc", "b", "ba", "Z", "\u{e9}", "京", "az", "a\u{e9}"];
    for a in samples {
        for b in samples {
            assert_eq!(word_precedes(&chars(a), &chars(b)), a < b);
        }
    }
}

#[test]
fn tokens_are_runs_between_whitespace() {
    let tokens = split_tokens("  one, two\tthree\n\n4  ");
    let tokens: Vec<String> = tokens.iter().map(string_of).collect();
    assert_eq!(tokens, ["one,", "two", "three", "4"]);
}

#[test]
fn blank_text_has_no_tokens() {
    assert!(split_tokens("").is_empty());
    assert!(split_tokens(" \n\t ").is_empty());
}

#[test]
fn tokens_agree_with_split_whitespace() {
    for text in ["a", " a", "a ", "a  b", "x\u{00A0}y z\u{2028}w", "tab\tsep\r\nline", "京 都"] {
        let tokens: Vec<String> = split_tokens(text).iter().map(string_of).collect();
        let wanted: Vec<&str> = text.split_whitespace().collect();
        assert_eq!(tokens, wanted);
    }
}

#[test]
fn a_word_is_the_lowered_letters_of_its_token() {
    assert_eq!(string_of(&normalize_token(&chars("Hello,"))), "hello");
    assert_eq!(string_of(&normalize_token(&chars("R2-D2"))), "rd");
    assert_eq!(string_of(&normalize_token(&chars("1234"))), "");
    assert_eq!(string_of(&normalize_token(&chars(""))), "");
    assert_eq!(string_of(&normalize_token(&chars("\u{c9}cole"))), "\u{c9}cole");
    assert_eq!(string_of(&normalize_token(&chars("ABCxyz"))), "abcxyz");
}

#[test]
fn a_string_holds_the_characters_it_was_made_of() {
    assert_eq!(string_of(&chars("")), "");
    assert_eq!(string_of(&chars("abc")), "abc");
    assert_eq!(string_of(&chars("caf\u{e9} 京")), "caf\u{e9} 京");
}

#[test]
fn a_new_table_is_empty() {
    let table = FrequencyTable::new();
    assert_eq!(table.len(), 0);
}

#[test]
fn the_table_counts_each_word() {
    let table = table_of(&["b", "a", "b", "c", "b", "a"]);
    assert_eq!(table.len(), 3);
    assert_eq!(string_of(table.word(0)), "b");
    assert_eq!(string_of(table.word(1)), "a");
    assert_eq!(string_of(table.word(2)), "c");
    assert_eq!(table.count(0), 3);
    assert_eq!(table.count(1), 2);
    assert_eq!(table.count(2), 1);
}

#[test]
fn scores_are_counts_or_lengths() {
    let table = table_of(&["long", "x", "x"]);
    assert_eq!(score(&table, Metric::Frequency, 0), 1);
    assert_eq!(score(&table, Metric::Frequency, 1), 2);
    assert_eq!(score(&table, Metric::Length, 0), 4);
    assert_eq!(score(&table, Metric::Length, 1), 1);
}

#[test]
fn length_is_counted_in_characters() {
    let table = table_of(&["\u{e9}\u{e9}\u{e9}", "abcd"]);
    assert_eq!(score(&table, Metric::Length, 0), 3);
    assert!(beats(&table, Metric::Length, 1, 0));
}

#[test]
fn the_higher_score_wins_and_the_smaller_word_breaks_a_tie() {
    let table = table_of(&["pear", "fig", "fig", "plum"]);
    assert!(beats(&table, Metric::Frequency, 1, 0));
    assert!(!beats(&table, Metric::Frequency, 0, 1));
    assert!(beats(&table, Metric::Frequency, 0, 2));
    assert!(!beats(&table, Metric::Frequency, 2, 0));
    assert!(!beats(&table, Metric::Frequency, 0, 0));
    assert!(beats(&table, Metric::Length, 0, 1));
    assert!(beats(&table, Metric::Length, 0, 2));
}

#[test]
fn the_heap_gives_up_the_lowest_entry_first() {
    let table = table_of(&["d", "b", "b", "a", "c", "c", "c", "e"]);
    let mut heap: Vec<usize> = Vec::new();
    for i in 0..table.len() {
        heap_push(&mut heap, &table, Metric::Frequency, i);
    }
    assert_eq!(heap.len(), 5);
    let mut out = Vec::new();
    while !heap.is_empty() {
        out.push(heap_pop(&mut heap, &table, Metric::Frequency));
    }
    assert_eq!(words_at(&table, &out), ["e", "d", "a", "b", "c"]);
}

#[test]
fn both_selections_list_the_best_first() {
    let table = table_of(&["d", "b", "b", "a", "c", "c", "c", "e"]);
    for k in 0..8 {
        let by_heap = select_with_heap(&table, k, Metric::Frequency);
        let by_scan = select_by_scanning(&table, k, Metric::Frequency);
        assert_eq!(by_heap, by_scan);
        let all = ["c", "b", "a", "d", "e"];
        assert_eq!(words_at(&table, &by_heap), &all[..k.min(5)]);
    }
}

#[test]
fn selection_by_length() {
    let table = table_of(&["aa", "b", "cccc", "dd", "eee", "b"]);
    let by_heap = select_with_heap(&table, 3, Metric::Length);
    let by_scan = select_by_scanning(&table, 3, Metric::Length);
    assert_eq!(words_at(&table, &by_heap), ["cccc", "eee", "aa"]);
    assert_eq!(by_heap, by_scan);
}

#[test]
fn selection_from_an_empty_table_is_empty() {
    let table = FrequencyTable::new();
    assert!(select_with_heap(&table, 10, Metric::Frequency).is_empty());
    assert!(select_by_scanning(&table, 10, Metric::Frequency).is_empty());
}

#[test]
fn one_pass_counts_words_and_letters() {
    let (table, letters) = tally_text("It's it's its ITS 4x4");
    assert_eq!(letters, 13);
    assert_eq!(table.len(), 2);
    assert_eq!(string_of(table.word(0)), "its");
    assert_eq!(table.count(0), 4);
    assert_eq!(string_of(table.word(1)), "x");
    assert_eq!(table.count(1), 1);
}

#[test]
fn separate_passes_count_the_same() {
    for text in ["", "  ", "a b a", "x1 y2 -- z", "caf\u{e9}\u{00A0}Caf\u{e9} \u{c9}"] {
        let (table, letters) = tally_text(text);
        let again = count_words(text);
        assert_eq!(count_letters(text), letters);
        assert_eq!(again.len(), table.len());
        for i in 0..table.len() {
            assert_eq!(again.word(i), table.word(i));
            assert_eq!(again.count(i), table.count(i));
        }
    }
}

#[test]
fn letters_in_whitespace_free_text() {
    assert_eq!(count_letters("abc"), 3);
    assert_eq!(count_letters("a1b2c3"), 3);
    assert_eq!(count_letters("  a  b  "), 2);
    assert_eq!(count_letters("京都 tokyo"), 7);
    assert_eq!(count_letters("12 34"), 0);
}
