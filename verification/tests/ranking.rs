use hangman::language::Language;
use hangman::ranker::letter_frequencies;
use hangman::ranker::rank;
use hangman::ranker::score_word;
use hangman::ranker::seen_before;
use hangman::ranker::stable_order;
use hangman::text::copy_chars;
use hangman::text::is_whitespace;
use hangman::text::split_words;
use hangman::text::to_chars;
use hangman::text::to_text;

fn list(words: &[&str]) -> Vec<Vec<char>> {
    words.iter().map(|w| w.chars().collect()).collect()
}

fn ranked(words: &[&str]) -> Vec<(String, u64)> {
    rank(&list(words)).iter().map(|w| (w.word.iter().collect::<String>(), w.score)).collect()
}

fn pairs(expected: &[(&str, u64)]) -> Vec<(String, u64)> {
    expected.iter().map(|(w, s)| (w.to_string(), *s)).collect()
}

#[test]
fn language_names_are_native() {
    assert_eq!(Language::English.to_string(), "English");
    assert_eq!(Language::French.to_string(), "Français");
    assert_eq!(Language::German.to_string(), "Deutsch");
}

#[test]
fn german_adds_its_letters_to_the_alphabet() {
    assert_eq!(to_text(&Language::English.alphabet()), "abcdefghijklmnopqrstuvwxyz");
    assert_eq!(to_text(&Language::French.alphabet()), "abcdefghijklmnopqrstuvwxyz");
    assert_eq!(to_text(&Language::German.alphabet()), "abcdefghijklmnopqrstuvwxyzäöüéß");
    assert!(Language::English.extra_letters().is_empty());
    assert_eq!(Language::German.extra_letters(), vec!['ä', 'ö', 'ü', 'é', 'ß']);
}

#[test]
fn frequencies_count_every_occurrence() {
    let table = letter_frequencies(&list(&["aa", "b", "ab"]));
    assert_eq!(table.get(&('a' as u32)), Some(&3));
    assert_eq!(table.get(&('b' as u32)), Some(&2));
    assert_eq!(table.get(&('c' as u32)), None);
    assert_eq!(table.len(), 2);
}

#[test]
fn score_counts_each_distinct_letter_once() {
    let words = list(&["aa", "b", "ab"]);
    let table = letter_frequencies(&words);
    assert_eq!(score_word(&words, 0, &table), 3);
    assert_eq!(score_word(&words, 1, &table), 2);
    assert_eq!(score_word(&words, 2, &table), 5);
}

#[test]
fn seen_before_finds_earlier_occurrences_only() {
    let word = to_chars("abca");
    assert!(!seen_before(&word, 0));
    assert!(!seen_before(&word, 1));
    assert!(!seen_before(&word, 2));
    assert!(seen_before(&word, 3));
}

#[test]
fn ranking_orders_by_falling_score() {
    assert_eq!(ranked(&["aa", "b", "ab"]), pairs(&[("ab", 5), ("aa", 3), ("b", 2)]));
    assert_eq!(ranked(&["z", "ab", "bc", "b"]), pairs(&[("ab", 4), ("bc", 4), ("b", 3), ("z", 1)]));
}

#[test]
fn ranking_keeps_equal_scores_in_list_order() {
    assert_eq!(ranked(&["xy", "yx", "z"]), pairs(&[("xy", 4), ("yx", 4), ("z", 1)]));
    assert_eq!(ranked(&["yx", "xy", "z"]), pairs(&[("yx", 4), ("xy", 4), ("z", 1)]));
    assert_eq!(ranked(&["q", "q", "q"]), pairs(&[("q", 3), ("q", 3), ("q", 3)]));
}

#[test]
fn ranking_keeps_every_word() {
    let words = ["tree", "eat", "tea", "a", "", "tree"];
    let mut got: Vec<String> = ranked(&words).into_iter().map(|p| p.0).collect();
    let mut expected: Vec<String> = words.iter().map(|w| w.to_string()).collect();
    got.sort();
    expected.sort();
    assert_eq!(got, expected);
}

#[test]
fn ranking_an_empty_list_gives_an_empty_pool() {
    assert!(rank(&Vec::new()).is_empty());
}

#[test]
fn stable_order_lists_places_by_falling_score() {
    assert_eq!(stable_order(&vec![1, 3, 2, 3, 1]), vec![1, 3, 2, 0, 4]);
    assert_eq!(stable_order(&Vec::new()), Vec::<usize>::new());
    assert_eq!(stable_order(&vec![7]), vec![0]);
    assert_eq!(stable_order(&vec![1, 2, 3]), vec![2, 1, 0]);
}

#[test]
fn words_are_runs_between_whitespace() {
    let words = split_words(&to_chars("  bat\tcat\n\ncar \u{a0}dog\u{3000}"));
    assert_eq!(words, list(&["bat", "cat", "car", "dog"]));
    assert_eq!(split_words(&to_chars("one")), list(&["one"]));
    assert!(split_words(&to_chars("")).is_empty());
    assert!(split_words(&to_chars(" \r\n ")).is_empty());
}

#[test]
fn words_split_as_the_standard_library_splits() {
    let text = "alpha  beta\u{2003}gamma\u{85}delta\u{1680}épée\u{200b}x \u{feff}y";
    let expected: Vec<Vec<char>> = text.split_whitespace().map(|w| w.chars().collect()).collect();
    assert_eq!(split_words(&to_chars(text)), expected);
}

#[test]
fn whitespace_is_what_the_standard_library_calls_whitespace() {
    let mut code: u32 = 0;
    while code <= 0x10FFFF {
        if let Some(c) = char::from_u32(code) {
            assert_eq!(is_whitespace(c), c.is_whitespace());
        }
        code += 1;
    }
}

#[test]
fn text_goes_to_characters_and_back() {
    let chars = to_chars("Français ß");
    assert_eq!(chars, vec!['F', 'r', 'a', 'n', 'ç', 'a', 'i', 's', ' ', 'ß']);
    assert_eq!(to_text(&chars), "Français ß");
    assert_eq!(copy_chars(&chars), chars);
    assert!(to_chars("").is_empty());
    assert_eq!(to_text(&Vec::new()), "");
}
