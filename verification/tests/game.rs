use hangman::filter::narrow;
use hangman::mask::is_lost;
use hangman::mask::is_won;
use hangman::mask::mask;
use hangman::mask::wrong_guess_count;
use hangman::text::to_chars;
use hangman::text::to_text;
use hangman::App;
use hangman::Language;
use hangman::Word;

fn word(text: &str) -> Word {
    Word::new(text.chars().collect())
}

fn pool(texts: &[&str]) -> Vec<Word> {
    texts.iter().map(|t| word(t)).collect()
}

fn texts(pool: &Vec<Word>) -> Vec<String> {
    pool.iter().map(|w| w.word.iter().collect::<String>()).collect()
}

fn game(words: &[&str]) -> App {
    let words = pool(words);
    let guessed: Vec<char> = Vec::new();
    let current_word = mask(&words[0].word, &guessed);
    App {
        words,
        remaining_letters: Language::English.alphabet(),
        guessed_letters: guessed,
        current_word,
        language: Language::English,
    }
}

#[test]
fn guess_in_every_word_at_the_same_place_keeps_the_pool() {
    let mut app = game(&["bat", "cat", "car"]);
    app.clicked('a');
    assert_eq!(texts(&app.words), vec!["bat", "cat", "car"]);
    assert_eq!(to_text(&app.current_word), "_ a _ ");
    assert_eq!(app.current_view().masked_word, "_ a _ ");
    assert_eq!(app.guessed_letters, vec!['a']);
    assert!(!app.remaining_letters.contains(&'a'));
    assert_eq!(app.remaining_letters.len(), 25);
}

#[test]
fn guess_is_denied_where_a_word_lacks_the_letter() {
    let mut app = game(&["bat", "dog"]);
    app.clicked('t');
    assert_eq!(texts(&app.words), vec!["dog"]);
    assert_eq!(app.current_view().masked_word, "_ _ _ ");
    assert_eq!(app.current_view().wrong_guess_count, 1);
}

#[test]
fn denial_is_preferred_to_a_larger_class() {
    let kept = narrow(pool(&["bat", "cat", "hat", "dog"]), 'a');
    assert_eq!(texts(&kept), vec!["dog"]);
}

#[test]
fn largest_class_survives_a_forced_reveal() {
    let kept = narrow(pool(&["ab", "ba", "ac", "ca", "ad"]), 'a');
    assert_eq!(texts(&kept), vec!["ab", "ac", "ad"]);
    let kept = narrow(pool(&["ba", "ab", "ca", "ac", "da"]), 'a');
    assert_eq!(texts(&kept), vec!["ba", "ca", "da"]);
}

#[test]
fn classes_of_equal_size_go_to_the_earliest() {
    let kept = narrow(pool(&["ab", "ba"]), 'a');
    assert_eq!(texts(&kept), vec!["ab"]);
    let kept = narrow(pool(&["ba", "ab"]), 'a');
    assert_eq!(texts(&kept), vec!["ba"]);
    let kept = narrow(pool(&["ba", "ab", "ac", "ca"]), 'a');
    assert_eq!(texts(&kept), vec!["ba", "ca"]);
}

#[test]
fn words_of_other_lengths_form_other_classes() {
    let kept = narrow(pool(&["ab", "abc", "abd"]), 'a');
    assert_eq!(texts(&kept), vec!["abc", "abd"]);
}

#[test]
fn narrowing_an_empty_pool_gives_an_empty_pool() {
    let kept = narrow(Vec::new(), 'a');
    assert!(kept.is_empty());
}

#[test]
fn guessing_the_placeholder_groups_by_length() {
    let kept = narrow(pool(&["a.", "b.", ".c"]), '.');
    assert_eq!(texts(&kept), vec!["a.", "b.", ".c"]);
}

#[test]
fn pool_shrinks_and_stays_part_of_the_old_pool() {
    let mut app = game(&["bat", "cat", "car", "dog", "cot", "cog"]);
    let mut before = texts(&app.words);
    for c in ['a', 'o', 'c', 't', 'g', 'z'] {
        app.clicked(c);
        let after = texts(&app.words);
        assert!(after.len() <= before.len());
        assert!(!after.is_empty());
        assert!(after.iter().all(|w| before.contains(w)));
        before = after;
    }
}

#[test]
fn pool_agrees_with_every_guess() {
    let mut app = game(&["bat", "cat", "car", "dog", "cot", "cog", "tot"]);
    for c in ['a', 'o', 't', 'c'] {
        app.clicked(c);
    }
    assert_eq!(texts(&app.words), vec!["dog"]);
    for g in app.guessed_letters.clone() {
        let patterns: Vec<Vec<bool>> =
            app.words.iter().map(|w| w.word.iter().map(|x| *x == g).collect()).collect();
        let none = patterns.iter().all(|p| p.iter().all(|b| !*b));
        let same = patterns.iter().all(|p| *p == patterns[0]);
        assert!(none || same);
    }
}

#[test]
fn single_word_pool_never_shrinks() {
    let mut app = game(&["dog"]);
    for c in ['a', 'd', 'z', 'o', 'g'] {
        app.clicked(c);
        assert_eq!(texts(&app.words), vec!["dog"]);
    }
    assert_eq!(app.current_view().masked_word, "d o g ");
}

#[test]
fn guessing_a_letter_again_changes_nothing() {
    let mut app = game(&["bat", "cat", "dog"]);
    app.clicked('a');
    let words = texts(&app.words);
    let remaining = app.remaining_letters.clone();
    let guessed = app.guessed_letters.clone();
    let shown = app.current_word.clone();
    app.clicked('a');
    assert_eq!(texts(&app.words), words);
    assert_eq!(app.remaining_letters, remaining);
    assert_eq!(app.guessed_letters, guessed);
    assert_eq!(app.current_word, shown);
}

#[test]
fn guessing_outside_the_alphabet_changes_nothing() {
    let mut app = game(&["bat", "cat", "dog"]);
    app.clicked('ß');
    app.clicked('3');
    assert_eq!(texts(&app.words), vec!["bat", "cat", "dog"]);
    assert_eq!(app.remaining_letters, Language::English.alphabet());
    assert!(app.guessed_letters.is_empty());
    assert_eq!(to_text(&app.current_word), "_ _ _ ");
}

#[test]
fn mask_shows_exactly_the_guessed_letters() {
    let shown = mask(&to_chars("banana"), &vec!['a', 'x']);
    assert_eq!(to_text(&shown), "_ a _ a _ a ");
    assert_eq!(shown.len(), 12);
    let shown = mask(&to_chars("banana"), &vec!['n', 'b', 'a']);
    assert_eq!(to_text(&shown), "b a n a n a ");
    let shown = mask(&to_chars("banana"), &Vec::new());
    assert_eq!(to_text(&shown), "_ _ _ _ _ _ ");
    let shown = mask(&Vec::new(), &vec!['a']);
    assert!(shown.is_empty());
}

#[test]
fn mask_of_a_guessed_blank_is_a_blank() {
    let shown = mask(&to_chars("a_b"), &vec!['_']);
    assert_eq!(to_text(&shown), "_ _ _ ");
}

#[test]
fn ten_wrong_guesses_lose_the_game() {
    let mut app = game(&["dog"]);
    for c in ['a', 'b', 'c', 'e', 'f', 'h', 'i', 'j', 'k'] {
        app.clicked(c);
    }
    let view = app.current_view();
    assert_eq!(view.wrong_guess_count, 9);
    assert!(!view.is_lost);
    assert!(!view.is_won);
    app.clicked('l');
    let view = app.current_view();
    assert_eq!(view.wrong_guess_count, 10);
    assert!(view.is_lost);
    assert!(!view.is_won);
    assert_eq!(view.revealed_answer, "dog");
    assert_eq!(view.masked_word, "_ _ _ ");
}

#[test]
fn right_guesses_do_not_count_as_wrong() {
    let word = to_chars("dog");
    assert_eq!(wrong_guess_count(&word, &to_chars("dxoyg")), 2);
    assert_eq!(wrong_guess_count(&word, &Vec::new()), 0);
    assert!(!is_lost(&word, &to_chars("dogabcefhijk")));
    assert!(is_lost(&word, &to_chars("dogabcefhijkl")));
}

#[test]
fn all_letters_guessed_win_the_game() {
    let mut app = game(&["noon"]);
    app.clicked('x');
    app.clicked('n');
    assert!(!app.current_view().is_won);
    app.clicked('o');
    let view = app.current_view();
    assert!(view.is_won);
    assert!(!view.is_lost);
    assert_eq!(view.wrong_guess_count, 1);
    assert_eq!(view.masked_word, "n o o n ");
    assert_eq!(view.revealed_answer, "noon");
}

#[test]
fn win_needs_every_distinct_letter() {
    assert!(is_won(&to_chars("noon"), &to_chars("on")));
    assert!(!is_won(&to_chars("noon"), &to_chars("o")));
    assert!(is_won(&Vec::new(), &Vec::new()));
}

#[test]
fn new_game_ranks_the_words_and_blanks_the_mask() {
    let app = App::new(Language::English, "b  ab\nabc\t");
    assert_eq!(texts(&app.words), vec!["abc", "ab", "b"]);
    assert_eq!(app.words[0].score, 6);
    assert_eq!(app.words[1].score, 5);
    assert_eq!(app.words[2].score, 3);
    assert_eq!(to_text(&app.current_word), "_ _ _ ");
    assert_eq!(app.remaining_letters.len(), 26);
    assert!(app.guessed_letters.is_empty());
    assert_eq!(app.language, Language::English);
}

#[test]
fn new_game_without_words_has_an_empty_pool() {
    let app = App::new(Language::French, " \n ");
    assert!(app.words.is_empty());
    assert!(app.current_word.is_empty());
    assert_eq!(app.language, Language::French);
}

#[test]
fn changing_the_language_starts_anew() {
    let mut app = game(&["bat", "dog"]);
    app.clicked('t');
    app.clicked('d');
    app.update_language(Language::German, "süß tür");
    assert_eq!(app.language, Language::German);
    assert_eq!(texts(&app.words), vec!["süß", "tür"]);
    assert!(app.guessed_letters.is_empty());
    assert_eq!(app.remaining_letters, Language::German.alphabet());
    assert_eq!(app.remaining_letters.len(), 31);
    assert_eq!(to_text(&app.current_word), "_ _ _ ");
    app.clicked('ü');
    assert_eq!(texts(&app.words), vec!["süß", "tür"]);
    assert_eq!(to_text(&app.current_word), "_ ü _ ");
    app.clicked('ß');
    assert_eq!(texts(&app.words), vec!["tür"]);
}

#[test]
fn every_guessed_letter_stands_at_the_same_places_in_all_words() {
    let mut app = game(&["noon", "boot", "root", "moon", "bolt", "tree", "onto", "cat"]);
    for c in ['o', 'e', 't', 'n', 'a', 'b', 'r'] {
        app.clicked(c);
        assert!(!app.words.is_empty());
        for g in app.guessed_letters.clone() {
            let places: Vec<Vec<usize>> = app
                .words
                .iter()
                .map(|w| (0..w.word.len()).filter(|i| w.word[*i] == g).collect())
                .collect();
            assert!(places.iter().all(|p| *p == places[0]));
        }
    }
}
