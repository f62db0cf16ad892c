use hangman::filter::class_size;
use hangman::filter::find_leader;
use hangman::filter::has_letter;
use hangman::filter::keep_denying;
use hangman::filter::keep_showing;
use hangman::filter::same_pattern;
use hangman::filter::some_word_lacks;
use hangman::mask::mask;
use hangman::session::can_rank;
use hangman::session::each_in_either;
use hangman::session::share_no_letter;
use hangman::session::without_letter;
use hangman::text::same_chars;
use hangman::App;
use hangman::Language;
use hangman::Word;

fn chars(text: &str) -> Vec<char> {
    text.chars().collect()
}

fn pool(texts: &[&str]) -> Vec<Word> {
    texts.iter().map(|t| Word::new(chars(t))).collect()
}

fn texts(pool: &Vec<Word>) -> Vec<String> {
    pool.iter().map(|w| w.word.iter().collect::<String>()).collect()
}

fn fresh(words: &[&str]) -> App {
    let words = pool(words);
    let current_word = mask(&words[0].word, &Vec::new());
    App {
        words,
        remaining_letters: Language::English.alphabet(),
        guessed_letters: Vec::new(),
        current_word,
        language: Language::English,
    }
}

#[test]
fn new_word_is_unranked() {
    let w = Word::new(chars("tree"));
    assert_eq!(w.word, chars("tree"));
    assert_eq!(w.score, 0);
    let d = Word::default();
    assert!(d.word.is_empty());
    assert!(d.char_count.is_empty());
    assert_eq!(d.score, 0);
}

#[test]
fn new_word_counts_its_characters() {
    let w = Word::new(chars("aab"));
    assert_eq!(w.word, chars("aab"));
    assert_eq!(w.char_count.len(), 2);
    assert_eq!(w.char_count.get(&('a' as u32)), Some(&2));
    assert_eq!(w.char_count.get(&('b' as u32)), Some(&1));
    assert_eq!(w.char_count.get(&('c' as u32)), None);
    assert_eq!(w.char_count.values().sum::<u64>(), 3);
    assert_eq!(w.score, 0);
    let w = Word::new(chars("süß"));
    assert_eq!(w.char_count.len(), 3);
    assert_eq!(w.char_count.get(&('ß' as u32)), Some(&1));
    let w = Word::new(Vec::new());
    assert!(w.char_count.is_empty());
}

#[test]
fn ranked_words_keep_their_counts() {
    let ranked = hangman::ranker::rank(&vec![chars("b"), chars("aab")]);
    assert_eq!(ranked[0].word, chars("aab"));
    assert_eq!(ranked[0].score, 4);
    assert_eq!(ranked[0].char_count.get(&('a' as u32)), Some(&2));
    assert_eq!(ranked[0].char_count.get(&('b' as u32)), Some(&1));
    assert_eq!(ranked[0].char_count.len(), 2);
    assert_eq!(ranked[1].word, chars("b"));
    assert_eq!(ranked[1].score, 2);
    assert_eq!(ranked[1].char_count.get(&('b' as u32)), Some(&1));
    assert_eq!(ranked[1].char_count.len(), 1);
}

#[test]
fn has_letter_finds_a_letter_anywhere() {
    assert!(has_letter(&chars("bat"), 'b'));
    assert!(has_letter(&chars("bat"), 't'));
    assert!(!has_letter(&chars("bat"), 'x'));
    assert!(!has_letter(&Vec::new(), 'x'));
}

#[test]
fn same_pattern_compares_places_of_the_letter() {
    assert!(same_pattern(&chars("bat"), &chars("car"), 'a'));
    assert!(!same_pattern(&chars("bat"), &chars("abt"), 'a'));
    assert!(same_pattern(&chars("bat"), &chars("dog"), 'x'));
    assert!(!same_pattern(&chars("bat"), &chars("boat"), 'x'));
    assert!(same_pattern(&chars("noon"), &chars("boot"), 'o'));
    assert!(!same_pattern(&chars("noon"), &chars("onto"), 'o'));
    assert!(same_pattern(&chars("ab"), &chars("cd"), '.'));
}

#[test]
fn some_word_lacks_looks_at_every_word() {
    assert!(some_word_lacks(&pool(&["bat", "dog"]), 't'));
    assert!(some_word_lacks(&pool(&["dog", "bat"]), 't'));
    assert!(!some_word_lacks(&pool(&["bat", "tot"]), 't'));
    assert!(!some_word_lacks(&Vec::new(), 't'));
}

#[test]
fn class_size_counts_the_words_of_a_class() {
    let words = pool(&["ab", "ba", "ac", "ca", "ad"]);
    assert_eq!(class_size(&words, 'a', 0), 3);
    assert_eq!(class_size(&words, 'a', 1), 2);
    assert_eq!(class_size(&words, 'a', 4), 3);
    assert_eq!(class_size(&words, 'z', 2), 5);
}

#[test]
fn leader_is_the_first_of_the_largest_class() {
    assert_eq!(find_leader(&pool(&["ab", "ba", "ac", "ca", "ad"]), 'a'), 0);
    assert_eq!(find_leader(&pool(&["ba", "ab", "ac", "ca", "ad"]), 'a'), 1);
    assert_eq!(find_leader(&pool(&["ba", "ab"]), 'a'), 0);
    assert_eq!(find_leader(&pool(&["aa", "ab", "ba", "ac", "ca"]), 'a'), 1);
    assert_eq!(find_leader(&pool(&["x"]), 'a'), 0);
}

#[test]
fn keeping_keeps_the_order() {
    let kept = keep_denying(pool(&["dog", "bat", "cog", "tot", "pig"]), 't');
    assert_eq!(texts(&kept), vec!["dog", "cog", "pig"]);
    let kept = keep_showing(pool(&["at", "ta", "an", "na", "as"]), 'a', &chars("ax"));
    assert_eq!(texts(&kept), vec!["at", "an", "as"]);
    let kept = keep_showing(pool(&["at", "ta"]), 'a', &chars("aa"));
    assert!(kept.is_empty());
}

#[test]
fn without_letter_removes_every_occurrence() {
    assert_eq!(without_letter(&chars("abcabc"), 'b'), chars("acac"));
    assert_eq!(without_letter(&chars("abc"), 'x'), chars("abc"));
    assert!(without_letter(&chars("bbb"), 'b').is_empty());
}

#[test]
fn letter_sets_are_compared_by_membership() {
    assert!(share_no_letter(&chars("abc"), &chars("xyz")));
    assert!(!share_no_letter(&chars("abc"), &chars("xbz")));
    assert!(share_no_letter(&Vec::new(), &chars("a")));
    assert!(each_in_either(&chars("abc"), &chars("ca"), &chars("b")));
    assert!(!each_in_either(&chars("abc"), &chars("ca"), &chars("d")));
    assert!(each_in_either(&Vec::new(), &Vec::new(), &Vec::new()));
    assert!(same_chars(&chars("abc"), &chars("abc")));
    assert!(!same_chars(&chars("abc"), &chars("abd")));
    assert!(!same_chars(&chars("abc"), &chars("ab")));
}

#[test]
fn short_word_lists_can_be_ranked() {
    assert!(can_rank("bat cat car"));
    assert!(can_rank(""));
}

#[test]
fn playable_games_stay_playable() {
    let mut app = fresh(&["bat", "cat", "dog"]);
    assert!(app.is_playable());
    app.clicked('a');
    assert!(app.is_playable());
    app.clicked('q');
    assert!(app.is_playable());
    assert!(App::new(Language::German, "süß tür").is_playable());
}

#[test]
fn broken_games_are_not_playable() {
    assert!(!App::new(Language::English, "").is_playable());
    let mut app = fresh(&["bat"]);
    app.guessed_letters.push('a');
    assert!(!app.is_playable());
    let mut app = fresh(&["bat"]);
    app.current_word = vec!['b', ' ', '_', ' ', '_', ' '];
    assert!(!app.is_playable());
    let mut app = fresh(&["bat"]);
    app.remaining_letters.pop();
    assert!(!app.is_playable());
    let mut app = fresh(&["bat"]);
    app.remaining_letters.push('ß');
    assert!(!app.is_playable());
    let mut app = fresh(&["bat"]);
    app.language = Language::German;
    assert!(!app.is_playable());
}
