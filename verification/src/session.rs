//! A game in progress: the pool, the letters, and what the guesser sees.

use vstd::prelude::*;
use crate::filter::has_letter;
use crate::filter::lemma_filter_step;
use crate::filter::narrow;
use crate::filter::narrowed;
use crate::language::alphabet;
use crate::language::Language;
use crate::mask::all_guessed;
use crate::mask::is_lost;
use crate::mask::is_won;
use crate::mask::mask;
use crate::mask::mask_of;
use crate::mask::too_many_wrong;
use crate::mask::wrong_guess_count;
use crate::mask::wrong_guesses;
use crate::ranker::is_ranking;
use crate::ranker::lemma_short_lists_are_rankable;
use crate::ranker::rank;
use crate::ranker::rankable;
use crate::ranker::Word;
use crate::text::lemma_words_within_text;
use crate::text::same_chars;
use crate::text::split_words;
use crate::text::to_chars;
use crate::text::to_text;
use crate::text::words_of;

verus! {

/// The part of a game that a guess acts on.
pub struct Table {
    /// The candidates, in their order.
    pub pool: Seq<Word>,
    /// The letters not guessed yet.
    pub remaining: Seq<char>,
    /// The letters guessed, in the order of the guesses.
    pub guessed: Seq<char>,
}

/// The letters other than `letter`.
pub open spec fn other_than(letter: char) -> spec_fn(char) -> bool {
    |x: char| x != letter
}

/// The table after a guess of `letter`. A letter that is not among the
/// remaining ones changes nothing.
pub open spec fn after_guess(t: Table, letter: char) -> Table {
    if t.remaining.contains(letter) {
        Table {
            pool: narrowed(t.pool, letter),
            remaining: t.remaining.filter(other_than(letter)),
            guessed: t.guessed.push(letter),
        }
    } else {
        t
    }
}

/// The table after the guesses `letters`, made in that order.
pub open spec fn after_guesses(t: Table, letters: Seq<char>) -> Table
    decreases letters.len(),
{
    if letters.len() == 0 {
        t
    } else {
        after_guess(after_guesses(t, letters.drop_last()), letters.last())
    }
}

/// No letter is in both `first` and `second`.
pub open spec fn share_none(first: Seq<char>, second: Seq<char>) -> bool {
    forall|c: char| !(first.contains(c) && second.contains(c))
}

/// Every letter of `letters` is in `first` or in `second`.
pub open spec fn all_within(letters: Seq<char>, first: Seq<char>, second: Seq<char>) -> bool {
    forall|c: char| letters.contains(c) ==> first.contains(c) || second.contains(c)
}

/// No letter is both remaining and guessed.
pub open spec fn letters_disjoint(t: Table) -> bool {
    share_none(t.remaining, t.guessed)
}

/// Every letter of `letters` is remaining or guessed, and no other letter is.
pub open spec fn letters_complete(t: Table, letters: Seq<char>) -> bool {
    &&& all_within(letters, t.remaining, t.guessed)
    &&& all_within(t.remaining, letters, letters)
    &&& all_within(t.guessed, letters, letters)
}

/// A game in progress.
pub struct App {
    /// The candidates that agree with every guess so far, best ranked first.
    pub words: Vec<Word>,
    /// The letters that can still be guessed.
    pub remaining_letters: Vec<char>,
    /// The letters guessed so far, in the order of the guesses.
    pub guessed_letters: Vec<char>,
    /// The masked rendering of the first candidate.
    pub current_word: Vec<char>,
    /// The language of the word list.
    pub language: Language,
}

/// What the presentation layer shows of a game.
pub struct GameView {
    /// The first candidate with its unguessed letters blanked.
    pub masked_word: String,
    /// The number of guessed letters that the first candidate does not hold.
    pub wrong_guess_count: usize,
    /// Every letter of the first candidate was guessed.
    pub is_won: bool,
    /// The wrong guesses have reached the limit.
    pub is_lost: bool,
    /// The first candidate itself, to be shown once the game is over.
    pub revealed_answer: String,
}

/// Removes every occurrence of `letter`, keeping the order of the others.
pub fn without_letter(letters: &Vec<char>, letter: char) -> (rest: Vec<char>)
    ensures
        rest@ == letters@.filter(other_than(letter)),
{
    let mut rest: Vec<char> = Vec::new();
    let mut i: usize = 0;
    while i < letters.len()
        invariant
            i <= letters.len(),
            rest@ == letters@.take(i as int).filter(other_than(letter)),
        decreases letters.len() - i,
    {
        proof {
            lemma_filter_step(letters@, i as int, other_than(letter));
        }
        if letters[i] != letter {
            rest.push(letters[i]);
        }
        i += 1;
    }
    assert(letters@.take(letters.len() as int) =~= letters@);
    rest
}

/// Whether a word list is short enough to be ranked for certain: one of fewer
/// than 2^32 characters always is.
pub fn can_rank(word_list: &str) -> (short: bool)
    ensures
        short == (word_list@.len() <= u32::MAX),
        short ==> rankable(words_of(word_list@)),
{
    let short = word_list.unicode_len() <= 0xFFFF_FFFF;
    proof {
        if short {
            lemma_words_within_text(word_list@);
            lemma_short_lists_are_rankable(words_of(word_list@));
        }
    }
    short
}

/// Whether every letter of `letters` is in `first` or in `second`.
pub fn each_in_either(letters: &Vec<char>, first: &Vec<char>, second: &Vec<char>) -> (all: bool)
    ensures
        all == all_within(letters@, first@, second@),
{
    let mut i: usize = 0;
    while i < letters.len()
        invariant
            i <= letters.len(),
            forall|j: int|
                0 <= j < i ==> first@.contains(#[trigger] letters@[j]) || second@.contains(
                    letters@[j],
                ),
        decreases letters.len() - i,
    {
        if !has_letter(first, letters[i]) && !has_letter(second, letters[i]) {
            assert(letters@.contains(letters@[i as int]));
            return false;
        }
        i += 1;
    }
    true
}

/// Whether no letter is in both `first` and `second`.
pub fn share_no_letter(first: &Vec<char>, second: &Vec<char>) -> (none: bool)
    ensures
        none == share_none(first@, second@),
{
    let mut i: usize = 0;
    while i < second.len()
        invariant
            i <= second.len(),
            forall|j: int| 0 <= j < i ==> !first@.contains(#[trigger] second@[j]),
        decreases second.len() - i,
    {
        if has_letter(first, second[i]) {
            assert(second@.contains(second@[i as int]));
            return false;
        }
        i += 1;
    }
    true
}

impl App {
    /// The pool and the letters of this game.
    pub open spec fn table(&self) -> Table {
        Table {
            pool: self.words@,
            remaining: self.remaining_letters@,
            guessed: self.guessed_letters@,
        }
    }

    /// The game can be played: the pool is not empty, the remaining and the
    /// guessed letters share no letter and make up the language's alphabet,
    /// and the masked word is that of the first candidate.
    pub open spec fn wf(&self) -> bool {
        &&& self.words@.len() > 0
        &&& letters_disjoint(self.table())
        &&& letters_complete(self.table(), alphabet(self.language))
        &&& self.current_word@ == mask_of(self.words@[0].word@, self.guessed_letters@)
    }

    /// The game at its start in `language`, over the words of `word_list`.
    pub open spec fn starts(&self, language: Language, word_list: Seq<char>) -> bool {
        &&& self.language == language
        &&& self.remaining_letters@ == alphabet(language)
        &&& self.guessed_letters@ == Seq::<char>::empty()
        &&& exists|perm: Seq<int>| is_ranking(words_of(word_list), self.words@, perm)
        &&& self.current_word@ == if self.words@.len() > 0 {
            mask_of(self.words@[0].word@, Seq::<char>::empty())
        } else {
            Seq::<char>::empty()
        }
    }

    /// Starts a game in `language` over the words of `word_list`: the pool is
    /// the ranking of the words, every letter of the language's alphabet
    /// remains, none is guessed, and the masked word is all blanks. With a
    /// list that holds no word the pool is empty and the game cannot be played.
    pub fn new(language: Language, word_list: &str) -> (app: App)
        requires
            rankable(words_of(word_list@)),
        ensures
            app.starts(language, word_list@),
            words_of(word_list@).len() > 0 ==> app.wf(),
            crate::laws::places_agree(app.table()),
    {
        let text = to_chars(word_list);
        let list = split_words(&text);
        let words = rank(&list);
        let guessed_letters: Vec<char> = Vec::new();
        let current_word = if words.len() > 0 {
            mask(&words[0].word, &guessed_letters)
        } else {
            Vec::new()
        };
        App {
            words,
            remaining_letters: language.alphabet(),
            guessed_letters,
            current_word,
            language,
        }
    }

    /// Changes to `language` and its word list: the game starts anew, and
    /// nothing of the old game is kept.
    pub fn update_language(&mut self, language: Language, word_list: &str)
        requires
            rankable(words_of(word_list@)),
        ensures
            final(self).starts(language, word_list@),
            words_of(word_list@).len() > 0 ==> final(self).wf(),
            crate::laws::places_agree(final(self).table()),
    {
        *self = App::new(language, word_list);
    }

    /// Whether the game can be played: what a game from elsewhere, such as
    /// one read back from storage, has to pass before it takes a guess.
    pub fn is_playable(&self) -> (playable: bool)
        ensures
            playable == self.wf(),
    {
        if self.words.len() == 0 {
            return false;
        }
        let letters = self.language.alphabet();
        let drawn = mask(&self.words[0].word, &self.guessed_letters);
        let apart = share_no_letter(&self.remaining_letters, &self.guessed_letters);
        let all_there = each_in_either(&letters, &self.remaining_letters, &self.guessed_letters);
        let remaining_known = each_in_either(&self.remaining_letters, &letters, &letters);
        let guessed_known = each_in_either(&self.guessed_letters, &letters, &letters);
        let drawn_right = same_chars(&self.current_word, &drawn);
        apart && all_there && remaining_known && guessed_known && drawn_right
    }

    /// Takes a guess of the letter `c`. A letter that is not among the remaining
    /// ones leaves the game as it is. Any other letter moves from the remaining
    /// to the guessed letters, the pool is narrowed, and the masked word is
    /// drawn anew from the first candidate left. If before the guess all
    /// candidates held every guessed letter at the same places, they do so
    /// after it, `c` included.
    pub fn clicked(&mut self, c: char)
        requires
            old(self).wf(),
        ensures
            final(self).wf(),
            final(self).table() == after_guess(old(self).table(), c),
            final(self).language == old(self).language,
            !old(self).remaining_letters@.contains(c) ==> *final(self) == *old(self),
            crate::laws::places_agree(old(self).table()) ==> crate::laws::places_agree(
                final(self).table(),
            ),
    {
        if !has_letter(&self.remaining_letters, c) {
            return ;
        }
        proof {
            crate::laws::lemma_alphabet_lacks_placeholder(self.language);
            if crate::laws::places_agree(self.table()) {
                crate::laws::lemma_guess_keeps_places(self.table(), c);
            }
            crate::laws::lemma_narrowed_not_empty(self.words@, c);
            crate::laws::lemma_guess_keeps_letters_disjoint(self.table(), c);
            crate::laws::lemma_guess_keeps_letters_complete(
                self.table(),
                alphabet(self.language),
                c,
            );
        }
        self.remaining_letters = without_letter(&self.remaining_letters, c);
        self.guessed_letters.push(c);
        let mut pool: Vec<Word> = Vec::new();
        core::mem::swap(&mut pool, &mut self.words);
        self.words = narrow(pool, c);
        self.current_word = mask(&self.words[0].word, &self.guessed_letters);
    }

    /// What the presentation layer shows of this game.
    pub fn current_view(&self) -> (view: GameView)
        requires
            self.wf(),
        ensures
            view.masked_word@ == mask_of(self.words@[0].word@, self.guessed_letters@),
            view.wrong_guess_count == wrong_guesses(
                self.words@[0].word@,
                self.guessed_letters@,
            ).len(),
            view.is_won == all_guessed(self.words@[0].word@, self.guessed_letters@),
            view.is_lost == too_many_wrong(self.words@[0].word@, self.guessed_letters@),
            view.revealed_answer@ == self.words@[0].word@,
    {
        let first = &self.words[0].word;
        GameView {
            masked_word: to_text(&self.current_word),
            wrong_guess_count: wrong_guess_count(first, &self.guessed_letters),
            is_won: is_won(first, &self.guessed_letters),
            is_lost: is_lost(first, &self.guessed_letters),
            revealed_answer: to_text(first),
        }
    }
}

} // verus!
