//! What the guesser sees of the first candidate, and whether the game is over.

use vstd::prelude::*;
use crate::filter::has_letter;
use crate::filter::lemma_filter_step;

verus! {

/// The number of wrong guesses at which the game is lost.
pub const MAX_WRONG_GUESSES: usize = 10;

/// What is shown in place of a letter that was not guessed.
pub const BLANK: char = '_';

/// What follows each position of the masked word.
pub const SEPARATOR: char = ' ';

/// What is shown at position `i` of `word`: its character if that was guessed,
/// a blank otherwise.
pub open spec fn shown(word: Seq<char>, guessed: Seq<char>, i: int) -> char {
    if guessed.contains(word[i]) {
        word[i]
    } else {
        BLANK
    }
}

/// The masked word: for each position of `word` what is shown there, then a separator.
pub open spec fn mask_of(word: Seq<char>, guessed: Seq<char>) -> Seq<char> {
    Seq::new(
        2 * word.len(),
        |j: int| if j % 2 == 0 { shown(word, guessed, j / 2) } else { SEPARATOR },
    )
}

/// The guessed letters that `word` does not hold.
pub open spec fn wrong_guesses(word: Seq<char>, guessed: Seq<char>) -> Seq<char> {
    guessed.filter(|g: char| !word.contains(g))
}

/// Every character of `word` was guessed.
pub open spec fn all_guessed(word: Seq<char>, guessed: Seq<char>) -> bool {
    forall|i: int| 0 <= i < word.len() ==> guessed.contains(#[trigger] word[i])
}

/// Too many guessed letters are not in `word`.
pub open spec fn too_many_wrong(word: Seq<char>, guessed: Seq<char>) -> bool {
    wrong_guesses(word, guessed).len() >= MAX_WRONG_GUESSES
}

/// Builds the masked word for `word` under the letters guessed so far.
pub fn mask(word: &Vec<char>, guessed: &Vec<char>) -> (masked: Vec<char>)
    ensures
        masked@ == mask_of(word@, guessed@),
{
    let mut masked: Vec<char> = Vec::new();
    let mut i: usize = 0;
    while i < word.len()
        invariant
            i <= word.len(),
            masked@.len() == 2 * i,
            forall|j: int|
                0 <= j < 2 * i ==> masked@[j] == if j % 2 == 0 {
                    shown(word@, guessed@, j / 2)
                } else {
                    SEPARATOR
                },
        decreases word.len() - i,
    {
        let c = word[i];
        if has_letter(guessed, c) {
            masked.push(c);
        } else {
            masked.push(BLANK);
        }
        masked.push(SEPARATOR);
        i += 1;
    }
    assert(masked@ =~= mask_of(word@, guessed@));
    masked
}

/// Counts the guessed letters that `word` does not hold.
pub fn wrong_guess_count(word: &Vec<char>, guessed: &Vec<char>) -> (n: usize)
    ensures
        n == wrong_guesses(word@, guessed@).len(),
{
    let ghost pred = |g: char| !word@.contains(g);
    let mut n: usize = 0;
    let mut i: usize = 0;
    while i < guessed.len()
        invariant
            i <= guessed.len(),
            pred == (|g: char| !word@.contains(g)),
            n == guessed@.take(i as int).filter(pred).len(),
            n <= i,
        decreases guessed.len() - i,
    {
        proof {
            lemma_filter_step(guessed@, i as int, pred);
        }
        if !has_letter(word, guessed[i]) {
            n += 1;
        }
        i += 1;
    }
    assert(guessed@.take(guessed.len() as int) =~= guessed@);
    n
}

/// Whether every character of `word` was guessed.
pub fn is_won(word: &Vec<char>, guessed: &Vec<char>) -> (won: bool)
    ensures
        won == all_guessed(word@, guessed@),
{
    let mut i: usize = 0;
    while i < word.len()
        invariant
            i <= word.len(),
            forall|j: int| 0 <= j < i ==> guessed@.contains(#[trigger] word@[j]),
        decreases word.len() - i,
    {
        if !has_letter(guessed, word[i]) {
            return false;
        }
        i += 1;
    }
    true
}

/// Whether the wrong guesses have reached the limit.
pub fn is_lost(word: &Vec<char>, guessed: &Vec<char>) -> (lost: bool)
    ensures
        lost == too_many_wrong(word@, guessed@),
{
    wrong_guess_count(word, guessed) >= MAX_WRONG_GUESSES
}

/// The masked word is twice as long as the word, shows at each even place the
/// word's character exactly where that character was guessed, and a separator
/// at each odd place. Where the word holds a guessed blank, the character
/// shown is itself a blank; on every other input a place shows a character
/// other than the blank exactly when the word's character there was guessed.
pub proof fn lemma_mask_agrees(word: Seq<char>, guessed: Seq<char>)
    ensures
        mask_of(word, guessed).len() == 2 * word.len(),
        forall|i: int|
            0 <= i < word.len() ==> (#[trigger] mask_of(word, guessed)[2 * i] == if guessed.contains(
                word[i],
            ) {
                word[i]
            } else {
                BLANK
            }),
        forall|i: int| 0 <= i < word.len() ==> #[trigger] mask_of(word, guessed)[2 * i + 1] == SEPARATOR,
        !(word.contains(BLANK) && guessed.contains(BLANK)) ==> forall|i: int|
            0 <= i < word.len() ==> (#[trigger] mask_of(word, guessed)[2 * i] != BLANK
                <==> guessed.contains(word[i])),
{
    assert forall|i: int| 0 <= i < word.len() implies (#[trigger] mask_of(word, guessed)[2 * i]
        == shown(word, guessed, i)) by {
        assert((2 * i) % 2 == 0);
        assert((2 * i) / 2 == i);
    }
    assert forall|i: int| 0 <= i < word.len() implies #[trigger] mask_of(word, guessed)[2 * i + 1]
        == SEPARATOR by {
        assert((2 * i + 1) % 2 == 1);
    }
}

} // verus!
