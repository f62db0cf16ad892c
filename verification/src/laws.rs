//! What holds of every game, whatever is guessed.

use vstd::prelude::*;
use crate::filter::can_deny;
use crate::filter::class_of;
use crate::filter::denies;
use crate::filter::is_leader;
use crate::filter::leader;
use crate::filter::narrowed;
use crate::filter::pattern;
use crate::filter::PLACEHOLDER;
use crate::filter::shows;
use crate::language::alphabet;
use crate::language::Language;
use crate::ranker::occurrences;
use crate::ranker::Word;
use crate::session::after_guess;
use crate::session::after_guesses;
use crate::session::letters_complete;
use crate::session::letters_disjoint;
use crate::session::other_than;
use crate::session::Table;

verus! {

/// An element is in a filtered sequence exactly when it is in the sequence and
/// meets the predicate.
pub proof fn lemma_filter_membership<A>(s: Seq<A>, pred: spec_fn(A) -> bool, x: A)
    ensures
        s.filter(pred).contains(x) <==> s.contains(x) && pred(x),
    decreases s.len(),
{
    reveal(Seq::filter);
    if s.len() > 0 {
        let init = s.drop_last();
        lemma_filter_membership(init, pred, x);
        assert(s =~= init.push(s.last()));
        if s.filter(pred).contains(x) {
            let i = choose|i: int| 0 <= i < s.filter(pred).len() && s.filter(pred)[i] == x;
            if pred(s.last()) && i == init.filter(pred).len() {
                assert(s[s.len() - 1] == x);
            } else {
                assert(init.filter(pred)[i] == x);
                assert(init.filter(pred).contains(x));
                let j = choose|j: int| 0 <= j < init.len() && init[j] == x;
                assert(s[j] == x);
            }
        }
        if s.contains(x) && pred(x) {
            let j = choose|j: int| 0 <= j < s.len() && s[j] == x;
            if j == s.len() - 1 {
                assert(s.filter(pred) == init.filter(pred).push(x));
                assert(s.filter(pred)[init.filter(pred).len() as int] == x);
            } else {
                assert(init[j] == x);
                assert(init.filter(pred).contains(x));
                let i = choose|i: int| 0 <= i < init.filter(pred).len() && init.filter(pred)[i] == x;
                assert(s.filter(pred)[i] == x);
            }
        }
    }
}

/// A filtered sequence holds nothing more often than the sequence itself, and
/// is no longer.
pub proof fn lemma_filter_is_part<A>(s: Seq<A>, pred: spec_fn(A) -> bool)
    ensures
        s.filter(pred).len() <= s.len(),
        s.filter(pred).to_multiset().subset_of(s.to_multiset()),
    decreases s.len(),
{
    broadcast use vstd::seq_lib::group_to_multiset_ensures;

    reveal(Seq::filter);
    if s.len() == 0 {
        assert(s.filter(pred) =~= s);
    } else {
        let init = s.drop_last();
        lemma_filter_is_part(init, pred);
        assert(s =~= init.push(s.last()));
        assert(s.to_multiset() =~= init.to_multiset().insert(s.last()));
        if pred(s.last()) {
            assert(s.filter(pred).to_multiset() =~= init.filter(pred).to_multiset().insert(
                s.last(),
            ));
        }
    }
}

/// A pool that is not empty is not empty after a guess either.
pub proof fn lemma_narrowed_not_empty(pool: Seq<Word>, letter: char)
    requires
        pool.len() > 0,
    ensures
        narrowed(pool, letter).len() > 0,
{
    if can_deny(pool, letter) {
        let i = choose|i: int| 0 <= i < pool.len() && !(#[trigger] pool[i]).word@.contains(letter);
        lemma_filter_membership(pool, denies(letter), pool[i]);
    } else {
        lemma_leader_exists(pool, letter);
        let k = leader(pool, letter);
        lemma_filter_membership(pool, shows(letter, pattern(pool[k].word@, letter)), pool[k]);
    }
}

/// The candidate with the largest class among the first `n`, the earliest of
/// them where several have it.
pub open spec fn leader_among(pool: Seq<Word>, letter: char, n: int) -> int
    decreases n,
{
    if n <= 1 {
        0
    } else {
        let before = leader_among(pool, letter, n - 1);
        if class_of(pool, letter, n - 1).len() > class_of(pool, letter, before).len() {
            n - 1
        } else {
            before
        }
    }
}

proof fn lemma_leader_among(pool: Seq<Word>, letter: char, n: int)
    requires
        1 <= n <= pool.len(),
    ensures
        0 <= leader_among(pool, letter, n) < n,
        forall|j: int|
            0 <= j < n ==> #[trigger] class_of(pool, letter, j).len() <= class_of(
                pool,
                letter,
                leader_among(pool, letter, n),
            ).len(),
        forall|j: int|
            0 <= j < leader_among(pool, letter, n) ==> #[trigger] class_of(pool, letter, j).len()
                < class_of(pool, letter, leader_among(pool, letter, n)).len(),
    decreases n,
{
    if n > 1 {
        lemma_leader_among(pool, letter, n - 1);
    }
}

/// Every pool that is not empty has a leader.
pub proof fn lemma_leader_exists(pool: Seq<Word>, letter: char)
    requires
        pool.len() > 0,
    ensures
        is_leader(pool, letter, leader(pool, letter)),
{
    lemma_leader_among(pool, letter, pool.len() as int);
    assert(is_leader(pool, letter, leader_among(pool, letter, pool.len() as int)));
}

/// A guess leaves no letter both remaining and guessed.
pub proof fn lemma_guess_keeps_letters_disjoint(t: Table, letter: char)
    requires
        letters_disjoint(t),
    ensures
        letters_disjoint(after_guess(t, letter)),
{
    if t.remaining.contains(letter) {
        let u = after_guess(t, letter);
        assert forall|c: char| !(u.remaining.contains(c) && u.guessed.contains(c)) by {
            lemma_filter_membership(t.remaining, other_than(letter), c);
            if u.guessed.contains(c) && c != letter {
                let i = choose|i: int| 0 <= i < u.guessed.len() && u.guessed[i] == c;
                assert(t.guessed[i] == c);
            }
        }
    }
}

/// A guess moves a letter from the remaining to the guessed ones and loses
/// none: the two together hold the letters they held before.
pub proof fn lemma_guess_keeps_letters_complete(t: Table, letters: Seq<char>, letter: char)
    requires
        letters_complete(t, letters),
    ensures
        letters_complete(after_guess(t, letter), letters),
{
    if t.remaining.contains(letter) {
        let u = after_guess(t, letter);
        assert(u.guessed.last() == letter);
        assert forall|c: char| letters.contains(c) implies u.remaining.contains(c)
            || u.guessed.contains(c) by {
            lemma_filter_membership(t.remaining, other_than(letter), c);
            if t.guessed.contains(c) {
                let i = choose|i: int| 0 <= i < t.guessed.len() && t.guessed[i] == c;
                assert(u.guessed[i] == c);
            }
        }
        assert forall|c: char| u.remaining.contains(c) implies letters.contains(c) by {
            lemma_filter_membership(t.remaining, other_than(letter), c);
        }
        assert forall|c: char| u.guessed.contains(c) implies letters.contains(c) by {
            if c != letter {
                let i = choose|i: int| 0 <= i < u.guessed.len() && u.guessed[i] == c;
                assert(t.guessed[i] == c);
            }
        }
    }
}

/// Every element of a filtered sequence meets the predicate and stands in the
/// sequence.
pub proof fn lemma_filter_elements<A>(s: Seq<A>, pred: spec_fn(A) -> bool)
    ensures
        forall|i: int|
            0 <= i < s.filter(pred).len() ==> pred(#[trigger] s.filter(pred)[i]) && s.contains(
                s.filter(pred)[i],
            ),
{
    assert forall|i: int| 0 <= i < s.filter(pred).len() implies pred(#[trigger] s.filter(pred)[i])
        && s.contains(s.filter(pred)[i]) by {
        let x = s.filter(pred)[i];
        assert(s.filter(pred).contains(x));
        lemma_filter_membership(s, pred, x);
    }
}

/// The pool never grows: after any guesses it is no longer than before, and
/// holds no word more often than before.
pub proof fn lemma_pool_only_shrinks(t: Table, letters: Seq<char>)
    ensures
        after_guesses(t, letters).pool.len() <= t.pool.len(),
        after_guesses(t, letters).pool.to_multiset().subset_of(t.pool.to_multiset()),
    decreases letters.len(),
{
    if letters.len() > 0 {
        let before = after_guesses(t, letters.drop_last());
        let letter = letters.last();
        lemma_pool_only_shrinks(t, letters.drop_last());
        lemma_filter_is_part(before.pool, denies(letter));
        lemma_filter_is_part(
            before.pool,
            shows(letter, pattern(before.pool[leader(before.pool, letter)].word@, letter)),
        );
    }
}

/// The pool agrees with a guess of `letter`: no candidate holds the letter, or
/// all candidates hold it in the same places and nowhere else.
pub open spec fn agrees_with(pool: Seq<Word>, letter: char) -> bool {
    ||| forall|i: int| 0 <= i < pool.len() ==> !(#[trigger] pool[i]).word@.contains(letter)
    ||| forall|i: int, j: int|
        0 <= i < pool.len() && 0 <= j < pool.len() ==> pattern(
            (#[trigger] pool[i]).word@,
            letter,
        ) == pattern((#[trigger] pool[j]).word@, letter)
}

/// The pool agrees with every guess made so far.
pub open spec fn consistent(t: Table) -> bool {
    forall|k: int| 0 <= k < t.guessed.len() ==> agrees_with(t.pool, #[trigger] t.guessed[k])
}

/// A part of a pool agrees with every guess that the pool agrees with.
pub proof fn lemma_part_still_agrees(pool: Seq<Word>, pred: spec_fn(Word) -> bool, letter: char)
    requires
        agrees_with(pool, letter),
    ensures
        agrees_with(pool.filter(pred), letter),
{
    lemma_filter_elements(pool, pred);
    let part = pool.filter(pred);
    if forall|i: int| 0 <= i < pool.len() ==> !(#[trigger] pool[i]).word@.contains(letter) {
        assert forall|i: int| 0 <= i < part.len() implies !(#[trigger] part[i]).word@.contains(
            letter,
        ) by {
            let m = choose|m: int| 0 <= m < pool.len() && pool[m] == part[i];
            assert(!pool[m].word@.contains(letter));
        }
    } else {
        assert forall|i: int, j: int| 0 <= i < part.len() && 0 <= j < part.len() implies pattern(
            (#[trigger] part[i]).word@,
            letter,
        ) == pattern((#[trigger] part[j]).word@, letter) by {
            let m = choose|m: int| 0 <= m < pool.len() && pool[m] == part[i];
            let n = choose|n: int| 0 <= n < pool.len() && pool[n] == part[j];
            assert(pattern(pool[m].word@, letter) == pattern(pool[n].word@, letter));
        }
    }
}

/// A guess that can be denied is denied: where some candidate lacks the
/// letter, no candidate that is left holds it.
pub proof fn lemma_denial_comes_first(pool: Seq<Word>, letter: char)
    requires
        can_deny(pool, letter),
    ensures
        forall|i: int|
            0 <= i < narrowed(pool, letter).len() ==> !(#[trigger] narrowed(
                pool,
                letter,
            )[i]).word@.contains(letter),
{
    lemma_filter_elements(pool, denies(letter));
}

/// After a guess the pool agrees with the guessed letter: it was denied, or
/// every candidate left reveals of it what the leader reveals.
pub proof fn lemma_narrowed_agrees(pool: Seq<Word>, letter: char)
    ensures
        agrees_with(narrowed(pool, letter), letter),
        !can_deny(pool, letter) ==> forall|i: int|
            0 <= i < narrowed(pool, letter).len() ==> pattern(
                (#[trigger] narrowed(pool, letter)[i]).word@,
                letter,
            ) == pattern(pool[leader(pool, letter)].word@, letter),
{
    if can_deny(pool, letter) {
        lemma_denial_comes_first(pool, letter);
    } else {
        lemma_filter_elements(
            pool,
            shows(letter, pattern(pool[leader(pool, letter)].word@, letter)),
        );
    }
}

/// One guess keeps the pool in agreement with every guess made so far.
pub proof fn lemma_guess_keeps_consistent(t: Table, letter: char)
    requires
        consistent(t),
    ensures
        consistent(after_guess(t, letter)),
{
    if t.remaining.contains(letter) {
        let u = after_guess(t, letter);
        assert forall|k: int| 0 <= k < u.guessed.len() implies agrees_with(
            u.pool,
            #[trigger] u.guessed[k],
        ) by {
            if k < t.guessed.len() {
                assert(u.guessed[k] == t.guessed[k]);
                lemma_part_still_agrees(t.pool, denies(letter), t.guessed[k]);
                lemma_part_still_agrees(
                    t.pool,
                    shows(letter, pattern(t.pool[leader(t.pool, letter)].word@, letter)),
                    t.guessed[k],
                );
            } else {
                lemma_narrowed_agrees(t.pool, letter);
            }
        }
    }
}

/// Whatever is guessed, the pool agrees with every guess made so far.
pub proof fn lemma_pool_stays_consistent(t: Table, letters: Seq<char>)
    requires
        consistent(t),
    ensures
        consistent(after_guesses(t, letters)),
    decreases letters.len(),
{
    if letters.len() > 0 {
        lemma_pool_stays_consistent(t, letters.drop_last());
        lemma_guess_keeps_consistent(after_guesses(t, letters.drop_last()), letters.last());
    }
}

/// From a start at which nothing is guessed, the pool agrees with every guess
/// made, whatever is guessed.
pub proof fn lemma_game_stays_consistent(t: Table, letters: Seq<char>)
    requires
        t.guessed.len() == 0,
    ensures
        consistent(after_guesses(t, letters)),
{
    lemma_pool_stays_consistent(t, letters);
}

/// The places at which `word` holds `letter`.
pub open spec fn places_of(word: Seq<char>, letter: char) -> Set<int> {
    Set::new(|i: int| 0 <= i < word.len() && word[i] == letter)
}

/// All candidates hold `letter` at exactly the same places, which may be none.
pub open spec fn same_places(pool: Seq<Word>, letter: char) -> bool {
    forall|a: int, b: int|
        0 <= a < pool.len() && 0 <= b < pool.len() ==> places_of(
            (#[trigger] pool[a]).word@,
            letter,
        ) == places_of((#[trigger] pool[b]).word@, letter)
}

/// For every letter guessed so far, all candidates hold it at the same places.
pub open spec fn places_agree(t: Table) -> bool {
    forall|k: int| 0 <= k < t.guessed.len() ==> same_places(t.pool, #[trigger] t.guessed[k])
}

/// In a part of a pool all candidates hold a letter at the same places, if
/// those of the pool do.
pub proof fn lemma_part_keeps_places(pool: Seq<Word>, pred: spec_fn(Word) -> bool, letter: char)
    requires
        same_places(pool, letter),
    ensures
        same_places(pool.filter(pred), letter),
{
    lemma_filter_elements(pool, pred);
    let part = pool.filter(pred);
    assert forall|a: int, b: int| 0 <= a < part.len() && 0 <= b < part.len() implies places_of(
        (#[trigger] part[a]).word@,
        letter,
    ) == places_of((#[trigger] part[b]).word@, letter) by {
        let m = choose|m: int| 0 <= m < pool.len() && pool[m] == part[a];
        let n = choose|n: int| 0 <= n < pool.len() && pool[n] == part[b];
        assert(places_of(pool[m].word@, letter) == places_of(pool[n].word@, letter));
    }
}

/// After a guess of a letter other than the placeholder, all candidates left
/// hold the letter at the same places: at none, if the guess was denied.
pub proof fn lemma_narrowed_same_places(pool: Seq<Word>, letter: char)
    requires
        letter != PLACEHOLDER,
    ensures
        same_places(narrowed(pool, letter), letter),
        can_deny(pool, letter) ==> forall|a: int|
            0 <= a < narrowed(pool, letter).len() ==> places_of(
                (#[trigger] narrowed(pool, letter)[a]).word@,
                letter,
            ) == Set::<int>::empty(),
{
    let kept = narrowed(pool, letter);
    lemma_narrowed_agrees(pool, letter);
    if can_deny(pool, letter) {
        lemma_denial_comes_first(pool, letter);
        assert forall|a: int| 0 <= a < kept.len() implies places_of(
            (#[trigger] kept[a]).word@,
            letter,
        ) == Set::<int>::empty() by {
            assert(!kept[a].word@.contains(letter));
            assert(places_of(kept[a].word@, letter) =~= Set::<int>::empty());
        }
    } else {
        let key = pattern(pool[leader(pool, letter)].word@, letter);
        assert forall|a: int, b: int| 0 <= a < kept.len() && 0 <= b < kept.len() implies places_of(
            (#[trigger] kept[a]).word@,
            letter,
        ) == places_of((#[trigger] kept[b]).word@, letter) by {
            let x = kept[a].word@;
            let y = kept[b].word@;
            assert(pattern(x, letter) == key);
            assert(pattern(y, letter) == key);
            assert(x.len() == pattern(x, letter).len());
            assert(y.len() == pattern(y, letter).len());
            assert forall|i: int| 0 <= i < x.len() implies (x[i] == letter <==> y[i] == letter) by {
                assert(pattern(x, letter)[i] == pattern(y, letter)[i]);
            }
            assert(places_of(x, letter) =~= places_of(y, letter));
        }
    }
}

/// One guess keeps the candidates, for every letter guessed, holding it at
/// the same places, as long as the placeholder is not a letter to be guessed.
pub proof fn lemma_guess_keeps_places(t: Table, letter: char)
    requires
        places_agree(t),
        !t.remaining.contains(PLACEHOLDER),
    ensures
        places_agree(after_guess(t, letter)),
        !after_guess(t, letter).remaining.contains(PLACEHOLDER),
{
    if t.remaining.contains(letter) {
        let u = after_guess(t, letter);
        lemma_filter_membership(t.remaining, other_than(letter), PLACEHOLDER);
        assert forall|k: int| 0 <= k < u.guessed.len() implies same_places(
            u.pool,
            #[trigger] u.guessed[k],
        ) by {
            if k < t.guessed.len() {
                assert(u.guessed[k] == t.guessed[k]);
                lemma_part_keeps_places(t.pool, denies(letter), t.guessed[k]);
                lemma_part_keeps_places(
                    t.pool,
                    shows(letter, pattern(t.pool[leader(t.pool, letter)].word@, letter)),
                    t.guessed[k],
                );
            } else {
                lemma_narrowed_same_places(t.pool, letter);
            }
        }
    }
}

/// Whatever is guessed, for every letter guessed so far all candidates hold
/// it at exactly the same places, as long as the placeholder is not a letter
/// to be guessed.
pub proof fn lemma_places_stay_agreed(t: Table, letters: Seq<char>)
    requires
        places_agree(t),
        !t.remaining.contains(PLACEHOLDER),
    ensures
        places_agree(after_guesses(t, letters)),
        !after_guesses(t, letters).remaining.contains(PLACEHOLDER),
    decreases letters.len(),
{
    if letters.len() > 0 {
        lemma_places_stay_agreed(t, letters.drop_last());
        lemma_guess_keeps_places(after_guesses(t, letters.drop_last()), letters.last());
    }
}

/// The placeholder is a letter of no language.
pub proof fn lemma_alphabet_lacks_placeholder(language: Language)
    ensures
        !alphabet(language).contains(PLACEHOLDER),
{
    let letters = alphabet(language);
    assert forall|i: int| 0 <= i < letters.len() implies letters[i] != PLACEHOLDER by {
        let basic = crate::language::basic_letters();
        let extra = crate::language::extra_letters(language);
        if i < basic.len() {
            assert(letters[i] == basic[i]);
        } else {
            assert(letters[i] == extra[i - basic.len()]);
        }
    }
}

/// Taking a letter out of a sequence shortens it by the number of times the
/// letter occurred.
pub proof fn lemma_taking_out_shortens(s: Seq<char>, letter: char)
    ensures
        s.filter(other_than(letter)).len() + occurrences(s, letter) == s.len(),
    decreases s.len(),
{
    reveal(Seq::filter);
    if s.len() > 0 {
        lemma_taking_out_shortens(s.drop_last(), letter);
    }
}

/// A letter occurs once in a sequence that holds it and holds nothing twice,
/// and never in a sequence that does not hold it.
pub proof fn lemma_once_is_one(s: Seq<char>, letter: char)
    ensures
        !s.contains(letter) ==> occurrences(s, letter) == 0,
        s.contains(letter) && s.no_duplicates() ==> occurrences(s, letter) == 1,
    decreases s.len(),
{
    if s.len() > 0 {
        let init = s.drop_last();
        lemma_once_is_one(init, letter);
        if init.contains(letter) {
            let i = choose|i: int| 0 <= i < init.len() && init[i] == letter;
            assert(s[i] == letter);
        }
        if s.contains(letter) {
            let i = choose|i: int| 0 <= i < s.len() && s[i] == letter;
            if i < s.len() - 1 {
                assert(init[i] == letter);
            }
        }
        if s.no_duplicates() {
            assert(init.no_duplicates());
        }
    }
}

/// A filtered sequence holds nothing twice, if the sequence holds nothing twice.
pub proof fn lemma_filter_keeps_no_duplicates<A>(s: Seq<A>, pred: spec_fn(A) -> bool)
    requires
        s.no_duplicates(),
    ensures
        s.filter(pred).no_duplicates(),
    decreases s.len(),
{
    reveal(Seq::filter);
    if s.len() > 0 {
        let init = s.drop_last();
        let last = s.last();
        assert(init.no_duplicates());
        lemma_filter_keeps_no_duplicates(init, pred);
        if pred(last) {
            let kept = init.filter(pred);
            lemma_filter_membership(init, pred, last);
            if init.contains(last) {
                let i = choose|i: int| 0 <= i < init.len() && init[i] == last;
                assert(s[i] == s[s.len() - 1]);
            }
            assert forall|i: int, j: int|
                0 <= i < kept.push(last).len() && 0 <= j < kept.push(last).len() && i
                    != j implies kept.push(last)[i] != kept.push(last)[j] by {
                if i == kept.len() {
                    assert(kept.contains(kept[j]));
                } else if j == kept.len() {
                    assert(kept.contains(kept[i]));
                }
            }
        }
    }
}

/// An accepted guess takes the letter out of the remaining letters and adds
/// it to the guessed ones: where the remaining letters held nothing twice,
/// they are one fewer and still hold nothing twice, and the guessed letters
/// are one more.
pub proof fn lemma_guess_moves_one_letter(t: Table, letter: char)
    requires
        t.remaining.contains(letter),
    ensures
        !after_guess(t, letter).remaining.contains(letter),
        after_guess(t, letter).guessed.len() == t.guessed.len() + 1,
        after_guess(t, letter).remaining.len() + occurrences(t.remaining, letter)
            == t.remaining.len(),
        t.remaining.no_duplicates() ==> after_guess(t, letter).remaining.len() + 1
            == t.remaining.len() && after_guess(t, letter).remaining.no_duplicates(),
{
    let rest = t.remaining.filter(other_than(letter));
    lemma_filter_membership(t.remaining, other_than(letter), letter);
    lemma_taking_out_shortens(t.remaining, letter);
    lemma_once_is_one(t.remaining, letter);
    if t.remaining.no_duplicates() {
        lemma_filter_keeps_no_duplicates(t.remaining, other_than(letter));
    }
}

/// The alphabet of a language holds no letter twice.
pub proof fn lemma_alphabet_holds_nothing_twice(language: Language)
    ensures
        alphabet(language).no_duplicates(),
{
    let letters = alphabet(language);
    let basic = crate::language::basic_letters();
    let extra = crate::language::extra_letters(language);
    assert forall|i: int| 0 <= i < basic.len() implies basic[i] as u32 == 97 + i by {}
    assert forall|i: int| 0 <= i < extra.len() implies extra[i] as u32 > 122 by {}
    assert(basic.no_duplicates());
    assert(extra.no_duplicates());
    assert forall|i: int, j: int|
        0 <= i < letters.len() && 0 <= j < letters.len() && i != j implies letters[i]
        != letters[j] by {
        if i < basic.len() {
            assert(letters[i] == basic[i]);
        } else {
            assert(letters[i] == extra[i - basic.len()]);
        }
        if j < basic.len() {
            assert(letters[j] == basic[j]);
        } else {
            assert(letters[j] == extra[j - basic.len()]);
        }
    }
}

/// A guess of a letter that does not remain, as one that was guessed before,
/// changes nothing; so a guess made twice changes no more than made once.
pub proof fn lemma_repeated_guess_changes_nothing(t: Table, letter: char)
    ensures
        !t.remaining.contains(letter) ==> after_guess(t, letter) == t,
        letters_disjoint(t) && t.guessed.contains(letter) ==> after_guess(t, letter) == t,
        after_guess(after_guess(t, letter), letter) == after_guess(t, letter),
{
    lemma_filter_membership(t.remaining, other_than(letter), letter);
}

} // verus!
