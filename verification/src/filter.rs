//! The adversarial narrowing of the candidate pool after a guessed letter.
//!
//! A guess is denied whenever some candidate lacks the letter. Only when every
//! candidate holds it are the candidates grouped by where they hold it, and the
//! largest group survives; among groups of equal size, the one whose first
//! member stands earliest in the pool.

use vstd::prelude::*;
use crate::ranker::Word;
use crate::text::copy_chars;

verus! {

/// What stands in a pattern for every character other than the guessed letter.
pub const PLACEHOLDER: char = '.';

/// What a guess of `letter` would reveal of `word`: the letter where the word
/// holds it, the placeholder everywhere else.
pub open spec fn pattern(word: Seq<char>, letter: char) -> Seq<char> {
    Seq::new(word.len(), |i: int| if word[i] == letter { letter } else { PLACEHOLDER })
}

/// The candidates that do not hold `letter` at all.
pub open spec fn denies(letter: char) -> spec_fn(Word) -> bool {
    |w: Word| !w.word@.contains(letter)
}

/// The candidates of which a guess of `letter` reveals exactly `key`.
pub open spec fn shows(letter: char, key: Seq<char>) -> spec_fn(Word) -> bool {
    |w: Word| pattern(w.word@, letter) == key
}

/// The candidates that reveal of `letter` what the candidate at `k` reveals.
pub open spec fn class_of(pool: Seq<Word>, letter: char, k: int) -> Seq<Word> {
    pool.filter(shows(letter, pattern(pool[k].word@, letter)))
}

/// `k` is the earliest candidate among those whose class is the largest.
pub open spec fn is_leader(pool: Seq<Word>, letter: char, k: int) -> bool {
    &&& 0 <= k < pool.len()
    &&& forall|j: int|
        0 <= j < pool.len() ==> #[trigger] class_of(pool, letter, j).len() <= class_of(
            pool,
            letter,
            k,
        ).len()
    &&& forall|j: int|
        0 <= j < k ==> #[trigger] class_of(pool, letter, j).len() < class_of(pool, letter, k).len()
}

/// The candidate whose class survives a guess that cannot be denied.
pub open spec fn leader(pool: Seq<Word>, letter: char) -> int {
    choose|k: int| is_leader(pool, letter, k)
}

/// Some candidate does not hold `letter`, so the guess can be denied.
pub open spec fn can_deny(pool: Seq<Word>, letter: char) -> bool {
    exists|i: int| 0 <= i < pool.len() && !(#[trigger] pool[i]).word@.contains(letter)
}

/// The pool that is left after a guess of `letter`.
pub open spec fn narrowed(pool: Seq<Word>, letter: char) -> Seq<Word> {
    if can_deny(pool, letter) {
        pool.filter(denies(letter))
    } else {
        class_of(pool, letter, leader(pool, letter))
    }
}

/// Filtering one element more either appends that element or changes nothing.
pub proof fn lemma_filter_step<A>(s: Seq<A>, i: int, pred: spec_fn(A) -> bool)
    requires
        0 <= i < s.len(),
    ensures
        s.take(i + 1).filter(pred) == if pred(s[i]) {
            s.take(i).filter(pred).push(s[i])
        } else {
            s.take(i).filter(pred)
        },
{
    reveal(Seq::filter);
    assert(s.take(i + 1).drop_last() =~= s.take(i));
}

/// At most one candidate is the leader.
pub proof fn lemma_leader_unique(pool: Seq<Word>, letter: char, k: int)
    requires
        is_leader(pool, letter, k),
    ensures
        leader(pool, letter) == k,
{
    let l = leader(pool, letter);
    assert(is_leader(pool, letter, l));
    if l < k {
        assert(class_of(pool, letter, l).len() < class_of(pool, letter, k).len());
        assert(class_of(pool, letter, k).len() <= class_of(pool, letter, l).len());
    } else if k < l {
        assert(class_of(pool, letter, k).len() < class_of(pool, letter, l).len());
        assert(class_of(pool, letter, l).len() <= class_of(pool, letter, k).len());
    }
}

/// Whether `word` holds `letter`.
pub fn has_letter(word: &Vec<char>, letter: char) -> (found: bool)
    ensures
        found == word@.contains(letter),
{
    let mut i: usize = 0;
    while i < word.len()
        invariant
            i <= word.len(),
            forall|j: int| 0 <= j < i ==> word@[j] != letter,
        decreases word.len() - i,
    {
        if word[i] == letter {
            return true;
        }
        i += 1;
    }
    false
}

/// Whether a guess of `letter` reveals the same of `a` as of `b`.
pub fn same_pattern(a: &Vec<char>, b: &Vec<char>, letter: char) -> (same: bool)
    ensures
        same == (pattern(a@, letter) == pattern(b@, letter)),
{
    if a.len() != b.len() {
        assert(pattern(a@, letter).len() != pattern(b@, letter).len());
        return false;
    }
    let mut i: usize = 0;
    while i < a.len()
        invariant
            i <= a.len(),
            a.len() == b.len(),
            forall|j: int| 0 <= j < i ==> pattern(a@, letter)[j] == pattern(b@, letter)[j],
        decreases a.len() - i,
    {
        let x = if a[i] == letter { letter } else { PLACEHOLDER };
        let y = if b[i] == letter { letter } else { PLACEHOLDER };
        if x != y {
            assert(pattern(a@, letter)[i as int] != pattern(b@, letter)[i as int]);
            return false;
        }
        i += 1;
    }
    assert(pattern(a@, letter) =~= pattern(b@, letter));
    true
}

/// Whether the pool holds a candidate without `letter`.
pub fn some_word_lacks(pool: &Vec<Word>, letter: char) -> (found: bool)
    ensures
        found == can_deny(pool@, letter),
{
    let mut i: usize = 0;
    while i < pool.len()
        invariant
            i <= pool.len(),
            forall|j: int| 0 <= j < i ==> pool@[j].word@.contains(letter),
        decreases pool.len() - i,
    {
        if !has_letter(&pool[i].word, letter) {
            return true;
        }
        i += 1;
    }
    false
}

/// The number of candidates in the class of the candidate at `k`.
pub fn class_size(pool: &Vec<Word>, letter: char, k: usize) -> (n: usize)
    requires
        k < pool.len(),
    ensures
        n == class_of(pool@, letter, k as int).len(),
{
    let ghost pred = shows(letter, pattern(pool@[k as int].word@, letter));
    let mut n: usize = 0;
    let mut i: usize = 0;
    while i < pool.len()
        invariant
            i <= pool.len(),
            k < pool.len(),
            pred == shows(letter, pattern(pool@[k as int].word@, letter)),
            n == pool@.take(i as int).filter(pred).len(),
            n <= i,
        decreases pool.len() - i,
    {
        proof {
            lemma_filter_step(pool@, i as int, pred);
        }
        if same_pattern(&pool[i].word, &pool[k].word, letter) {
            n += 1;
        }
        i += 1;
    }
    assert(pool@.take(pool.len() as int) =~= pool@);
    n
}

/// Whether the candidate at `i` reveals of `letter` what one of the candidates
/// at `firsts` reveals.
fn class_seen(pool: &Vec<Word>, letter: char, firsts: &Vec<usize>, i: usize) -> (seen: bool)
    requires
        i < pool.len(),
        forall|m: int| 0 <= m < firsts.len() ==> (#[trigger] firsts@[m]) < pool.len(),
    ensures
        seen == exists|m: int|
            0 <= m < firsts.len() && pattern(pool@[(#[trigger] firsts@[m]) as int].word@, letter)
                == pattern(pool@[i as int].word@, letter),
{
    let mut m: usize = 0;
    while m < firsts.len()
        invariant
            m <= firsts.len(),
            i < pool.len(),
            forall|n: int| 0 <= n < firsts.len() ==> (#[trigger] firsts@[n]) < pool.len(),
            forall|n: int|
                0 <= n < m ==> pattern(pool@[(#[trigger] firsts@[n]) as int].word@, letter)
                    != pattern(pool@[i as int].word@, letter),
        decreases firsts.len() - m,
    {
        if same_pattern(&pool[firsts[m]].word, &pool[i].word, letter) {
            return true;
        }
        m += 1;
    }
    false
}

/// The earliest candidate among those whose class is the largest. A class is
/// counted once, at its first member.
pub fn find_leader(pool: &Vec<Word>, letter: char) -> (k: usize)
    requires
        pool.len() > 0,
    ensures
        is_leader(pool@, letter, k as int),
        k as int == leader(pool@, letter),
{
    let mut best: usize = 0;
    let mut best_size: usize = class_size(pool, letter, 0);
    let mut firsts: Vec<usize> = Vec::new();
    firsts.push(0);
    let mut i: usize = 1;
    while i < pool.len()
        invariant
            1 <= i <= pool.len(),
            best < i,
            best_size == class_of(pool@, letter, best as int).len(),
            forall|m: int| 0 <= m < firsts.len() ==> (#[trigger] firsts@[m]) < i,
            forall|j: int|
                0 <= j < i ==> #[trigger] class_of(pool@, letter, j).len() <= best_size,
            forall|j: int|
                0 <= j < best ==> #[trigger] class_of(pool@, letter, j).len() < best_size,
        decreases pool.len() - i,
    {
        if class_seen(pool, letter, &firsts, i) {
            proof {
                let m = choose|m: int|
                    0 <= m < firsts.len() && pattern(
                        pool@[(#[trigger] firsts@[m]) as int].word@,
                        letter,
                    ) == pattern(pool@[i as int].word@, letter);
                assert(class_of(pool@, letter, i as int) == class_of(
                    pool@,
                    letter,
                    firsts@[m] as int,
                ));
            }
        } else {
            let size = class_size(pool, letter, i);
            if size > best_size {
                best = i;
                best_size = size;
            }
            firsts.push(i);
        }
        i += 1;
    }
    proof {
        lemma_leader_unique(pool@, letter, best as int);
    }
    best
}

/// Keeps the candidates without `letter`, in their order.
pub fn keep_denying(pool: Vec<Word>, letter: char) -> (kept: Vec<Word>)
    ensures
        kept@ == pool@.filter(denies(letter)),
{
    let ghost all = pool@;
    let mut kept: Vec<Word> = Vec::new();
    for w in it: pool
        invariant
            it.seq() == all,
            kept@ == all.take(it.index() as int).filter(denies(letter)),
    {
        proof {
            lemma_filter_step(all, it.index() as int, denies(letter));
        }
        if !has_letter(&w.word, letter) {
            kept.push(w);
        }
    }
    assert(all.take(all.len() as int) =~= all);
    kept
}

/// Keeps the candidates of which `letter` reveals what it reveals of `key`, in their order.
pub fn keep_showing(pool: Vec<Word>, letter: char, key: &Vec<char>) -> (kept: Vec<Word>)
    ensures
        kept@ == pool@.filter(shows(letter, pattern(key@, letter))),
{
    let ghost all = pool@;
    let ghost pred = shows(letter, pattern(key@, letter));
    let mut kept: Vec<Word> = Vec::new();
    for w in it: pool
        invariant
            it.seq() == all,
            pred == shows(letter, pattern(key@, letter)),
            kept@ == all.take(it.index() as int).filter(pred),
    {
        proof {
            lemma_filter_step(all, it.index() as int, pred);
        }
        if same_pattern(&w.word, key, letter) {
            kept.push(w);
        }
    }
    assert(all.take(all.len() as int) =~= all);
    kept
}

/// Narrows the pool after a guess of `letter`: to the candidates without the
/// letter where there are any, else to the largest class of candidates that
/// hold it in the same places.
pub fn narrow(pool: Vec<Word>, letter: char) -> (kept: Vec<Word>)
    ensures
        kept@ == narrowed(pool@, letter),
{
    if pool.len() == 0 {
        proof {
            reveal(Seq::filter);
        }
        pool
    } else if some_word_lacks(&pool, letter) {
        keep_denying(pool, letter)
    } else {
        let k = find_leader(&pool, letter);
        let key = copy_chars(&pool[k].word);
        keep_showing(pool, letter, &key)
    }
}

} // verus!
