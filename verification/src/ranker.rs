//! Candidate words and their ranking by letter frequency.
//!
//! A word's score is the sum, over the distinct characters it holds, of how
//! often each occurs in the whole list. The pool is the list ordered by
//! falling score; words of equal score keep the order they had in the list.

use std::collections::HashMap;
use vstd::prelude::*;
use crate::text::copy_chars;

verus! {

/// One dictionary entry that is still possible as the answer.
pub struct Word {
    /// The characters of the word, as they were read.
    pub word: Vec<char>,
    /// How often each character occurs in the word, by the character's code
    /// point. A character that does not occur has no entry.
    pub char_count: HashMap<u32, u64>,
    /// The frequency score the word had in the list it was ranked in.
    pub score: u64,
}

impl Word {
    /// The count of the word's characters is that of its text: each character
    /// of the text has its number of occurrences, and nothing else has an entry.
    pub open spec fn counted(&self) -> bool {
        &&& forall|c: char| count_in(self.char_count@, c) == occurrences(self.word@, c)
        &&& forall|k: u32| self.char_count@.contains_key(k) ==> self.char_count@[k] >= 1
        &&& forall|k: u32|
            self.char_count@.contains_key(k) ==> exists|i: int|
                0 <= i < self.word@.len() && (#[trigger] self.word@[i]) as u32 == k
    }

    /// A candidate that has not been ranked yet: its characters are counted,
    /// and its score is zero.
    pub fn new(word: Vec<char>) -> (w: Word)
        ensures
            w.word == word,
            w.score == 0,
            forall|c: char| count_in(w.char_count@, c) == occurrences(word@, c),
            forall|k: u32| w.char_count@.contains_key(k) ==> w.char_count@[k] >= 1,
            forall|k: u32|
                w.char_count@.contains_key(k) ==> exists|i: int|
                    0 <= i < word@.len() && (#[trigger] word@[i]) as u32 == k,
            w.counted(),
    {
        broadcast use vstd::std_specs::hash::group_hash_axioms;

        let mut char_count: HashMap<u32, u64> = HashMap::new();
        let mut j: usize = 0;
        while j < word.len()
            invariant
                j <= word.len(),
                forall|c: char| count_in(char_count@, c) == occurrences(word@.take(j as int), c),
                forall|k: u32| char_count@.contains_key(k) ==> char_count@[k] >= 1,
                forall|k: u32|
                    char_count@.contains_key(k) ==> exists|i: int|
                        0 <= i < j && (#[trigger] word@[i]) as u32 == k,
            decreases word.len() - j,
        {
            let letter = word[j];
            let key = letter as u32;
            let count: u64 = match char_count.get(&key) {
                Some(n) => *n,
                None => 0,
            };
            let ghost counted = char_count@;
            proof {
                assert(count == count_in(counted, letter));
                lemma_occurrences_bound(word@.take(j as int), letter);
                assert(word@.take(j + 1).drop_last() =~= word@.take(j as int));
            }
            char_count.insert(key, count + 1);
            proof {
                assert forall|c: char|
                    count_in(char_count@, c) == occurrences(word@.take(j + 1), c) by {
                    assert(count_in(counted, c) == occurrences(word@.take(j as int), c));
                    if c as u32 == key {
                        vstd::utf8::char_u32_cast(c, key);
                        vstd::utf8::char_u32_cast(letter, key);
                    }
                }
                assert forall|k: u32| char_count@.contains_key(k) implies exists|i: int|
                    0 <= i < j + 1 && (#[trigger] word@[i]) as u32 == k by {
                    if k == key {
                        assert(word@[j as int] as u32 == k);
                    } else {
                        assert(counted.contains_key(k));
                        let i = choose|i: int| 0 <= i < j && (#[trigger] word@[i]) as u32 == k;
                        assert(word@[i] as u32 == k);
                    }
                }
            }
            j += 1;
        }
        assert(word@.take(word.len() as int) =~= word@);
        let w = Word { word, char_count, score: 0 };
        proof {
            assert forall|k: u32| w.char_count@.contains_key(k) implies exists|i: int|
                0 <= i < w.word@.len() && (#[trigger] w.word@[i]) as u32 == k by {
                let i = choose|i: int| 0 <= i < j && (#[trigger] w.word@[i]) as u32 == k;
                assert(w.word@[i] as u32 == k);
            }
        }
        w
    }
}

impl Default for Word {
    /// The empty word, unranked: nothing is counted.
    fn default() -> (w: Word)
        ensures
            w.word@ == Seq::<char>::empty(),
            w.char_count@ == Map::<u32, u64>::empty(),
            w.score == 0,
            w.counted(),
    {
        Word { word: Vec::new(), char_count: HashMap::new(), score: 0 }
    }
}

/// The words of a list as sequences of characters.
pub open spec fn texts_of(list: Seq<Vec<char>>) -> Seq<Seq<char>> {
    Seq::new(list.len(), |i: int| list[i]@)
}

/// How often `letter` occurs in `word`.
pub open spec fn occurrences(word: Seq<char>, letter: char) -> nat
    decreases word.len(),
{
    if word.len() == 0 {
        0
    } else {
        occurrences(word.drop_last(), letter) + if word.last() == letter {
            1nat
        } else {
            0nat
        }
    }
}

/// How often `letter` occurs in all the words of `texts` together.
pub open spec fn frequency(texts: Seq<Seq<char>>, letter: char) -> nat
    decreases texts.len(),
{
    if texts.len() == 0 {
        0
    } else {
        frequency(texts.drop_last(), letter) + occurrences(texts.last(), letter)
    }
}

/// The score of `word` in the list `texts`: the frequencies of its distinct
/// characters, added up. A character counts where it first occurs in the word.
pub open spec fn score_of(word: Seq<char>, texts: Seq<Seq<char>>) -> nat
    decreases word.len(),
{
    if word.len() == 0 {
        0
    } else {
        let init = word.drop_last();
        score_of(init, texts) + if init.contains(word.last()) {
            0
        } else {
            frequency(texts, word.last())
        }
    }
}

/// Every word's score in the list fits the integer that holds it.
pub open spec fn rankable(texts: Seq<Seq<char>>) -> bool {
    forall|i: int| 0 <= i < texts.len() ==> score_of(#[trigger] texts[i], texts) <= u64::MAX
}

/// The number of characters in all the words of a list together.
pub open spec fn total_letters(texts: Seq<Seq<char>>) -> nat
    decreases texts.len(),
{
    if texts.len() == 0 {
        0
    } else {
        total_letters(texts.drop_last()) + texts.last().len()
    }
}

/// In a ranking, the word at `x` of the list stands before the word at `y`:
/// its score is higher, or the scores are equal and it came first in the list.
pub open spec fn precedes(scores: Seq<u64>, x: int, y: int) -> bool {
    scores[x] > scores[y] || (scores[x] == scores[y] && x < y)
}

/// The places `0`, `1`, and so on up to `n`, which is left out.
pub open spec fn places(n: nat) -> Seq<usize> {
    Seq::new(n, |k: int| k as usize)
}

/// The words of a pool as sequences of characters.
pub open spec fn words_in(pool: Seq<Word>) -> Seq<Seq<char>> {
    Seq::new(pool.len(), |a: int| pool[a].word@)
}

/// `order` lists positions of `scores` so that each precedes all that follow.
pub open spec fn is_stable_order(scores: Seq<u64>, order: Seq<usize>) -> bool {
    &&& forall|a: int| 0 <= a < order.len() ==> (#[trigger] order[a]) < scores.len()
    &&& forall|a: int, b: int|
        0 <= a < b < order.len() ==> precedes(scores, #[trigger] order[a] as int, #[trigger] order[b] as int)
}

/// `pool` is the ranking of `texts`, and `perm[a]` is the place in `texts` of
/// the word that stands at `a` in the pool: the pool holds the words of the
/// list, each as often as the list, and no place of the list is taken twice;
/// each word has its score and the count of its own characters; scores fall,
/// and words of equal score stand as they stood in the list.
pub open spec fn is_ranking(texts: Seq<Seq<char>>, pool: Seq<Word>, perm: Seq<int>) -> bool {
    &&& perm.len() == texts.len()
    &&& pool.len() == texts.len()
    &&& words_in(pool).to_multiset() == texts.to_multiset()
    &&& forall|a: int| 0 <= a < perm.len() ==> 0 <= #[trigger] perm[a] < texts.len()
    &&& forall|a: int, b: int| 0 <= a < b < perm.len() ==> #[trigger] perm[a] != #[trigger] perm[b]
    &&& forall|a: int|
        0 <= a < pool.len() ==> (#[trigger] pool[a]).word@ == texts[perm[a]] && pool[a].score
            == score_of(texts[perm[a]], texts) && pool[a].counted()
    &&& forall|a: int, b: int|
        0 <= a < b < pool.len() ==> (#[trigger] pool[a]).score > (#[trigger] pool[b]).score || (
        pool[a].score == pool[b].score && perm[a] < perm[b])
}

/// The count that a frequency table holds for `letter`: none is zero.
pub open spec fn count_in(table: Map<u32, u64>, letter: char) -> nat {
    if table.contains_key(letter as u32) {
        table[letter as u32] as nat
    } else {
        0
    }
}

/// A letter occurs in the start of a word no more often than in the word.
pub proof fn lemma_occurrences_prefix(word: Seq<char>, k: int, letter: char)
    requires
        0 <= k <= word.len(),
    ensures
        occurrences(word.take(k), letter) <= occurrences(word, letter),
    decreases word.len(),
{
    if k == word.len() {
        assert(word.take(k) =~= word);
    } else {
        lemma_occurrences_prefix(word.drop_last(), k, letter);
        assert(word.drop_last().take(k) =~= word.take(k));
    }
}

/// A letter occurs in the start of a list no more often than in the list.
pub proof fn lemma_frequency_prefix(texts: Seq<Seq<char>>, k: int, letter: char)
    requires
        0 <= k <= texts.len(),
    ensures
        frequency(texts.take(k), letter) <= frequency(texts, letter),
    decreases texts.len(),
{
    if k == texts.len() {
        assert(texts.take(k) =~= texts);
    } else {
        lemma_frequency_prefix(texts.drop_last(), k, letter);
        assert(texts.drop_last().take(k) =~= texts.take(k));
    }
}

/// The start of a word scores no more than the word.
pub proof fn lemma_score_prefix(word: Seq<char>, k: int, texts: Seq<Seq<char>>)
    requires
        0 <= k <= word.len(),
    ensures
        score_of(word.take(k), texts) <= score_of(word, texts),
    decreases word.len(),
{
    if k == word.len() {
        assert(word.take(k) =~= word);
    } else {
        lemma_score_prefix(word.drop_last(), k, texts);
        assert(word.drop_last().take(k) =~= word.take(k));
    }
}

/// A word scores at least the frequency of each letter it holds.
pub proof fn lemma_score_covers(word: Seq<char>, texts: Seq<Seq<char>>, letter: char)
    requires
        word.contains(letter),
    ensures
        frequency(texts, letter) <= score_of(word, texts),
    decreases word.len(),
{
    let init = word.drop_last();
    if init.contains(letter) {
        lemma_score_covers(init, texts, letter);
    } else {
        let i = choose|i: int| 0 <= i < word.len() && word[i] == letter;
        if i < word.len() - 1 {
            assert(init[i] == letter);
        }
    }
}

/// While the letters of a list are counted one by one, no count passes the
/// score of the word that is being read.
pub proof fn lemma_count_stays_small(texts: Seq<Seq<char>>, i: int, j: int)
    requires
        0 <= i < texts.len(),
        0 <= j < texts[i].len(),
    ensures
        frequency(texts.take(i), texts[i][j]) + occurrences(texts[i].take(j), texts[i][j]) + 1
            <= score_of(texts[i], texts),
{
    let word = texts[i];
    let letter = word[j];
    assert(word.take(j + 1).drop_last() =~= word.take(j));
    lemma_occurrences_prefix(word, j + 1, letter);
    assert(texts.take(i + 1).drop_last() =~= texts.take(i));
    lemma_frequency_prefix(texts, i + 1, letter);
    lemma_score_covers(word, texts, letter);
}

/// A letter occurs in a word no more often than the word is long.
pub proof fn lemma_occurrences_bound(word: Seq<char>, letter: char)
    ensures
        occurrences(word, letter) <= word.len(),
    decreases word.len(),
{
    if word.len() > 0 {
        lemma_occurrences_bound(word.drop_last(), letter);
    }
}

/// A letter occurs in a list no more often than the list has characters.
pub proof fn lemma_frequency_bound(texts: Seq<Seq<char>>, letter: char)
    ensures
        frequency(texts, letter) <= total_letters(texts),
    decreases texts.len(),
{
    if texts.len() > 0 {
        lemma_frequency_bound(texts.drop_last(), letter);
        lemma_occurrences_bound(texts.last(), letter);
    }
}

/// No word of a list is longer than the list has characters.
pub proof fn lemma_word_within_total(texts: Seq<Seq<char>>, i: int)
    requires
        0 <= i < texts.len(),
    ensures
        texts[i].len() <= total_letters(texts),
    decreases texts.len(),
{
    if i < texts.len() - 1 {
        lemma_word_within_total(texts.drop_last(), i);
    }
}

/// A word scores at most its length times the number of characters in the list.
pub proof fn lemma_score_bound(word: Seq<char>, texts: Seq<Seq<char>>)
    ensures
        score_of(word, texts) <= word.len() * total_letters(texts),
    decreases word.len(),
{
    if word.len() > 0 {
        let init = word.drop_last();
        let total = total_letters(texts);
        lemma_score_bound(init, texts);
        lemma_frequency_bound(texts, word.last());
        assert(init.len() * total + total == word.len() * total) by (nonlinear_arith)
            requires
                init.len() + 1 == word.len(),
        ;
    }
}

/// In a list of fewer than 2^32 characters every score fits.
pub proof fn lemma_short_lists_are_rankable(texts: Seq<Seq<char>>)
    requires
        total_letters(texts) <= u32::MAX,
    ensures
        rankable(texts),
{
    assert forall|i: int| 0 <= i < texts.len() implies score_of(#[trigger] texts[i], texts)
        <= u64::MAX by {
        let n = texts[i].len();
        let total = total_letters(texts);
        lemma_word_within_total(texts, i);
        lemma_score_bound(texts[i], texts);
        assert(n * total <= 0xFFFF_FFFF * 0xFFFF_FFFF) by (nonlinear_arith)
            requires
                n <= 0xFFFF_FFFF,
                total <= 0xFFFF_FFFF,
        ;
    }
}

/// A sequence with one element more put in holds that element once more, and
/// the others as before.
pub proof fn lemma_insert_adds_one<A>(s: Seq<A>, p: int, x: A)
    requires
        0 <= p <= s.len(),
    ensures
        s.insert(p, x).to_multiset() == s.to_multiset().insert(x),
{
    broadcast use vstd::seq_lib::group_to_multiset_ensures;

    let t = s.insert(p, x);
    t.to_multiset_ensures();
    assert(t[p] == x);
    assert(t.remove(p) =~= s);
    assert(t.contains(x));
    assert(t.remove(p).to_multiset() =~= t.to_multiset().remove(t[p]));
    assert(t.to_multiset() =~= s.to_multiset().insert(x));
}

/// Two sequences that hold the same elements equally often still do so after
/// a function is applied to every element of both.
pub proof fn lemma_map_keeps_multiset<A, B>(a: Seq<A>, b: Seq<A>, f: spec_fn(A) -> B)
    requires
        a.to_multiset() == b.to_multiset(),
    ensures
        a.map_values(f).to_multiset() == b.map_values(f).to_multiset(),
    decreases a.len(),
{
    broadcast use vstd::seq_lib::group_to_multiset_ensures;

    a.to_multiset_ensures();
    b.to_multiset_ensures();
    if a.len() == 0 {
        assert(b.len() == 0);
        assert(a.map_values(f) =~= b.map_values(f));
    } else {
        let x = a.last();
        let init = a.drop_last();
        init.to_multiset_ensures();
        assert(a =~= init.push(x));
        assert(a.to_multiset() =~= init.to_multiset().insert(x));
        assert(a[a.len() - 1] == x);
        assert(a.contains(x));
        assert(a.to_multiset().count(x) > 0);
        assert(b.to_multiset().count(x) > 0);
        assert(b.contains(x));
        let j = choose|j: int| 0 <= j < b.len() && b[j] == x;
        let rest = b.remove(j);
        assert(rest.to_multiset() =~= b.to_multiset().remove(x));
        assert(init.to_multiset() =~= rest.to_multiset());
        lemma_map_keeps_multiset(init, rest, f);
        assert(a.map_values(f) =~= init.map_values(f).push(f(x)));
        assert(a.map_values(f).to_multiset() =~= init.map_values(f).to_multiset().insert(f(x)));
        let mapped = b.map_values(f);
        init.map_values(f).to_multiset_ensures();
        mapped.to_multiset_ensures();
        assert(mapped.remove(j) =~= rest.map_values(f));
        assert(mapped[j] == f(x));
        assert(mapped.contains(f(x)));
        assert(mapped.remove(j).to_multiset() =~= mapped.to_multiset().remove(mapped[j]));
        assert(mapped.to_multiset() =~= rest.map_values(f).to_multiset().insert(f(x)));
    }
}

/// Counts how often each letter occurs in the whole list.
pub fn letter_frequencies(list: &Vec<Vec<char>>) -> (table: HashMap<u32, u64>)
    requires
        rankable(texts_of(list@)),
    ensures
        forall|c: char| count_in(table@, c) == frequency(texts_of(list@), c),
{
    broadcast use vstd::std_specs::hash::group_hash_axioms;

    let ghost texts = texts_of(list@);
    let mut table: HashMap<u32, u64> = HashMap::new();
    let mut i: usize = 0;
    while i < list.len()
        invariant
            i <= list.len(),
            texts == texts_of(list@),
            rankable(texts),
            forall|c: char| count_in(table@, c) == frequency(texts.take(i as int), c),
        decreases list.len() - i,
    {
        let word = &list[i];
        let mut j: usize = 0;
        while j < word.len()
            invariant
                i < list.len(),
                j <= word.len(),
                word@ == texts[i as int],
                texts == texts_of(list@),
                rankable(texts),
                forall|c: char|
                    count_in(table@, c) == frequency(texts.take(i as int), c) + occurrences(
                        word@.take(j as int),
                        c,
                    ),
            decreases word.len() - j,
        {
            let letter = word[j];
            let key = letter as u32;
            let count: u64 = match table.get(&key) {
                Some(n) => *n,
                None => 0,
            };
            proof {
                assert(count == count_in(table@, letter));
                lemma_count_stays_small(texts, i as int, j as int);
                assert(word@.take(j + 1).drop_last() =~= word@.take(j as int));
            }
            let ghost counted = table@;
            table.insert(key, count + 1);
            proof {
                assert forall|c: char|
                    count_in(table@, c) == frequency(texts.take(i as int), c) + occurrences(
                        word@.take(j + 1),
                        c,
                    ) by {
                    assert(count_in(counted, c) == frequency(texts.take(i as int), c)
                        + occurrences(word@.take(j as int), c));
                    if c as u32 == key {
                        vstd::utf8::char_u32_cast(c, key);
                        vstd::utf8::char_u32_cast(letter, key);
                    }
                }
            }
            j += 1;
        }
        proof {
            assert(word@.take(word.len() as int) =~= word@);
            assert(texts.take(i + 1).drop_last() =~= texts.take(i as int));
        }
        i += 1;
    }
    assert(texts.take(list.len() as int) =~= texts);
    table
}

/// Whether the character at `j` occurs earlier in the word.
pub fn seen_before(word: &Vec<char>, j: usize) -> (seen: bool)
    requires
        j < word.len(),
    ensures
        seen == word@.take(j as int).contains(word@[j as int]),
{
    let mut k: usize = 0;
    while k < j
        invariant
            k <= j,
            j < word.len(),
            forall|m: int| 0 <= m < k ==> word@[m] != word@[j as int],
        decreases j - k,
    {
        if word[k] == word[j] {
            assert(word@.take(j as int)[k as int] == word@[j as int]);
            return true;
        }
        k += 1;
    }
    false
}

/// The score of the word at `i` of the list, from the list's frequency table.
pub fn score_word(list: &Vec<Vec<char>>, i: usize, table: &HashMap<u32, u64>) -> (score: u64)
    requires
        i < list.len(),
        rankable(texts_of(list@)),
        forall|c: char| count_in(table@, c) == frequency(texts_of(list@), c),
    ensures
        score == score_of(list@[i as int]@, texts_of(list@)),
{
    broadcast use vstd::std_specs::hash::group_hash_axioms;

    let ghost texts = texts_of(list@);
    let word = &list[i];
    assert(word@ == texts[i as int]);
    let mut score: u64 = 0;
    let mut j: usize = 0;
    while j < word.len()
        invariant
            j <= word.len(),
            texts == texts_of(list@),
            score_of(word@, texts) <= u64::MAX,
            forall|c: char| count_in(table@, c) == frequency(texts, c),
            score == score_of(word@.take(j as int), texts),
        decreases word.len() - j,
    {
        proof {
            assert(word@.take(j + 1).drop_last() =~= word@.take(j as int));
            lemma_score_prefix(word@, j + 1, texts);
        }
        if !seen_before(word, j) {
            let key = word[j] as u32;
            let count: u64 = match table.get(&key) {
                Some(n) => *n,
                None => 0,
            };
            assert(count == count_in(table@, word@[j as int]));
            score = score + count;
        }
        j += 1;
    }
    assert(word@.take(word.len() as int) =~= word@);
    score
}

/// The places of `scores` in ranking order: by falling score, equal scores in
/// the order of their places.
pub fn stable_order(scores: &Vec<u64>) -> (order: Vec<usize>)
    ensures
        order.len() == scores.len(),
        is_stable_order(scores@, order@),
        order@.to_multiset() == places(scores@.len()).to_multiset(),
{
    broadcast use vstd::seq_lib::group_to_multiset_ensures;

    let mut order: Vec<usize> = Vec::new();
    let mut i: usize = 0;
    assert(order@ =~= places(0));
    while i < scores.len()
        invariant
            i <= scores.len(),
            order.len() == i,
            order@.to_multiset() == places(i as nat).to_multiset(),
            forall|a: int| 0 <= a < order.len() ==> (#[trigger] order@[a]) < i,
            forall|a: int, b: int|
                0 <= a < b < order.len() ==> precedes(
                    scores@,
                    #[trigger] order@[a] as int,
                    #[trigger] order@[b] as int,
                ),
        decreases scores.len() - i,
    {
        let mut p: usize = 0;
        while p < order.len() && scores[order[p]] >= scores[i]
            invariant
                p <= order.len(),
                order.len() == i,
                i < scores.len(),
                forall|a: int| 0 <= a < order.len() ==> (#[trigger] order@[a]) < i,
                forall|a: int| 0 <= a < p ==> scores@[(#[trigger] order@[a]) as int] >= scores@[i as int],
            decreases order.len() - p,
        {
            p += 1;
        }
        let ghost before = order@;
        order.insert(p, i);
        proof {
            lemma_insert_adds_one(before, p as int, i);
            places(i as nat).to_multiset_ensures();
            assert(places((i + 1) as nat) =~= places(i as nat).push(i));
            assert forall|a: int, b: int| 0 <= a < b < order.len() implies precedes(
                scores@,
                #[trigger] order@[a] as int,
                #[trigger] order@[b] as int,
            ) by {
                if b < p {
                    assert(order@[a] == before[a] && order@[b] == before[b]);
                } else if b == p {
                    assert(order@[a] == before[a]);
                } else if a < p {
                    assert(order@[a] == before[a] && order@[b] == before[b - 1]);
                } else if a == p {
                    assert(order@[b] == before[b - 1]);
                    if p < b - 1 {
                        assert(precedes(scores@, before[p as int] as int, before[b - 1] as int));
                    }
                } else {
                    assert(order@[a] == before[a - 1] && order@[b] == before[b - 1]);
                }
            }
            assert forall|a: int| 0 <= a < order.len() implies (#[trigger] order@[a]) < i + 1 by {
                if a < p {
                    assert(order@[a] == before[a]);
                } else if a > p {
                    assert(order@[a] == before[a - 1]);
                }
            }
        }
        i += 1;
    }
    order
}

/// Ranks a word list: scores every word by the frequency of its letters in
/// the list and orders the words by falling score, words of equal score as
/// they stood in the list.
pub fn rank(word_list: &Vec<Vec<char>>) -> (pool: Vec<Word>)
    requires
        rankable(texts_of(word_list@)),
    ensures
        exists|perm: Seq<int>| is_ranking(texts_of(word_list@), pool@, perm),
{
    let ghost texts = texts_of(word_list@);
    let table = letter_frequencies(word_list);
    let mut scores: Vec<u64> = Vec::new();
    let mut i: usize = 0;
    while i < word_list.len()
        invariant
            i <= word_list.len(),
            scores.len() == i,
            texts == texts_of(word_list@),
            rankable(texts),
            forall|c: char| count_in(table@, c) == frequency(texts, c),
            forall|k: int| 0 <= k < i ==> #[trigger] scores@[k] == score_of(texts[k], texts),
        decreases word_list.len() - i,
    {
        let score = score_word(word_list, i, &table);
        scores.push(score);
        i += 1;
    }
    let order = stable_order(&scores);
    let ghost perm = Seq::new(order@.len(), |a: int| order@[a] as int);
    let mut pool: Vec<Word> = Vec::new();
    let mut a: usize = 0;
    while a < order.len()
        invariant
            a <= order.len(),
            pool.len() == a,
            order.len() == scores.len(),
            scores.len() == word_list.len(),
            texts == texts_of(word_list@),
            is_stable_order(scores@, order@),
            forall|k: int| 0 <= k < scores.len() ==> #[trigger] scores@[k] == score_of(texts[k], texts),
            forall|k: int|
                0 <= k < a ==> (#[trigger] pool@[k]).word@ == texts[order@[k] as int]
                    && pool@[k].score == scores@[order@[k] as int] && pool@[k].counted(),
        decreases order.len() - a,
    {
        let place = order[a];
        let mut entry = Word::new(copy_chars(&word_list[place]));
        entry.score = scores[place];
        pool.push(entry);
        a += 1;
    }
    proof {
        assert forall|x: int, y: int| 0 <= x < y < perm.len() implies #[trigger] perm[x]
            != #[trigger] perm[y] by {
            assert(precedes(scores@, order@[x] as int, order@[y] as int));
        }
        assert forall|x: int, y: int| 0 <= x < y < pool.len() implies (#[trigger] pool@[x]).score
            > (#[trigger] pool@[y]).score || (pool@[x].score == pool@[y].score && perm[x]
            < perm[y]) by {
            assert(precedes(scores@, order@[x] as int, order@[y] as int));
        }
        let word_at = |k: usize| texts[k as int];
        lemma_map_keeps_multiset(order@, places(texts.len()), word_at);
        assert(order@.map_values(word_at) =~= words_in(pool@));
        assert(places(texts.len()).map_values(word_at) =~= texts);
        assert(is_ranking(texts, pool@, perm));
    }
    pool
}

} // verus!
