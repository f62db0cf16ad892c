//! Text at the library's edge: strings in, characters inside, strings out.

use vstd::prelude::*;
use crate::ranker::texts_of;
use crate::ranker::total_letters;

verus! {

/// `String::push` of the standard library appends one character to the end of
/// the string and leaves the rest as it was.
pub assume_specification[ String::push ](s: &mut String, ch: char)
    ensures
        final(s)@ == old(s)@.push(ch),
;

/// A copy of the characters of a word.
pub fn copy_chars(word: &Vec<char>) -> (copy: Vec<char>)
    ensures
        copy@ == word@,
{
    let mut copy: Vec<char> = Vec::new();
    let mut i: usize = 0;
    while i < word.len()
        invariant
            i <= word.len(),
            copy@ == word@.take(i as int),
        decreases word.len() - i,
    {
        copy.push(word[i]);
        assert(word@.take(i + 1) =~= word@.take(i as int).push(word@[i as int]));
        i += 1;
    }
    assert(word@.take(word.len() as int) =~= word@);
    copy
}

/// Whether two words hold the same characters in the same order.
pub fn same_chars(a: &Vec<char>, b: &Vec<char>) -> (same: bool)
    ensures
        same == (a@ == b@),
{
    if a.len() != b.len() {
        return false;
    }
    let mut i: usize = 0;
    while i < a.len()
        invariant
            i <= a.len(),
            a.len() == b.len(),
            forall|j: int| 0 <= j < i ==> a@[j] == b@[j],
        decreases a.len() - i,
    {
        if a[i] != b[i] {
            return false;
        }
        i += 1;
    }
    assert(a@ =~= b@);
    true
}

/// The characters of a string, in order.
pub fn to_chars(s: &str) -> (chars: Vec<char>)
    ensures
        chars@ == s@,
{
    broadcast use vstd::string::group_string_axioms;

    let mut chars: Vec<char> = Vec::new();
    for c in it: s.chars()
        invariant
            it.seq() == s@,
            chars@ == s@.take(it.index() as int),
    {
        assert(s@.take(it.index() + 1) =~= s@.take(it.index() as int).push(c));
        chars.push(c);
    }
    assert(s@.take(s@.len() as int) =~= s@);
    chars
}

/// The string made of the given characters, in order.
pub fn to_text(chars: &Vec<char>) -> (s: String)
    ensures
        s@ == chars@,
{
    let mut s = String::new();
    let mut i: usize = 0;
    while i < chars.len()
        invariant
            i <= chars.len(),
            s@ == chars@.take(i as int),
        decreases chars.len() - i,
    {
        s.push(chars[i]);
        assert(chars@.take(i + 1) =~= chars@.take(i as int).push(chars@[i as int]));
        i += 1;
    }
    assert(chars@.take(chars.len() as int) =~= chars@);
    s
}

/// The characters that separate words: those with the Unicode property
/// White_Space.
pub open spec fn is_space(c: char) -> bool {
    let u = c as u32;
    ||| 0x09 <= u <= 0x0D
    ||| u == 0x20
    ||| u == 0x85
    ||| u == 0xA0
    ||| u == 0x1680
    ||| 0x2000 <= u <= 0x200A
    ||| u == 0x2028
    ||| u == 0x2029
    ||| u == 0x202F
    ||| u == 0x205F
    ||| u == 0x3000
}

/// The words of a text: its longest runs of characters that are not
/// whitespace, in order. Read from the left, a whitespace character adds
/// nothing, a character after another of a word lengthens the last word, and
/// any other character starts a word.
pub open spec fn words_of(text: Seq<char>) -> Seq<Seq<char>>
    decreases text.len(),
{
    if text.len() == 0 {
        Seq::empty()
    } else {
        let init = text.drop_last();
        let before = words_of(init);
        if is_space(text.last()) {
            before
        } else if init.len() > 0 && !is_space(init.last()) {
            before.drop_last().push(before.last().push(text.last()))
        } else {
            before.push(seq![text.last()])
        }
    }
}

/// The words of a text hold no more characters than the text, and a text that
/// ends in a character of a word has a word.
pub proof fn lemma_words_within_text(text: Seq<char>)
    ensures
        total_letters(words_of(text)) <= text.len(),
        text.len() > 0 && !is_space(text.last()) ==> words_of(text).len() > 0,
    decreases text.len(),
{
    if text.len() > 0 {
        let init = text.drop_last();
        let before = words_of(init);
        lemma_words_within_text(init);
        if is_space(text.last()) {
        } else if init.len() > 0 && !is_space(init.last()) {
            let longer = before.drop_last().push(before.last().push(text.last()));
            assert(longer.drop_last() =~= before.drop_last());
            assert(longer.last() == before.last().push(text.last()));
        } else {
            let longer = before.push(seq![text.last()]);
            assert(longer.drop_last() =~= before);
        }
    }
}

/// The characters of a text that are not whitespace, in order.
pub open spec fn letters_of(text: Seq<char>) -> Seq<char> {
    text.filter(|c: char| !is_space(c))
}

/// The words of a list written one after another.
pub open spec fn joined(words: Seq<Seq<char>>) -> Seq<char>
    decreases words.len(),
{
    if words.len() == 0 {
        Seq::empty()
    } else {
        joined(words.drop_last()) + words.last()
    }
}

/// No word of a text is empty, none holds whitespace, and the words written
/// one after another are the text without its whitespace.
pub proof fn lemma_words_are_runs(text: Seq<char>)
    ensures
        forall|i: int| 0 <= i < words_of(text).len() ==> (#[trigger] words_of(text)[i]).len() > 0,
        forall|i: int, j: int|
            0 <= i < words_of(text).len() && 0 <= j < words_of(text)[i].len() ==> !is_space(
                #[trigger] words_of(text)[i][j],
            ),
        joined(words_of(text)) == letters_of(text),
    decreases text.len(),
{
    reveal(Seq::filter);
    if text.len() > 0 {
        let init = text.drop_last();
        let last = text.last();
        let before = words_of(init);
        lemma_words_are_runs(init);
        lemma_words_within_text(init);
        if is_space(last) {
        } else if init.len() > 0 && !is_space(init.last()) {
            let longer = before.drop_last().push(before.last().push(last));
            assert(longer.drop_last() =~= before.drop_last());
            assert forall|i: int| 0 <= i < longer.len() implies (#[trigger] longer[i]).len() > 0
                && forall|j: int| 0 <= j < longer[i].len() ==> !is_space(#[trigger] longer[i][j]) by {
                if i < longer.len() - 1 {
                    assert(longer[i] == before[i]);
                }
            }
            assert(joined(longer) =~= joined(before).push(last));
        } else {
            let longer = before.push(seq![last]);
            assert(longer.drop_last() =~= before);
            assert forall|i: int| 0 <= i < longer.len() implies (#[trigger] longer[i]).len() > 0
                && forall|j: int| 0 <= j < longer[i].len() ==> !is_space(#[trigger] longer[i][j]) by {
                if i < longer.len() - 1 {
                    assert(longer[i] == before[i]);
                }
            }
            assert(joined(longer) =~= joined(before).push(last));
        }
    }
}

/// Whether `c` separates words.
pub fn is_whitespace(c: char) -> (space: bool)
    ensures
        space == is_space(c),
{
    let u: u32 = c as u32;
    (0x09 <= u && u <= 0x0D) || u == 0x20 || u == 0x85 || u == 0xA0 || u == 0x1680 || (0x2000 <= u
        && u <= 0x200A) || u == 0x2028 || u == 0x2029 || u == 0x202F || u == 0x205F || u == 0x3000
}

/// Splits a text into its words.
pub fn split_words(text: &Vec<char>) -> (words: Vec<Vec<char>>)
    ensures
        texts_of(words@) == words_of(text@),
{
    let mut words: Vec<Vec<char>> = Vec::new();
    let mut current: Vec<char> = Vec::new();
    let mut i: usize = 0;
    assert(texts_of(words@) =~= words_of(text@.take(0)));
    while i < text.len()
        invariant
            i <= text.len(),
            current@.len() > 0 <==> i > 0 && !is_space(text@[i - 1]),
            words_of(text@.take(i as int)) == if current@.len() > 0 {
                texts_of(words@).push(current@)
            } else {
                texts_of(words@)
            },
        decreases text.len() - i,
    {
        let c = text[i];
        let ghost done = texts_of(words@);
        let ghost run = current@;
        proof {
            assert(text@.take(i + 1).drop_last() =~= text@.take(i as int));
            assert(text@.take(i + 1).last() == c);
            if i > 0 {
                assert(text@.take(i as int).last() == text@[i - 1]);
            }
        }
        if is_whitespace(c) {
            if current.len() > 0 {
                words.push(current);
                current = Vec::new();
                assert(texts_of(words@) =~= done.push(run));
            }
        } else {
            current.push(c);
            proof {
                if run.len() > 0 {
                    assert(done.push(run).drop_last() =~= done);
                } else {
                    assert(current@ =~= seq![c]);
                }
            }
        }
        i += 1;
    }
    assert(text@.take(text.len() as int) =~= text@);
    if current.len() > 0 {
        let ghost done = texts_of(words@);
        let ghost run = current@;
        words.push(current);
        assert(texts_of(words@) =~= done.push(run));
    }
    words
}

} // verus!
