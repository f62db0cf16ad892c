//! The languages a game can be played in, and the letters each one adds to the
//! basic alphabet.

use vstd::prelude::*;

verus! {

/// A language with a word list of its own.
#[derive(Clone, Copy, Debug, PartialEq, Eq, Structural, Hash)]
pub enum Language {
    English,
    French,
    German,
}

/// The name of a language as its speakers write it.
pub open spec fn native_name(language: Language) -> Seq<char> {
    match language {
        Language::English => "English"@,
        Language::French => "Français"@,
        Language::German => "Deutsch"@,
    }
}

/// The letters that a language has beyond the twenty-six basic ones.
pub open spec fn extra_letters(language: Language) -> Seq<char> {
    match language {
        Language::English => Seq::<char>::empty(),
        Language::French => Seq::<char>::empty(),
        Language::German => seq!['ä', 'ö', 'ü', 'é', 'ß'],
    }
}

/// The twenty-six basic letters, in alphabetical order.
pub open spec fn basic_letters() -> Seq<char> {
    seq![
        'a', 'b', 'c', 'd', 'e', 'f', 'g', 'h', 'i', 'j', 'k', 'l', 'm',
        'n', 'o', 'p', 'q', 'r', 's', 't', 'u', 'v', 'w', 'x', 'y', 'z',
    ]
}

/// Every letter that can be guessed in a language: the basic letters, then its own.
pub open spec fn alphabet(language: Language) -> Seq<char> {
    basic_letters() + extra_letters(language)
}

impl Language {
    /// The name shown for this language.
    pub fn to_string(&self) -> (name: String)
        ensures
            name@ == native_name(*self),
    {
        match self {
            Language::English => "English".to_owned(),
            Language::French => "Français".to_owned(),
            Language::German => "Deutsch".to_owned(),
        }
    }

    /// The letters this language adds to the basic alphabet.
    pub fn extra_letters(&self) -> (letters: Vec<char>)
        ensures
            letters@ == extra_letters(*self),
    {
        let mut letters: Vec<char> = Vec::new();
        match self {
            Language::German => {
                letters.push('ä');
                letters.push('ö');
                letters.push('ü');
                letters.push('é');
                letters.push('ß');
                assert(letters@ =~= extra_letters(*self));
            },
            _ => {
                assert(letters@ =~= extra_letters(*self));
            },
        }
        letters
    }

    /// The full alphabet of this language, in keyboard-independent order.
    pub fn alphabet(&self) -> (letters: Vec<char>)
        ensures
            letters@ == alphabet(*self),
    {
        let mut letters: Vec<char> = vec![
            'a', 'b', 'c', 'd', 'e', 'f', 'g', 'h', 'i', 'j', 'k', 'l', 'm',
            'n', 'o', 'p', 'q', 'r', 's', 't', 'u', 'v', 'w', 'x', 'y', 'z',
        ];
        assert(letters@ =~= basic_letters());
        let mut extra = self.extra_letters();
        letters.append(&mut extra);
        letters
    }
}

} // verus!
