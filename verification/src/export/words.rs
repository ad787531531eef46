//! The words of the exported pages in the program's language.
use vstd::prelude::*;

use crate::text::same;

verus! {

/// The words that an exported page is written with, in one language.
#[derive(Debug, Clone, PartialEq, Eq)]
pub struct Words {
    pub goal: String,
    pub level: String,
    pub estimate: String,
    pub hour: String,
    pub pending: String,
    pub stages: String,
    pub children: String,
    pub sources: String,
    pub checked: String,
    pub practice: String,
    pub deliverable: String,
    pub constraints: String,
    pub acceptance: String,
    pub check: String,
    pub expect: String,
    pub questions: String,
    pub hidden: String,
    pub diagram: String,
    pub license: String,
    pub author: String,
    pub source: String,
}

/// The words of each language the export knows, and those of the language it
/// falls back on for any other.
#[derive(Debug, Clone, PartialEq, Eq)]
pub struct Lexicon {
    pub known: Vec<(String, Words)>,
    pub fallback: Words,
}

/// The words of a language: those of its first entry, else the fallback.
pub open spec fn words_in(known: Seq<(String, Words)>, locale: Seq<char>, fallback: Words) -> Words
    decreases known.len(),
{
    if known.len() == 0 {
        fallback
    } else if known[0].0@ == locale {
        known[0].1
    } else {
        words_in(known.drop_first(), locale, fallback)
    }
}

impl Lexicon {
    pub open spec fn words_for(self, locale: Seq<char>) -> Words {
        words_in(self.known@, locale, self.fallback)
    }

    /// The words of a language, or the fallback where the lexicon lacks it.
    pub fn of(&self, locale: &str) -> (w: &Words)
        ensures
            *w == self.words_for(locale@),
    {
        let mut k: usize = 0;
        assert(self.known@.skip(0) == self.known@);
        while k < self.known.len()
            invariant
                k <= self.known@.len(),
                self.words_for(locale@) == words_in(self.known@.skip(k as int), locale@, self.fallback),
            decreases self.known.len() - k,
        {
            assert(self.known@.skip(k as int)[0] == self.known@[k as int]);
            assert(self.known@.skip(k as int).drop_first() == self.known@.skip(k + 1));
            if same(self.known[k].0.as_str(), locale) {
                return &self.known[k].1;
            }
            k = k + 1;
        }
        &self.fallback
    }
}

} // verus!
