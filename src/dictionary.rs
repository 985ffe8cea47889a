//! The vocabulary that callers hold: a prefix tree behind three operations.

use vstd::prelude::*;

use crate::trie::Trie;
use crate::words::{answer_has_no_repeats, answer_view, lookup_answer, suggestion_answer};

verus! {

/// Holds the words a program works with and answers lookups and
/// suggestions over them.
pub struct Dictionary {
    internal: Trie,
}

impl View for Dictionary {
    type V = Set<Seq<char>>;

    /// The stored words.
    closed spec fn view(&self) -> Set<Seq<char>> {
        self.internal@
    }
}

impl Dictionary {
    /// The dictionary is well formed.
    pub closed spec fn wf(&self) -> bool {
        self.internal.wf()
    }

    /// An empty dictionary.
    pub fn new() -> (d: Dictionary)
        ensures
            d.wf(),
            d@ == Set::<Seq<char>>::empty(),
    {
        Dictionary { internal: Trie::new() }
    }

    /// Adds `word` to the dictionary.
    pub fn insert(&mut self, word: String)
        requires
            old(self).wf(),
        ensures
            final(self).wf(),
            final(self)@ == old(self)@.insert(word@),
    {
        self.internal.insert(word)
    }

    /// Every stored word that begins with `prefix`; nothing when no stored
    /// word does.
    pub fn find_words_based_on_prefix(&self, prefix: String) -> (r: Option<Vec<String>>)
        requires
            self.wf(),
        ensures
            answer_view(r) == lookup_answer(self@, prefix@),
            answer_has_no_repeats(r),
            r matches Some(v) ==> v@.len() > 0,
    {
        self.internal.find_words_based_on_prefix(prefix)
    }

    /// Every stored word that begins with the longest leading part of `typo`
    /// that some stored word begins with; nothing when `typo` is empty or no
    /// stored word shares its first character.
    pub fn auto_suggest_alternative_words(&self, typo: String) -> (r: Option<Vec<String>>)
        requires
            self.wf(),
        ensures
            answer_view(r) == suggestion_answer(self@, typo@),
            answer_has_no_repeats(r),
            r matches Some(v) ==> v@.len() > 0,
    {
        self.internal.auto_suggest(typo)
    }
}

impl Default for Dictionary {
    /// An empty dictionary, as `new` gives.
    fn default() -> (d: Dictionary)
        ensures
            d.wf(),
            d@ == Set::<Seq<char>>::empty(),
    {
        Dictionary::new()
    }
}

} // verus!
