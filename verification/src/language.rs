//! The supported languages, and the names of hints in one of them.

use crate::data::{get_names, HintIndex, HintName, HintNameView};
use std::collections::HashMap;
use vstd::prelude::*;
use vstd::string::*;

verus! {

/// A language in which every hint has a name.
#[derive(Clone, Copy, Debug, PartialEq, Eq, Structural)]
pub enum Language {
    De,
    En,
    Es,
    Fr,
    It,
    Pt,
}

impl Language {
    /// The language that is used where a code names none.
    pub open spec fn fallback() -> Language {
        Language::En
    }

    /// The language that a two-letter code names; the fallback for any
    /// other text.
    pub open spec fn of_code(code: Seq<char>) -> Language {
        if code == seq!['d', 'e'] {
            Language::De
        } else if code == seq!['e', 'n'] {
            Language::En
        } else if code == seq!['e', 's'] {
            Language::Es
        } else if code == seq!['f', 'r'] {
            Language::Fr
        } else if code == seq!['i', 't'] {
            Language::It
        } else if code == seq!['p', 't'] {
            Language::Pt
        } else {
            Language::fallback()
        }
    }

    /// Reads a language code.
    pub fn from_code(code: &str) -> (language: Language)
        ensures
            language == Language::of_code(code@),
    {
        if code.unicode_len() != 2 {
            return Language::En;
        }
        let first: char = code.get_char(0);
        let second: char = code.get_char(1);
        assert(code@ =~= seq![first, second]);
        if first == 'd' && second == 'e' {
            Language::De
        } else if first == 'e' && second == 'n' {
            Language::En
        } else if first == 'e' && second == 's' {
            Language::Es
        } else if first == 'f' && second == 'r' {
            Language::Fr
        } else if first == 'i' && second == 't' {
            Language::It
        } else if first == 'p' && second == 't' {
            Language::Pt
        } else {
            Language::En
        }
    }
}

impl HintNameView {
    /// The name in `language`.
    pub open spec fn in_language(self, language: Language) -> Seq<char> {
        match language {
            Language::De => self.de,
            Language::En => self.en,
            Language::Es => self.es,
            Language::Fr => self.fr,
            Language::It => self.it,
            Language::Pt => self.pt,
        }
    }
}

impl HintName {
    /// The name in `language`.
    pub fn in_language(&self, language: Language) -> (text: &str)
        ensures
            text@ == self@.in_language(language),
    {
        match language {
            Language::De => self.de.as_str(),
            Language::En => self.en.as_str(),
            Language::Es => self.es.as_str(),
            Language::Fr => self.fr.as_str(),
            Language::It => self.it.as_str(),
            Language::Pt => self.pt.as_str(),
        }
    }
}

/// `texts` has, for exactly the identifiers of `ids` that have a name
/// record, the name in `language`.
pub open spec fn localizes(
    names: Map<u32, HintNameView>,
    ids: Seq<u32>,
    language: Language,
    texts: Map<u32, Seq<char>>,
) -> bool {
    &&& forall|id: u32| #[trigger]
        texts.contains_key(id) <==> ids.contains(id) && names.contains_key(id)
    &&& forall|id: u32| #[trigger]
        texts.contains_key(id) ==> texts[id] == names[id].in_language(language)
}

/// The values of the entries of a map of texts.
pub open spec fn text_views<'a>(texts: Map<u32, &'a str>) -> Map<u32, Seq<char>> {
    Map::new(|id: u32| texts.contains_key(id), |id: u32| texts[id]@)
}

/// The names of the given hints in the language that `code` names, by
/// hint identifier. An identifier without a name record is left out; a
/// code that names no language gives the fallback language.
pub fn get_names_for_language<'a>(index: &'a HintIndex, ids: &[u32], code: &str) -> (texts: HashMap<
    u32,
    &'a str,
>)
    ensures
        localizes(index.names(), ids@, Language::of_code(code@), text_views(texts@)),
{
    broadcast use vstd::std_specs::hash::group_hash_axioms;

    let language: Language = Language::from_code(code);
    let mut texts: HashMap<u32, &'a str> = HashMap::new();
    let mut at: usize = 0;
    while at < ids.len()
        invariant
            at <= ids.len(),
            language == Language::of_code(code@),
            localizes(index.names(), ids@.take(at as int), language, text_views(texts@)),
        decreases ids.len() - at,
    {
        let id: u32 = ids[at];
        let ghost before = text_views(texts@);
        let ghost had = ids@.take(at as int);
        let ghost has = ids@.take(at + 1);
        proof {
            assert forall|other: u32| has.contains(other) <==> had.contains(other) || other
                == id by {
                assert(has[at as int] == id);
            }
        }
        match get_names(index, id) {
            Some(names) => {
                let text: &'a str = names.in_language(language);
                texts.insert(id, text);
                assert(text_views(texts@) =~= before.insert(id, text@));
            },
            None => {},
        }
        at += 1;
    }
    assert(ids@.take(at as int) =~= ids@);
    texts
}

} // verus!
