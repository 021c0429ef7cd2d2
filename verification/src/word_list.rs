//! Word lists by name, and the one that comes with the library.

use crate::text::chars_of;
use crate::text::same_text;
use vstd::prelude::*;

pub mod cv;

verus! {

/// A style of words to train on.
#[derive(Clone, Copy, Debug, PartialEq, Eq, Structural)]
pub enum WordList {
    /// English words.
    English,
    /// Italian words.
    Italian,
    /// Pairs of a consonant and a vowel.
    CV,
}

impl WordList {
    /// The style that a name stands for.
    pub open spec fn named(value: Seq<char>) -> Option<WordList> {
        if value == "italian"@ {
            Some(WordList::Italian)
        } else if value == "eff"@ {
            Some(WordList::English)
        } else if value == "cv"@ {
            Some(WordList::CV)
        } else {
            None
        }
    }

    /// Reads the name of a style: `italian`, `eff` or `cv`. Any other name is
    /// turned down with a message that lists the three.
    pub fn from_arg_value(value: &str) -> (r: Result<WordList, String>)
        ensures
            match WordList::named(value@) {
                Some(style) => r == Ok::<WordList, String>(style),
                None => match r {
                    Ok(_) => false,
                    Err(message) => message@
                        == "non existant word list, use one of [italian, cv, eff]."@,
                },
            },
    {
        let name = chars_of(value);
        if same_text(&name, &chars_of("italian")) {
            Ok(WordList::Italian)
        } else if same_text(&name, &chars_of("eff")) {
            Ok(WordList::English)
        } else if same_text(&name, &chars_of("cv")) {
            Ok(WordList::CV)
        } else {
            Err(String::from_str("non existant word list, use one of [italian, cv, eff]."))
        }
    }
}

} // verus!
