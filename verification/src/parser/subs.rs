//! Substitution pipeline configuration.
//!
//! AsciiDoc defines six substitution groups applied in order:
//! specialchars, quotes, attributes, replacements, macros, post-replacements.
//! Each block type declares which apply; the `subs` attribute overrides.
use vstd::prelude::*;

verus! {

#[derive(Debug, Clone, Copy, PartialEq, Eq)]
pub struct Subs {
    pub specialchars: bool,
    pub quotes: bool,
    pub attributes: bool,
    pub replacements: bool,
    pub macros: bool,
    pub post_replacements: bool,
}

impl Subs {
    /// Every group: the substitutions of a normal paragraph.
    pub fn normal() -> (s: Subs)
        ensures
            s.specialchars && s.quotes && s.attributes && s.replacements && s.macros
                && s.post_replacements,
    {
        Subs {
            specialchars: true,
            quotes: true,
            attributes: true,
            replacements: true,
            macros: true,
            post_replacements: true,
        }
    }

    /// Only special characters: listing and literal content.
    pub fn verbatim() -> (s: Subs)
        ensures
            s.specialchars && !s.quotes && !s.attributes && !s.replacements && !s.macros
                && !s.post_replacements,
    {
        Subs {
            specialchars: true,
            quotes: false,
            attributes: false,
            replacements: false,
            macros: false,
            post_replacements: false,
        }
    }

    /// Everything but post-replacements: document and section titles.
    pub fn header() -> (s: Subs)
        ensures
            s.specialchars && s.quotes && s.attributes && s.replacements && s.macros
                && !s.post_replacements,
    {
        Subs {
            specialchars: true,
            quotes: true,
            attributes: true,
            replacements: true,
            macros: true,
            post_replacements: false,
        }
    }

    /// No substitution at all.
    pub fn none() -> (s: Subs)
        ensures
            !s.specialchars && !s.quotes && !s.attributes && !s.replacements && !s.macros
                && !s.post_replacements,
    {
        Subs {
            specialchars: false,
            quotes: false,
            attributes: false,
            replacements: false,
            macros: false,
            post_replacements: false,
        }
    }
}

} // verus!
