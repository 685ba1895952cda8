//! Configuration types: the tailoring selector and its locale variants.

use vstd::prelude::*;

verus! {

/// A CLDR locale variant: the root CLDR table, or one of the Arabic-script
/// tailorings layered over it.
#[derive(Debug, PartialEq, Eq, Clone, Copy, Hash, Structural)]
pub enum Locale {
    ArabicScript,
    ArabicInterleaved,
    Root,
}

/// The tailoring selector: a closed choice between the pure root table
/// (DUCET) and the CLDR table parameterized by a locale variant.
#[derive(Debug, PartialEq, Eq, Clone, Copy, Hash, Structural)]
pub enum Tailoring {
    Cldr(Locale),
    Ducet,
}

impl Default for Locale {
    fn default() -> (r: Self)
        ensures
            r == Locale::Root,
    {
        Locale::Root
    }
}

impl Default for Tailoring {
    fn default() -> (r: Self)
        ensures
            r == Tailoring::Cldr(Locale::Root),
    {
        Tailoring::Cldr(Locale::Root)
    }
}

} // verus!
