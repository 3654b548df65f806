//! The languages the interface speaks.

use vstd::prelude::*;

verus! {

#[derive(Debug, Clone, Copy, PartialEq, Eq, Structural)]
pub enum Locale {
    Zh,
    En,
}

/// The one of two wordings that `locale` asks for.
pub open spec fn wording<'a>(locale: Locale, en: &'a str, zh: &'a str) -> &'a str {
    match locale {
        Locale::En => en,
        Locale::Zh => zh,
    }
}

/// The one of two wordings that `locale` asks for.
pub fn text_for<'a>(locale: Locale, en: &'a str, zh: &'a str) -> (r: &'a str)
    ensures
        r == wording(locale, en, zh),
{
    match locale {
        Locale::En => en,
        Locale::Zh => zh,
    }
}

// ---------------------------------------------------------------------------
// Laws
// ---------------------------------------------------------------------------

/// Each language has its own wording.
pub proof fn each_language_has_its_wording(en: &str, zh: &str, a: &str, b: &str)
    requires
        call_ensures(text_for, (Locale::En, en, zh), a),
        call_ensures(text_for, (Locale::Zh, en, zh), b),
    ensures
        a == en,
        b == zh,
{
}

} // verus!
