//! The boundary to the theme resolver, an external collaborator.
//!
//! Scope names are parsed into interned scopes, and scope stacks are
//! resolved against the active theme, by syntect. Both calls are trusted
//! at this boundary; everything computed from their answers is verified.

use vstd::prelude::*;

use syntect::highlighting::Highlighter;
use syntect::highlighting::Theme;
use syntect::parsing::Scope;

use crate::style::StyleParts;

verus! {

#[verifier::external_type_specification]
#[verifier::external_body]
pub struct ExScope(Scope);

#[verifier::external_type_specification]
#[verifier::external_body]
pub struct ExTheme(Theme);

/// The capability handed into every call that needs scope resolution:
/// it owns the active theme, and each resolution call acquires the
/// theme only for its own duration.
pub struct StyleResolver {
    pub theme: Theme,
}

impl StyleResolver {
    pub fn new(theme: Theme) -> (r: StyleResolver)
        ensures
            r.theme == theme,
    {
        StyleResolver { theme }
    }
}

/// Relies on syntect's `Scope::new`: it parses a dot-separated scope
/// name into an interned scope, and fails when the name holds more
/// atoms than a scope can carry or the process's atom table is full.
/// `None` stands for its error; nothing further is assumed of it.
#[verifier::external_body]
pub(crate) fn parse_scope(name: &String) -> Option<Scope> {
    match Scope::new(name.as_str()) {
        Ok(s) => Some(s),
        Err(_) => None,
    }
}

/// Relies on syntect's `Highlighter::new` and
/// `Highlighter::style_mod_for_stack`: the theme's selectors are matched
/// against the scope stack and the matching style modifiers are layered
/// into one answer. The answer depends on the opaque theme, so nothing
/// is assumed of its value; it is handed back as plain parts.
#[verifier::external_body]
pub(crate) fn resolve_stack(resolver: &StyleResolver, stack: &Vec<Scope>) -> StyleParts {
    let m = Highlighter::new(&resolver.theme).style_mod_for_stack(stack);
    StyleParts {
        fg: m.foreground.map(|c| (c.r, c.g, c.b, c.a)),
        bg: m.background.map(|c| (c.r, c.g, c.b, c.a)),
        font: m.font_style.map(|f| f.bits()),
    }
}

} // verus!
