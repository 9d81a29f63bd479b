//! Resolved display styles: sets of optional visual attributes.

use vstd::prelude::*;

verus! {

/// A resolved display style. Every attribute is optional; an unset
/// attribute falls through to lower layers when styles are composited.
///
/// Colors are packed as `0xAARRGGBB`.
#[derive(Clone, Copy, Debug)]
pub struct Style {
    pub fg_color: Option<u32>,
    pub bg_color: Option<u32>,
    pub weight: Option<u32>,
    pub underline: Option<bool>,
    pub italic: Option<bool>,
}

/// The plain pieces of a resolver's answer for one scope stack:
/// foreground and background as `(r, g, b, a)` bytes, and the font
/// flags as a bit set (bold `1`, underline `2`, italic `4`).
#[derive(Clone, Copy, Debug)]
pub struct StyleParts {
    pub fg: Option<(u8, u8, u8, u8)>,
    pub bg: Option<(u8, u8, u8, u8)>,
    pub font: Option<u8>,
}

impl Style {
    /// The style with every attribute unset.
    pub open spec fn default_spec() -> Style {
        Style {
            fg_color: None,
            bg_color: None,
            weight: None,
            underline: None,
            italic: None,
        }
    }

    /// Overlaying `other` on `self`: attributes `other` sets win,
    /// the rest fall through to `self`.
    pub open spec fn merge_spec(self, other: Style) -> Style {
        Style {
            fg_color: if other.fg_color is Some { other.fg_color } else { self.fg_color },
            bg_color: if other.bg_color is Some { other.bg_color } else { self.bg_color },
            weight: if other.weight is Some { other.weight } else { self.weight },
            underline: if other.underline is Some { other.underline } else { self.underline },
            italic: if other.italic is Some { other.italic } else { self.italic },
        }
    }

    pub fn merge(&self, other: &Style) -> (r: Style)
        ensures
            r == self.merge_spec(*other),
    {
        Style {
            fg_color: if other.fg_color.is_some() { other.fg_color } else { self.fg_color },
            bg_color: if other.bg_color.is_some() { other.bg_color } else { self.bg_color },
            weight: if other.weight.is_some() { other.weight } else { self.weight },
            underline: if other.underline.is_some() { other.underline } else { self.underline },
            italic: if other.italic.is_some() { other.italic } else { self.italic },
        }
    }

    /// Whether two styles are the same value, attribute for attribute.
    pub fn same(&self, other: &Style) -> (r: bool)
        ensures
            r == (*self == *other),
    {
        opt_u32_eq(self.fg_color, other.fg_color) && opt_u32_eq(self.bg_color, other.bg_color)
            && opt_u32_eq(self.weight, other.weight)
            && opt_bool_eq(self.underline, other.underline)
            && opt_bool_eq(self.italic, other.italic)
    }

    /// `0xAARRGGBB` packing of `(r, g, b, a)` color bytes.
    pub open spec fn pack_argb_spec(c: (u8, u8, u8, u8)) -> u32 {
        ((c.3 as u32) << 24) | ((c.0 as u32) << 16) | ((c.1 as u32) << 8) | (c.2 as u32)
    }

    pub open spec fn from_parts_spec(p: StyleParts) -> Style {
        Style {
            fg_color: match p.fg {
                Some(c) => Some(Style::pack_argb_spec(c)),
                None => None,
            },
            bg_color: match p.bg {
                Some(c) => Some(Style::pack_argb_spec(c)),
                None => None,
            },
            weight: match p.font {
                Some(bits) => Some(if bits & 1 != 0 { 700u32 } else { 400u32 }),
                None => None,
            },
            underline: match p.font {
                Some(bits) => Some(bits & 2 != 0),
                None => None,
            },
            italic: match p.font {
                Some(bits) => Some(bits & 4 != 0),
                None => None,
            },
        }
    }

    /// Builds the style a resolver's answer stands for.
    pub fn from_parts(p: StyleParts) -> (r: Style)
        ensures
            r == Style::from_parts_spec(p),
    {
        Style {
            fg_color: match p.fg {
                Some(c) => Some(
                    ((c.3 as u32) << 24) | ((c.0 as u32) << 16) | ((c.1 as u32) << 8) | (
                    c.2 as u32),
                ),
                None => None,
            },
            bg_color: match p.bg {
                Some(c) => Some(
                    ((c.3 as u32) << 24) | ((c.0 as u32) << 16) | ((c.1 as u32) << 8) | (
                    c.2 as u32),
                ),
                None => None,
            },
            weight: match p.font {
                Some(bits) => Some(if bits & 1 != 0 { 700u32 } else { 400u32 }),
                None => None,
            },
            underline: match p.font {
                Some(bits) => Some(bits & 2 != 0),
                None => None,
            },
            italic: match p.font {
                Some(bits) => Some(bits & 4 != 0),
                None => None,
            },
        }
    }
}

impl Default for Style {
    /// The all-unset style; it is the identity of `merge` on both sides.
    fn default() -> (r: Style)
        ensures
            r == Style::default_spec(),
    {
        Style {
            fg_color: None,
            bg_color: None,
            weight: None,
            underline: None,
            italic: None,
        }
    }
}

fn opt_u32_eq(a: Option<u32>, b: Option<u32>) -> (r: bool)
    ensures
        r == (a == b),
{
    match (a, b) {
        (None, None) => true,
        (Some(x), Some(y)) => x == y,
        _ => false,
    }
}

fn opt_bool_eq(a: Option<bool>, b: Option<bool>) -> (r: bool)
    ensures
        r == (a == b),
{
    match (a, b) {
        (None, None) => true,
        (Some(x), Some(y)) => x == y,
        _ => false,
    }
}

/// Precedence of composition, attribute by attribute: the overlay's
/// explicitly-set attributes win, and attributes the overlay leaves
/// unset fall through to the base's value.
pub proof fn lemma_overlay_precedence(base: Style, overlay: Style)
    ensures
        overlay.fg_color is Some ==> base.merge_spec(overlay).fg_color == overlay.fg_color,
        overlay.fg_color is None ==> base.merge_spec(overlay).fg_color == base.fg_color,
        overlay.bg_color is Some ==> base.merge_spec(overlay).bg_color == overlay.bg_color,
        overlay.bg_color is None ==> base.merge_spec(overlay).bg_color == base.bg_color,
        overlay.weight is Some ==> base.merge_spec(overlay).weight == overlay.weight,
        overlay.weight is None ==> base.merge_spec(overlay).weight == base.weight,
        overlay.underline is Some ==> base.merge_spec(overlay).underline == overlay.underline,
        overlay.underline is None ==> base.merge_spec(overlay).underline == base.underline,
        overlay.italic is Some ==> base.merge_spec(overlay).italic == overlay.italic,
        overlay.italic is None ==> base.merge_spec(overlay).italic == base.italic,
{
}

/// Overlaying the unset style changes nothing, and overlaying onto the
/// unset style yields the overlay itself: the default is the identity
/// of style composition on both sides.
pub proof fn lemma_default_is_merge_identity(s: Style)
    ensures
        s.merge_spec(Style::default_spec()) == s,
        Style::default_spec().merge_spec(s) == s,
{
}

} // verus!
