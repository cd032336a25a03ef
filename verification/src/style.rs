//! Styles, the patch operation that layers them, and the theme that resolves
//! highlight tags to styles.

use vstd::prelude::*;

verus! {

/// An opaque 24-bit colour value.
#[derive(Clone, Copy, Debug, PartialEq, Eq, Structural)]
pub struct Color {
    pub r: u8,
    pub g: u8,
    pub b: u8,
}

/// The shape of an underline decoration.
#[derive(Clone, Copy, Debug, PartialEq, Eq, Structural)]
pub enum UnderlineKind {
    Line,
    Curl,
}

/// A partial style: every field a producer does not set is `None` (or, for
/// the modifier masks, zero) and is left to earlier layers or to the
/// caller-supplied base style.
#[derive(Clone, Copy, Debug, PartialEq, Eq, Structural)]
pub struct Style {
    pub fg: Option<Color>,
    pub bg: Option<Color>,
    pub underline_color: Option<Color>,
    pub underline_kind: Option<UnderlineKind>,
    /// Text modifiers (bold, italic, ...) switched on, one bit each.
    pub add_modifier: u16,
    /// Text modifiers switched off.
    pub sub_modifier: u16,
}

/// The style that sets nothing at all.
pub open spec fn empty_style() -> Style {
    Style {
        fg: None,
        bg: None,
        underline_color: None,
        underline_kind: None,
        add_modifier: 0,
        sub_modifier: 0,
    }
}

/// `patch(a, b)` lays `b` over `a`: each field `b` sets overrides `a`,
/// each field `b` leaves unset keeps the value from `a`; modifier bits
/// added by `b` stop being subtracted and vice versa.
pub open spec fn spec_patch(a: Style, b: Style) -> Style {
    Style {
        fg: if b.fg is Some { b.fg } else { a.fg },
        bg: if b.bg is Some { b.bg } else { a.bg },
        underline_color: if b.underline_color is Some { b.underline_color } else { a.underline_color },
        underline_kind: if b.underline_kind is Some { b.underline_kind } else { a.underline_kind },
        add_modifier: (a.add_modifier & !b.sub_modifier) | b.add_modifier,
        sub_modifier: (a.sub_modifier & !b.add_modifier) | b.sub_modifier,
    }
}

impl Style {
    /// The style that sets nothing at all.
    pub fn empty() -> (r: Style)
        ensures
            r == empty_style(),
    {
        Style {
            fg: None,
            bg: None,
            underline_color: None,
            underline_kind: None,
            add_modifier: 0,
            sub_modifier: 0,
        }
    }

    /// Lay `other` over `self`, field by field.
    pub fn patch(self, other: Style) -> (r: Style)
        ensures
            r == spec_patch(self, other),
    {
        Style {
            fg: if other.fg.is_some() { other.fg } else { self.fg },
            bg: if other.bg.is_some() { other.bg } else { self.bg },
            underline_color: if other.underline_color.is_some() {
                other.underline_color
            } else {
                self.underline_color
            },
            underline_kind: if other.underline_kind.is_some() {
                other.underline_kind
            } else {
                self.underline_kind
            },
            add_modifier: (self.add_modifier & !other.sub_modifier) | other.add_modifier,
            sub_modifier: (self.sub_modifier & !other.add_modifier) | other.sub_modifier,
        }
    }
}

/// Patching with the empty style changes nothing, in either direction.
pub proof fn lemma_patch_empty(a: Style)
    ensures
        spec_patch(a, empty_style()) == a,
        spec_patch(empty_style(), a) == a,
{
    let am = a.add_modifier;
    let sm = a.sub_modifier;
    assert((am & !0u16) | 0u16 == am) by (bit_vector);
    assert((sm & !0u16) | 0u16 == sm) by (bit_vector);
    assert((0u16 & !sm) | am == am) by (bit_vector);
    assert((0u16 & !am) | sm == sm) by (bit_vector);
}

/// Resolves highlight tags to styles, and names the fixed styles the gutter
/// and the severity decorations draw from.
pub struct Theme {
    /// One style per highlight tag; a tag outside the table resolves to the
    /// empty style.
    pub highlights: Vec<Style>,
    /// Gutter style for an unselected line's first visual row.
    pub gutter: Style,
    /// Gutter style for a selected line's first visual row.
    pub gutter_selected: Style,
    /// Gutter style for an unselected soft-wrap continuation row.
    pub gutter_virtual: Style,
    /// Gutter style for a selected soft-wrap continuation row.
    pub gutter_selected_virtual: Style,
    /// Styles for diagnostic gutter markers, by rising severity.
    pub hint: Style,
    pub info: Style,
    pub warning: Style,
    pub error: Style,
}

/// What a tag resolves to: its entry in the theme's table, or the empty
/// style for a tag the theme does not know.
pub open spec fn spec_highlight(theme: Theme, tag: u32) -> Style {
    if tag < theme.highlights.len() {
        theme.highlights[tag as int]
    } else {
        empty_style()
    }
}

impl Theme {
    /// Resolve one highlight tag.
    pub fn highlight(&self, tag: u32) -> (r: Style)
        ensures
            r == spec_highlight(*self, tag),
    {
        let idx = tag as usize;
        if idx < self.highlights.len() {
            self.highlights[idx]
        } else {
            Style::empty()
        }
    }
}

} // verus!
