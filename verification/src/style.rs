//! The style of a run: two colours and a set of font flags.

use vstd::prelude::*;

verus! {

/// A colour as a theme gives it: red, green, blue and alpha, each from 0 to 255.
#[derive(Clone, Copy, Debug, PartialEq, Eq, Structural)]
pub struct Color {
    pub r: u8,
    pub g: u8,
    pub b: u8,
    pub a: u8,
}

/// A set of font flags, one bit for each flag: 1 for bold, 2 for underline,
/// 4 for italic.
#[derive(Clone, Copy, Debug, PartialEq, Eq, Structural)]
pub struct FontStyle {
    pub bits: u8,
}

/// Foreground colour, background colour and font flags of one run.
#[derive(Clone, Copy, Debug, PartialEq, Eq, Structural)]
pub struct Style {
    pub foreground: Color,
    pub background: Color,
    pub font_style: FontStyle,
}

impl FontStyle {
    /// The set that holds the bold flag alone.
    pub open spec fn spec_bold() -> FontStyle {
        FontStyle { bits: 1 }
    }

    /// The set that holds the underline flag alone.
    pub open spec fn spec_underline() -> FontStyle {
        FontStyle { bits: 2 }
    }

    /// The set that holds the italic flag alone.
    pub open spec fn spec_italic() -> FontStyle {
        FontStyle { bits: 4 }
    }

    /// Whether every flag of `other` is also a flag of `self`.
    pub open spec fn has(self, other: FontStyle) -> bool {
        self.bits & other.bits == other.bits
    }

    /// The set without any flag.
    pub fn empty() -> (r: FontStyle)
        ensures
            r.bits == 0,
    {
        FontStyle { bits: 0 }
    }

    /// The set that holds the bold flag alone.
    #[verifier::when_used_as_spec(spec_bold)]
    pub fn bold() -> (r: FontStyle)
        ensures
            r == Self::spec_bold(),
    {
        FontStyle { bits: 1 }
    }

    /// The set that holds the underline flag alone.
    #[verifier::when_used_as_spec(spec_underline)]
    pub fn underline() -> (r: FontStyle)
        ensures
            r == Self::spec_underline(),
    {
        FontStyle { bits: 2 }
    }

    /// The set that holds the italic flag alone.
    #[verifier::when_used_as_spec(spec_italic)]
    pub fn italic() -> (r: FontStyle)
        ensures
            r == Self::spec_italic(),
    {
        FontStyle { bits: 4 }
    }

    /// Whether every flag of `other` is also a flag of `self`.
    pub fn contains(&self, other: FontStyle) -> (r: bool)
        ensures
            r == self.has(other),
    {
        (self.bits & other.bits) == other.bits
    }

    /// The flags of `self` together with those of `other`: the set has
    /// whatever either of the two has.
    pub fn union(self, other: FontStyle) -> (r: FontStyle)
        ensures
            r.bits == self.bits | other.bits,
            forall|f: FontStyle| self.has(f) || other.has(f) ==> r.has(f),
    {
        let r = FontStyle { bits: self.bits | other.bits };
        proof {
            assert forall|f: FontStyle| self.has(f) || other.has(f) implies r.has(f) by {
                let a = self.bits;
                let b = other.bits;
                let x = f.bits;
                assert((a & x == x || b & x == x) ==> ((a | b) & x == x)) by (bit_vector);
            }
        }
        r
    }
}

} // verus!
