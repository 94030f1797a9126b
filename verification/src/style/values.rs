//! Values that style properties can take.

use vstd::prelude::*;

verus! {

/// How a box takes part in its parent's formatting context.
#[derive(Copy, Clone, Debug, PartialEq, Eq, Structural)]
pub enum DisplayOutside {
    Inline,
    Block,
}

/// How a box lays out its own contents.
#[derive(Copy, Clone, Debug, PartialEq, Eq, Structural)]
pub enum DisplayInside {
    Flow,
}

/// The `display` property.
#[derive(Copy, Clone, Debug, PartialEq, Eq, Structural)]
pub enum Display {
    /// `display: none`: the element and its descendants generate no box.
    NoBox,
    Other { outside: DisplayOutside, inside: DisplayInside },
}

/// A colour with eight bits per channel.
#[derive(Copy, Clone, Debug, PartialEq, Eq, Structural)]
pub struct Rgba {
    pub red: u8,
    pub green: u8,
    pub blue: u8,
    pub alpha: u8,
}

/// A length in whole CSS pixels.
#[derive(Copy, Clone, Debug, PartialEq, Eq, Structural)]
pub struct Length {
    pub px: u32,
}

impl Display {
    /// `display: inline`, the initial value.
    pub open spec fn inline_spec() -> Display {
        Display::Other { outside: DisplayOutside::Inline, inside: DisplayInside::Flow }
    }

    /// `display: block`.
    pub open spec fn block_spec() -> Display {
        Display::Other { outside: DisplayOutside::Block, inside: DisplayInside::Flow }
    }

    #[verifier::when_used_as_spec(inline_spec)]
    pub fn inline() -> (d: Display)
        ensures
            d == Display::inline_spec(),
    {
        Display::Other { outside: DisplayOutside::Inline, inside: DisplayInside::Flow }
    }

    #[verifier::when_used_as_spec(block_spec)]
    pub fn block() -> (d: Display)
        ensures
            d == Display::block_spec(),
    {
        Display::Other { outside: DisplayOutside::Block, inside: DisplayInside::Flow }
    }
}

impl Rgba {
    /// Opaque black, the initial text colour.
    pub open spec fn black_spec() -> Rgba {
        Rgba { red: 0, green: 0, blue: 0, alpha: 255 }
    }

    /// Fully transparent, the initial background.
    pub open spec fn transparent_spec() -> Rgba {
        Rgba { red: 0, green: 0, blue: 0, alpha: 0 }
    }

    #[verifier::when_used_as_spec(black_spec)]
    pub fn black() -> (c: Rgba)
        ensures
            c == Rgba::black_spec(),
    {
        Rgba { red: 0, green: 0, blue: 0, alpha: 255 }
    }

    #[verifier::when_used_as_spec(transparent_spec)]
    pub fn transparent() -> (c: Rgba)
        ensures
            c == Rgba::transparent_spec(),
    {
        Rgba { red: 0, green: 0, blue: 0, alpha: 0 }
    }
}

} // verus!
