//! 8-bit RGB pixel colours and their text form.
use vstd::prelude::*;
use crate::text::{decimal, push_decimal};

verus! {

/// A pixel colour with one byte per channel.
#[derive(Clone, Copy, Debug, PartialEq, Eq, Structural)]
pub struct Color {
    pub r: u8,
    pub g: u8,
    pub b: u8,
}

/// The text of a colour: the three channels in decimal, each followed by a tab.
pub open spec fn color_text(c: Color) -> Seq<char> {
    decimal(c.r as nat) + seq!['\t'] + decimal(c.g as nat) + seq!['\t'] + decimal(c.b as nat)
        + seq!['\t']
}

/// Appends the text of `c` to `s`.
pub fn push_color(s: &mut String, c: &Color)
    ensures
        final(s)@ == old(s)@ + color_text(*c),
{
    proof { reveal_strlit("\t"); }
    push_decimal(s, c.r as usize);
    s.append("\t");
    push_decimal(s, c.g as usize);
    s.append("\t");
    push_decimal(s, c.b as usize);
    s.append("\t");
    assert(final(s)@ =~= old(s)@ + color_text(*c));
}

impl Color {
    /// The three channels in decimal, each followed by a tab (`"255\t0\t7\t"`).
    pub fn to_string(&self) -> (r: String)
        ensures
            r@ == color_text(*self),
    {
        let mut s = String::new();
        push_color(&mut s, self);
        assert(s@ =~= color_text(*self));
        s
    }
}

} // verus!
