//! Three-component values and 8-bit colors.

use vstd::prelude::*;
use vstd::string::StringExecFns;
use crate::text::{append_decimal, decimal};

verus! {

/// Three values of one type, in order.
#[derive(Debug, PartialEq, Eq, Structural)]
pub struct Triple<T>(pub T, pub T, pub T);

impl<T: Copy> Triple<T> {
    /// The triple `(x, y, z)`.
    pub fn new(x: T, y: T, z: T) -> (t: Triple<T>)
        ensures
            t == Triple(x, y, z),
    {
        Triple(x, y, z)
    }
}

impl<T: Copy> Clone for Triple<T> {
    fn clone(&self) -> (t: Self)
        ensures
            t == *self,
    {
        *self
    }
}

impl<T: Copy> Copy for Triple<T> {

}

/// A color of three channels, red, green and blue, each from 0 to 255.
#[derive(Clone, Copy, Debug, PartialEq, Eq, Structural)]
pub struct ColorU8(pub Triple<u8>);

impl ColorU8 {
    /// The color with the channels `r`, `g`, `b`.
    pub fn new(r: u8, g: u8, b: u8) -> (color: ColorU8)
        ensures
            color == ColorU8(Triple(r, g, b)),
    {
        ColorU8(Triple(r, g, b))
    }

    /// The red channel.
    pub fn r(&self) -> (r: u8)
        ensures
            r == self.0.0,
    {
        self.0.0
    }

    /// The green channel.
    pub fn g(&self) -> (g: u8)
        ensures
            g == self.0.1,
    {
        self.0.1
    }

    /// The blue channel.
    pub fn b(&self) -> (b: u8)
        ensures
            b == self.0.2,
    {
        self.0.2
    }

    /// Channel `k` of the color: red is 0, green 1, blue 2.
    pub open spec fn channel(self, k: int) -> u8 {
        if k == 0 {
            self.0.0
        } else if k == 1 {
            self.0.1
        } else {
            self.0.2
        }
    }

    /// The line that writes this color in a plain-text image: the three
    /// channels in decimal, a space between them and a line feed at the end.
    pub open spec fn line(self) -> Seq<char> {
        decimal(self.0.0 as nat) + seq![' '] + decimal(self.0.1 as nat) + seq![' '] + decimal(
            self.0.2 as nat,
        ) + seq!['\n']
    }

    /// Writes the line of this color at the end of `out`.
    pub fn append_line(&self, out: &mut String)
        ensures
            final(out)@ == old(out)@ + self.line(),
    {
        proof {
            reveal_strlit(" ");
            reveal_strlit("\n");
            assert(" "@ =~= seq![' ']);
            assert("\n"@ =~= seq!['\n']);
        }
        append_decimal(out, self.0.0 as usize);
        out.append(" ");
        append_decimal(out, self.0.1 as usize);
        out.append(" ");
        append_decimal(out, self.0.2 as usize);
        out.append("\n");
        assert(out@ =~= old(out)@ + self.line());
    }
}

impl From<ColorU8> for String {
    /// The line that writes `color` in a plain-text image.
    fn from(color: ColorU8) -> (text: String)
        ensures
            text@ == color.line(),
    {
        let mut text = String::new();
        color.append_line(&mut text);
        text
    }
}

impl vstd::std_specs::convert::FromSpecImpl<ColorU8> for String {
    /// Specifications cannot build a `String`, so what the conversion gives
    /// is stated on its text, in the `ensures` of `from`, and not here.
    open spec fn obeys_from_spec() -> bool {
        false
    }

    open spec fn from_spec(color: ColorU8) -> String {
        arbitrary()
    }
}

} // verus!
