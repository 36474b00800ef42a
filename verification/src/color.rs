//! Plain RGB colors and the color stops of a linear gradient. Sampling
//! and blending are display concerns of the terminal front end; the
//! library only carries the color data.

use vstd::prelude::*;

verus! {

/// An RGB color.
#[derive(Clone, Copy, PartialEq, Eq, Structural, Debug)]
pub struct Color {
    pub r: u8,
    pub g: u8,
    pub b: u8,
}

impl Color {
    pub fn new(r: u8, g: u8, b: u8) -> (c: Color)
        ensures
            c.r == r,
            c.g == g,
            c.b == b,
    {
        Color { r, g, b }
    }
}

/// The ordered color stops of a linear gradient.
#[derive(Debug)]
pub struct LinearGradient {
    pub colors: Vec<Color>,
}

impl LinearGradient {
    pub fn new(colors: Vec<Color>) -> (g: LinearGradient)
        ensures
            g.colors@ == colors@,
    {
        LinearGradient { colors }
    }

    /// Red, yellow, green, cyan, blue.
    pub fn rainbow() -> (g: LinearGradient)
        ensures
            g.colors@.len() == 5,
            g.colors@[0] == (Color { r: 0xFF, g: 0x00, b: 0x00 }),
            g.colors@[1] == (Color { r: 0xFF, g: 0xFF, b: 0x00 }),
            g.colors@[2] == (Color { r: 0x00, g: 0xFF, b: 0x00 }),
            g.colors@[3] == (Color { r: 0x00, g: 0xFF, b: 0xFF }),
            g.colors@[4] == (Color { r: 0x00, g: 0x00, b: 0xFF }),
    {
        let mut colors: Vec<Color> = Vec::with_capacity(5);
        colors.push(Color::new(0xFF, 0x00, 0x00));
        colors.push(Color::new(0xFF, 0xFF, 0x00));
        colors.push(Color::new(0x00, 0xFF, 0x00));
        colors.push(Color::new(0x00, 0xFF, 0xFF));
        colors.push(Color::new(0x00, 0x00, 0xFF));
        LinearGradient { colors }
    }
}

} // verus!
