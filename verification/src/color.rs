use vstd::prelude::*;

verus! {

/// An RGBA color: four 8-bit channels, alpha last.
#[derive(Clone, Copy, PartialEq, Eq, Structural, Debug)]
pub struct Rgba {
    pub r: u8,
    pub g: u8,
    pub b: u8,
    pub a: u8,
}

impl Rgba {
    /// A fully opaque color with the given red, green and blue channels.
    pub fn opaque(r: u8, g: u8, b: u8) -> (c: Rgba)
        ensures
            c == (Rgba { r, g, b, a: 255u8 }),
    {
        Rgba { r, g, b, a: 255u8 }
    }
}

pub open spec fn abs_diff(a: int, b: int) -> int {
    if a >= b {
        a - b
    } else {
        b - a
    }
}

/// Manhattan distance between two colors: the sum of the absolute
/// differences of their four channels.
pub open spec fn color_distance(p: Rgba, q: Rgba) -> int {
    abs_diff(p.r as int, q.r as int) + abs_diff(p.g as int, q.g as int)
        + abs_diff(p.b as int, q.b as int) + abs_diff(p.a as int, q.a as int)
}

pub proof fn lemma_color_distance_bounds(p: Rgba, q: Rgba)
    ensures
        0 <= color_distance(p, q) <= 1020,
{
}

/// Computes the Manhattan channel distance between two colors.
pub fn distance(p: Rgba, q: Rgba) -> (d: u16)
    ensures
        d == color_distance(p, q),
{
    let dr: u16 = if p.r >= q.r { (p.r - q.r) as u16 } else { (q.r - p.r) as u16 };
    let dg: u16 = if p.g >= q.g { (p.g - q.g) as u16 } else { (q.g - p.g) as u16 };
    let db: u16 = if p.b >= q.b { (p.b - q.b) as u16 } else { (q.b - p.b) as u16 };
    let da: u16 = if p.a >= q.a { (p.a - q.a) as u16 } else { (q.a - p.a) as u16 };
    dr + dg + db + da
}

} // verus!
