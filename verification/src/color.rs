//! Four-channel colours and the squared Euclidean distance between them.

use vstd::prelude::*;

verus! {

/// A colour: red, green, blue and alpha, one byte each.
#[derive(Clone, Copy, Debug, PartialEq, Eq, Hash, Structural)]
pub struct Color {
    pub r: u8,
    pub g: u8,
    pub b: u8,
    pub a: u8,
}

/// The square of the difference of two channel values.
pub open spec fn channel_gap_squared(p: u8, q: u8) -> int {
    (p - q) * (p - q)
}

impl Color {
    /// The colour with the given channels.
    pub fn new(r: u8, g: u8, b: u8, a: u8) -> (c: Color)
        ensures
            c == (Color { r, g, b, a }),
    {
        Color { r, g, b, a }
    }

    /// Opaque white, for use in specifications.
    pub open spec fn blank() -> Color {
        Color { r: 255, g: 255, b: 255, a: 255 }
    }

    /// Opaque white: the colour of a fresh canvas.
    pub fn white() -> (c: Color)
        ensures
            c == Color::blank(),
    {
        Color { r: 255, g: 255, b: 255, a: 255 }
    }

    /// The channels in the order red, green, blue, alpha.
    pub open spec fn channels(self) -> Seq<u8> {
        seq![self.r, self.g, self.b, self.a]
    }

    /// The square of the Euclidean distance between two colours, taken over
    /// all four channels.
    pub open spec fn distance_squared(self, other: Color) -> int {
        channel_gap_squared(self.r, other.r) + channel_gap_squared(self.g, other.g)
            + channel_gap_squared(self.b, other.b) + channel_gap_squared(self.a, other.a)
    }

    /// The square of the Euclidean distance to `another`. The distance
    /// itself is the square root of this number.
    pub fn dist_squared(&self, another: &Color) -> (d: u32)
        ensures
            d == self.distance_squared(*another),
            d <= 4 * 255 * 255,
    {
        gap_squared(self.r, another.r) + gap_squared(self.g, another.g) + gap_squared(
            self.b,
            another.b,
        ) + gap_squared(self.a, another.a)
    }
}

fn gap_squared(p: u8, q: u8) -> (d: u32)
    ensures
        d == channel_gap_squared(p, q),
        d <= 255 * 255,
{
    let gap: u32 = if p >= q { (p - q) as u32 } else { (q - p) as u32 };
    assert(gap * gap <= 255 * 255) by (nonlinear_arith)
        requires
            gap <= 255,
    ;
    assert(gap * gap == (p - q) * (p - q)) by (nonlinear_arith)
        requires
            gap == p - q || gap == q - p,
    ;
    gap * gap
}

/// The distance between two colours is zero exactly when they are the same
/// colour, and it does not depend on the order of the two.
pub proof fn lemma_distance_squared(c: Color, d: Color)
    ensures
        c.distance_squared(d) >= 0,
        c.distance_squared(d) == 0 <==> c == d,
        c.distance_squared(d) == d.distance_squared(c),
{
    lemma_gap(c.r, d.r);
    lemma_gap(c.g, d.g);
    lemma_gap(c.b, d.b);
    lemma_gap(c.a, d.a);
}

proof fn lemma_gap(p: u8, q: u8)
    ensures
        channel_gap_squared(p, q) >= 0,
        channel_gap_squared(p, q) == 0 <==> p == q,
        channel_gap_squared(p, q) == channel_gap_squared(q, p),
{
    let e: int = p - q;
    assert(e * e >= 0) by (nonlinear_arith);
    assert(e * e == 0 <==> e == 0) by (nonlinear_arith);
    assert(e * e == (-e) * (-e)) by (nonlinear_arith);
}

} // verus!
