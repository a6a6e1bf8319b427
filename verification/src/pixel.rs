//! The pixel type and the two measures the filter takes of it.

use vstd::prelude::*;

verus! {

/// The largest value of `brightness` and of `distance`: four channels of 255.
pub const MAX_CHANNEL_SUM: i32 = 1020;

/// One RGBA pixel, a byte per channel.
#[derive(Clone, Copy, Debug, PartialEq, Eq, Structural)]
pub struct Pixel {
    pub r: u8,
    pub g: u8,
    pub b: u8,
    pub a: u8,
}

/// The absolute difference of two channel values.
pub open spec fn channel_gap(x: u8, y: u8) -> int {
    if x >= y {
        x - y
    } else {
        y - x
    }
}

/// The key pixels are ordered by: the sum of the four channels, alpha included.
pub open spec fn brightness(p: Pixel) -> int {
    p.r + p.g + p.b + p.a
}

/// How far apart two pixels are: the sum of the absolute channel differences.
pub open spec fn distance(p: Pixel, q: Pixel) -> int {
    channel_gap(p.r, q.r) + channel_gap(p.g, q.g) + channel_gap(p.b, q.b) + channel_gap(p.a, q.a)
}

fn gap(x: u8, y: u8) -> (d: i32)
    ensures
        d == channel_gap(x, y),
        0 <= d <= 255,
{
    let wide_x: i32 = x as i32;
    let wide_y: i32 = y as i32;
    if wide_x >= wide_y {
        wide_x - wide_y
    } else {
        wide_y - wide_x
    }
}

impl Pixel {
    /// The brightness of this pixel, in a signed type wide enough for the sum.
    pub fn brightness(&self) -> (k: i32)
        ensures
            k == brightness(*self),
            0 <= k <= MAX_CHANNEL_SUM,
    {
        self.r as i32 + self.g as i32 + self.b as i32 + self.a as i32
    }

    /// The distance between this pixel and `other`.
    pub fn distance(&self, other: &Pixel) -> (d: i32)
        ensures
            d == distance(*self, *other),
            0 <= d <= MAX_CHANNEL_SUM,
    {
        gap(self.r, other.r) + gap(self.g, other.g) + gap(self.b, other.b) + gap(self.a, other.a)
    }
}

} // verus!
