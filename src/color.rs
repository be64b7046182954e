//! Colors with one byte per channel, and their packed 24-bit form.
use vstd::prelude::*;
use crate::fixed::{clamp, floor_div, HALF, ONE};

verus! {

/// An RGB color with one byte per channel.
#[derive(Clone, Copy, Debug, PartialEq, Eq, Structural)]
pub struct Color {
    pub r: u8,
    pub g: u8,
    pub b: u8,
}

/// The packed form of a color: red in bits 16..24, green in 8..16, blue in 0..8.
pub open spec fn packed(c: Color) -> int {
    c.r * 65536 + c.g * 256 + c.b
}

/// A channel scaled by the fixed-point factor `f`, rounded, then clamped to a byte.
pub open spec fn scaled_channel(c: int, f: int) -> int {
    clamp((c * f + HALF) / (ONE as int), 0, 255)
}

/// A channel given as a fixed-point intensity in `[0, 1]` (clamped), mapped to a byte.
pub open spec fn unit_channel(v: int) -> int {
    (clamp(v, 0, ONE as int) * 255 + HALF) / (ONE as int)
}

/// One channel of the blend from `a` towards `b` at the fixed-point parameter `t`,
/// where `t` is first clamped into `[0, 1]`.
pub open spec fn lerp_channel(a: int, b: int, t: int) -> int {
    let tc = clamp(t, 0, ONE as int);
    (a * (ONE - tc) + b * tc + HALF) / (ONE as int)
}

/// The blend of two colors at the fixed-point parameter `t`, channel by channel.
pub open spec fn lerp_spec(a: Color, b: Color, t: int) -> Color {
    Color {
        r: lerp_channel(a.r as int, b.r as int, t) as u8,
        g: lerp_channel(a.g as int, b.g as int, t) as u8,
        b: lerp_channel(a.b as int, b.b as int, t) as u8,
    }
}

proof fn lemma_lerp_channel_bounds(a: int, b: int, t: int)
    requires
        0 <= a <= 255,
        0 <= b <= 255,
    ensures
        0 <= lerp_channel(a, b, t) <= 255,
        t <= 0 ==> lerp_channel(a, b, t) == a,
        t >= ONE ==> lerp_channel(a, b, t) == b,
{
    let tc = clamp(t, 0, ONE as int);
    let n = a * (ONE - tc) + b * tc + HALF;
    assert(0 <= a * (ONE - tc) <= 255 * (ONE - tc)) by (nonlinear_arith)
        requires
            0 <= a <= 255,
            0 <= tc <= ONE,
    ;
    assert(0 <= b * tc <= 255 * tc) by (nonlinear_arith)
        requires
            0 <= b <= 255,
            0 <= tc <= ONE,
    ;
    assert(0 <= n < 256 * ONE);
    assert(0 <= n / (ONE as int) < 256) by (nonlinear_arith)
        requires
            0 <= n < 256 * ONE,
    ;
    if tc == 0 {
        assert(n == a * ONE + HALF);
        vstd::arithmetic::div_mod::lemma_fundamental_div_mod_converse(n, ONE as int, a, HALF as int);
    }
    if tc == ONE {
        assert(n == b * ONE + HALF);
        vstd::arithmetic::div_mod::lemma_fundamental_div_mod_converse(n, ONE as int, b, HALF as int);
    }
}

/// A channel from `0..=255`, as a byte.
fn to_byte(v: i128) -> (r: u8)
    requires
        0 <= v <= 255,
    ensures
        r == v,
{
    v as u8
}

fn lerp_channel_exec(a: u8, b: u8, t: i64) -> (r: u8)
    ensures
        r == lerp_channel(a as int, b as int, t as int),
{
    let tc: i64 = if t < 0 {
        0
    } else if t > ONE {
        ONE
    } else {
        t
    };
    proof {
        lemma_lerp_channel_bounds(a as int, b as int, t as int);
        assert(0 <= a * (ONE - tc) <= 255 * ONE) by (nonlinear_arith)
            requires
                0 <= a <= 255,
                0 <= tc <= ONE,
        ;
        assert(0 <= b * tc <= 255 * ONE) by (nonlinear_arith)
            requires
                0 <= b <= 255,
                0 <= tc <= ONE,
        ;
    }
    let n: i128 = (a as i128) * ((ONE - tc) as i128) + (b as i128) * (tc as i128) + HALF as i128;
    to_byte(n / (ONE as i128))
}

/// The blend of `a` towards `b` at the fixed-point parameter `t`
/// (`0` gives `a`, `ONE` gives `b`), with `t` clamped into `[0, ONE]`
/// and each channel rounded to the nearest byte.
pub fn lerp_color(a: Color, b: Color, t: i64) -> (c: Color)
    ensures
        c == lerp_spec(a, b, t as int),
        t <= 0 ==> c == a,
        t >= ONE ==> c == b,
{
    proof {
        lemma_lerp_channel_bounds(a.r as int, b.r as int, t as int);
        lemma_lerp_channel_bounds(a.g as int, b.g as int, t as int);
        lemma_lerp_channel_bounds(a.b as int, b.b as int, t as int);
    }
    Color {
        r: lerp_channel_exec(a.r, b.r, t),
        g: lerp_channel_exec(a.g, b.g, t),
        b: lerp_channel_exec(a.b, b.b, t),
    }
}

fn scale_channel(c: u8, f: i64) -> (r: u8)
    ensures
        r == scaled_channel(c as int, f as int),
{
    proof {
        assert(-255 * 0x8000_0000_0000_0000 <= c * f <= 255 * 0x8000_0000_0000_0000)
            by (nonlinear_arith)
            requires
                0 <= c <= 255,
                -0x8000_0000_0000_0000 <= f < 0x8000_0000_0000_0000,
        ;
    }
    let q = floor_div((c as i128) * (f as i128) + HALF as i128, ONE as i128);
    if q < 0 {
        0
    } else if q > 255 {
        255
    } else {
        to_byte(q)
    }
}

/// A byte channel from a fixed-point intensity.
fn unit_to_byte(v: i64) -> (r: u8)
    ensures
        r == unit_channel(v as int),
{
    let vc: i64 = if v < 0 {
        0
    } else if v > ONE {
        ONE
    } else {
        v
    };
    let n: i64 = vc * 255 + HALF;
    proof {
        assert(0 <= n / ONE <= 255) by (nonlinear_arith)
            requires
                0 <= n <= 255 * ONE + HALF,
        ;
    }
    to_byte((n / ONE) as i128)
}

impl Color {
    pub fn new(r: u8, g: u8, b: u8) -> (c: Color)
        ensures
            c.r == r && c.g == g && c.b == b,
    {
        Color { r, g, b }
    }

    /// A color from fixed-point intensities: each is clamped into `[0, ONE]`
    /// and mapped linearly onto `0..=255`, rounded to the nearest byte.
    pub fn from_unit(r: i64, g: i64, b: i64) -> (c: Color)
        ensures
            c.r == unit_channel(r as int),
            c.g == unit_channel(g as int),
            c.b == unit_channel(b as int),
    {
        Color { r: unit_to_byte(r), g: unit_to_byte(g), b: unit_to_byte(b) }
    }

    /// The color packed into one integer, `0xRRGGBB`.
    pub fn to_hex(&self) -> (h: u32)
        ensures
            h == packed(*self),
    {
        (self.r as u32) * 65536 + (self.g as u32) * 256 + (self.b as u32)
    }

    /// Every channel multiplied by the fixed-point factor `f`, rounded to the
    /// nearest integer and clamped into `0..=255`.
    pub fn scale(&self, f: i64) -> (c: Color)
        ensures
            c.r == scaled_channel(self.r as int, f as int),
            c.g == scaled_channel(self.g as int, f as int),
            c.b == scaled_channel(self.b as int, f as int),
    {
        Color { r: scale_channel(self.r, f), g: scale_channel(self.g, f), b: scale_channel(self.b, f) }
    }
}

} // verus!
