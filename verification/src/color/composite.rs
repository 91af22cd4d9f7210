//! Source-over compositing done directly on the sRGB bytes, in exact
//! integer arithmetic.

use vstd::prelude::*;
use crate::color::model::Color;

verus! {

/// The alpha of the result as a fraction of 255 * 255: with both alphas
/// as fractions of 1 it is `sa + da * (1 - sa)`.
pub open spec fn over_weight(sa: int, da: int) -> int {
    255 * sa + da * (255 - sa)
}

/// The alpha byte of the result: the output alpha scaled to 0..255 and
/// rounded to the nearest integer, halves upward.
pub open spec fn over_alpha(sa: int, da: int) -> int {
    (2 * over_weight(sa, da) + 255) / 510
}

/// One colour byte of the result: `(sc * sa + dc * da * (1 - sa)) / a_out`
/// over fractions of 1, scaled to 0..255 and rounded to the nearest
/// integer, halves upward.
pub open spec fn over_channel(sc: int, dc: int, sa: int, da: int) -> int {
    let w = over_weight(sa, da);
    (2 * (255 * sc * sa + dc * da * (255 - sa)) + w) / (2 * w)
}

/// `src` laid over `dst`, blended on the sRGB bytes as they are. A source
/// of alpha 0 leaves the destination as it is.
pub open spec fn over_srgb_fast_spec(src: Color, dst: Color) -> Color {
    if src.a == 0 {
        dst
    } else {
        Color {
            r: over_channel(src.r as int, dst.r as int, src.a as int, dst.a as int) as u8,
            g: over_channel(src.g as int, dst.g as int, src.a as int, dst.a as int) as u8,
            b: over_channel(src.b as int, dst.b as int, src.a as int, dst.a as int) as u8,
            a: over_alpha(src.a as int, dst.a as int) as u8,
        }
    }
}

/// With a visible source the weight is positive, and weight, alpha and
/// every blended channel fit their types.
pub proof fn lemma_over_bounds(sc: int, dc: int, sa: int, da: int)
    requires
        0 <= sc <= 255,
        0 <= dc <= 255,
        0 < sa <= 255,
        0 <= da <= 255,
    ensures
        255 <= over_weight(sa, da) <= 65025,
        0 <= 255 * sc * sa + dc * da * (255 - sa) <= 255 * over_weight(sa, da),
        0 <= over_alpha(sa, da) <= 255,
        0 <= over_channel(sc, dc, sa, da) <= 255,
{
    let t = 255 - sa;
    let w = over_weight(sa, da);
    let n = 255 * sc * sa + dc * da * t;
    assert(0 <= da * t <= 255 * t) by (nonlinear_arith)
        requires
            0 <= da <= 255,
            0 <= t,
    ;
    assert(0 <= 255 * sc * sa <= 255 * (255 * sa)) by (nonlinear_arith)
        requires
            0 <= sc <= 255,
            0 < sa,
    ;
    assert(0 <= dc * da * t <= 255 * (da * t)) by (nonlinear_arith)
        requires
            0 <= dc <= 255,
            0 <= da,
            0 <= t,
    ;
    assert(0 <= n <= 255 * w);
    assert(0 <= (2 * n + w) / (2 * w) <= 255) by (nonlinear_arith)
        requires
            0 <= n <= 255 * w,
            w > 0,
    ;
}

/// An opaque source hides what lies under it.
pub proof fn lemma_over_opaque_source(src: Color, dst: Color)
    requires
        src.a == 255,
    ensures
        over_srgb_fast_spec(src, dst) == src,
{
    lemma_over_opaque_channel(src.r as int, dst.r as int, dst.a as int);
    lemma_over_opaque_channel(src.g as int, dst.g as int, dst.a as int);
    lemma_over_opaque_channel(src.b as int, dst.b as int, dst.a as int);
}

/// Under an opaque source each channel and the alpha are the source's.
proof fn lemma_over_opaque_channel(sc: int, dc: int, da: int)
    requires
        0 <= sc <= 255,
    ensures
        over_channel(sc, dc, 255, da) == sc,
        over_alpha(255, da) == 255,
{
    assert(da * (255 - 255) == 0);
    assert(dc * da * (255 - 255) == 0) by (nonlinear_arith);
    assert(over_weight(255, da) == 65025);
    assert(255 * sc * 255 == 65025 * sc);
    let n = 255 * sc * 255 + dc * da * (255 - 255);
    assert(n == 65025 * sc);
    assert((2 * n + 65025) / 130050int == sc);
}

/// Over a fully transparent destination a visible source stays as it is.
pub proof fn lemma_over_clear_destination(src: Color, dst: Color)
    requires
        src.a > 0,
        dst.a == 0,
    ensures
        over_srgb_fast_spec(src, dst) == src,
{
    lemma_over_clear_channel(src.r as int, dst.r as int, src.a as int);
    lemma_over_clear_channel(src.g as int, dst.g as int, src.a as int);
    lemma_over_clear_channel(src.b as int, dst.b as int, src.a as int);
}

/// Over a destination of alpha 0 each channel and the alpha are the
/// source's.
proof fn lemma_over_clear_channel(sc: int, dc: int, sa: int)
    requires
        0 <= sc <= 255,
        0 < sa <= 255,
    ensures
        over_channel(sc, dc, sa, 0) == sc,
        over_alpha(sa, 0) == sa,
{
    let w = 255 * sa;
    assert(0 * (255 - sa) == 0);
    assert(dc * 0 * (255 - sa) == 0) by (nonlinear_arith);
    assert(over_weight(sa, 0) == w);
    assert(255 * sc * sa == sc * w) by (nonlinear_arith)
        requires
            w == 255 * sa,
    ;
    assert((2 * (sc * w) + w) / (2 * w) == sc) by (nonlinear_arith)
        requires
            w > 0,
            sc >= 0,
    ;
}

/// One blended colour byte.
fn blend_byte(sc: u8, dc: u8, sa: u8, da: u8) -> (out: u8)
    requires
        sa > 0,
    ensures
        out == over_channel(sc as int, dc as int, sa as int, da as int),
{
    proof {
        lemma_over_bounds(sc as int, dc as int, sa as int, da as int);
    }
    let t: u32 = 255 - sa as u32;
    let back: u32 = da as u32 * t;
    assert(back <= 255 * 255) by (nonlinear_arith)
        requires
            back == da as u32 * t,
            t <= 255,
            da <= 255,
    ;
    let w: u32 = 255 * sa as u32 + back;
    let front: u32 = 255 * sc as u32 * sa as u32;
    assert(dc as u32 * back <= 255 * 65025) by (nonlinear_arith)
        requires
            back <= 65025,
            dc <= 255,
    ;
    assert(dc as int * da as int * (255 - sa as int) == dc as int * (da as int * (255
        - sa as int))) by (nonlinear_arith);
    let n: u32 = front + dc as u32 * back;
    ((2 * n + w) / (2 * w)) as u8
}

impl Color {
    /// Lays `self` over `dst` by Porter and Duff's "over", blending the
    /// sRGB bytes as they are instead of linear light.
    ///
    /// With alphas `sa`, `da` and channels `sc`, `dc` taken as fractions of
    /// 1, the result has alpha `sa + da * (1 - sa)` and channels
    /// `(sc * sa + dc * da * (1 - sa))` over that alpha, each rounded to
    /// the nearest byte, halves upward. The arithmetic is exact. A source
    /// of alpha 0 returns `dst`.
    #[must_use]
    pub fn over_srgb_fast(self, dst: Color) -> (out: Color)
        ensures
            out == over_srgb_fast_spec(self, dst),
    {
        if self.a == 0 {
            return dst;
        }
        proof {
            lemma_over_bounds(0, 0, self.a as int, dst.a as int);
        }
        let w: u32 = 255 * self.a as u32 + dst.a as u32 * (255 - self.a as u32);
        Color {
            r: blend_byte(self.r, dst.r, self.a, dst.a),
            g: blend_byte(self.g, dst.g, self.a, dst.a),
            b: blend_byte(self.b, dst.b, self.a, dst.a),
            a: ((2 * w + 255) / 510) as u8,
        }
    }
}

} // verus!
