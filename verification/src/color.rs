//! Colors and palettes: 8-bit RGB triples, linear interpolation between
//! anchor colors, and the stretched palette used as a cyclic lookup table
//! for iteration counts.

use vstd::prelude::*;
use vstd::arithmetic::div_mod::{
    lemma_basic_div, lemma_div_pos_is_pos, lemma_fundamental_div_mod_converse,
    lemma_multiply_divide_lt,
};

verus! {

/// A color: an ordered triple of 8-bit channel values (red, green, blue).
#[derive(Clone, Copy, Debug, PartialEq, Eq, Structural)]
pub struct Rgb(pub u8, pub u8, pub u8);

/// One interpolated channel: the linear blend of channel values `a` and `b`
/// at fraction `num / den`, rounded to the nearest integer with halves
/// rounded up.  All values are non-negative, so rounding half up and
/// rounding half away from zero agree.
pub open spec fn chan_lerp(a: int, b: int, num: int, den: int) -> int {
    (2 * (a * (den - num) + b * num) + den) / (2 * den)
}

/// The blend of two colors at fraction `num / den`, channel by channel.
pub open spec fn lerp_spec(a: Rgb, b: Rgb, num: int, den: int) -> Rgb {
    Rgb(
        chan_lerp(a.0 as int, b.0 as int, num, den) as u8,
        chan_lerp(a.1 as int, b.1 as int, num, den) as u8,
        chan_lerp(a.2 as int, b.2 as int, num, den) as u8,
    )
}

/// An interpolated channel of 8-bit values stays an 8-bit value.
pub proof fn lemma_chan_lerp_range(a: int, b: int, num: int, den: int)
    requires
        0 <= a <= 255,
        0 <= b <= 255,
        0 < den,
        0 <= num <= den,
    ensures
        0 <= chan_lerp(a, b, num, den) <= 255,
{
    assert(0 <= a * (den - num) + b * num <= 255 * den) by (nonlinear_arith)
        requires
            0 <= a <= 255,
            0 <= b <= 255,
            0 < den,
            0 <= num <= den,
    ;
    let x = a * (den - num) + b * num;
    assert(2 * x + den < (2 * den) * 256);
    lemma_div_pos_is_pos(2 * x + den, 2 * den);
    lemma_multiply_divide_lt(2 * x + den, 2 * den, 256);
}

/// Blending at fraction zero returns the first channel unchanged.
pub proof fn lemma_chan_lerp_zero(a: int, b: int, den: int)
    requires
        0 <= a,
        0 < den,
    ensures
        chan_lerp(a, b, 0, den) == a,
{
    assert(2 * (a * (den - 0) + b * 0) + den == a * (2 * den) + den) by (nonlinear_arith);
    lemma_fundamental_div_mod_converse(a * (2 * den) + den, 2 * den, a, den);
}

impl Rgb {
    /// A color from its three channel values.
    pub fn new(red: u8, green: u8, blue: u8) -> (c: Self)
        ensures
            c == Rgb(red, green, blue),
    {
        Self(red, green, blue)
    }

    /// Per-channel linear blend between `a` and `b` at fraction
    /// `num / den` of the way from `a` to `b`, each channel rounded to the
    /// nearest 8-bit value with halves rounded up.
    pub fn lerp(a: Rgb, b: Rgb, num: u32, den: u32) -> (c: Rgb)
        requires
            1 <= den,
            num <= den,
        ensures
            c == lerp_spec(a, b, num as int, den as int),
    {
        Rgb(
            lerp_chan(a.0, b.0, num, den),
            lerp_chan(a.1, b.1, num, den),
            lerp_chan(a.2, b.2, num, den),
        )
    }

    /// The packed 32-bit word of this color, laid out as `0x00RRGGBB`.
    pub fn packed(self) -> (w: u32)
        ensures
            w as int == pack_spec(self),
    {
        (self.0 as u32) * 65536 + (self.1 as u32) * 256 + (self.2 as u32)
    }
}

/// The packed 32-bit word of a color: blue in the low byte, then green,
/// then red, and a zero high byte (`0x00RRGGBB`).
pub open spec fn pack_spec(c: Rgb) -> int {
    (c.0 as int) * 65536 + (c.1 as int) * 256 + (c.2 as int)
}

/// One channel of the blend, carried out in 64-bit integers.
fn lerp_chan(a: u8, b: u8, num: u32, den: u32) -> (r: u8)
    requires
        1 <= den,
        num <= den,
    ensures
        r as int == chan_lerp(a as int, b as int, num as int, den as int),
{
    proof {
        lemma_chan_lerp_range(a as int, b as int, num as int, den as int);
        assert(0 <= (a as int) * (den as int - num as int) && 0 <= (b as int) * (num as int) && (
        a as int) * (den as int - num as int) + (b as int) * (num as int) <= 255 * (den as int))
            by (nonlinear_arith)
            requires
                0 <= a as int <= 255,
                0 <= b as int <= 255,
                0 <= num as int <= den as int,
        ;
    }
    let x: u64 = (a as u64) * ((den - num) as u64) + (b as u64) * (num as u64);
    let n: u64 = 2 * x + (den as u64);
    let d2: u64 = 2 * (den as u64);
    (n / d2) as u8
}

/// The stretched palette: `steps` entries for every anchor.  Entry `i`
/// blends anchor `i / steps` toward the cyclically next anchor at fraction
/// `(i % steps) / steps`.
pub open spec fn stretch_spec(steps: int, anchors: Seq<Rgb>) -> Seq<Rgb> {
    Seq::new(
        (anchors.len() * steps) as nat,
        |i: int|
            lerp_spec(
                anchors[i / steps],
                anchors[((i / steps) + 1) % (anchors.len() as int)],
                i % steps,
                steps,
            ),
    )
}

/// Expands the anchor colors into a palette `steps` times as long: between
/// every anchor and the cyclically next one, `steps` linearly interpolated
/// entries are laid out in order.  The result's length is exactly the
/// number of anchors times `steps`, and its first entry is the first
/// anchor unchanged.
pub fn stretch(steps: u32, palette: &Vec<Rgb>) -> (out: Vec<Rgb>)
    requires
        1 <= steps,
        1 <= palette@.len(),
        palette@.len() * steps <= usize::MAX,
    ensures
        out@ == stretch_spec(steps as int, palette@),
        out@.len() == palette@.len() * steps,
{
    let total: usize = palette.len() * (steps as usize);
    let mut out: Vec<Rgb> = Vec::new();
    let mut i: usize = 0;
    while i < total
        invariant
            i <= total,
            1 <= steps,
            1 <= palette@.len(),
            total == palette@.len() * steps,
            out@.len() == i,
            forall|k: int|
                0 <= k < i ==> #[trigger] out@[k] == stretch_spec(steps as int, palette@)[k],
        decreases total - i,
    {
        let idx: usize = i / (steps as usize);
        let frac: u32 = (i % (steps as usize)) as u32;
        proof {
            assert((steps as int) * (palette@.len() as int) == total as int) by (nonlinear_arith)
                requires
                    total == palette@.len() * steps,
            ;
            lemma_multiply_divide_lt(i as int, steps as int, palette@.len() as int);
        }
        let a: Rgb = palette[idx];
        let b: Rgb = palette[(idx + 1) % palette.len()];
        out.push(Rgb::lerp(a, b, frac, steps));
        i = i + 1;
    }
    proof {
        assert(out@ =~= stretch_spec(steps as int, palette@));
    }
    out
}

/// The first entry of a stretched palette is the first anchor unchanged:
/// at index zero the blend fraction is zero, and a blend at fraction zero
/// keeps every channel.
pub proof fn lemma_stretch_first(steps: int, anchors: Seq<Rgb>)
    requires
        1 <= steps,
        1 <= anchors.len(),
    ensures
        stretch_spec(steps, anchors)[0] == anchors[0],
{
    assert(1 <= anchors.len() * steps) by (nonlinear_arith)
        requires
            1 <= steps,
            1 <= anchors.len(),
    ;
    lemma_basic_div(0, steps);
    assert(0int % steps == 0);
    let first = anchors[0];
    let next = anchors[(0int + 1) % (anchors.len() as int)];
    lemma_chan_lerp_zero(first.0 as int, next.0 as int, steps);
    lemma_chan_lerp_zero(first.1 as int, next.1 as int, steps);
    lemma_chan_lerp_zero(first.2 as int, next.2 as int, steps);
}

/// The length of a stretched palette is the number of anchors times the
/// step count, for any positive step count.
pub proof fn lemma_stretch_len(steps: int, anchors: Seq<Rgb>)
    requires
        0 <= steps,
    ensures
        stretch_spec(steps, anchors).len() == anchors.len() * steps,
{
}

} // verus!
