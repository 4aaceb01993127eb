//! Color derivation: a deterministic color for every tag string, a darkening
//! step for use as a widget fill, and the choice of a readable text color on
//! a given background.

use vstd::prelude::*;
use vstd::utf8::encode_utf8;
use rand::SeedableRng;
use rand::Rng;

verus! {

/// An RGB color with one byte per channel.
#[derive(Clone, Copy, PartialEq, Eq, Structural, Debug)]
pub struct Rgb {
    pub r: u8,
    pub g: u8,
    pub b: u8,
}

/// The darkening factor applied to raw colors before they are used as a
/// fill, in thousandths (800 stands for a factor of 0.8).
pub const GAMMA_MULT_PERMILLE: u32 = 800;

/// The luminance threshold above which a background counts as light,
/// on the same scale as `spec_luminance_milli` (120 scaled by 1000).
pub const LIGHT_THRESHOLD_MILLI: u32 = 120000;

/// Perceptual luminance `0.299 r + 0.587 g + 0.114 b`, scaled by 1000 so
/// that it stays an integer.
pub open spec fn spec_luminance_milli(c: Rgb) -> int {
    299 * c.r + 587 * c.g + 114 * c.b
}

/// A background is light exactly when its luminance exceeds the threshold.
pub open spec fn spec_is_light(c: Rgb) -> bool {
    spec_luminance_milli(c) > LIGHT_THRESHOLD_MILLI
}

/// The near-black text color used on light backgrounds.
pub open spec fn spec_dark_text() -> Rgb {
    Rgb { r: 40, g: 40, b: 40 }
}

/// The near-white text color used on dark backgrounds.
pub open spec fn spec_light_text() -> Rgb {
    Rgb { r: 230, g: 230, b: 230 }
}

pub open spec fn spec_readable_text(c: Rgb) -> Rgb {
    if spec_is_light(c) {
        spec_dark_text()
    } else {
        spec_light_text()
    }
}

/// Picks a text color that is readable on the given background: near-black
/// on light backgrounds, near-white on dark ones. The choice depends on the
/// background only through its luminance, with a single fixed threshold.
pub fn readable_text(color: &Rgb) -> (t: Rgb)
    ensures
        t == spec_readable_text(*color),
        t == spec_dark_text() || t == spec_light_text(),
{
    let lum: u32 = 299 * (color.r as u32) + 587 * (color.g as u32) + 114 * (color.b as u32);
    if lum > LIGHT_THRESHOLD_MILLI {
        Rgb { r: 40, g: 40, b: 40 }
    } else {
        Rgb { r: 230, g: 230, b: 230 }
    }
}

/// The choice made by `readable_text` is monotonic in luminance: once a
/// background is bright enough to get dark text, every brighter background
/// gets dark text as well.
pub proof fn lemma_readable_text_monotone(c1: Rgb, c2: Rgb)
    requires
        spec_luminance_milli(c1) <= spec_luminance_milli(c2),
    ensures
        spec_readable_text(c1) == spec_dark_text() ==> spec_readable_text(c2) == spec_dark_text(),
        spec_readable_text(c2) == spec_light_text() ==> spec_readable_text(c1) == spec_light_text(),
{
}

pub open spec fn spec_gamma_channel(v: u8, f_permille: u32) -> u8 {
    ((v * f_permille) / 1000) as u8
}

/// Each channel multiplied by `f_permille / 1000`, rounding down.
pub open spec fn spec_gamma_multiply(c: Rgb, f_permille: u32) -> Rgb {
    Rgb {
        r: spec_gamma_channel(c.r, f_permille),
        g: spec_gamma_channel(c.g, f_permille),
        b: spec_gamma_channel(c.b, f_permille),
    }
}

fn gamma_channel(v: u8, f_permille: u32) -> (w: u8)
    requires
        f_permille <= 1000,
    ensures
        w == spec_gamma_channel(v, f_permille),
{
    proof {
        assert(v * f_permille <= 255000) by (nonlinear_arith)
            requires
                v <= 255,
                f_permille <= 1000,
        ;
    }
    ((v as u32 * f_permille) / 1000) as u8
}

/// Darkens a color by scaling every channel by a factor given in
/// thousandths; `f_permille` at most 1000 keeps every channel in range.
pub fn gamma_multiply(c: &Rgb, f_permille: u32) -> (d: Rgb)
    requires
        f_permille <= 1000,
    ensures
        d == spec_gamma_multiply(*c, f_permille),
{
    Rgb {
        r: gamma_channel(c.r, f_permille),
        g: gamma_channel(c.g, f_permille),
        b: gamma_channel(c.b, f_permille),
    }
}

/// The seed drawn from a tag: the sum of the tag's UTF-8 byte values,
/// wrapping at 64 bits.
pub open spec fn spec_tag_seed(bytes: Seq<u8>) -> u64
    decreases bytes.len(),
{
    if bytes.len() == 0 {
        0u64
    } else {
        ((spec_tag_seed(bytes.drop_last()) + bytes.last()) % 0x1_0000_0000_0000_0000) as u64
    }
}

/// The color that the fixed four-stop gradient yields for a seed. The
/// gradient and the generator that picks the sample position are both
/// deterministic, so the sample is a function of the seed alone.
pub uninterp spec fn spec_palette_rgb(seed: u64) -> (u8, u8, u8);

/// Relies on `rand_chacha::ChaCha20Rng::seed_from_u64` and `rand::Rng::gen`
/// for the sample position, and on `colorgrad`'s four-stop gradient (gold,
/// hotpink, darkturquoise, seagreen) for the color at that position. Both
/// are deterministic in `seed`, so the result is a function of the seed
/// alone; the floating-point sample position never leaves this function.
#[verifier::external_body]
fn palette_rgb(seed: u64) -> (c: (u8, u8, u8))
    ensures
        c == spec_palette_rgb(seed),
{
    let mut rng = rand_chacha::ChaCha20Rng::seed_from_u64(seed);
    let g = colorgrad::CustomGradient::new()
        .html_colors(&["gold", "hotpink", "darkturquoise", "seagreen"])
        .build()
        .unwrap();
    let t = rng.gen();
    let rgba = g.at(t).to_rgba8();
    (rgba[0], rgba[1], rgba[2])
}

/// The color assigned to a tag: a function of the tag's characters alone.
pub open spec fn spec_color_from_tag(tag: Seq<char>) -> Rgb {
    let c = spec_palette_rgb(spec_tag_seed(encode_utf8(tag)));
    Rgb { r: c.0, g: c.1, b: c.2 }
}

/// Derives a color from a tag string: the tag's UTF-8 byte values are
/// summed into a seed, and the seed picks a position on a fixed gradient.
/// The result is pinned to a function of the tag's characters, so repeated
/// calls with the same tag always yield the same color.
pub fn color_from_tag(tag: &str) -> (c: Rgb)
    ensures
        c == spec_color_from_tag(tag@),
{
    let bytes = tag.as_bytes();
    let mut seed: u64 = 0;
    let mut i: usize = 0;
    while i < bytes.len()
        invariant
            i <= bytes.len(),
            bytes@ == encode_utf8(tag@),
            seed == spec_tag_seed(bytes@.take(i as int)),
        decreases bytes.len() - i,
    {
        proof {
            assert(bytes@.take(i + 1).drop_last() =~= bytes@.take(i as int));
            assert(bytes@.take(i + 1).last() == bytes@[i as int]);
        }
        seed = seed.wrapping_add(bytes[i] as u64);
        i = i + 1;
    }
    proof {
        assert(bytes@.take(bytes@.len() as int) =~= bytes@);
    }
    let p = palette_rgb(seed);
    Rgb { r: p.0, g: p.1, b: p.2 }
}

} // verus!
