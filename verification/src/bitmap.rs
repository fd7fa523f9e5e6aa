//! The bitmap extractor: thresholding decoded color samples into a boolean
//! occupancy grid.

use vstd::prelude::*;
use image::Pixel;

verus! {

/// One decoded color sample: red, green, blue and alpha channel bytes,
/// as the image-decoding collaborator hands them over.
#[derive(Clone, Copy, PartialEq, Eq, Structural, Debug)]
pub struct ColorSample {
    pub r: u8,
    pub g: u8,
    pub b: u8,
    pub a: u8,
}

/// The luma (brightness) of a color sample: the fixed-point sRGB luminance
/// conversion that the image library applies, with coefficients scaled by
/// ten thousand. The alpha channel plays no part.
pub open spec fn luma_spec(r: u8, g: u8, b: u8) -> int {
    (2126 * r + 7152 * g + 722 * b) / 10000
}

/// Relies on image's `Pixel::to_luma` for `Rgba<u8>`: the luma byte is
/// `(2126*r + 7152*g + 722*b) / 10000` (`rgb_to_luma` over a `u32`
/// intermediate, which cannot exceed 255 for byte channels), and the alpha
/// channel is ignored.
#[verifier::external_body]
fn rgba_luma(r: u8, g: u8, b: u8, a: u8) -> (l: u8)
    ensures
        l == luma_spec(r, g, b),
{
    image::Rgba([r, g, b, a]).to_luma().0[0]
}

/// A pixel belongs to the shape interior exactly when its luma exceeds the
/// fixed near-white cutoff of 250.
pub open spec fn on_spec(luma: u8) -> bool {
    luma > 250
}

/// Whether a luma value counts as "on" (shape interior).
pub fn is_on(luma: u8) -> (on: bool)
    ensures
        on == on_spec(luma),
{
    luma > 250
}

/// The occupancy state of one color sample.
pub open spec fn sample_on(p: ColorSample) -> bool {
    luma_spec(p.r, p.g, p.b) > 250
}

/// The occupancy bitmap of a row-major pixel sequence: one boolean per
/// pixel, in the same order.
pub open spec fn bitmap_of(pixels: Seq<ColorSample>) -> Seq<bool> {
    Seq::new(pixels.len(), |i: int| sample_on(pixels[i]))
}

/// Converts decoded color samples into the occupancy bitmap: one entry per
/// pixel, in the given row-major order, true exactly where the pixel's luma
/// exceeds the near-white cutoff.
pub fn generate_bitmap(pixels: &Vec<ColorSample>) -> (bm: Vec<bool>)
    ensures
        bm@ == bitmap_of(pixels@),
{
    let mut bm: Vec<bool> = Vec::new();
    let mut i: usize = 0;
    while i < pixels.len()
        invariant
            i <= pixels@.len(),
            bm@.len() == i,
            forall|j: int| 0 <= j < i ==> bm@[j] == sample_on(pixels@[j]),
        decreases pixels@.len() - i,
    {
        let p = pixels[i];
        let luma = rgba_luma(p.r, p.g, p.b, p.a);
        bm.push(is_on(luma));
        i = i + 1;
    }
    proof {
        assert(bm@ =~= bitmap_of(pixels@));
    }
    bm
}

} // verus!
