//! Grayscale conversion of located pixels: the computation of the parallel
//! image kernel. One pool job converts one chunk of pixels; each result
//! keeps its coordinates, so the gathering thread can write it back to the
//! right position whatever order the chunks complete in. The per-pixel
//! color conversion is the image crate's; the loop around it is verified.

use image::Pixel;
use vstd::prelude::*;

verus! {

/// The integer luma of an sRGB pixel as the image crate computes it for
/// 8-bit channels: the BT.709 channel weights over 10000. The weights sum
/// to 10000, so the result always fits a channel.
pub open spec fn luma_of(r: u8, g: u8, b: u8) -> int {
    (2126 * (r as int) + 7152 * (g as int) + 722 * (b as int)) / 10000
}

/// Relies on image::Rgba::to_luma_alpha and image::LumaA::to_rgba: an
/// 8-bit sRGB pixel becomes the gray pixel whose three color channels hold
/// the integer luma and whose alpha channel is kept.
#[verifier::external_body]
fn gray_pixel(r: u8, g: u8, b: u8, a: u8) -> (p: (u8, u8, u8, u8))
    ensures
        p.0 == luma_of(r, g, b),
        p.1 == luma_of(r, g, b),
        p.2 == luma_of(r, g, b),
        p.3 == a,
{
    let gray = image::Rgba([r, g, b, a]).to_luma_alpha().to_rgba();
    (gray.0[0], gray.0[1], gray.0[2], gray.0[3])
}

/// Convert one chunk of located pixels to grayscale.
///
/// Every pixel keeps its coordinates; its three color channels are replaced
/// by the luma of the original channels and its alpha channel is kept.
pub fn grayscale_pixels(chunk: Vec<(u32, u32, (u8, u8, u8, u8))>) -> (out: Vec<
    (u32, u32, (u8, u8, u8, u8)),
>)
    ensures
        out@.len() == chunk@.len(),
        forall|i: int|
            0 <= i < chunk@.len() ==> {
                &&& (#[trigger] out@[i]).0 == chunk@[i].0
                &&& out@[i].1 == chunk@[i].1
                &&& out@[i].2.0 == luma_of(chunk@[i].2.0, chunk@[i].2.1, chunk@[i].2.2)
                &&& out@[i].2.1 == luma_of(chunk@[i].2.0, chunk@[i].2.1, chunk@[i].2.2)
                &&& out@[i].2.2 == luma_of(chunk@[i].2.0, chunk@[i].2.1, chunk@[i].2.2)
                &&& out@[i].2.3 == chunk@[i].2.3
            },
{
    let mut out: Vec<(u32, u32, (u8, u8, u8, u8))> = Vec::new();
    let mut i: usize = 0;
    while i < chunk.len()
        invariant
            i <= chunk@.len(),
            out@.len() == i,
            forall|j: int|
                0 <= j < i ==> {
                    &&& (#[trigger] out@[j]).0 == chunk@[j].0
                    &&& out@[j].1 == chunk@[j].1
                    &&& out@[j].2.0 == luma_of(chunk@[j].2.0, chunk@[j].2.1, chunk@[j].2.2)
                    &&& out@[j].2.1 == luma_of(chunk@[j].2.0, chunk@[j].2.1, chunk@[j].2.2)
                    &&& out@[j].2.2 == luma_of(chunk@[j].2.0, chunk@[j].2.1, chunk@[j].2.2)
                    &&& out@[j].2.3 == chunk@[j].2.3
                },
        decreases chunk@.len() - i,
    {
        let (x, y, p) = chunk[i];
        let g = gray_pixel(p.0, p.1, p.2, p.3);
        out.push((x, y, g));
        i = i + 1;
    }
    out
}

} // verus!
