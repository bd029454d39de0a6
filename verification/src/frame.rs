//! Raw RGB frames: three bytes per pixel, row after row.

use vstd::prelude::*;
use crate::color::Rgb8;

verus! {

/// The number of bytes is not the one that the frame's size asks for.
#[derive(Debug, Clone, Copy, PartialEq, Eq, Structural)]
pub struct SizeMismatch {
    /// The number of bytes that were given.
    pub got: usize,
    /// The number of bytes of a frame of the given width and height.
    pub expected: u64,
}

/// The number of bytes of a frame: three for each pixel.
pub open spec fn frame_len(width: u32, height: u32) -> int {
    width as int * height as int * 3
}

/// The pixels of a frame: pixel `i` is made of the bytes `3 i`, `3 i + 1` and
/// `3 i + 2`.
pub open spec fn pixels_of(bytes: Seq<u8>) -> Seq<Rgb8> {
    Seq::new(
        (bytes.len() / 3) as nat,
        |i: int| Rgb8 { r: bytes[3 * i], g: bytes[3 * i + 1], b: bytes[3 * i + 2] },
    )
}

/// Reads the pixels of a raw RGB frame of the given width and height.
///
/// The bytes are refused where their number is not three times width times
/// height.
pub fn pixels_from_rgb24(bytes: &[u8], width: u32, height: u32) -> (r: Result<
    Vec<Rgb8>,
    SizeMismatch,
>)
    ensures
        bytes.len() == frame_len(width, height) ==> r == Ok::<Vec<Rgb8>, SizeMismatch>(r->Ok_0)
            && r->Ok_0@ == pixels_of(bytes@),
        bytes.len() != frame_len(width, height) ==> r is Err && r->Err_0.got == bytes.len() && (
        r->Err_0.expected == frame_len(width, height) || (r->Err_0.expected == u64::MAX
            && frame_len(width, height) > u64::MAX)),
{
    assert(width as int * height as int <= 0xffff_ffff * 0xffff_ffff) by (nonlinear_arith)
        requires
            0 <= width <= 0xffff_ffff,
            0 <= height <= 0xffff_ffff,
    ;
    let expected: u128 = width as u128 * height as u128 * 3;
    if bytes.len() as u128 != expected {
        let shown: u64 = if expected > u64::MAX as u128 {
            u64::MAX
        } else {
            expected as u64
        };
        return Err(SizeMismatch { got: bytes.len(), expected: shown });
    }
    let mut px: Vec<Rgb8> = Vec::new();
    let mut i: usize = 0;
    while i < bytes.len()
        invariant
            bytes.len() % 3 == 0,
            i <= bytes.len(),
            i % 3 == 0,
            px.len() == i / 3,
            forall|x: int|
                0 <= x < px.len() ==> #[trigger] px[x] == (Rgb8 {
                    r: bytes[3 * x],
                    g: bytes[3 * x + 1],
                    b: bytes[3 * x + 2],
                }),
        decreases bytes.len() - i,
    {
        px.push(Rgb8::new(bytes[i], bytes[i + 1], bytes[i + 2]));
        i += 3;
    }
    assert(px@ =~= pixels_of(bytes@));
    Ok(px)
}

} // verus!
