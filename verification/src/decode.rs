//! Decoding an image into a bounded RGB working buffer.
//!
//! Arbitrary supported raster bytes (PNG, JPEG, GIF first frame, WEBP) are
//! decoded and downsampled into a thumbnail of at most 128 x 128 pixels, so
//! that clustering cost is bounded regardless of the source resolution.  The
//! raw buffer is row-major packed RGB, three bytes per pixel.

use vstd::prelude::*;
use crate::cluster::MAX_PIXELS;

verus! {

#[verifier::external_type_specification]
#[verifier::external_body]
pub struct ExImageError(image::ImageError);

/// The packed RGB bytes of the decoded thumbnail of an image, or `None`
/// where the bytes are not a decodable image; a function of the bytes
/// alone.
pub uninterp spec fn thumb_of(bytes: Seq<u8>) -> Option<Seq<u8>>;

/// Relies on image::load_from_memory, DynamicImage::thumbnail(128, 128),
/// DynamicImage::to_rgb8 and ImageBuffer::into_raw: decoding is a pure
/// function of the bytes; the thumbnail keeps each dimension at most 128;
/// the raw RGB8 buffer holds width * height * 3 bytes.
#[verifier::external_body]
fn decode_thumb_raw(bytes: &Vec<u8>) -> (r: Result<Vec<u8>, image::ImageError>)
    ensures
        r is Ok <==> thumb_of(bytes@) is Some,
        r matches Ok(v) ==> thumb_of(bytes@) == Some(v@) && v@.len() % 3 == 0 && v@.len() <= 3
            * MAX_PIXELS,
{
    match image::load_from_memory(bytes.as_slice()) {
        Ok(img) => Ok(img.thumbnail(128, 128).to_rgb8().into_raw()),
        Err(e) => Err(e),
    }
}

/// The packed buffer regrouped into pixel triples, row-major.
pub open spec fn group_rgb(raw: Seq<u8>) -> Seq<(u8, u8, u8)> {
    Seq::new((raw.len() / 3) as nat, |i: int| (raw[3 * i], raw[3 * i + 1], raw[3 * i + 2]))
}

/// Regroup a packed RGB buffer into pixel triples.
fn group_pixels(raw: &Vec<u8>) -> (ps: Vec<(u8, u8, u8)>)
    requires
        raw@.len() % 3 == 0,
    ensures
        ps@ == group_rgb(raw@),
        ps@.len() == raw@.len() / 3,
{
    let n = raw.len() / 3;
    proof {
        vstd::arithmetic::div_mod::lemma_fundamental_div_mod(raw@.len() as int, 3);
    }
    let mut ps: Vec<(u8, u8, u8)> = Vec::new();
    let mut i: usize = 0;
    while i < n
        invariant
            i <= n,
            n == raw@.len() / 3,
            raw@.len() == 3 * n,
            raw@.len() <= usize::MAX,
            ps@.len() == i,
            forall|k: int| 0 <= k < i ==> ps@[k] == group_rgb(raw@)[k],
        decreases n - i,
    {
        ps.push((raw[3 * i], raw[3 * i + 1], raw[3 * i + 2]));
        i = i + 1;
    }
    proof {
        assert(ps@ =~= group_rgb(raw@));
    }
    ps
}

/// Decode image bytes into at most [`MAX_PIXELS`] row-major RGB pixels, or
/// the decoder's error for bytes that are not a decodable image.
pub fn decode_pixels(bytes: &Vec<u8>) -> (r: Result<Vec<(u8, u8, u8)>, image::ImageError>)
    ensures
        r is Ok <==> thumb_of(bytes@) is Some,
        r matches Ok(ps) ==> thumb_of(bytes@) matches Some(raw) && ps@ == group_rgb(raw)
            && ps@.len() <= MAX_PIXELS,
{
    match decode_thumb_raw(bytes) {
        Err(e) => Err(e),
        Ok(raw) => {
            let ps = group_pixels(&raw);
            proof {
                vstd::arithmetic::div_mod::lemma_div_is_ordered(
                    raw@.len() as int,
                    3 * MAX_PIXELS as int,
                    3,
                );
            }
            Ok(ps)
        },
    }
}

} // verus!
