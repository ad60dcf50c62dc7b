//! The palette pipeline: decode, cluster, rank, and the cache step.
//!
//! [`compute_palette`] runs the full extraction on image bytes; its result
//! is pinned to a function of the bytes alone, so two computations on the
//! same content always agree.  [`palette_of`] adds the cache step: a cached
//! record that decodes to a palette is returned as is and nothing is
//! recomputed; an absent or malformed record leads to a fresh computation
//! and hands the caller the record bytes to persist.

use vstd::prelude::*;
use crate::cluster::{cluster_pixels, kmeans_clusters, K};
use crate::rank::{rank_clusters, rank_spec, lemma_sort_desc_len};
use crate::record::{
    record_encode, record_decode, record_encode_spec, record_decode_spec, lemma_record_roundtrip,
};
use crate::decode::{decode_pixels, thumb_of, group_rgb};

verus! {

/// Why a palette could not be computed.
#[derive(Debug)]
pub enum PaletteError {
    /// The bytes are not a decodable image, with the decoder's error.
    Decode(image::ImageError),
}

/// The palette of an image's bytes: `None` where the bytes do not decode,
/// otherwise the ranked colors of the clustered thumbnail pixels.
pub open spec fn palette_spec(bytes: Seq<u8>) -> Option<Seq<(u8, u8, u8)>> {
    match thumb_of(bytes) {
        Some(raw) => Some(rank_spec(kmeans_clusters(group_rgb(raw)))),
        None => None,
    }
}

/// A computable palette always holds exactly [`K`] colors; in particular a
/// degenerate (for instance all-gray) image still yields a full palette.
pub proof fn lemma_palette_spec_len(bytes: Seq<u8>)
    ensures
        match palette_spec(bytes) {
            Some(p) => p.len() == K,
            None => true,
        },
{
    match thumb_of(bytes) {
        Some(raw) => {
            let cl = kmeans_clusters(group_rgb(raw));
            lemma_sort_desc_len(!crate::rank::any_admissible(cl), cl);
        },
        None => {},
    }
}

/// Compute the ranked palette of an image's bytes, skipping the cache.
/// Success and the palette itself depend on the bytes alone; errors come
/// exactly on bytes that do not decode.
pub fn compute_palette(bytes: &Vec<u8>) -> (r: Result<Vec<(u8, u8, u8)>, PaletteError>)
    ensures
        r is Ok <==> palette_spec(bytes@) is Some,
        r matches Ok(p) ==> Some(p@) == palette_spec(bytes@) && p@.len() == K,
{
    match decode_pixels(bytes) {
        Err(e) => Err(PaletteError::Decode(e)),
        Ok(pixels) => {
            let clusters = cluster_pixels(&pixels);
            let pal = rank_clusters(&clusters);
            proof {
                lemma_palette_spec_len(bytes@);
            }
            Ok(pal)
        },
    }
}

/// The view of an optional cached record.
pub open spec fn cached_seq(cached: Option<&Vec<u8>>) -> Option<Seq<u8>> {
    match cached {
        Some(rec) => Some(rec@),
        None => None,
    }
}

/// What a palette request returns: the cached palette when the record
/// decodes, a fresh computation otherwise.
pub open spec fn palette_result_spec(bytes: Seq<u8>, cached: Option<Seq<u8>>) -> Option<
    Seq<(u8, u8, u8)>,
> {
    match cached {
        Some(rec) => match record_decode_spec(rec) {
            Some(p) => Some(p),
            None => palette_spec(bytes),
        },
        None => palette_spec(bytes),
    }
}

/// Whether a request must compute afresh: no record, or one that does not
/// decode.
pub open spec fn fresh_needed(cached: Option<Seq<u8>>) -> bool {
    match cached {
        Some(rec) => record_decode_spec(rec) is None,
        None => true,
    }
}

/// The outcome of a palette request.
pub struct PaletteOutcome {
    /// The ranked colors, highest vibrancy first.
    pub colors: Vec<(u8, u8, u8)>,
    /// On a fresh computation, the record to persist under the image's
    /// identity; `None` on a cache hit.
    pub record: Option<Vec<u8>>,
}

/// One palette request against an optional cached record.  A record that
/// decodes is returned without touching the image bytes; otherwise the
/// palette is computed from the bytes and its encoding is handed back for
/// the caller to persist.
pub fn palette_of(bytes: &Vec<u8>, cached: Option<&Vec<u8>>) -> (r: Result<
    PaletteOutcome,
    PaletteError,
>)
    ensures
        r is Ok <==> palette_result_spec(bytes@, cached_seq(cached)) is Some,
        r matches Ok(o) ==> Some(o.colors@) == palette_result_spec(bytes@, cached_seq(cached))
            && o.colors@.len() == K,
        r matches Ok(o) ==> match o.record {
            Some(rec) => fresh_needed(cached_seq(cached)) && rec@ == record_encode_spec(o.colors@),
            None => !fresh_needed(cached_seq(cached)),
        },
{
    match cached {
        Some(rec_bytes) => {
            match record_decode(rec_bytes) {
                Some(p) => {
                    return Ok(PaletteOutcome { colors: p, record: None });
                },
                None => {},
            }
        },
        None => {},
    }
    match compute_palette(bytes) {
        Err(e) => Err(e),
        Ok(pal) => {
            let rec = record_encode(&pal);
            Ok(PaletteOutcome { colors: pal, record: Some(rec) })
        },
    }
}

/// Determinism: the palette is a function of the image content, so any two
/// computations on the same bytes return identical ordered palettes.
pub proof fn lemma_palette_deterministic(
    bytes: Seq<u8>,
    p1: Seq<(u8, u8, u8)>,
    p2: Seq<(u8, u8, u8)>,
)
    requires
        palette_spec(bytes) == Some(p1),
        palette_spec(bytes) == Some(p2),
    ensures
        p1 == p2,
{
}

/// Miss then hit: after a fresh computation writes its record, a later
/// request with that record on disk returns the identical palette without
/// recomputing, and asks for no further write.
pub proof fn lemma_miss_then_hit(bytes: Seq<u8>, p: Seq<(u8, u8, u8)>)
    requires
        palette_spec(bytes) == Some(p),
    ensures
        palette_result_spec(bytes, Some(record_encode_spec(p))) == Some(p),
        !fresh_needed(Some(record_encode_spec(p))),
{
    lemma_palette_spec_len(bytes);
    lemma_record_roundtrip(p);
}

/// Corrupt-cache recovery: a record that does not decode never fails the
/// request; the result is exactly that of a fresh computation.
pub proof fn lemma_corrupt_record_recovers(bytes: Seq<u8>, rec: Seq<u8>)
    requires
        record_decode_spec(rec) is None,
    ensures
        palette_result_spec(bytes, Some(rec)) == palette_spec(bytes),
{
}

} // verus!
