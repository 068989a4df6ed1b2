//! Snappy compression of span payloads, through the `snap` crate.
//!
//! The storage engine compresses every encoded span before persisting it,
//! and the Quiver transport compresses every span it ships. Compression is
//! lossless: what `snap_of` names, `unsnap_of` gives back.

use vstd::prelude::*;

verus! {

/// What raw Snappy compression produces for these bytes.
pub uninterp spec fn snap_of(b: Seq<u8>) -> Seq<u8>;

/// What raw Snappy decompression produces for these bytes: `None` where the
/// input is no valid Snappy stream.
pub uninterp spec fn unsnap_of(b: Seq<u8>) -> Option<Seq<u8>>;

/// Relies on `snap::raw::Encoder::compress_vec`: raw Snappy compression is a
/// function of the input bytes alone, it succeeds exactly when the input and
/// the worst-case output size fit 32 bits, and raw decompression restores
/// the compressed input exactly (Snappy is lossless).
#[verifier::external_body]
pub fn snappy_compress(b: &Vec<u8>) -> (r: Option<Vec<u8>>)
    ensures
        match r {
            Some(c) => c@ == snap_of(b@) && unsnap_of(c@) == Some(b@),
            None => 32 + b@.len() + b@.len() / 6 > 0xFFFFFFFF,
        },
{
    snap::raw::Encoder::new().compress_vec(b.as_slice()).ok()
}

/// Relies on `snap::raw::Decoder::decompress_vec`: raw Snappy decompression
/// is a function of the input bytes alone, and fails exactly on inputs that
/// are no valid Snappy stream.
#[verifier::external_body]
pub fn snappy_decompress(b: &Vec<u8>) -> (r: Option<Vec<u8>>)
    ensures
        match r {
            Some(d) => unsnap_of(b@) == Some(d@),
            None => unsnap_of(b@) is None,
        },
{
    snap::raw::Decoder::new().decompress_vec(b.as_slice()).ok()
}

} // verus!
