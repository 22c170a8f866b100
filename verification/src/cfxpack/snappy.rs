//! Snappy compression of transaction payloads.
use snap::Error as SnapError;
use vstd::prelude::*;

verus! {

/// The error type of the `snap` crate.
#[verifier::external_type_specification]
#[verifier::external_body]
pub struct ExSnapError(SnapError);

/// What Snappy makes of `data`.
pub uninterp spec fn snap_compressed(data: Seq<u8>) -> Seq<u8>;

/// What Snappy makes compressed `data` into again, where it is well formed.
pub uninterp spec fn snap_decompressed(data: Seq<u8>) -> Option<Seq<u8>>;

/// The longest compressed form of `n` bytes fits a 32-bit length.
pub open spec fn compressible(n: nat) -> bool {
    32 + n + n / 6 <= 0xffff_ffff
}

/// `snap::raw::Encoder::compress_vec` with a fresh encoder. It fails only where the
/// compressed form could outgrow a 32-bit length, and what it gives decompresses
/// to the data.
#[verifier::external_body]
pub(crate) fn compress(data: &[u8]) -> (r: Result<Vec<u8>, SnapError>)
    ensures
        r is Ok == compressible(data@.len()),
        r matches Ok(z) ==> z@ == snap_compressed(data@),
        r matches Ok(z) ==> snap_decompressed(z@) == Some(data@),
{
    snap::raw::Encoder::new().compress_vec(data)
}

/// `snap::raw::Decoder::decompress_vec` with a fresh decoder.
#[verifier::external_body]
pub(crate) fn decompress(data: &[u8]) -> (r: Result<Vec<u8>, SnapError>)
    ensures
        match r {
            Ok(d) => snap_decompressed(data@) == Some(d@),
            Err(_) => snap_decompressed(data@) is None,
        },
{
    snap::raw::Decoder::new().decompress_vec(data)
}

} // verus!
