//! The tile payload codec boundary: LZW compression and decompression of a
//! tile's raw pixel bytes, performed by the `weezl` crate with the TIFF
//! size-escalation convention and most-significant-bit-first codes.
//!
//! The container store never inspects payload content; callers compress a
//! tile before writing it and decompress after reading.  Both directions
//! are functions of the input bytes alone, named here so that contracts can
//! speak of them exactly.

use vstd::prelude::*;
use crate::CogError;

verus! {

/// The LZW encoding of `data` under the TIFF size-escalation convention.
pub uninterp spec fn lzw_compressed(data: Seq<u8>) -> Seq<u8>;

/// The LZW decoding of `data` under the TIFF size-escalation convention:
/// the decoded bytes, or nothing when `data` is not a well-formed code
/// stream.
pub uninterp spec fn lzw_decoded(data: Seq<u8>) -> Option<Seq<u8>>;

/// Relies on weezl's `encode::Encoder::with_tiff_size_switch(Msb, 8)` and
/// `Encoder::encode`: with an eight-bit symbol size every input byte is a
/// valid code, so encoding cannot fail (its only error path requires a
/// symbol size below eight), and the result depends on the input bytes
/// alone.
#[verifier::external_body]
fn lzw_encode(data: &[u8]) -> (r: Vec<u8>)
    ensures
        r@ == lzw_compressed(data@),
{
    weezl::encode::Encoder::with_tiff_size_switch(weezl::BitOrder::Msb, 8).encode(data).unwrap()
}

/// Relies on weezl's `decode::Decoder::with_tiff_size_switch(Msb, 8)` and
/// `Decoder::decode`: whether the code stream decodes, and to what, depends
/// on the input bytes alone.
#[verifier::external_body]
fn lzw_decode(data: &[u8]) -> (r: Result<Vec<u8>, weezl::LzwError>)
    ensures
        match r {
            Ok(v) => lzw_decoded(data@) == Some(v@),
            Err(_) => lzw_decoded(data@) is None,
        },
{
    weezl::decode::Decoder::with_tiff_size_switch(weezl::BitOrder::Msb, 8).decode(data)
}

/// The error weezl reports for a malformed LZW code stream.
#[verifier::external_type_specification]
#[verifier::external_body]
pub struct ExLzwError(weezl::LzwError);

/// Compress a raw tile's bytes for storage.
pub fn compress_tile(data: &[u8]) -> (r: Vec<u8>)
    ensures
        r@ == lzw_compressed(data@),
{
    lzw_encode(data)
}

/// Decompress a stored tile's bytes, or report a decode fault for a
/// malformed code stream.
pub fn decompress_tile(data: &[u8]) -> (r: Result<Vec<u8>, CogError>)
    ensures
        match r {
            Ok(v) => lzw_decoded(data@) == Some(v@),
            Err(e) => e == CogError::Decode && lzw_decoded(data@) is None,
        },
{
    match lzw_decode(data) {
        Ok(v) => Ok(v),
        Err(_) => Err(CogError::Decode),
    }
}

} // verus!
