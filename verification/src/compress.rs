//! The compression adapter: uniform compress and decompress over the
//! closed set of codec kinds, dispatched by compression id.
//!
//! `Stored` copies bytes and is verified here. Every other kind calls
//! the matching codec of the comde library; what those calls return is
//! named, and each name is tied to its call by a trusted wrapper.
use vstd::prelude::*;

use crate::compression::Compression;
use crate::error::BoxError;
use comde::com::Compressor;
use comde::de::Decompressor;

verus! {

/// The deflate stream comde's DeflateCompressor produces for the
/// input, which depends on the input bytes alone for this library
/// version.
pub uninterp spec fn deflate_of(data: Seq<u8>) -> Seq<u8>;

/// What comde's DeflateDecompressor recovers from a stream: the plain
/// bytes, or nothing when the stream is not a valid deflate stream.
pub uninterp spec fn deflate_decoded(data: Seq<u8>) -> Option<Seq<u8>>;

/// The zstd stream comde's ZstdCompressor produces for the input.
pub uninterp spec fn zstd_of(data: Seq<u8>) -> Seq<u8>;

/// What comde's ZstdDecompressor recovers from a stream.
pub uninterp spec fn zstd_decoded(data: Seq<u8>) -> Option<Seq<u8>>;

/// The xz stream comde's XzCompressor produces for the input.
pub uninterp spec fn xz_of(data: Seq<u8>) -> Seq<u8>;

/// What comde's XzDecompressor recovers from a stream.
pub uninterp spec fn xz_decoded(data: Seq<u8>) -> Option<Seq<u8>>;

/// The snappy stream comde's SnappyCompressor produces for the input.
pub uninterp spec fn snappy_of(data: Seq<u8>) -> Seq<u8>;

/// What comde's SnappyDecompressor recovers from a stream.
pub uninterp spec fn snappy_decoded(data: Seq<u8>) -> Option<Seq<u8>>;

/// The brotli stream comde's BrotliCompressor produces for the input.
pub uninterp spec fn brotli_of(data: Seq<u8>) -> Seq<u8>;

/// What comde's BrotliDecompressor recovers from a stream.
pub uninterp spec fn brotli_decoded(data: Seq<u8>) -> Option<Seq<u8>>;

/// Relies on comde's DeflateCompressor over in-memory buffers: its
/// output depends on the input bytes alone, and deflate is lossless,
/// so decompressing the output recovers the input.
#[verifier::external_body]
fn deflate_compress(data: &[u8]) -> (r: Result<Vec<u8>, BoxError>)
    ensures
        r matches Ok(v) ==> v@ == deflate_of(data@) && deflate_decoded(deflate_of(data@)) == Some(
            data@,
        ),
        r matches Err(e) ==> e == BoxError::Codec,
{
    let mut out = std::io::Cursor::new(Vec::new());
    match comde::deflate::DeflateCompressor.compress(&mut out, &mut std::io::Cursor::new(data)) {
        Ok(_) => Ok(out.into_inner()),
        Err(_) => Err(BoxError::Codec),
    }
}

/// Relies on comde's DeflateDecompressor: it recovers the plain bytes
/// of a valid deflate stream and fails on any other input.
#[verifier::external_body]
fn deflate_decompress(data: &[u8]) -> (r: Result<Vec<u8>, BoxError>)
    ensures
        r matches Ok(v) ==> deflate_decoded(data@) == Some(v@),
        r matches Err(e) ==> e == BoxError::Codec,
{
    let mut out = Vec::new();
    match comde::deflate::DeflateDecompressor.copy(data, &mut out) {
        Ok(_) => Ok(out),
        Err(_) => Err(BoxError::Codec),
    }
}

/// Relies on comde's ZstdCompressor, as the deflate wrapper does on
/// its codec.
#[verifier::external_body]
fn zstd_compress(data: &[u8]) -> (r: Result<Vec<u8>, BoxError>)
    ensures
        r matches Ok(v) ==> v@ == zstd_of(data@) && zstd_decoded(zstd_of(data@)) == Some(data@),
        r matches Err(e) ==> e == BoxError::Codec,
{
    let mut out = std::io::Cursor::new(Vec::new());
    match comde::zstd::ZstdCompressor.compress(&mut out, &mut std::io::Cursor::new(data)) {
        Ok(_) => Ok(out.into_inner()),
        Err(_) => Err(BoxError::Codec),
    }
}

/// Relies on comde's ZstdDecompressor, as the deflate wrapper does on
/// its codec.
#[verifier::external_body]
fn zstd_decompress(data: &[u8]) -> (r: Result<Vec<u8>, BoxError>)
    ensures
        r matches Ok(v) ==> zstd_decoded(data@) == Some(v@),
        r matches Err(e) ==> e == BoxError::Codec,
{
    let mut out = Vec::new();
    match comde::zstd::ZstdDecompressor.copy(data, &mut out) {
        Ok(_) => Ok(out),
        Err(_) => Err(BoxError::Codec),
    }
}

/// Relies on comde's XzCompressor, as the deflate wrapper does on its
/// codec.
#[verifier::external_body]
fn xz_compress(data: &[u8]) -> (r: Result<Vec<u8>, BoxError>)
    ensures
        r matches Ok(v) ==> v@ == xz_of(data@) && xz_decoded(xz_of(data@)) == Some(data@),
        r matches Err(e) ==> e == BoxError::Codec,
{
    let mut out = std::io::Cursor::new(Vec::new());
    match comde::xz::XzCompressor.compress(&mut out, &mut std::io::Cursor::new(data)) {
        Ok(_) => Ok(out.into_inner()),
        Err(_) => Err(BoxError::Codec),
    }
}

/// Relies on comde's XzDecompressor, as the deflate wrapper does on
/// its codec.
#[verifier::external_body]
fn xz_decompress(data: &[u8]) -> (r: Result<Vec<u8>, BoxError>)
    ensures
        r matches Ok(v) ==> xz_decoded(data@) == Some(v@),
        r matches Err(e) ==> e == BoxError::Codec,
{
    let mut out = Vec::new();
    match comde::xz::XzDecompressor.copy(data, &mut out) {
        Ok(_) => Ok(out),
        Err(_) => Err(BoxError::Codec),
    }
}

/// Relies on comde's SnappyCompressor, as the deflate wrapper does on
/// its codec.
#[verifier::external_body]
fn snappy_compress(data: &[u8]) -> (r: Result<Vec<u8>, BoxError>)
    ensures
        r matches Ok(v) ==> v@ == snappy_of(data@) && snappy_decoded(snappy_of(data@)) == Some(
            data@,
        ),
        r matches Err(e) ==> e == BoxError::Codec,
{
    let mut out = std::io::Cursor::new(Vec::new());
    match comde::snappy::SnappyCompressor.compress(&mut out, &mut std::io::Cursor::new(data)) {
        Ok(_) => Ok(out.into_inner()),
        Err(_) => Err(BoxError::Codec),
    }
}

/// Relies on comde's SnappyDecompressor, as the deflate wrapper does
/// on its codec.
#[verifier::external_body]
fn snappy_decompress(data: &[u8]) -> (r: Result<Vec<u8>, BoxError>)
    ensures
        r matches Ok(v) ==> snappy_decoded(data@) == Some(v@),
        r matches Err(e) ==> e == BoxError::Codec,
{
    let mut out = Vec::new();
    match comde::snappy::SnappyDecompressor.copy(data, &mut out) {
        Ok(_) => Ok(out),
        Err(_) => Err(BoxError::Codec),
    }
}

/// Relies on comde's BrotliCompressor, as the deflate wrapper does on
/// its codec.
#[verifier::external_body]
fn brotli_compress(data: &[u8]) -> (r: Result<Vec<u8>, BoxError>)
    ensures
        r matches Ok(v) ==> v@ == brotli_of(data@) && brotli_decoded(brotli_of(data@)) == Some(
            data@,
        ),
        r matches Err(e) ==> e == BoxError::Codec,
{
    let mut out = std::io::Cursor::new(Vec::new());
    match comde::brotli::BrotliCompressor.compress(&mut out, &mut std::io::Cursor::new(data)) {
        Ok(_) => Ok(out.into_inner()),
        Err(_) => Err(BoxError::Codec),
    }
}

/// Relies on comde's BrotliDecompressor, as the deflate wrapper does
/// on its codec.
#[verifier::external_body]
fn brotli_decompress(data: &[u8]) -> (r: Result<Vec<u8>, BoxError>)
    ensures
        r matches Ok(v) ==> brotli_decoded(data@) == Some(v@),
        r matches Err(e) ==> e == BoxError::Codec,
{
    let mut out = Vec::new();
    match comde::brotli::BrotliDecompressor.copy(data, &mut out) {
        Ok(_) => Ok(out),
        Err(_) => Err(BoxError::Codec),
    }
}

/// The stream stored for `data` under a known kind.
pub open spec fn compressed_of(c: Compression, data: Seq<u8>) -> Seq<u8> {
    match c {
        Compression::Stored => data,
        Compression::Deflate => deflate_of(data),
        Compression::Zstd => zstd_of(data),
        Compression::Xz => xz_of(data),
        Compression::Snappy => snappy_of(data),
        Compression::Brotli => brotli_of(data),
        Compression::Unknown(_) => data,
    }
}

/// What decompression recovers from a stream under a known kind.
pub open spec fn decoded_of(c: Compression, data: Seq<u8>) -> Option<Seq<u8>> {
    match c {
        Compression::Stored => Some(data),
        Compression::Deflate => deflate_decoded(data),
        Compression::Zstd => zstd_decoded(data),
        Compression::Xz => xz_decoded(data),
        Compression::Snappy => snappy_decoded(data),
        Compression::Brotli => brotli_decoded(data),
        Compression::Unknown(_) => None,
    }
}

/// Compresses `data` under the kind `c`: an `Unknown` kind fails with
/// its id; `Stored` always succeeds with the bytes unchanged; any
/// other kind yields its codec's stream whenever the codec succeeds,
/// and a stream that decompresses back to `data`.
pub fn compress_bytes(c: Compression, data: &[u8]) -> (r: Result<Vec<u8>, BoxError>)
    ensures
        c matches Compression::Unknown(id) ==> r == Err::<Vec<u8>, BoxError>(
            BoxError::Unsupported(id),
        ),
        c is Stored ==> (r matches Ok(v) && v@ == data@),
        r matches Ok(v) ==> (c is Unknown || (v@ == compressed_of(c, data@) && decoded_of(c, v@)
            == Some(data@))),
        r matches Err(e) ==> (c is Unknown || e == BoxError::Codec),
{
    match c {
        Compression::Stored => Ok(vstd::slice::slice_to_vec(data)),
        Compression::Deflate => deflate_compress(data),
        Compression::Zstd => zstd_compress(data),
        Compression::Xz => xz_compress(data),
        Compression::Snappy => snappy_compress(data),
        Compression::Brotli => brotli_compress(data),
        Compression::Unknown(id) => Err(BoxError::Unsupported(id)),
    }
}

/// Decompresses a stream under the kind `c`: an `Unknown` kind fails
/// with its id; `Stored` always succeeds with the bytes unchanged; any
/// other kind recovers exactly what its codec's stream holds whenever
/// the codec succeeds.
pub fn decompress_bytes(c: Compression, data: &[u8]) -> (r: Result<Vec<u8>, BoxError>)
    ensures
        c matches Compression::Unknown(id) ==> r == Err::<Vec<u8>, BoxError>(
            BoxError::Unsupported(id),
        ),
        c is Stored ==> (r matches Ok(v) && v@ == data@),
        r matches Ok(v) ==> (c is Unknown || decoded_of(c, data@) == Some(v@)),
        r matches Err(e) ==> (c is Unknown || e == BoxError::Codec),
{
    match c {
        Compression::Stored => Ok(vstd::slice::slice_to_vec(data)),
        Compression::Deflate => deflate_decompress(data),
        Compression::Zstd => zstd_decompress(data),
        Compression::Xz => xz_decompress(data),
        Compression::Snappy => snappy_decompress(data),
        Compression::Brotli => brotli_decompress(data),
        Compression::Unknown(id) => Err(BoxError::Unsupported(id)),
    }
}

} // verus!
