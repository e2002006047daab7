//! The compression adapter over every codec kind.
use box_format::compress::{compress_bytes, decompress_bytes};
use box_format::{BoxError, Compression};

fn round_trip(c: Compression, data: &[u8]) {
    let packed = compress_bytes(c, data).unwrap();
    let unpacked = decompress_bytes(c, &packed).unwrap();
    assert_eq!(unpacked, data, "kind {:?}", c);
}

#[test]
fn stored_copies_bytes() {
    let packed = compress_bytes(Compression::Stored, b"plain").unwrap();
    assert_eq!(packed, b"plain");
    round_trip(Compression::Stored, b"");
    round_trip(Compression::Stored, b"plain");
}

#[test]
fn deflate_round_trips() {
    round_trip(Compression::Deflate, &b"squeeze me ".repeat(100));
}

#[test]
fn zstd_round_trips() {
    round_trip(Compression::Zstd, &b"squeeze me ".repeat(100));
}

#[test]
fn xz_round_trips() {
    round_trip(Compression::Xz, &b"squeeze me ".repeat(100));
}

#[test]
fn snappy_round_trips() {
    round_trip(Compression::Snappy, &b"squeeze me ".repeat(100));
}

#[test]
fn brotli_round_trips() {
    round_trip(Compression::Brotli, &b"squeeze me ".repeat(100));
}

#[test]
fn compression_shrinks_repetitive_input() {
    let data = b"all work and no play makes jack a dull boy. ".repeat(200);
    let packed = compress_bytes(Compression::Deflate, &data).unwrap();
    assert!(packed.len() < data.len() / 2);
}

#[test]
fn unknown_kind_fails_both_directions() {
    let c = Compression::Unknown(0x99);
    assert_eq!(compress_bytes(c, b"x").unwrap_err(), BoxError::Unsupported(0x99));
    assert_eq!(decompress_bytes(c, b"x").unwrap_err(), BoxError::Unsupported(0x99));
}

#[test]
fn garbage_stream_fails_to_decompress() {
    assert_eq!(decompress_bytes(Compression::Zstd, b"not a zstd stream").unwrap_err(), BoxError::Codec);
}
