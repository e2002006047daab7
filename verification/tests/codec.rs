//! The primitive wire codec against independent implementations and
//! itself.
use box_format::codec::{read_bytes, read_le, read_str, read_varint, write_bytes, write_le,
    write_str, write_varint};
use byteorder::{LittleEndian, WriteBytesExt};
use vlq_rust::WriteVlqExt;

fn varint_bytes(n: u64) -> Vec<u8> {
    let mut out = Vec::new();
    write_varint(&mut out, n);
    out
}

#[test]
fn varint_matches_vlq_crate() {
    let samples: Vec<u64> = vec![
        0,
        1,
        2,
        127,
        128,
        129,
        255,
        256,
        16383,
        16384,
        60000,
        0xFFFF_FFFF,
        0xDEAD_BEEF_CAFE,
        u64::MAX - 1,
        u64::MAX,
    ];
    for &n in samples.iter() {
        let mut want: Vec<u8> = Vec::new();
        want.write_vlq(n).unwrap();
        assert_eq!(varint_bytes(n), want, "value {}", n);
    }
}

#[test]
fn varint_round_trip() {
    let samples: Vec<u64> = vec![0, 1, 127, 128, 300, 99999, u64::MAX];
    for &n in samples.iter() {
        let enc = varint_bytes(n);
        let (got, end) = read_varint(&enc, 0).unwrap();
        assert_eq!(got, n);
        assert_eq!(end, enc.len());
    }
}

#[test]
fn varint_rejects_truncation_and_overflow() {
    // A lone continuation byte has no terminator.
    assert!(read_varint(&[0x01], 0).is_none());
    // Eleven maximal groups exceed 64 bits.
    let too_big = vec![0x7F, 0x7F, 0x7F, 0x7F, 0x7F, 0x7F, 0x7F, 0x7F, 0x7F, 0xFF];
    assert!(read_varint(&too_big, 0).is_none());
}

#[test]
fn little_endian_matches_byteorder() {
    let mut ours: Vec<u8> = Vec::new();
    write_le(&mut ours, 0xDEAD_BEEFu64 as u64, 4);
    write_le(&mut ours, 0x0123_4567_89AB_CDEFu64, 8);
    let mut want: Vec<u8> = Vec::new();
    want.write_u32::<LittleEndian>(0xDEAD_BEEF).unwrap();
    want.write_u64::<LittleEndian>(0x0123_4567_89AB_CDEF).unwrap();
    assert_eq!(ours, want);
}

#[test]
fn little_endian_round_trip() {
    let mut out: Vec<u8> = Vec::new();
    write_le(&mut out, 42, 8);
    write_le(&mut out, 7, 4);
    let (a, p) = read_le(&out, 0, 8).unwrap();
    let (b, q) = read_le(&out, p, 4).unwrap();
    assert_eq!((a, b), (42, 7));
    assert_eq!(q, 12);
    assert!(read_le(&out, 8, 8).is_none());
}

#[test]
fn blobs_and_strings_round_trip() {
    let mut out: Vec<u8> = Vec::new();
    write_bytes(&mut out, &[1, 2, 3]);
    write_str(&mut out, "hëllo🙂");
    let (blob, p) = read_bytes(&out, 0).unwrap();
    assert_eq!(blob, vec![1, 2, 3]);
    let (text, q) = read_str(&out, p).unwrap();
    assert_eq!(text, "hëllo🙂");
    assert_eq!(q, out.len());
}

#[test]
fn string_rejects_invalid_utf8() {
    let mut out: Vec<u8> = Vec::new();
    write_bytes(&mut out, &[0xFF, 0xFE]);
    assert!(read_str(&out, 0).is_none());
}
