//! Wire decoding of records, attribute tables and whole metadata.
//!
//! Every reader is specified against a spec-level decoder and proved
//! to match it exactly; the decoders are proved to invert the encoders
//! of the serializer, so metadata survives a round trip unchanged.
use vstd::prelude::*;

use crate::codec::{dec_bytes, dec_str, dec_varint, enc_bytes, enc_le, enc_str, enc_varint,
    lemma_bytes_round_trip, lemma_enc_le_len, lemma_le_round_trip, lemma_pow256_8,
    lemma_str_round_trip, lemma_varint_round_trip, read_bytes, read_le, read_str, read_varint,
    dec_le};
use crate::header::opt_word;
use crate::meta::wf_keys;
use crate::path::{join_sep, lemma_wire_round_trip, wf_component};
use crate::record::{wf_attrs, wf_parent, wf_path_view};
use crate::ser::{bounded_attrs, bounded_meta, bounded_path, bounded_record, enc_attr_entry,
    enc_attr_list, enc_attrs, enc_child_list, enc_directory, enc_file, enc_key_list, enc_link,
    enc_meta, enc_parent, enc_path, enc_record, enc_record_list};
use crate::compression::Compression;
use crate::error::FormatError;
use crate::header::word_opt;
use crate::meta::{has_intern, BoxMetadata, MetaV};
use crate::path::{parse_wire_path, BoxPath};
use crate::record::{has_key, AttrMap, DirectoryRecord, DirectoryV, FileRecord, FileV, LinkRecord,
    LinkV, Record, RecordV};

verus! {

// ---------------------------------------------------------------------------
// Spec decoders.
// ---------------------------------------------------------------------------
/// Spec decoding of a parent reference: zero means none.
pub open spec fn dec_parent(s: Seq<u8>, pos: int) -> Option<(Option<u64>, int)> {
    match dec_varint(s, pos) {
        None => None,
        Some((w, p)) => Some((word_opt(w), p)),
    }
}

/// Spec decoding of a one-byte compression id.
pub open spec fn dec_compression(s: Seq<u8>, pos: int) -> Option<(Compression, int)> {
    if pos < 0 || pos >= s.len() {
        None
    } else {
        Some((Compression::spec_from_id(s[pos]), pos + 1))
    }
}

/// Spec decoding of an 8-byte little-endian word.
pub open spec fn dec_u64(s: Seq<u8>, pos: int) -> Option<(u64, int)> {
    if pos >= 0 && pos + 8 <= s.len() {
        Some((dec_le(s, pos, 8) as u64, pos + 8))
    } else {
        None
    }
}

/// Spec decoding of a canonical path from its wire string.
pub open spec fn dec_path(s: Seq<u8>, pos: int) -> Option<(Seq<Seq<char>>, int)> {
    match dec_str(s, pos) {
        None => None,
        Some((cs, p)) => match parse_wire_path(cs) {
            None => None,
            Some(comps) => Some((comps, p)),
        },
    }
}

/// Spec decoding of `count` attribute entries onto `acc`; a key seen
/// twice fails the decode.
pub open spec fn dec_attr_list(s: Seq<u8>, pos: int, count: int, acc: Seq<(u64, Seq<u8>)>) -> Option<
    (Seq<(u64, Seq<u8>)>, int),
>
    decreases count,
{
    if count <= 0 {
        Some((acc, pos))
    } else {
        match dec_varint(s, pos) {
            None => None,
            Some((k, p1)) => match dec_bytes(s, p1) {
                None => None,
                Some((v, p2)) => if has_key(acc, k) {
                    None
                } else {
                    dec_attr_list(s, p2, count - 1, acc.push((k, v)))
                },
            },
        }
    }
}

/// Spec decoding of an attribute map: entry count, then entries.
pub open spec fn dec_attrs(s: Seq<u8>, pos: int) -> Option<(Seq<(u64, Seq<u8>)>, int)> {
    match dec_varint(s, pos) {
        None => None,
        Some((n, p)) => dec_attr_list(s, p, n as int, Seq::empty()),
    }
}

/// Spec decoding of `count` child positions onto `acc`; a zero
/// position fails the decode.
pub open spec fn dec_child_list(s: Seq<u8>, pos: int, count: int, acc: Seq<u64>) -> Option<
    (Seq<u64>, int),
>
    decreases count,
{
    if count <= 0 {
        Some((acc, pos))
    } else {
        match dec_varint(s, pos) {
            None => None,
            Some((c, p)) => if c == 0 {
                None
            } else {
                dec_child_list(s, p, count - 1, acc.push(c))
            },
        }
    }
}

/// Spec decoding of a file record, after its tag byte: a zero data
/// offset, or a payload end past the 64-bit range, fails the decode.
pub open spec fn dec_file(s: Seq<u8>, pos: int) -> Option<(FileV, int)> {
    match dec_parent(s, pos) {
        None => None,
        Some((parent, p1)) => match dec_compression(s, p1) {
            None => None,
            Some((compression, p2)) => match dec_u64(s, p2) {
                None => None,
                Some((length, p3)) => match dec_u64(s, p3) {
                    None => None,
                    Some((decompressed_length, p4)) => match dec_path(s, p4) {
                        None => None,
                        Some((path, p5)) => match dec_attrs(s, p5) {
                            None => None,
                            Some((attrs, p6)) => match dec_u64(s, p6) {
                                None => None,
                                Some((data, p7)) => if data >= 1 && data + length <= u64::MAX {
                                    Some(
                                        (
                                            FileV {
                                                parent,
                                                compression,
                                                length,
                                                decompressed_length,
                                                path,
                                                attrs,
                                                data,
                                            },
                                            p7,
                                        ),
                                    )
                                } else {
                                    None
                                },
                            },
                        },
                    },
                },
            },
        },
    }
}

/// Spec decoding of a directory record, after its tag byte.
pub open spec fn dec_directory(s: Seq<u8>, pos: int) -> Option<(DirectoryV, int)> {
    match dec_parent(s, pos) {
        None => None,
        Some((parent, p1)) => match dec_path(s, p1) {
            None => None,
            Some((path, p2)) => match dec_varint(s, p2) {
                None => None,
                Some((n, p3)) => match dec_child_list(s, p3, n as int, Seq::empty()) {
                    None => None,
                    Some((children, p4)) => match dec_attrs(s, p4) {
                        None => None,
                        Some((attrs, p5)) => Some(
                            (DirectoryV { parent, path, children, attrs }, p5),
                        ),
                    },
                },
            },
        },
    }
}

/// Spec decoding of a link record, after its tag byte.
pub open spec fn dec_link(s: Seq<u8>, pos: int) -> Option<(LinkV, int)> {
    match dec_parent(s, pos) {
        None => None,
        Some((parent, p1)) => match dec_path(s, p1) {
            None => None,
            Some((path, p2)) => match dec_path(s, p2) {
                None => None,
                Some((target, p3)) => match dec_attrs(s, p3) {
                    None => None,
                    Some((attrs, p4)) => Some((LinkV { parent, path, target, attrs }, p4)),
                },
            },
        },
    }
}

/// Spec decoding of a record: a tag byte this library does not know
/// fails the decode rather than being coerced.
pub open spec fn dec_record(s: Seq<u8>, pos: int) -> Option<(RecordV, int)> {
    if pos < 0 || pos >= s.len() {
        None
    } else {
        let tag = s[pos];
        if tag == 0 {
            match dec_file(s, pos + 1) {
                None => None,
                Some((f, p)) => Some((RecordV::File(f), p)),
            }
        } else if tag == 1 {
            match dec_directory(s, pos + 1) {
                None => None,
                Some((d, p)) => Some((RecordV::Directory(d), p)),
            }
        } else if tag == 2 {
            match dec_link(s, pos + 1) {
                None => None,
                Some((l, p)) => Some((RecordV::Link(l), p)),
            }
        } else {
            None
        }
    }
}

/// Spec decoding of `count` records onto `acc`.
pub open spec fn dec_record_list(s: Seq<u8>, pos: int, count: int, acc: Seq<RecordV>) -> Option<
    (Seq<RecordV>, int),
>
    decreases count,
{
    if count <= 0 {
        Some((acc, pos))
    } else {
        match dec_record(s, pos) {
            None => None,
            Some((r, p)) => dec_record_list(s, p, count - 1, acc.push(r)),
        }
    }
}

/// Spec decoding of `count` interned key strings onto `acc`; a string
/// interned twice fails the decode.
pub open spec fn dec_key_list(s: Seq<u8>, pos: int, count: int, acc: Seq<Seq<char>>) -> Option<
    (Seq<Seq<char>>, int),
>
    decreases count,
{
    if count <= 0 {
        Some((acc, pos))
    } else {
        match dec_str(s, pos) {
            None => None,
            Some((cs, p)) => if has_intern(acc, cs) {
                None
            } else {
                dec_key_list(s, p, count - 1, acc.push(cs))
            },
        }
    }
}

/// Spec decoding of the whole metadata trailer.
pub open spec fn dec_meta(s: Seq<u8>, pos: int) -> Option<(MetaV, int)> {
    match dec_varint(s, pos) {
        None => None,
        Some((n, p1)) => match dec_record_list(s, p1, n as int, Seq::empty()) {
            None => None,
            Some((records, p2)) => match dec_varint(s, p2) {
                None => None,
                Some((kn, p3)) => match dec_key_list(s, p3, kn as int, Seq::empty()) {
                    None => None,
                    Some((attr_keys, p4)) => match dec_attrs(s, p4) {
                        None => None,
                        Some((attrs, p5)) => Some((MetaV { records, attr_keys, attrs }, p5)),
                    },
                },
            },
        },
    }
}

// ---------------------------------------------------------------------------
// Failure classification.
//
// The error kind a failing decode reports: `Truncated` where a
// primitive field cannot be read in full, `InvalidData` at a
// validation point (an unknown record tag, a zero data offset, a
// duplicate attribute key or interned string, a malformed path).
// Each classifier mirrors its decoder along the successful prefix and
// is meaningful only where that decoder yields nothing.
// ---------------------------------------------------------------------------
/// Kind of a failing path decode: its wire string could not be read,
/// or it read but does not parse as a canonical path.
pub open spec fn path_err(s: Seq<u8>, pos: int) -> FormatError {
    if dec_str(s, pos) is None {
        FormatError::Truncated
    } else {
        FormatError::InvalidData
    }
}

/// Kind of a failing attribute-list decode.
pub open spec fn attr_list_err(s: Seq<u8>, pos: int, count: int, acc: Seq<(u64, Seq<u8>)>) -> FormatError
    decreases count,
{
    if count <= 0 {
        FormatError::Truncated
    } else {
        match dec_varint(s, pos) {
            None => FormatError::Truncated,
            Some((k, p1)) => match dec_bytes(s, p1) {
                None => FormatError::Truncated,
                Some((v, p2)) => if has_key(acc, k) {
                    FormatError::InvalidData
                } else {
                    attr_list_err(s, p2, count - 1, acc.push((k, v)))
                },
            },
        }
    }
}

/// Kind of a failing attribute-map decode.
pub open spec fn attrs_err(s: Seq<u8>, pos: int) -> FormatError {
    match dec_varint(s, pos) {
        None => FormatError::Truncated,
        Some((n, p)) => attr_list_err(s, p, n as int, Seq::empty()),
    }
}

/// Kind of a failing child-list decode (after the count).
pub open spec fn child_list_err(s: Seq<u8>, pos: int, count: int) -> FormatError
    decreases count,
{
    if count <= 0 {
        FormatError::Truncated
    } else {
        match dec_varint(s, pos) {
            None => FormatError::Truncated,
            Some((c, p)) => if c == 0 {
                FormatError::InvalidData
            } else {
                child_list_err(s, p, count - 1)
            },
        }
    }
}

/// Kind of a failing child-list decode, count included.
pub open spec fn children_err(s: Seq<u8>, pos: int) -> FormatError {
    match dec_varint(s, pos) {
        None => FormatError::Truncated,
        Some((n, p)) => child_list_err(s, p, n as int),
    }
}

/// Kind of a failing file-record decode, after its tag byte. A zero
/// data offset, or a payload end past the 64-bit range, is
/// `InvalidData`.
pub open spec fn file_err(s: Seq<u8>, pos: int) -> FormatError {
    match dec_parent(s, pos) {
        None => FormatError::Truncated,
        Some((_, p1)) => match dec_compression(s, p1) {
            None => FormatError::Truncated,
            Some((_, p2)) => match dec_u64(s, p2) {
                None => FormatError::Truncated,
                Some((_, p3)) => match dec_u64(s, p3) {
                    None => FormatError::Truncated,
                    Some((_, p4)) => match dec_path(s, p4) {
                        None => path_err(s, p4),
                        Some((_, p5)) => match dec_attrs(s, p5) {
                            None => attrs_err(s, p5),
                            Some((_, p6)) => match dec_u64(s, p6) {
                                None => FormatError::Truncated,
                                Some(_) => FormatError::InvalidData,
                            },
                        },
                    },
                },
            },
        },
    }
}

/// Kind of a failing directory-record decode, after its tag byte.
pub open spec fn directory_err(s: Seq<u8>, pos: int) -> FormatError {
    match dec_parent(s, pos) {
        None => FormatError::Truncated,
        Some((_, p1)) => match dec_path(s, p1) {
            None => path_err(s, p1),
            Some((_, p2)) => match dec_varint(s, p2) {
                None => FormatError::Truncated,
                Some((n, p3)) => match dec_child_list(s, p3, n as int, Seq::empty()) {
                    None => child_list_err(s, p3, n as int),
                    Some((_, p4)) => attrs_err(s, p4),
                },
            },
        },
    }
}

/// Kind of a failing link-record decode, after its tag byte.
pub open spec fn link_err(s: Seq<u8>, pos: int) -> FormatError {
    match dec_parent(s, pos) {
        None => FormatError::Truncated,
        Some((_, p1)) => match dec_path(s, p1) {
            None => path_err(s, p1),
            Some((_, p2)) => match dec_path(s, p2) {
                None => path_err(s, p2),
                Some((_, p3)) => attrs_err(s, p3),
            },
        },
    }
}

/// Kind of a failing record decode: an unknown tag byte is
/// `InvalidData`, an empty input `Truncated`.
pub open spec fn record_err(s: Seq<u8>, pos: int) -> FormatError {
    if pos < 0 || pos >= s.len() {
        FormatError::Truncated
    } else if s[pos] == 0 {
        file_err(s, pos + 1)
    } else if s[pos] == 1 {
        directory_err(s, pos + 1)
    } else if s[pos] == 2 {
        link_err(s, pos + 1)
    } else {
        FormatError::InvalidData
    }
}

/// Kind of a failing record-list decode.
pub open spec fn record_list_err(s: Seq<u8>, pos: int, count: int) -> FormatError
    decreases count,
{
    if count <= 0 {
        FormatError::Truncated
    } else {
        match dec_record(s, pos) {
            None => record_err(s, pos),
            Some((_, p)) => record_list_err(s, p, count - 1),
        }
    }
}

/// Kind of a failing interned-key-list decode.
pub open spec fn key_list_err(s: Seq<u8>, pos: int, count: int, acc: Seq<Seq<char>>) -> FormatError
    decreases count,
{
    if count <= 0 {
        FormatError::Truncated
    } else {
        match dec_str(s, pos) {
            None => FormatError::Truncated,
            Some((cs, p)) => if has_intern(acc, cs) {
                FormatError::InvalidData
            } else {
                key_list_err(s, p, count - 1, acc.push(cs))
            },
        }
    }
}

/// Kind of a failing metadata decode.
pub open spec fn meta_err(s: Seq<u8>, pos: int) -> FormatError {
    match dec_varint(s, pos) {
        None => FormatError::Truncated,
        Some((n, p1)) => match dec_record_list(s, p1, n as int, Seq::empty()) {
            None => record_list_err(s, p1, n as int),
            Some((_, p2)) => match dec_varint(s, p2) {
                None => FormatError::Truncated,
                Some((kn, p3)) => match dec_key_list(s, p3, kn as int, Seq::empty()) {
                    None => key_list_err(s, p3, kn as int, Seq::empty()),
                    Some((_, p4)) => attrs_err(s, p4),
                },
            },
        },
    }
}

// ---------------------------------------------------------------------------
// Readers.
// ---------------------------------------------------------------------------
/// Reads a parent reference, exactly as [`dec_parent`] describes.
fn read_parent(s: &[u8], pos: usize) -> (r: Result<(Option<u64>, usize), FormatError>)
    ensures
        match r {
            Ok(p) => dec_parent(s@, pos as int) == Some((p.0, p.1 as int)) && pos < p.1 <= s@.len(),
            Err(e) => dec_parent(s@, pos as int) is None && e == FormatError::Truncated,
        },
{
    match read_varint(s, pos) {
        None => Err(FormatError::Truncated),
        Some((w, p)) => Ok(
            (
                if w == 0 {
                    None
                } else {
                    Some(w)
                },
                p,
            ),
        ),
    }
}

/// Reads an 8-byte little-endian word, exactly as [`dec_u64`]
/// describes.
fn read_u64(s: &[u8], pos: usize) -> (r: Result<(u64, usize), FormatError>)
    ensures
        match r {
            Ok(p) => dec_u64(s@, pos as int) == Some((p.0, p.1 as int)) && pos < p.1 <= s@.len(),
            Err(e) => dec_u64(s@, pos as int) is None && e == FormatError::Truncated,
        },
{
    match read_le(s, pos, 8) {
        None => Err(FormatError::Truncated),
        Some((w, p)) => {
            proof {
                crate::codec::lemma_dec_le_bound(s@, pos as int, 8);
            }
            Ok((w, p))
        },
    }
}

/// Reads a canonical path from its wire string, exactly as
/// [`dec_path`] describes.
fn read_path(s: &[u8], pos: usize) -> (r: Result<(BoxPath, usize), FormatError>)
    ensures
        match r {
            Ok((p, e)) => dec_path(s@, pos as int) == Some((p@, e as int)) && pos < e <= s@.len()
                && p.wf(),
            Err(e) => dec_path(s@, pos as int) is None && e == path_err(s@, pos as int),
        },
{
    match read_str(s, pos) {
        None => Err(FormatError::Truncated),
        Some((t, p)) => match BoxPath::from_wire(t.as_str()) {
            None => Err(FormatError::InvalidData),
            Some(bp) => Ok((bp, p)),
        },
    }
}

/// Reads an attribute map, exactly as [`dec_attrs`] describes.
#[verifier::loop_isolation(false)]
fn read_attrs(s: &[u8], pos: usize) -> (r: Result<(AttrMap, usize), FormatError>)
    ensures
        match r {
            Ok((m, e)) => dec_attrs(s@, pos as int) == Some((m@, e as int)) && pos < e <= s@.len()
                && m.wf(),
            Err(e) => dec_attrs(s@, pos as int) is None && e == attrs_err(s@, pos as int),
        },
{
    let (n, start) = match read_varint(s, pos) {
        None => {
            return Err(FormatError::Truncated);
        },
        Some(p) => p,
    };
    let mut acc = AttrMap::new();
    let mut left: u64 = n;
    let mut cur: usize = start;
    while left > 0
        invariant
            pos < cur <= s@.len(),
            acc.wf(),
            dec_attr_list(s@, start as int, n as int, Seq::empty()) == dec_attr_list(
                s@,
                cur as int,
                left as int,
                acc@,
            ),
            dec_attr_list(s@, start as int, n as int, Seq::empty()) is None ==> attr_list_err(
                s@,
                start as int,
                n as int,
                Seq::empty(),
            ) == attr_list_err(s@, cur as int, left as int, acc@),
        decreases left,
    {
        let (k, p1) = match read_varint(s, cur) {
            None => {
                return Err(FormatError::Truncated);
            },
            Some(p) => p,
        };
        let (v, p2) = match read_bytes(s, p1) {
            None => {
                return Err(FormatError::Truncated);
            },
            Some(p) => p,
        };
        let dup = match acc.get(k) {
            Some(_) => true,
            None => false,
        };
        if dup {
            proof {
                assert(has_key(acc@, k));
            }
            return Err(FormatError::InvalidData);
        }
        proof {
            assert(!has_key(acc@, k));
        }
        let ghost vv = v@;
        let ghost acc0 = acc@;
        acc.set(k, v);
        proof {
            assert(acc@ =~= acc0.push((k, vv)));
        }
        left = left - 1;
        cur = p2;
    }
    Ok((acc, cur))
}

/// Reads a directory's child positions, exactly as [`dec_child_list`]
/// describes (after the count).
#[verifier::loop_isolation(false)]
fn read_children(s: &[u8], pos: usize) -> (r: Result<(Vec<u64>, usize), FormatError>)
    ensures
        match r {
            Ok((c, e)) => ({
                &&& match dec_varint(s@, pos as int) {
                    Some((n, p)) => dec_child_list(s@, p, n as int, Seq::empty()) == Some(
                        (c@, e as int),
                    ),
                    None => false,
                }
                &&& pos < e <= s@.len()
                &&& forall|i: int| 0 <= i < c@.len() ==> #[trigger] c@[i] >= 1
            }),
            Err(e) => (match dec_varint(s@, pos as int) {
                Some((n, p)) => dec_child_list(s@, p, n as int, Seq::empty()) is None,
                None => true,
            }) && e == children_err(s@, pos as int),
        },
{
    let (n, start) = match read_varint(s, pos) {
        None => {
            return Err(FormatError::Truncated);
        },
        Some(p) => p,
    };
    let mut acc: Vec<u64> = Vec::new();
    let mut left: u64 = n;
    let mut cur: usize = start;
    proof {
        assert(acc@ =~= Seq::<u64>::empty());
    }
    while left > 0
        invariant
            pos < cur <= s@.len(),
            forall|i: int| 0 <= i < acc@.len() ==> #[trigger] acc@[i] >= 1,
            dec_child_list(s@, start as int, n as int, Seq::empty()) == dec_child_list(
                s@,
                cur as int,
                left as int,
                acc@,
            ),
            dec_child_list(s@, start as int, n as int, Seq::empty()) is None ==> child_list_err(
                s@,
                start as int,
                n as int,
            ) == child_list_err(s@, cur as int, left as int),
        decreases left,
    {
        let (c, p1) = match read_varint(s, cur) {
            None => {
                return Err(FormatError::Truncated);
            },
            Some(p) => p,
        };
        if c == 0 {
            return Err(FormatError::InvalidData);
        }
        acc.push(c);
        left = left - 1;
        cur = p1;
    }
    Ok((acc, cur))
}

/// Reads a record, exactly as [`dec_record`] describes; every decoded
/// record is well-formed.
fn read_record(s: &[u8], pos: usize) -> (r: Result<(Record, usize), FormatError>)
    ensures
        match r {
            Ok((v, e)) => dec_record(s@, pos as int) == Some((v@, e as int)) && pos < e <= s@.len()
                && v.wf(),
            Err(e) => dec_record(s@, pos as int) is None && e == record_err(s@, pos as int),
        },
{
    if pos >= s.len() {
        return Err(FormatError::Truncated);
    }
    let tag = s[pos];
    if tag == 0 {
        let (parent, p1) = match read_parent(s, pos + 1) {
            Err(e) => {
                return Err(e);
            },
            Ok(p) => p,
        };
        if p1 >= s.len() {
            return Err(FormatError::Truncated);
        }
        let compression = Compression::from_id(s[p1]);
        let p2 = p1 + 1;
        let (length, p3) = match read_u64(s, p2) {
            Err(e) => {
                return Err(e);
            },
            Ok(p) => p,
        };
        let (decompressed_length, p4) = match read_u64(s, p3) {
            Err(e) => {
                return Err(e);
            },
            Ok(p) => p,
        };
        let (path, p5) = match read_path(s, p4) {
            Err(e) => {
                return Err(e);
            },
            Ok(p) => p,
        };
        let (attrs, p6) = match read_attrs(s, p5) {
            Err(e) => {
                return Err(e);
            },
            Ok(p) => p,
        };
        let (data, p7) = match read_u64(s, p6) {
            Err(e) => {
                return Err(e);
            },
            Ok(p) => p,
        };
        if !(data >= 1 && length <= u64::MAX - data) {
            return Err(FormatError::InvalidData);
        }
        let rec = FileRecord { parent, compression, length, decompressed_length, path, attrs, data };
        proof {
            crate::compression::lemma_compression_id_round_trip(compression, s@[p1 as int]);
        }
        Ok((Record::File(rec), p7))
    } else if tag == 1 {
        let (parent, p1) = match read_parent(s, pos + 1) {
            Err(e) => {
                return Err(e);
            },
            Ok(p) => p,
        };
        let (path, p2) = match read_path(s, p1) {
            Err(e) => {
                return Err(e);
            },
            Ok(p) => p,
        };
        let (children, p4) = match read_children(s, p2) {
            Err(e) => {
                return Err(e);
            },
            Ok(p) => p,
        };
        let (attrs, p5) = match read_attrs(s, p4) {
            Err(e) => {
                return Err(e);
            },
            Ok(p) => p,
        };
        let rec = DirectoryRecord { parent, path, children, attrs };
        Ok((Record::Directory(rec), p5))
    } else if tag == 2 {
        let (parent, p1) = match read_parent(s, pos + 1) {
            Err(e) => {
                return Err(e);
            },
            Ok(p) => p,
        };
        let (path, p2) = match read_path(s, p1) {
            Err(e) => {
                return Err(e);
            },
            Ok(p) => p,
        };
        let (target, p3) = match read_path(s, p2) {
            Err(e) => {
                return Err(e);
            },
            Ok(p) => p,
        };
        let (attrs, p4) = match read_attrs(s, p3) {
            Err(e) => {
                return Err(e);
            },
            Ok(p) => p,
        };
        let rec = LinkRecord { parent, path, target, attrs };
        Ok((Record::Link(rec), p4))
    } else {
        Err(FormatError::InvalidData)
    }
}

/// Parses a whole metadata trailer from `s` at `pos`, exactly as
/// [`dec_meta`] describes; the result is well-formed.
#[verifier::loop_isolation(false)]
pub fn read_meta(s: &[u8], pos: usize) -> (r: Result<(BoxMetadata, usize), FormatError>)
    ensures
        match r {
            Ok((m, e)) => dec_meta(s@, pos as int) == Some((m@, e as int)) && m.wf(),
            Err(e) => dec_meta(s@, pos as int) is None && e == meta_err(s@, pos as int),
        },
{
    let (n, start) = match read_varint(s, pos) {
        None => {
            return Err(FormatError::Truncated);
        },
        Some(p) => p,
    };
    let mut records: Vec<Record> = Vec::new();
    let mut left: u64 = n;
    let mut cur: usize = start;
    proof {
        assert(Seq::new(records@.len(), |i: int| records@[i]@) =~= Seq::<RecordV>::empty());
    }
    while left > 0
        invariant
            pos < cur <= s@.len(),
            forall|i: int| 0 <= i < records@.len() ==> (#[trigger] records@[i]@).wf(),
            dec_record_list(s@, start as int, n as int, Seq::empty()) == dec_record_list(
                s@,
                cur as int,
                left as int,
                Seq::new(records@.len(), |i: int| records@[i]@),
            ),
            dec_record_list(s@, start as int, n as int, Seq::empty()) is None ==> record_list_err(
                s@,
                start as int,
                n as int,
            ) == record_list_err(s@, cur as int, left as int),
        decreases left,
    {
        let (rec, p) = match read_record(s, cur) {
            Err(e) => {
                return Err(e);
            },
            Ok(p) => p,
        };
        let ghost rv = rec@;
        let ghost rv0 = Seq::new(records@.len(), |i: int| records@[i]@);
        records.push(rec);
        proof {
            assert(Seq::new(records@.len(), |i: int| records@[i]@) =~= rv0.push(rv));
        }
        left = left - 1;
        cur = p;
    }
    let (kn, kstart) = match read_varint(s, cur) {
        None => {
            return Err(FormatError::Truncated);
        },
        Some(p) => p,
    };
    let mut keys: Vec<String> = Vec::new();
    let mut kleft: u64 = kn;
    let mut kcur: usize = kstart;
    proof {
        assert(keys.deep_view() =~= Seq::<Seq<char>>::empty());
    }
    while kleft > 0
        invariant
            kcur <= s@.len(),
            crate::meta::wf_keys(keys.deep_view()),
            dec_key_list(s@, kstart as int, kn as int, Seq::empty()) == dec_key_list(
                s@,
                kcur as int,
                kleft as int,
                keys.deep_view(),
            ),
            dec_key_list(s@, kstart as int, kn as int, Seq::empty()) is None ==> key_list_err(
                s@,
                kstart as int,
                kn as int,
                Seq::empty(),
            ) == key_list_err(s@, kcur as int, kleft as int, keys.deep_view()),
        decreases kleft,
    {
        let (t, p) = match read_str(s, kcur) {
            None => {
                return Err(FormatError::Truncated);
            },
            Some(p) => p,
        };
        let mut dup = false;
        let kc = keys.len();
        let mut ki: usize = 0;
        while ki < kc
            invariant
                ki <= kc,
                kc == keys@.len(),
                dup == exists|m: int| 0 <= m < ki && keys.deep_view()[m] == t@,
            decreases kc - ki,
        {
            if crate::meta::str_eq(keys[ki].as_str(), t.as_str()) {
                proof {
                    assert(keys.deep_view()[ki as int] == t@);
                }
                dup = true;
            }
            ki = ki + 1;
        }
        if dup {
            proof {
                assert(has_intern(keys.deep_view(), t@));
            }
            return Err(FormatError::InvalidData);
        }
        proof {
            assert(!has_intern(keys.deep_view(), t@));
        }
        let ghost tv = t@;
        let ghost kv0 = keys.deep_view();
        keys.push(t);
        proof {
            assert(keys.deep_view() =~= kv0.push(tv));
            assert(crate::meta::wf_keys(keys.deep_view())) by {
                assert(forall|m: int|
                    0 <= m < kv0.len() ==> #[trigger] keys.deep_view()[m] == kv0[m]);
                assert(keys.deep_view()[kv0.len() as int] == tv);
            }
        }
        kleft = kleft - 1;
        kcur = p;
    }
    let (attrs, end) = match read_attrs(s, kcur) {
        Err(e) => {
            return Err(e);
        },
        Ok(p) => p,
    };
    let ghost rv = Seq::new(records@.len(), |i: int| records@[i]@);
    let ghost kv = keys.deep_view();
    let m = BoxMetadata::assemble(records, keys, attrs);
    proof {
        assert(m@ == (MetaV { records: rv, attr_keys: kv, attrs: m@.attrs }));
    }
    Ok((m, end))
}

// ---------------------------------------------------------------------------
// Round trip: every decoder inverts its encoder.
// ---------------------------------------------------------------------------
pub proof fn lemma_parent_round_trip(pre: Seq<u8>, p: Option<u64>, post: Seq<u8>)
    requires
        wf_parent(p),
    ensures
        dec_parent(pre + enc_parent(p) + post, pre.len() as int) == Some(
            (p, pre.len() + enc_parent(p).len() as int),
        ),
{
    lemma_varint_round_trip(pre, opt_word(p), post);
}

pub proof fn lemma_u64_round_trip(pre: Seq<u8>, x: u64, post: Seq<u8>)
    ensures
        dec_u64(pre + enc_le(x as int, 8) + post, pre.len() as int) == Some(
            (x, pre.len() + 8 as int),
        ),
{
    lemma_pow256_8();
    lemma_enc_le_len(x as int, 8);
    lemma_le_round_trip(pre, x as int, 8, post);
}

pub proof fn lemma_compression_round_trip(pre: Seq<u8>, c: Compression, post: Seq<u8>)
    requires
        c.wf(),
    ensures
        dec_compression(pre + seq![c.spec_id()] + post, pre.len() as int) == Some(
            (c, pre.len() + 1 as int),
        ),
{
    let s = pre + seq![c.spec_id()] + post;
    assert(s[pre.len() as int] == c.spec_id());
    crate::compression::lemma_compression_id_round_trip(c, 0);
}

pub proof fn lemma_path_round_trip(pre: Seq<u8>, p: Seq<Seq<char>>, post: Seq<u8>)
    requires
        wf_path_view(p),
        bounded_path(p),
    ensures
        dec_path(pre + enc_path(p) + post, pre.len() as int) == Some(
            (p, pre.len() + enc_path(p).len() as int),
        ),
{
    lemma_str_round_trip(pre, join_sep(p, '\u{1f}'), post);
    lemma_wire_round_trip(p);
}

pub proof fn lemma_attr_list_round_trip(
    pre: Seq<u8>,
    m: Seq<(u64, Seq<u8>)>,
    post: Seq<u8>,
    acc: Seq<(u64, Seq<u8>)>,
)
    requires
        wf_attrs(acc + m),
        forall|i: int| 0 <= i < m.len() ==> (#[trigger] m[i]).1.len() <= u64::MAX,
    ensures
        dec_attr_list(pre + enc_attr_list(m) + post, pre.len() as int, m.len() as int, acc)
            == Some((acc + m, pre.len() + enc_attr_list(m).len() as int)),
    decreases m.len(),
{
    let s = pre + enc_attr_list(m) + post;
    if m.len() == 0 {
        assert(acc + m =~= acc);
    } else {
        let e = m[0];
        let rest = enc_attr_list(m.drop_first());
        assert(pre + enc_varint(e.0) + (enc_bytes(e.1) + rest + post) =~= s);
        lemma_varint_round_trip(pre, e.0, enc_bytes(e.1) + rest + post);
        let pre2 = pre + enc_varint(e.0);
        assert(pre2 + enc_bytes(e.1) + (rest + post) =~= s);
        lemma_bytes_round_trip(pre2, e.1, rest + post);
        let pre3 = pre2 + enc_bytes(e.1);
        assert(!has_key(acc, e.0)) by {
            if has_key(acc, e.0) {
                let w = choose|i: int| 0 <= i < acc.len() && acc[i].0 == e.0;
                assert((acc + m)[w] == acc[w]);
                assert((acc + m)[acc.len() as int] == m[0]);
            }
        }
        assert(acc.push(e) + m.drop_first() =~= acc + m);
        assert(forall|i: int|
            0 <= i < m.drop_first().len() ==> (#[trigger] m.drop_first()[i]).1.len()
                <= u64::MAX) by {
            assert(forall|i: int|
                0 <= i < m.drop_first().len() ==> m.drop_first()[i] == m[i + 1]);
        }
        assert(pre3 + rest + post =~= s);
        lemma_attr_list_round_trip(pre3, m.drop_first(), post, acc.push(e));
        assert(e == (e.0, e.1));
    }
}

pub proof fn lemma_attrs_round_trip(pre: Seq<u8>, m: Seq<(u64, Seq<u8>)>, post: Seq<u8>)
    requires
        wf_attrs(m),
        bounded_attrs(m),
    ensures
        dec_attrs(pre + enc_attrs(m) + post, pre.len() as int) == Some(
            (m, pre.len() + enc_attrs(m).len() as int),
        ),
{
    let s = pre + enc_attrs(m) + post;
    let n: u64 = m.len() as u64;
    assert(pre + enc_varint(n) + (enc_attr_list(m) + post) =~= s);
    lemma_varint_round_trip(pre, n, enc_attr_list(m) + post);
    let pre2 = pre + enc_varint(n);
    assert(pre2 + enc_attr_list(m) + post =~= s);
    assert(Seq::<(u64, Seq<u8>)>::empty() + m =~= m);
    lemma_attr_list_round_trip(pre2, m, post, Seq::empty());
}

pub proof fn lemma_child_list_round_trip(pre: Seq<u8>, c: Seq<u64>, post: Seq<u8>, acc: Seq<u64>)
    requires
        forall|i: int| 0 <= i < c.len() ==> #[trigger] c[i] >= 1,
    ensures
        dec_child_list(pre + enc_child_list(c) + post, pre.len() as int, c.len() as int, acc)
            == Some((acc + c, pre.len() + enc_child_list(c).len() as int)),
    decreases c.len(),
{
    let s = pre + enc_child_list(c) + post;
    if c.len() == 0 {
        assert(acc + c =~= acc);
    } else {
        let rest = enc_child_list(c.drop_first());
        assert(pre + enc_varint(c[0]) + (rest + post) =~= s);
        lemma_varint_round_trip(pre, c[0], rest + post);
        let pre2 = pre + enc_varint(c[0]);
        assert(pre2 + rest + post =~= s);
        assert(acc.push(c[0]) + c.drop_first() =~= acc + c);
        assert(forall|i: int| 0 <= i < c.drop_first().len() ==> #[trigger] c.drop_first()[i] >= 1)
            by {
            assert(forall|i: int| 0 <= i < c.drop_first().len() ==> c.drop_first()[i] == c[i + 1]);
        }
        lemma_child_list_round_trip(pre2, c.drop_first(), post, acc.push(c[0]));
    }
}

#[verifier::rlimit(100)]
pub proof fn lemma_file_round_trip(pre: Seq<u8>, f: FileV, post: Seq<u8>)
    requires
        f.wf(),
        bounded_path(f.path),
        bounded_attrs(f.attrs),
    ensures
        dec_file(pre + enc_file(f) + post, pre.len() as int) == Some(
            (f, pre.len() + enc_file(f).len() as int),
        ),
{
    let s = pre + enc_file(f) + post;
    let e1 = enc_parent(f.parent);
    let e2 = seq![f.compression.spec_id()];
    let e3 = enc_le(f.length as int, 8);
    let e4 = enc_le(f.decompressed_length as int, 8);
    let e5 = enc_path(f.path);
    let e6 = enc_attrs(f.attrs);
    let e7 = enc_le(f.data as int, 8);
    let p0 = pre.len() as int;
    let p1 = p0 + e1.len();
    let p2 = p1 + e2.len();
    let p3 = p2 + e3.len();
    let p4 = p3 + e4.len();
    let p5 = p4 + e5.len();
    let p6 = p5 + e6.len();
    let p7 = p6 + e7.len();
    assert(dec_parent(s, p0) == Some((f.parent, p1))) by {
        assert(pre + e1 + (e2 + e3 + e4 + e5 + e6 + e7 + post) =~= s);
        lemma_parent_round_trip(pre, f.parent, e2 + e3 + e4 + e5 + e6 + e7 + post);
    }
    assert(dec_compression(s, p1) == Some((f.compression, p2))) by {
        let q = pre + e1;
        assert(q + e2 + (e3 + e4 + e5 + e6 + e7 + post) =~= s);
        lemma_compression_round_trip(q, f.compression, e3 + e4 + e5 + e6 + e7 + post);
    }
    assert(dec_u64(s, p2) == Some((f.length, p3))) by {
        let q = pre + e1 + e2;
        assert(q + e3 + (e4 + e5 + e6 + e7 + post) =~= s);
        lemma_u64_round_trip(q, f.length, e4 + e5 + e6 + e7 + post);
        lemma_enc_le_len(f.length as int, 8);
    }
    assert(dec_u64(s, p3) == Some((f.decompressed_length, p4))) by {
        let q = pre + e1 + e2 + e3;
        assert(q + e4 + (e5 + e6 + e7 + post) =~= s);
        lemma_u64_round_trip(q, f.decompressed_length, e5 + e6 + e7 + post);
        lemma_enc_le_len(f.decompressed_length as int, 8);
    }
    assert(dec_path(s, p4) == Some((f.path, p5))) by {
        let q = pre + e1 + e2 + e3 + e4;
        assert(q + e5 + (e6 + e7 + post) =~= s);
        lemma_path_round_trip(q, f.path, e6 + e7 + post);
    }
    assert(dec_attrs(s, p5) == Some((f.attrs, p6))) by {
        let q = pre + e1 + e2 + e3 + e4 + e5;
        assert(q + e6 + (e7 + post) =~= s);
        lemma_attrs_round_trip(q, f.attrs, e7 + post);
    }
    assert(dec_u64(s, p6) == Some((f.data, p7))) by {
        let q = pre + e1 + e2 + e3 + e4 + e5 + e6;
        assert(q + e7 + post =~= s);
        lemma_u64_round_trip(q, f.data, post);
        lemma_enc_le_len(f.data as int, 8);
    }
    assert(f == (FileV {
        parent: f.parent,
        compression: f.compression,
        length: f.length,
        decompressed_length: f.decompressed_length,
        path: f.path,
        attrs: f.attrs,
        data: f.data,
    }));
    assert(p7 == pre.len() + enc_file(f).len());
}

#[verifier::rlimit(100)]
pub proof fn lemma_directory_round_trip(pre: Seq<u8>, d: DirectoryV, post: Seq<u8>)
    requires
        d.wf(),
        bounded_path(d.path),
        bounded_attrs(d.attrs),
        d.children.len() <= u64::MAX,
    ensures
        dec_directory(pre + enc_directory(d) + post, pre.len() as int) == Some(
            (d, pre.len() + enc_directory(d).len() as int),
        ),
{
    let s = pre + enc_directory(d) + post;
    let e1 = enc_parent(d.parent);
    let e2 = enc_path(d.path);
    let e3 = enc_varint(d.children.len() as u64);
    let e4 = enc_child_list(d.children);
    let e5 = enc_attrs(d.attrs);
    assert(pre + e1 + (e2 + e3 + e4 + e5 + post) =~= s);
    lemma_parent_round_trip(pre, d.parent, e2 + e3 + e4 + e5 + post);
    let q1 = pre + e1;
    assert(q1 + e2 + (e3 + e4 + e5 + post) =~= s);
    lemma_path_round_trip(q1, d.path, e3 + e4 + e5 + post);
    let q2 = q1 + e2;
    assert(q2 + e3 + (e4 + e5 + post) =~= s);
    lemma_varint_round_trip(q2, d.children.len() as u64, e4 + e5 + post);
    let q3 = q2 + e3;
    assert(q3 + e4 + (e5 + post) =~= s);
    assert(Seq::<u64>::empty() + d.children =~= d.children);
    lemma_child_list_round_trip(q3, d.children, e5 + post, Seq::empty());
    let q4 = q3 + e4;
    assert(q4 + e5 + post =~= s);
    lemma_attrs_round_trip(q4, d.attrs, post);
    assert(d == (DirectoryV {
        parent: d.parent,
        path: d.path,
        children: d.children,
        attrs: d.attrs,
    }));
}

#[verifier::rlimit(100)]
pub proof fn lemma_link_round_trip(pre: Seq<u8>, l: LinkV, post: Seq<u8>)
    requires
        l.wf(),
        bounded_path(l.path),
        bounded_path(l.target),
        bounded_attrs(l.attrs),
    ensures
        dec_link(pre + enc_link(l) + post, pre.len() as int) == Some(
            (l, pre.len() + enc_link(l).len() as int),
        ),
{
    let s = pre + enc_link(l) + post;
    let e1 = enc_parent(l.parent);
    let e2 = enc_path(l.path);
    let e3 = enc_path(l.target);
    let e4 = enc_attrs(l.attrs);
    assert(pre + e1 + (e2 + e3 + e4 + post) =~= s);
    lemma_parent_round_trip(pre, l.parent, e2 + e3 + e4 + post);
    let q1 = pre + e1;
    assert(q1 + e2 + (e3 + e4 + post) =~= s);
    lemma_path_round_trip(q1, l.path, e3 + e4 + post);
    let q2 = q1 + e2;
    assert(q2 + e3 + (e4 + post) =~= s);
    lemma_path_round_trip(q2, l.target, e4 + post);
    let q3 = q2 + e3;
    assert(q3 + e4 + post =~= s);
    lemma_attrs_round_trip(q3, l.attrs, post);
    assert(l == (LinkV { parent: l.parent, path: l.path, target: l.target, attrs: l.attrs }));
}

#[verifier::rlimit(100)]
pub proof fn lemma_record_round_trip(pre: Seq<u8>, r: RecordV, post: Seq<u8>)
    requires
        r.wf(),
        bounded_record(r),
    ensures
        dec_record(pre + enc_record(r) + post, pre.len() as int) == Some(
            (r, pre.len() + enc_record(r).len() as int),
        ),
{
    let s = pre + enc_record(r) + post;
    match r {
        RecordV::File(f) => {
            assert(s[pre.len() as int] == 0u8);
            let pre2 = pre + seq![0u8];
            assert(pre2 + enc_file(f) + post =~= s);
            lemma_file_round_trip(pre2, f, post);
        },
        RecordV::Directory(d) => {
            assert(s[pre.len() as int] == 1u8);
            let pre2 = pre + seq![1u8];
            assert(pre2 + enc_directory(d) + post =~= s);
            lemma_directory_round_trip(pre2, d, post);
        },
        RecordV::Link(l) => {
            assert(s[pre.len() as int] == 2u8);
            let pre2 = pre + seq![2u8];
            assert(pre2 + enc_link(l) + post =~= s);
            lemma_link_round_trip(pre2, l, post);
        },
    }
}

/// One step of a record-list decode: with the head record decoded,
/// the list decode continues after it.
proof fn lemma_record_list_step(
    s: Seq<u8>,
    pos: int,
    count: int,
    acc: Seq<RecordV>,
    r: RecordV,
    p: int,
)
    requires
        count > 0,
        dec_record(s, pos) == Some((r, p)),
    ensures
        dec_record_list(s, pos, count, acc) == dec_record_list(s, p, count - 1, acc.push(r)),
{
}

#[verifier::rlimit(100)]
pub proof fn lemma_record_list_round_trip(
    pre: Seq<u8>,
    rs: Seq<RecordV>,
    post: Seq<u8>,
    acc: Seq<RecordV>,
)
    requires
        forall|i: int| 0 <= i < rs.len() ==> (#[trigger] rs[i]).wf() && bounded_record(rs[i]),
    ensures
        dec_record_list(pre + enc_record_list(rs) + post, pre.len() as int, rs.len() as int, acc)
            == Some((acc + rs, pre.len() + enc_record_list(rs).len() as int)),
    decreases rs.len(),
{
    let s = pre + enc_record_list(rs) + post;
    if rs.len() == 0 {
        assert(acc + rs =~= acc);
    } else {
        let rest = enc_record_list(rs.drop_first());
        assert(pre + enc_record(rs[0]) + (rest + post) =~= s);
        lemma_record_round_trip(pre, rs[0], rest + post);
        let pre2 = pre + enc_record(rs[0]);
        lemma_record_list_step(
            s,
            pre.len() as int,
            rs.len() as int,
            acc,
            rs[0],
            pre2.len() as int,
        );
        assert(pre2 + rest + post =~= s);
        assert(acc.push(rs[0]) + rs.drop_first() =~= acc + rs);
        assert(forall|i: int|
            0 <= i < rs.drop_first().len() ==> (#[trigger] rs.drop_first()[i]).wf()
                && bounded_record(rs.drop_first()[i])) by {
            assert(forall|i: int|
                0 <= i < rs.drop_first().len() ==> rs.drop_first()[i] == rs[i + 1]);
        }
        lemma_record_list_round_trip(pre2, rs.drop_first(), post, acc.push(rs[0]));
    }
}

pub proof fn lemma_key_list_round_trip(
    pre: Seq<u8>,
    ks: Seq<Seq<char>>,
    post: Seq<u8>,
    acc: Seq<Seq<char>>,
)
    requires
        wf_keys(acc + ks),
        forall|i: int| 0 <= i < ks.len() ==> vstd::utf8::encode_utf8(#[trigger] ks[i]).len()
            <= u64::MAX,
    ensures
        dec_key_list(pre + enc_key_list(ks) + post, pre.len() as int, ks.len() as int, acc)
            == Some((acc + ks, pre.len() + enc_key_list(ks).len() as int)),
    decreases ks.len(),
{
    let s = pre + enc_key_list(ks) + post;
    if ks.len() == 0 {
        assert(acc + ks =~= acc);
    } else {
        let rest = enc_key_list(ks.drop_first());
        assert(pre + enc_str(ks[0]) + (rest + post) =~= s);
        lemma_str_round_trip(pre, ks[0], rest + post);
        let pre2 = pre + enc_str(ks[0]);
        assert(pre2 + rest + post =~= s);
        assert(!has_intern(acc, ks[0])) by {
            if has_intern(acc, ks[0]) {
                let w = choose|i: int| 0 <= i < acc.len() && acc[i] == ks[0];
                assert((acc + ks)[w] == acc[w]);
                assert((acc + ks)[acc.len() as int] == ks[0]);
            }
        }
        assert(acc.push(ks[0]) + ks.drop_first() =~= acc + ks);
        assert(forall|i: int|
            0 <= i < ks.drop_first().len() ==> vstd::utf8::encode_utf8(
                #[trigger] ks.drop_first()[i],
            ).len() <= u64::MAX) by {
            assert(forall|i: int|
                0 <= i < ks.drop_first().len() ==> ks.drop_first()[i] == ks[i + 1]);
        }
        lemma_key_list_round_trip(pre2, ks.drop_first(), post, acc.push(ks[0]));
    }
}

/// Metadata survives the wire unchanged: decoding its encoding yields
/// the same value, field for field.

/// Reassociations of a five-part encoding inside a larger buffer.
#[verifier::rlimit(100)]
proof fn lemma_spine5(
    pre: Seq<u8>,
    a: Seq<u8>,
    b: Seq<u8>,
    c: Seq<u8>,
    d: Seq<u8>,
    e: Seq<u8>,
    post: Seq<u8>,
)
    ensures
        pre + (a + b + c + d + e) + post == pre + a + (b + c + d + e + post),
        pre + (a + b + c + d + e) + post == (pre + a) + b + (c + d + e + post),
        pre + (a + b + c + d + e) + post == (pre + a + b) + c + (d + e + post),
        pre + (a + b + c + d + e) + post == (pre + a + b + c) + d + (e + post),
        pre + (a + b + c + d + e) + post == (pre + a + b + c + d) + e + post,
{
    assert(pre + (a + b + c + d + e) + post =~= pre + a + (b + c + d + e + post));
    assert(pre + (a + b + c + d + e) + post =~= (pre + a) + b + (c + d + e + post));
    assert(pre + (a + b + c + d + e) + post =~= (pre + a + b) + c + (d + e + post));
    assert(pre + (a + b + c + d + e) + post =~= (pre + a + b + c) + d + (e + post));
    assert(pre + (a + b + c + d + e) + post =~= (pre + a + b + c + d) + e + post);
}

#[verifier::rlimit(100)]
pub proof fn lemma_meta_round_trip(pre: Seq<u8>, m: MetaV, post: Seq<u8>)
    requires
        m.wf(),
        bounded_meta(m),
    ensures
        dec_meta(pre + enc_meta(m) + post, pre.len() as int) == Some(
            (m, pre.len() + enc_meta(m).len() as int),
        ),
{
    let s = pre + enc_meta(m) + post;
    let e1 = enc_varint(m.records.len() as u64);
    let e2 = enc_record_list(m.records);
    let e3 = enc_varint(m.attr_keys.len() as u64);
    let e4 = enc_key_list(m.attr_keys);
    let e5 = enc_attrs(m.attrs);
    let p0 = pre.len() as int;
    let p1 = p0 + e1.len();
    let p2 = p1 + e2.len();
    let p3 = p2 + e3.len();
    let p4 = p3 + e4.len();
    let p5 = p4 + e5.len();
    lemma_spine5(pre, e1, e2, e3, e4, e5, post);
    assert(dec_varint(s, p0) == Some((m.records.len() as u64, p1))) by {
        lemma_varint_round_trip(pre, m.records.len() as u64, e2 + e3 + e4 + e5 + post);
    }
    assert(dec_record_list(s, p1, m.records.len() as int, Seq::empty()) == Some((m.records, p2)))
        by {
        assert(Seq::<RecordV>::empty() + m.records =~= m.records);
        lemma_record_list_round_trip(pre + e1, m.records, e3 + e4 + e5 + post, Seq::empty());
    }
    assert(dec_varint(s, p2) == Some((m.attr_keys.len() as u64, p3))) by {
        lemma_varint_round_trip(pre + e1 + e2, m.attr_keys.len() as u64, e4 + e5 + post);
    }
    assert(dec_key_list(s, p3, m.attr_keys.len() as int, Seq::empty()) == Some((m.attr_keys, p4)))
        by {
        assert(Seq::<Seq<char>>::empty() + m.attr_keys =~= m.attr_keys);
        lemma_key_list_round_trip(pre + e1 + e2 + e3, m.attr_keys, e5 + post, Seq::empty());
    }
    assert(dec_attrs(s, p4) == Some((m.attrs, p5))) by {
        lemma_attrs_round_trip(pre + e1 + e2 + e3 + e4, m.attrs, post);
    }
    assert(m == (MetaV { records: m.records, attr_keys: m.attr_keys, attrs: m.attrs }));
    assert(p5 == pre.len() + enc_meta(m).len());
}

} // verus!
