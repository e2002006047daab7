//! Wire encoding of records, attribute tables and whole metadata.
//!
//! Record tag bytes: 0 for a file, 1 for a directory, 2 for a link.
//! Counts, parent references, child positions and attribute-key ids
//! are variable-length integers; payload lengths and offsets are 8
//! little-endian bytes; the compression id is one byte.
use vstd::prelude::*;

use crate::codec::{enc_bytes, enc_le, enc_str, enc_varint, lemma_pow256_8, write_bytes, write_le,
    write_str, write_varint};
use crate::header::opt_word;
use crate::meta::{BoxMetadata, MetaV};
use crate::path::{join_sep, BoxPath};
use crate::record::{AttrMap, DirectoryV, FileV, LinkV, Record, RecordV};
use vstd::utf8::encode_utf8;

verus! {

/// Spec encoding of a parent reference: its 1-based position, or zero
/// for none.
pub open spec fn enc_parent(p: Option<u64>) -> Seq<u8> {
    enc_varint(opt_word(p))
}

/// Spec encoding of a canonical path: its components joined by the
/// private unit separator, as a string.
pub open spec fn enc_path(p: Seq<Seq<char>>) -> Seq<u8> {
    enc_str(join_sep(p, '\u{1f}'))
}

/// Spec encoding of one attribute entry: key id, then value blob.
pub open spec fn enc_attr_entry(e: (u64, Seq<u8>)) -> Seq<u8> {
    enc_varint(e.0) + enc_bytes(e.1)
}

/// Spec encoding of the entries of an attribute map, in order.
pub open spec fn enc_attr_list(m: Seq<(u64, Seq<u8>)>) -> Seq<u8>
    decreases m.len(),
{
    if m.len() == 0 {
        Seq::empty()
    } else {
        enc_attr_entry(m[0]) + enc_attr_list(m.drop_first())
    }
}

/// Spec encoding of an attribute map: entry count, then entries.
pub open spec fn enc_attrs(m: Seq<(u64, Seq<u8>)>) -> Seq<u8> {
    enc_varint(m.len() as u64) + enc_attr_list(m)
}

/// Spec encoding of a directory's child positions, in order.
pub open spec fn enc_child_list(c: Seq<u64>) -> Seq<u8>
    decreases c.len(),
{
    if c.len() == 0 {
        Seq::empty()
    } else {
        enc_varint(c[0]) + enc_child_list(c.drop_first())
    }
}

/// Spec encoding of a file record, after its tag byte.
pub open spec fn enc_file(f: FileV) -> Seq<u8> {
    enc_parent(f.parent) + seq![f.compression.spec_id()] + enc_le(f.length as int, 8) + enc_le(
        f.decompressed_length as int,
        8,
    ) + enc_path(f.path) + enc_attrs(f.attrs) + enc_le(f.data as int, 8)
}

/// Spec encoding of a directory record, after its tag byte.
pub open spec fn enc_directory(d: DirectoryV) -> Seq<u8> {
    enc_parent(d.parent) + enc_path(d.path) + enc_varint(d.children.len() as u64) + enc_child_list(
        d.children,
    ) + enc_attrs(d.attrs)
}

/// Spec encoding of a link record, after its tag byte.
pub open spec fn enc_link(l: LinkV) -> Seq<u8> {
    enc_parent(l.parent) + enc_path(l.path) + enc_path(l.target) + enc_attrs(l.attrs)
}

/// Spec encoding of a record: a tag byte, then the fields.
pub open spec fn enc_record(r: RecordV) -> Seq<u8> {
    match r {
        RecordV::File(f) => seq![0u8] + enc_file(f),
        RecordV::Directory(d) => seq![1u8] + enc_directory(d),
        RecordV::Link(l) => seq![2u8] + enc_link(l),
    }
}

/// Spec encoding of the records of the table, in order.
pub open spec fn enc_record_list(rs: Seq<RecordV>) -> Seq<u8>
    decreases rs.len(),
{
    if rs.len() == 0 {
        Seq::empty()
    } else {
        enc_record(rs[0]) + enc_record_list(rs.drop_first())
    }
}

/// Spec encoding of the interned key strings, in order.
pub open spec fn enc_key_list(ks: Seq<Seq<char>>) -> Seq<u8>
    decreases ks.len(),
{
    if ks.len() == 0 {
        Seq::empty()
    } else {
        enc_str(ks[0]) + enc_key_list(ks.drop_first())
    }
}

/// Spec encoding of the whole metadata trailer: the record table, the
/// attribute-key intern table, and the archive-level attribute map,
/// each length-prefixed.
pub open spec fn enc_meta(m: MetaV) -> Seq<u8> {
    enc_varint(m.records.len() as u64) + enc_record_list(m.records) + enc_varint(
        m.attr_keys.len() as u64,
    ) + enc_key_list(m.attr_keys) + enc_attrs(m.attrs)
}

// ---------------------------------------------------------------------------
// Machine-representable sizes: what must fit in 64 bits for a value to
// survive the wire unchanged. Every value an executable archive holds
// satisfies these.
// ---------------------------------------------------------------------------
pub open spec fn bounded_attrs(m: Seq<(u64, Seq<u8>)>) -> bool {
    m.len() <= u64::MAX && forall|i: int|
        0 <= i < m.len() ==> (#[trigger] m[i]).1.len() <= u64::MAX
}

pub open spec fn bounded_path(p: Seq<Seq<char>>) -> bool {
    encode_utf8(join_sep(p, '\u{1f}')).len() <= u64::MAX
}

pub open spec fn bounded_record(r: RecordV) -> bool {
    match r {
        RecordV::File(f) => bounded_path(f.path) && bounded_attrs(f.attrs),
        RecordV::Directory(d) => bounded_path(d.path) && bounded_attrs(d.attrs)
            && d.children.len() <= u64::MAX,
        RecordV::Link(l) => bounded_path(l.path) && bounded_path(l.target) && bounded_attrs(
            l.attrs,
        ),
    }
}

pub open spec fn bounded_meta(m: MetaV) -> bool {
    &&& m.records.len() <= u64::MAX
    &&& forall|i: int| 0 <= i < m.records.len() ==> bounded_record(#[trigger] m.records[i])
    &&& m.attr_keys.len() <= u64::MAX
    &&& forall|i: int|
        0 <= i < m.attr_keys.len() ==> encode_utf8(#[trigger] m.attr_keys[i]).len() <= u64::MAX
    &&& bounded_attrs(m.attrs)
}

// ---------------------------------------------------------------------------
// List encodings grow one element at a time from the left.
// ---------------------------------------------------------------------------
pub proof fn lemma_attr_list_snoc(m: Seq<(u64, Seq<u8>)>, i: int)
    requires
        0 <= i < m.len(),
    ensures
        enc_attr_list(m.take(i + 1)) == enc_attr_list(m.take(i)) + enc_attr_entry(m[i]),
    decreases i,
{
    if i == 0 {
        reveal_with_fuel(enc_attr_list, 2);
        assert(m.take(1) =~= seq![m[0]]);
        assert(m.take(0) =~= Seq::<(u64, Seq<u8>)>::empty());
        assert(seq![m[0]].drop_first() =~= Seq::<(u64, Seq<u8>)>::empty());
        assert(enc_attr_list(seq![m[0]]) =~= enc_attr_entry(m[0]));
        assert(enc_attr_list(m.take(0)) + enc_attr_entry(m[0]) =~= enc_attr_entry(m[0]));
    } else {
        lemma_attr_list_snoc(m.drop_first(), i - 1);
        assert(m.take(i + 1).drop_first() =~= m.drop_first().take(i));
        assert(m.take(i).drop_first() =~= m.drop_first().take(i - 1));
        assert(m.take(i + 1)[0] == m[0] && m.take(i)[0] == m[0]);
        assert(m.drop_first()[i - 1] == m[i]);
        assert(enc_attr_entry(m[0]) + (enc_attr_list(m.drop_first().take(i - 1)) + enc_attr_entry(
            m[i],
        )) =~= (enc_attr_entry(m[0]) + enc_attr_list(m.drop_first().take(i - 1))) + enc_attr_entry(
            m[i],
        ));
    }
}

pub proof fn lemma_child_list_snoc(c: Seq<u64>, i: int)
    requires
        0 <= i < c.len(),
    ensures
        enc_child_list(c.take(i + 1)) == enc_child_list(c.take(i)) + enc_varint(c[i]),
    decreases i,
{
    if i == 0 {
        reveal_with_fuel(enc_child_list, 2);
        assert(c.take(1) =~= seq![c[0]]);
        assert(c.take(0) =~= Seq::<u64>::empty());
        assert(seq![c[0]].drop_first() =~= Seq::<u64>::empty());
        assert(enc_child_list(seq![c[0]]) =~= enc_varint(c[0]));
        assert(enc_child_list(c.take(0)) + enc_varint(c[0]) =~= enc_varint(c[0]));
    } else {
        lemma_child_list_snoc(c.drop_first(), i - 1);
        assert(c.take(i + 1).drop_first() =~= c.drop_first().take(i));
        assert(c.take(i).drop_first() =~= c.drop_first().take(i - 1));
        assert(c.take(i + 1)[0] == c[0] && c.take(i)[0] == c[0]);
        assert(c.drop_first()[i - 1] == c[i]);
        assert(enc_varint(c[0]) + (enc_child_list(c.drop_first().take(i - 1)) + enc_varint(c[i]))
            =~= (enc_varint(c[0]) + enc_child_list(c.drop_first().take(i - 1))) + enc_varint(c[i]));
    }
}

pub proof fn lemma_record_list_snoc(rs: Seq<RecordV>, i: int)
    requires
        0 <= i < rs.len(),
    ensures
        enc_record_list(rs.take(i + 1)) == enc_record_list(rs.take(i)) + enc_record(rs[i]),
    decreases i,
{
    if i == 0 {
        reveal_with_fuel(enc_record_list, 2);
        assert(rs.take(1) =~= seq![rs[0]]);
        assert(rs.take(0) =~= Seq::<RecordV>::empty());
        assert(seq![rs[0]].drop_first() =~= Seq::<RecordV>::empty());
        assert(enc_record_list(seq![rs[0]]) =~= enc_record(rs[0]));
        assert(enc_record_list(rs.take(0)) + enc_record(rs[0]) =~= enc_record(rs[0]));
    } else {
        lemma_record_list_snoc(rs.drop_first(), i - 1);
        assert(rs.take(i + 1).drop_first() =~= rs.drop_first().take(i));
        assert(rs.take(i).drop_first() =~= rs.drop_first().take(i - 1));
        assert(rs.take(i + 1)[0] == rs[0] && rs.take(i)[0] == rs[0]);
        assert(rs.drop_first()[i - 1] == rs[i]);
        assert(enc_record(rs[0]) + (enc_record_list(rs.drop_first().take(i - 1)) + enc_record(
            rs[i],
        )) =~= (enc_record(rs[0]) + enc_record_list(rs.drop_first().take(i - 1))) + enc_record(
            rs[i],
        ));
    }
}

pub proof fn lemma_key_list_snoc(ks: Seq<Seq<char>>, i: int)
    requires
        0 <= i < ks.len(),
    ensures
        enc_key_list(ks.take(i + 1)) == enc_key_list(ks.take(i)) + enc_str(ks[i]),
    decreases i,
{
    if i == 0 {
        reveal_with_fuel(enc_key_list, 2);
        assert(ks.take(1) =~= seq![ks[0]]);
        assert(ks.take(0) =~= Seq::<Seq<char>>::empty());
        assert(seq![ks[0]].drop_first() =~= Seq::<Seq<char>>::empty());
        assert(enc_key_list(seq![ks[0]]) =~= enc_str(ks[0]));
        assert(enc_key_list(ks.take(0)) + enc_str(ks[0]) =~= enc_str(ks[0]));
    } else {
        lemma_key_list_snoc(ks.drop_first(), i - 1);
        assert(ks.take(i + 1).drop_first() =~= ks.drop_first().take(i));
        assert(ks.take(i).drop_first() =~= ks.drop_first().take(i - 1));
        assert(ks.take(i + 1)[0] == ks[0] && ks.take(i)[0] == ks[0]);
        assert(ks.drop_first()[i - 1] == ks[i]);
        assert(enc_str(ks[0]) + (enc_key_list(ks.drop_first().take(i - 1)) + enc_str(ks[i])) =~= (
        enc_str(ks[0]) + enc_key_list(ks.drop_first().take(i - 1))) + enc_str(ks[i]));
    }
}

// ---------------------------------------------------------------------------
// Writers.
// ---------------------------------------------------------------------------
/// Writes a parent reference.
fn write_parent(out: &mut Vec<u8>, p: Option<u64>)
    ensures
        final(out)@ == old(out)@ + enc_parent(p),
{
    let w = match p {
        Some(q) => q,
        None => 0,
    };
    write_varint(out, w);
}

/// Writes a canonical path in its wire form.
pub fn write_path(out: &mut Vec<u8>, p: &BoxPath)
    ensures
        final(out)@ == old(out)@ + enc_path(p@),
{
    let w = p.wire_string();
    write_str(out, w.as_str());
}

/// Writes an attribute map: entry count, then each entry.
#[verifier::loop_isolation(false)]
pub fn write_attrs(out: &mut Vec<u8>, m: &AttrMap)
    ensures
        final(out)@ == old(out)@ + enc_attrs(m@),
{
    let n = m.len();
    write_varint(out, n as u64);
    let ghost base = out@;
    let mut i: usize = 0;
    proof {
        assert(m@.take(0) =~= Seq::<(u64, Seq<u8>)>::empty());
        assert(base + enc_attr_list(m@.take(0)) =~= base);
    }
    while i < n
        invariant
            i <= n,
            n == m@.len(),
            out@ == base + enc_attr_list(m@.take(i as int)),
        decreases n - i,
    {
        let (k, v) = m.entry_at(i);
        write_varint(out, k);
        write_bytes(out, v.as_slice());
        proof {
            lemma_attr_list_snoc(m@, i as int);
            assert(out@ =~= base + enc_attr_list(m@.take(i + 1)));
        }
        i = i + 1;
    }
    proof {
        assert(m@.take(n as int) =~= m@);
        assert(out@ =~= old(out)@ + enc_attrs(m@));
    }
}

/// Writes a record: its tag byte, then its fields.
#[verifier::loop_isolation(false)]
pub fn write_record(out: &mut Vec<u8>, r: &Record)
    ensures
        final(out)@ == old(out)@ + enc_record(r@),
{
    match r {
        Record::File(f) => {
            out.push(0u8);
            proof {
                assert(out@ =~= old(out)@ + seq![0u8]);
            }
            write_parent(out, f.parent);
            out.push(f.compression.id());
            proof {
                assert(out@ =~= old(out)@ + seq![0u8] + enc_parent(f.parent) + seq![
                    f.compression.spec_id()
                ]);
            }
            proof {
                lemma_pow256_8();
            }
            write_le(out, f.length, 8);
            write_le(out, f.decompressed_length, 8);
            write_path(out, &f.path);
            write_attrs(out, &f.attrs);
            write_le(out, f.data, 8);
            proof {
                assert(out@ =~= old(out)@ + enc_record(r@));
            }
        },
        Record::Directory(d) => {
            out.push(1u8);
            proof {
                assert(out@ =~= old(out)@ + seq![1u8]);
            }
            write_parent(out, d.parent);
            write_path(out, &d.path);
            let n = d.children.len();
            write_varint(out, n as u64);
            let ghost base = out@;
            let mut i: usize = 0;
            proof {
                assert(d.children@.take(0) =~= Seq::<u64>::empty());
                assert(base + enc_child_list(d.children@.take(0)) =~= base);
            }
            while i < n
                invariant
                    i <= n,
                    n == d.children@.len(),
                    out@ == base + enc_child_list(d.children@.take(i as int)),
                decreases n - i,
            {
                write_varint(out, d.children[i]);
                proof {
                    lemma_child_list_snoc(d.children@, i as int);
                    assert(out@ =~= base + enc_child_list(d.children@.take(i + 1)));
                }
                i = i + 1;
            }
            proof {
                assert(d.children@.take(n as int) =~= d.children@);
            }
            write_attrs(out, &d.attrs);
            proof {
                assert(out@ =~= old(out)@ + enc_record(r@));
            }
        },
        Record::Link(l) => {
            out.push(2u8);
            proof {
                assert(out@ =~= old(out)@ + seq![2u8]);
            }
            write_parent(out, l.parent);
            write_path(out, &l.path);
            write_path(out, &l.target);
            write_attrs(out, &l.attrs);
            proof {
                assert(out@ =~= old(out)@ + enc_record(r@));
            }
        },
    }
}

/// Serializes the whole metadata trailer, exactly as [`enc_meta`]
/// describes.
#[verifier::loop_isolation(false)]
pub fn encode_meta(m: &BoxMetadata) -> (r: Vec<u8>)
    ensures
        r@ == enc_meta(m@),
{
    let mut out: Vec<u8> = Vec::new();
    let n = m.record_count();
    write_varint(&mut out, n as u64);
    let ghost base = out@;
    let mut i: usize = 0;
    proof {
        assert(m@.records.take(0) =~= Seq::<RecordV>::empty());
        assert(base + enc_record_list(m@.records.take(0)) =~= base);
    }
    while i < n
        invariant
            i <= n,
            n == m@.records.len(),
            out@ == base + enc_record_list(m@.records.take(i as int)),
        decreases n - i,
    {
        write_record(&mut out, m.record_at(i));
        proof {
            lemma_record_list_snoc(m@.records, i as int);
            assert(out@ =~= base + enc_record_list(m@.records.take(i + 1)));
        }
        i = i + 1;
    }
    proof {
        assert(m@.records.take(n as int) =~= m@.records);
    }
    let kn = m.attr_key_count();
    write_varint(&mut out, kn as u64);
    let ghost kbase = out@;
    let mut k: usize = 0;
    proof {
        assert(m@.attr_keys.take(0) =~= Seq::<Seq<char>>::empty());
        assert(kbase + enc_key_list(m@.attr_keys.take(0)) =~= kbase);
    }
    while k < kn
        invariant
            k <= kn,
            kn == m@.attr_keys.len(),
            out@ == kbase + enc_key_list(m@.attr_keys.take(k as int)),
        decreases kn - k,
    {
        write_str(&mut out, m.attr_key_at(k).as_str());
        proof {
            lemma_key_list_snoc(m@.attr_keys, k as int);
            assert(out@ =~= kbase + enc_key_list(m@.attr_keys.take(k + 1)));
        }
        k = k + 1;
    }
    proof {
        assert(m@.attr_keys.take(kn as int) =~= m@.attr_keys);
    }
    write_attrs(&mut out, m.attrs());
    proof {
        assert(out@ =~= enc_meta(m@));
    }
    out
}

} // verus!
