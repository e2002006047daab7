//! The writer: allocation and alignment policy, tree mutation, and the
//! byte images handed to the embedding application to put on disk.
//!
//! Every operation is a pure state transition: it updates the
//! in-memory header and metadata and returns what must be written
//! where. Payload regions are allocated at or after the end of the
//! last payload, never overlapping, and aligned when the archive asks
//! for it.
use vstd::prelude::*;

use crate::compress::{compress_bytes, compressed_of, decoded_of};
use crate::compression::Compression;
use crate::error::BoxError;
use crate::header::{enc_header, BoxHeader, FORMAT_VERSION, HEADER_SIZE};
use crate::meta::{attrs_set_spec, first_path_at, has_intern, has_path, intern_at,
    same_but_children, wf_links, wf_tree, BoxMetadata, MetaV};
use crate::path::BoxPath;
use crate::record::{AttrMap, DirectoryRecord, DirectoryV, FileRecord, FileV, LinkRecord, Record,
    RecordV};
use crate::ser::{enc_meta, encode_meta};

verus! {

/// Spec form of the writer: the header it will persist and the
/// metadata it maintains.
pub struct WriterV {
    pub header: BoxHeader,
    pub meta: MetaV,
}

/// File payload regions never overlap and sit in table order.
pub open spec fn payload_ordered(rs: Seq<RecordV>) -> bool {
    forall|i: int, j: int|
        0 <= i < j < rs.len() && (#[trigger] rs[i]) is File && (#[trigger] rs[j]) is File
            ==> rs[i]->File_0.data + rs[i]->File_0.length <= rs[j]->File_0.data
}

/// Every file payload starts after the fixed header and on an aligned
/// offset when the archive has an alignment.
pub open spec fn payload_placed(rs: Seq<RecordV>, alignment: Option<u64>) -> bool {
    forall|i: int|
        0 <= i < rs.len() && (#[trigger] rs[i]) is File ==> rs[i]->File_0.data >= HEADER_SIZE && (
        match alignment {
            Some(a) => rs[i]->File_0.data % a == 0,
            None => true,
        })
}

/// End of the last-placed payload: the highest `data + length` over
/// the file records, or the header size when there is none.
pub open spec fn max_payload_end(rs: Seq<RecordV>) -> int
    decreases rs.len(),
{
    if rs.len() == 0 {
        HEADER_SIZE as int
    } else {
        let rest = max_payload_end(rs.drop_last());
        if rs.last() is File {
            let e = rs.last()->File_0.data + rs.last()->File_0.length;
            if e > rest {
                e
            } else {
                rest
            }
        } else {
            rest
        }
    }
}

/// The smallest aligned offset at or above `x`.
pub open spec fn align_up(x: int, alignment: Option<u64>) -> int {
    match alignment {
        None => x,
        Some(a) => if x % (a as int) == 0 {
            x
        } else {
            x + a - (x % (a as int))
        },
    }
}

/// The offset the next payload or trailer write goes to.
pub open spec fn spec_next_addr(w: WriterV) -> int {
    align_up(max_payload_end(w.meta.records), w.header.alignment)
}

pub proof fn lemma_max_end_bounds(rs: Seq<RecordV>)
    ensures
        max_payload_end(rs) >= HEADER_SIZE,
        forall|i: int|
            0 <= i < rs.len() && (#[trigger] rs[i]) is File ==> rs[i]->File_0.data
                + rs[i]->File_0.length <= max_payload_end(rs),
    decreases rs.len(),
{
    if rs.len() > 0 {
        lemma_max_end_bounds(rs.drop_last());
        assert forall|i: int|
            0 <= i < rs.len() && (#[trigger] rs[i]) is File implies rs[i]->File_0.data
            + rs[i]->File_0.length <= max_payload_end(rs) by {
            if i < rs.len() - 1 {
                assert(rs.drop_last()[i] == rs[i]);
            }
        }
    }
}

/// An aligned offset at or above `x` is what [`align_up`] names.
pub proof fn lemma_align_up(x: int, alignment: Option<u64>)
    requires
        x >= 0,
        match alignment {
            Some(a) => a >= 1,
            None => true,
        },
    ensures
        align_up(x, alignment) >= x,
        match alignment {
            Some(a) => align_up(x, alignment) % (a as int) == 0 && align_up(x, alignment) < x
                + a,
            None => align_up(x, alignment) == x,
        },
{
    match alignment {
        Some(a) => {
            let r = x % (a as int);
            assert(0 <= r < a) by (nonlinear_arith)
                requires
                    a >= 1,
                    x >= 0,
                    r == x % (a as int),
            ;
            if r != 0 {
                assert((x + a - r) % (a as int) == 0) by (nonlinear_arith)
                    requires
                        a >= 1,
                        r == x % (a as int),
                        0 <= r < a,
                ;
            }
        },
        None => {},
    }
}

/// Appending records that are not files, while directories only gain
/// children, moves no payload.
pub proof fn lemma_payload_grow(
    rs0: Seq<RecordV>,
    rs1: Seq<RecordV>,
    alignment: Option<u64>,
)
    requires
        payload_ordered(rs0),
        payload_placed(rs0, alignment),
        rs0.len() <= rs1.len(),
        forall|j: int| 0 <= j < rs0.len() ==> same_but_children(rs0[j], #[trigger] rs1[j]),
        forall|j: int| rs0.len() <= j < rs1.len() ==> !((#[trigger] rs1[j]) is File),
    ensures
        payload_ordered(rs1),
        payload_placed(rs1, alignment),
{
    assert forall|i: int, j: int|
        0 <= i < j < rs1.len() && (#[trigger] rs1[i]) is File && (#[trigger] rs1[j])
            is File implies rs1[i]->File_0.data + rs1[i]->File_0.length
        <= rs1[j]->File_0.data by {
        assert(j < rs0.len());
        assert(rs1[i] == rs0[i] && rs1[j] == rs0[j]);
    }
    assert forall|i: int|
        0 <= i < rs1.len() && (#[trigger] rs1[i]) is File implies rs1[i]->File_0.data
        >= HEADER_SIZE && (match alignment {
        Some(a) => rs1[i]->File_0.data % a == 0,
        None => true,
    }) by {
        assert(i < rs0.len());
        assert(rs1[i] == rs0[i]);
    }
}

/// Appending one file whose payload starts at or after the end of
/// every placed payload, on a valid offset, keeps the payloads
/// disjoint, ordered and placed.
pub proof fn lemma_payload_insert(
    rs0: Seq<RecordV>,
    rs1: Seq<RecordV>,
    f: FileV,
    alignment: Option<u64>,
)
    requires
        payload_ordered(rs0),
        payload_placed(rs0, alignment),
        rs1.len() == rs0.len() + 1,
        forall|j: int| 0 <= j < rs0.len() ==> same_but_children(rs0[j], #[trigger] rs1[j]),
        rs1[rs0.len() as int] == RecordV::File(f),
        f.data >= HEADER_SIZE,
        forall|i: int|
            0 <= i < rs0.len() && (#[trigger] rs0[i]) is File ==> rs0[i]->File_0.data
                + rs0[i]->File_0.length <= f.data,
        match alignment {
            Some(a) => f.data % a == 0,
            None => true,
        },
    ensures
        payload_ordered(rs1),
        payload_placed(rs1, alignment),
{
    assert forall|i: int, j: int|
        0 <= i < j < rs1.len() && (#[trigger] rs1[i]) is File && (#[trigger] rs1[j])
            is File implies rs1[i]->File_0.data + rs1[i]->File_0.length
        <= rs1[j]->File_0.data by {
        if j < rs0.len() {
            assert(rs1[i] == rs0[i] && rs1[j] == rs0[j]);
        } else {
            assert(rs1[i] == rs0[i]);
        }
    }
    assert forall|i: int|
        0 <= i < rs1.len() && (#[trigger] rs1[i]) is File implies rs1[i]->File_0.data
        >= HEADER_SIZE && (match alignment {
        Some(a) => rs1[i]->File_0.data % a == 0,
        None => true,
    }) by {
        if i < rs0.len() {
            assert(rs1[i] == rs0[i]);
        }
    }
}

/// Writes an archive as a pure in-memory state machine; the embedding
/// application performs the file writes it is handed.
pub struct BoxWriter {
    pub(crate) header: BoxHeader,
    pub(crate) meta: BoxMetadata,
}

impl View for BoxWriter {
    type V = WriterV;

    closed spec fn view(&self) -> WriterV {
        WriterV { header: self.header, meta: self.meta@ }
    }
}

impl BoxWriter {
    /// The writer's invariant: a valid header, valid metadata, a
    /// bidirectionally consistent record tree, and disjoint, ordered,
    /// aligned payloads.
    pub open spec fn wf(&self) -> bool {
        &&& self@.header.wf()
        &&& self@.meta.wf()
        &&& wf_tree(self@.meta.records)
        &&& wf_links(self@.meta.records)
        &&& payload_ordered(self@.meta.records)
        &&& payload_placed(self@.meta.records, self@.header.alignment)
    }

    /// A fresh archive: default header, no trailer yet, no records.
    pub fn create() -> (r: BoxWriter)
        ensures
            r.wf(),
            r@.header == (BoxHeader { version: FORMAT_VERSION, alignment: None, trailer: None }),
            r@.meta.records == Seq::<RecordV>::empty(),
            r@.meta.attr_keys == Seq::<Seq<char>>::empty(),
            r@.meta.attrs == Seq::<(u64, Seq<u8>)>::empty(),
    {
        BoxWriter { header: BoxHeader::new(None), meta: BoxMetadata::new() }
    }

    /// A fresh archive that aligns every payload to a multiple of
    /// `alignment`.
    pub fn create_with_alignment(alignment: u64) -> (r: BoxWriter)
        requires
            alignment >= 1,
        ensures
            r.wf(),
            r@.header == (BoxHeader {
                version: FORMAT_VERSION,
                alignment: Some(alignment),
                trailer: None,
            }),
            r@.meta.records == Seq::<RecordV>::empty(),
            r@.meta.attr_keys == Seq::<Seq<char>>::empty(),
            r@.meta.attrs == Seq::<(u64, Seq<u8>)>::empty(),
    {
        BoxWriter { header: BoxHeader::new(Some(alignment)), meta: BoxMetadata::new() }
    }

    /// Takes over an opened archive for mutation, after checking the
    /// invariants that decoding alone cannot promise: tree consistency
    /// and payload placement.
    pub fn from_parts(header: BoxHeader, meta: BoxMetadata) -> (r: Result<BoxWriter, BoxError>)
        requires
            header.wf(),
            meta.wf(),
        ensures
            match r {
                Ok(w) => w@.header == header && w@.meta == meta@ && w.wf() && wf_tree(meta@.records)
                    && wf_links(meta@.records) && payload_ordered(meta@.records) && payload_placed(
                    meta@.records,
                    header.alignment,
                ),
                Err(e) => e == BoxError::Format(crate::error::FormatError::InvalidData) && !(
                wf_tree(meta@.records) && wf_links(meta@.records) && payload_ordered(meta@.records)
                    && payload_placed(meta@.records, header.alignment)),
            },
    {
        if !validate_tree(&meta) {
            return Err(BoxError::Format(crate::error::FormatError::InvalidData));
        }
        if !validate_links(&meta) {
            return Err(BoxError::Format(crate::error::FormatError::InvalidData));
        }
        if !validate_payloads(&meta, header.alignment) {
            return Err(BoxError::Format(crate::error::FormatError::InvalidData));
        }
        Ok(BoxWriter { header, meta })
    }

    /// The archive's payload alignment, if one is configured.
    pub fn alignment(&self) -> (r: Option<u64>)
        ensures
            r == self@.header.alignment,
    {
        self.header.alignment
    }

    /// The archive's format version.
    pub fn version(&self) -> (r: u32)
        ensures
            r == self@.header.version,
    {
        self.header.version
    }

    /// A read-only view of the archive's metadata.
    pub fn metadata(&self) -> (r: &BoxMetadata)
        ensures
            r@ == self@.meta,
    {
        &self.meta
    }

    /// The offset the next payload or trailer goes to: the smallest
    /// aligned offset at or above the end of the last payload (or of
    /// the fixed header). Fails only when that offset no longer fits
    /// in 64 bits.
    pub fn next_write_addr(&self) -> (r: Result<u64, BoxError>)
        requires
            self.wf(),
        ensures
            match r {
                Ok(a) => a == spec_next_addr(self@) && a >= HEADER_SIZE && (match self@
                    .header
                    .alignment {
                    Some(al) => a % al == 0,
                    None => true,
                }) && forall|i: int|
                    0 <= i < self@.meta.records.len() && (#[trigger] self@.meta.records[i])
                        is File ==> self@.meta.records[i]->File_0.data
                        + self@.meta.records[i]->File_0.length <= a,
                Err(e) => e == BoxError::TooLarge && spec_next_addr(self@) > u64::MAX,
            },
    {
        let ghost rs = self@.meta.records;
        let n = self.meta.record_count();
        let mut m: u64 = 24;
        let mut i: usize = 0;
        proof {
            assert(rs.take(0) =~= Seq::<RecordV>::empty());
        }
        while i < n
            invariant
                i <= n,
                n == self@.meta.records.len(),
                rs == self@.meta.records,
                self.wf(),
                m == max_payload_end(rs.take(i as int)),
            decreases n - i,
        {
            let rec = self.meta.record_at(i);
            proof {
                assert(rs.take(i + 1).drop_last() =~= rs.take(i as int));
                assert(rs.take(i + 1).last() == rs[i as int]);
                assert(self@.meta.wf());
                assert(self@.meta.records[i as int].wf());
            }
            match rec.as_file() {
                Some(f) => {
                    let end = f.data + f.length;
                    if end > m {
                        m = end;
                    }
                },
                None => {},
            }
            i = i + 1;
        }
        proof {
            assert(rs.take(n as int) =~= rs);
            lemma_max_end_bounds(rs);
        }
        match self.header.alignment {
            None => Ok(m),
            Some(a) => {
                proof {
                    lemma_align_up(m as int, Some(a));
                }
                let r: u64 = m % a;
                if r == 0 {
                    Ok(m)
                } else {
                    let pad: u64 = a - r;
                    if m > u64::MAX - pad {
                        Err(BoxError::TooLarge)
                    } else {
                        Ok(m + pad)
                    }
                }
            },
        }
    }
}

/// Checks the structural consistency of the record tree, exactly as
/// [`wf_tree`] describes.
#[verifier::loop_isolation(false)]
fn validate_tree(meta: &BoxMetadata) -> (r: bool)
    ensures
        r == wf_tree(meta@.records),
{
    let ghost rs = meta@.records;
    let n = meta.record_count();
    let mut i: usize = 0;
    while i < n
        invariant
            i <= n,
            forall|k: int| 0 <= k < i ==> #[trigger] crate::meta::tree_ok_at(rs, k),
        decreases n - i,
    {
        let rec = meta.record_at(i);
        match rec.parent() {
            Some(p) => {
                if p < 1 || p > n as u64 {
                    proof {
                        assert(!crate::meta::tree_ok_at(rs, i as int));
                    }
                    return false;
                }
                let pi: usize = (p - 1) as usize;
                if meta.record_at(pi).as_directory().is_none() {
                    proof {
                        assert(!(rs[p - 1] is Directory));
                        assert(!crate::meta::tree_ok_at(rs, i as int));
                    }
                    return false;
                }
            },
            None => {},
        }
        match rec.as_directory() {
            Some(d) => {
                let cn = d.children.len();
                let mut k: usize = 0;
                while k < cn
                    invariant
                        k <= cn,
                        cn == d.children@.len(),
                        rec@ == rs[i as int],
                        rec@ == RecordV::Directory(d@),
                        i < n,
                        forall|m: int|
                            0 <= m < k ==> 1 <= #[trigger] d.children@[m] <= n && rs[d.children@[m]
                                - 1].parent() == Some((i + 1) as u64),
                    decreases cn - k,
                {
                    let c = d.children[k];
                    if c < 1 || c > n as u64 {
                        proof {
                            assert(!crate::meta::tree_ok_at(rs, i as int));
                        }
                        return false;
                    }
                    let ci: usize = (c - 1) as usize;
                    let cp = meta.record_at(ci).parent();
                    let want: u64 = (i as u64) + 1;
                    let ok = match cp {
                        Some(q) => q == want,
                        None => false,
                    };
                    if !ok {
                        proof {
                            assert(rs[c - 1].parent() != Some((i + 1) as u64));
                            assert(!crate::meta::tree_ok_at(rs, i as int));
                        }
                        return false;
                    }
                    k = k + 1;
                }
                proof {
                    assert(crate::meta::tree_ok_at(rs, i as int));
                }
            },
            None => {
                proof {
                    assert(crate::meta::tree_ok_at(rs, i as int));
                }
            },
        }
        i = i + 1;
    }
    proof {
        assert(wf_tree(rs));
    }
    true
}

/// Checks the converse direction of the tree's consistency, exactly
/// as [`wf_links`] describes: every parent reference is matched by an
/// entry in that directory's child list.
#[verifier::loop_isolation(false)]
fn validate_links(meta: &BoxMetadata) -> (r: bool)
    ensures
        r == wf_links(meta@.records),
{
    let ghost rs = meta@.records;
    let n = meta.record_count();
    let mut j: usize = 0;
    while j < n
        invariant
            j <= n,
            forall|k: int| 0 <= k < j ==> #[trigger] crate::meta::links_ok_at(rs, k),
        decreases n - j,
    {
        match meta.record_at(j).parent() {
            Some(p) => {
                if p < 1 || p > n as u64 {
                    proof {
                        assert(!crate::meta::links_ok_at(rs, j as int));
                    }
                    return false;
                }
                let pi: usize = (p - 1) as usize;
                match meta.record_at(pi).as_directory() {
                    None => {
                        proof {
                            assert(!(rs[p - 1] is Directory));
                            assert(!crate::meta::links_ok_at(rs, j as int));
                        }
                        return false;
                    },
                    Some(d) => {
                        let want: u64 = (j as u64) + 1;
                        let cn = d.children.len();
                        let mut k: usize = 0;
                        let mut found = false;
                        while k < cn
                            invariant
                                k <= cn,
                                cn == d.children@.len(),
                                rs[p - 1] == RecordV::Directory(d@),
                                j < n,
                                1 <= p <= n,
                                want == (j + 1) as u64,
                                found == exists|m: int|
                                    0 <= m < k && #[trigger] d.children@[m] == want,
                            decreases cn - k,
                        {
                            if d.children[k] == want {
                                found = true;
                            }
                            k = k + 1;
                        }
                        if !found {
                            proof {
                                assert(!rs[p - 1]->Directory_0.children.contains(
                                    (j + 1) as u64,
                                ));
                                assert(!crate::meta::links_ok_at(rs, j as int));
                            }
                            return false;
                        }
                        proof {
                            assert(rs[p - 1]->Directory_0.children.contains((j + 1) as u64));
                            assert(crate::meta::links_ok_at(rs, j as int));
                        }
                    },
                }
            },
            None => {
                proof {
                    assert(crate::meta::links_ok_at(rs, j as int));
                }
            },
        }
        j = j + 1;
    }
    proof {
        assert(wf_links(rs));
    }
    true
}

/// Checks that file payloads are ordered, disjoint, placed after the
/// header and aligned, exactly as [`payload_ordered`] and
/// [`payload_placed`] describe.
#[verifier::loop_isolation(false)]
fn validate_payloads(meta: &BoxMetadata, alignment: Option<u64>) -> (r: bool)
    requires
        meta.wf(),
        match alignment {
            Some(a) => a >= 1,
            None => true,
        },
    ensures
        r == (payload_ordered(meta@.records) && payload_placed(meta@.records, alignment)),
{
    let ghost rs = meta@.records;
    let n = meta.record_count();
    let mut run: u64 = 24;
    let ghost mut run_src: Option<int> = None;
    let mut i: usize = 0;
    while i < n
        invariant
            i <= n,
            run >= HEADER_SIZE,
            match run_src {
                Some(k) => 0 <= k < i && rs[k] is File && run == rs[k]->File_0.data
                    + rs[k]->File_0.length,
                None => run == HEADER_SIZE,
            },
            forall|k: int|
                0 <= k < i && (#[trigger] rs[k]) is File ==> rs[k]->File_0.data
                    + rs[k]->File_0.length <= run,
            forall|a: int, b: int|
                0 <= a < b < i && (#[trigger] rs[a]) is File && (#[trigger] rs[b]) is File
                    ==> rs[a]->File_0.data + rs[a]->File_0.length <= rs[b]->File_0.data,
            forall|k: int|
                0 <= k < i && (#[trigger] rs[k]) is File ==> rs[k]->File_0.data >= HEADER_SIZE && (
                match alignment {
                    Some(a) => rs[k]->File_0.data % a == 0,
                    None => true,
                }),
        decreases n - i,
    {
        let rec = meta.record_at(i);
        match rec.as_file() {
            Some(f) => {
                proof {
                    self_wf_record(meta, i as int);
                }
                if f.data < run {
                    proof {
                        match run_src {
                            Some(k) => {
                                assert(!payload_ordered(rs));
                            },
                            None => {
                                assert(!payload_placed(rs, alignment));
                            },
                        }
                    }
                    return false;
                }
                let aligned = match alignment {
                    Some(a) => f.data % a == 0,
                    None => true,
                };
                if !aligned {
                    proof {
                        assert(!payload_placed(rs, alignment));
                    }
                    return false;
                }
                run = f.data + f.length;
                proof {
                    run_src = Some(i as int);
                }
            },
            None => {},
        }
        i = i + 1;
    }
    true
}

/// The record at `i` is well-formed, as the metadata invariant says.
proof fn self_wf_record(meta: &BoxMetadata, i: int)
    requires
        meta.wf(),
        0 <= i < meta@.records.len(),
    ensures
        meta@.records[i].wf(),
{
    assert(meta@.wf());
}

/// Spec view of a list of raw attribute pairs.
pub open spec fn kv_views(s: Seq<(String, Vec<u8>)>) -> Seq<(Seq<char>, Seq<u8>)> {
    Seq::new(s.len(), |i: int| (s[i].0@, s[i].1@))
}

/// One raw attribute folded into the intern table and an attribute
/// map: the key is interned, and the value stored under its id.
pub open spec fn intern_pair(
    ks: Seq<Seq<char>>,
    m: Seq<(u64, Seq<u8>)>,
    key: Seq<char>,
    value: Seq<u8>,
) -> (Seq<Seq<char>>, Seq<(u64, Seq<u8>)>) {
    let ks2 = if has_intern(ks, key) {
        ks
    } else {
        ks.push(key)
    };
    let id = intern_at(ks2, key) as u64;
    (ks2, attrs_set_spec(m, id, value))
}

/// Raw attributes folded left to right over the intern table.
pub open spec fn intern_fold(
    ks: Seq<Seq<char>>,
    m: Seq<(u64, Seq<u8>)>,
    list: Seq<(Seq<char>, Seq<u8>)>,
) -> (Seq<Seq<char>>, Seq<(u64, Seq<u8>)>)
    decreases list.len(),
{
    if list.len() == 0 {
        (ks, m)
    } else {
        let s = intern_pair(ks, m, list[0].0, list[0].1);
        intern_fold(s.0, s.1, list.drop_first())
    }
}

/// What is written where after an insert: the compressed payload goes
/// to `offset`, and `record` is the new record's 0-based position.
#[derive(Debug)]
pub struct InsertOutcome {
    pub offset: u64,
    pub bytes: Vec<u8>,
    pub record: usize,
}

/// The parent a path inserts under resolves to a directory: either
/// the path is a single component (root level), or the first record
/// carrying the parent path is a directory.
pub open spec fn insert_parent_ok(rs: Seq<RecordV>, p: Seq<Seq<char>>) -> bool {
    p.len() == 1 || (has_path(rs, p.drop_last()) && rs[first_path_at(rs, p.drop_last())]
        is Directory)
}

impl BoxWriter {
    /// Interns the keys of the raw attributes and stores the values
    /// under the resulting ids, exactly as [`intern_fold`] describes.
    #[verifier::loop_isolation(false)]
    fn intern_attrs(&mut self, attrs: Vec<(String, Vec<u8>)>) -> (r: AttrMap)
        requires
            old(self).wf(),
            old(self)@.meta.attr_keys.len() + attrs@.len() < u64::MAX,
        ensures
            final(self).wf(),
            final(self)@.header == old(self)@.header,
            final(self)@.meta.records == old(self)@.meta.records,
            final(self)@.meta.attrs == old(self)@.meta.attrs,
            r.wf(),
            (final(self)@.meta.attr_keys, r@) == intern_fold(
                old(self)@.meta.attr_keys,
                Seq::empty(),
                kv_views(attrs@),
            ),
            final(self)@.meta.attr_keys.len() <= old(self)@.meta.attr_keys.len() + attrs@.len(),
    {
        let ghost list = kv_views(attrs@);
        let ghost ks0 = self@.meta.attr_keys;
        let mut rest = attrs;
        let total = rest.len();
        let mut map = AttrMap::new();
        let mut i: usize = 0;
        proof {
            assert(list.skip(0) =~= list);
        }
        while rest.len() > 0
            invariant
                total == list.len(),
                i + rest@.len() == list.len(),
                kv_views(rest@) =~= list.skip(i as int),
                self.wf(),
                self@.header == old(self)@.header,
                self@.meta.records == old(self)@.meta.records,
                self@.meta.attrs == old(self)@.meta.attrs,
                self@.meta.attr_keys.len() <= ks0.len() + i,
                map.wf(),
                intern_fold(ks0, Seq::empty(), list) == intern_fold(
                    self@.meta.attr_keys,
                    map@,
                    list.skip(i as int),
                ),
            decreases rest@.len(),
        {
            let ghost rest0 = rest@;
            let ghost ks_cur = self@.meta.attr_keys;
            let ghost m_cur = map@;
            let pair = rest.remove(0);
            let ghost kv = list.skip(i as int)[0];
            proof {
                assert(kv == (pair.0@, pair.1@)) by {
                    assert(kv_views(rest0)[0] == (rest0[0].0@, rest0[0].1@));
                }
            }
            let id = self.meta.attr_key_or_create(pair.0.as_str());
            map.set(id, pair.1);
            proof {
                let st = intern_pair(ks_cur, m_cur, kv.0, kv.1);
                assert(self@.meta.attr_keys == st.0);
                assert(id == intern_at(st.0, kv.0) as u64) by {
                    assert(intern_at(st.0, kv.0) == id as int);
                }
                assert(map@ == st.1);
                assert(intern_fold(ks_cur, m_cur, list.skip(i as int)) == intern_fold(
                    st.0,
                    st.1,
                    list.skip(i as int).drop_first(),
                ));
                assert(list.skip(i as int).drop_first() =~= list.skip(i + 1));
                assert(kv_views(rest@) =~= list.skip(i + 1)) by {
                    assert(rest@ =~= rest0.drop_first());
                    assert(forall|k: int|
                        0 <= k < rest@.len() ==> (#[trigger] kv_views(rest@)[k]) == kv_views(
                            rest0,
                        )[k + 1]);
                }
            }
            i = i + 1;
        }
        proof {
            assert(list.skip(i as int) =~= Seq::<(Seq<char>, Seq<u8>)>::empty());
        }
        map
    }

    /// Stores a file: resolves the parent directory, refuses duplicate
    /// paths, compresses the content, allocates the next aligned
    /// offset, appends the record and links it under its parent. The
    /// outcome names the payload bytes and the offset they go to; the
    /// writer itself performs no device access. On any error the
    /// writer is unchanged and no payload is handed out.
    pub fn insert(
        &mut self,
        compression: Compression,
        path: BoxPath,
        content: &[u8],
        attrs: Vec<(String, Vec<u8>)>,
    ) -> (r: Result<InsertOutcome, BoxError>)
        requires
            old(self).wf(),
            path.wf(),
            old(self)@.meta.records.len() < u64::MAX,
            old(self)@.meta.attr_keys.len() + attrs@.len() < u64::MAX,
        ensures
            final(self).wf(),
            r is Err ==> *final(self) == *old(self),
            (r == Err::<InsertOutcome, BoxError>(BoxError::NotFound)) <==> !insert_parent_ok(
                old(self)@.meta.records,
                path@,
            ),
            (r == Err::<InsertOutcome, BoxError>(BoxError::AlreadyExists)) <==> (insert_parent_ok(
                old(self)@.meta.records,
                path@,
            ) && has_path(old(self)@.meta.records, path@)),
            compression matches Compression::Unknown(id) ==> (insert_parent_ok(
                old(self)@.meta.records,
                path@,
            ) && !has_path(old(self)@.meta.records, path@) ==> r == Err::<
                InsertOutcome,
                BoxError,
            >(BoxError::Unsupported(id))),
            r matches Err(e) ==> (e is NotFound || e is AlreadyExists || e is Unsupported || e
                is Codec || e is TooLarge),
            insert_parent_ok(old(self)@.meta.records, path@) && !has_path(
                old(self)@.meta.records,
                path@,
            ) && compression is Stored && spec_next_addr(old(self)@) + content@.len() <= u64::MAX
                ==> r is Ok,
            r matches Ok(out) ==> insert_effect(
                *old(self),
                *final(self),
                compression,
                path@,
                content@,
                kv_views(attrs@),
                out,
            ),
    {
        let ghost rs0 = self@.meta.records;
        // Resolve the parent directory; a missing or non-directory
        // parent fails before anything is written.
        let depth = path.depth();
        let parent0: Option<usize> = if depth >= 2 {
            let pp = path.prefix(depth - 1);
            proof {
                assert(path@.take(depth - 1) =~= path@.drop_last());
            }
            match self.meta.find_record(&pp) {
                None => {
                    proof {
                        assert(!insert_parent_ok(rs0, path@));
                    }
                    return Err(BoxError::NotFound);
                },
                Some(i) => {
                    if self.meta.record_at(i).as_directory().is_none() {
                        proof {
                            assert(i == first_path_at(rs0, path@.drop_last()));
                            assert(!insert_parent_ok(rs0, path@));
                        }
                        return Err(BoxError::NotFound);
                    }
                    proof {
                        assert(insert_parent_ok(rs0, path@));
                    }
                    Some(i)
                },
            }
        } else {
            proof {
                assert(insert_parent_ok(rs0, path@));
            }
            None
        };
        // A record with this exact path must not exist yet.
        match self.meta.find_record(&path) {
            Some(_) => {
                proof {
                    assert(has_path(rs0, path@));
                }
                return Err(BoxError::AlreadyExists);
            },
            None => {
                proof {
                    assert(!has_path(rs0, path@));
                }
            },
        }
        self.insert_prepared(compression, path, parent0, content, attrs)
    }

    /// The compression, allocation and append steps of an insert, once
    /// the parent is resolved and the path is known to be free.
    #[verifier::rlimit(100)]
    fn insert_prepared(
        &mut self,
        compression: Compression,
        path: BoxPath,
        parent0: Option<usize>,
        content: &[u8],
        attrs: Vec<(String, Vec<u8>)>,
    ) -> (r: Result<InsertOutcome, BoxError>)
        requires
            old(self).wf(),
            path.wf(),
            old(self)@.meta.records.len() < u64::MAX,
            old(self)@.meta.attr_keys.len() + attrs@.len() < u64::MAX,
            !has_path(old(self)@.meta.records, path@),
            match parent0 {
                Some(i) => path@.len() >= 2 && i < old(self)@.meta.records.len() && old(
                    self,
                )@.meta.records[i as int] is Directory && old(self)@.meta.records[i as int].path()
                    == path@.drop_last() && i as int == first_path_at(
                    old(self)@.meta.records,
                    path@.drop_last(),
                ),
                None => path@.len() == 1,
            },
        ensures
            final(self).wf(),
            r is Err ==> *final(self) == *old(self),
            r matches Err(e) ==> (e is Unsupported || e is Codec || e is TooLarge),
            compression matches Compression::Unknown(id) ==> r == Err::<InsertOutcome, BoxError>(
                BoxError::Unsupported(id),
            ),
            r matches Err(e) ==> (e is Unsupported <==> compression is Unknown),
            compression is Stored && spec_next_addr(old(self)@) + content@.len() <= u64::MAX ==> r
                is Ok,
            r matches Ok(out) ==> insert_effect(
                *old(self),
                *final(self),
                compression,
                path@,
                content@,
                kv_views(attrs@),
                out,
            ),
    {
        let ghost rs0 = self@.meta.records;
        // Compress before allocating; an unrecognized kind or a codec
        // failure leaves the writer unchanged.
        let bytes = match compress_bytes(compression, content) {
            Err(e) => {
                return Err(e);
            },
            Ok(b) => b,
        };
        let offset = match self.next_write_addr() {
            Err(e) => {
                return Err(e);
            },
            Ok(a) => a,
        };
        if bytes.len() as u64 > u64::MAX - offset {
            return Err(BoxError::TooLarge);
        }
        let ghost st = intern_fold(self@.meta.attr_keys, Seq::empty(), kv_views(attrs@));
        let am = self.intern_attrs(attrs);
        let pref: Option<u64> = match parent0 {
            Some(i) => Some((i as u64) + 1),
            None => None,
        };
        let length = bytes.len() as u64;
        let decompressed_length = content.len() as u64;
        let rec = FileRecord {
            parent: pref,
            compression,
            length,
            decompressed_length,
            path,
            attrs: am,
            data: offset,
        };
        let ghost fv = rec@;
        let ghost rs_mid = self@.meta.records;
        let pos = self.meta.append_record(Record::File(rec), parent0);
        proof {
            assert(rs_mid == rs0);
            lemma_payload_insert(rs0, self@.meta.records, fv, self@.header.alignment);
            assert(self.wf());
            assert(self@.meta.records[rs0.len() as int] == RecordV::File(fv));
            assert(self@.meta.attr_keys == st.0);
        }
        Ok(InsertOutcome { offset, bytes, record: pos })
    }
}

/// The exact effect of storing an attribute on the record that
/// resolution finds for a path.
pub open spec fn set_attr_effect(
    w0: BoxWriter,
    w1: BoxWriter,
    path: Seq<Seq<char>>,
    key: Seq<char>,
    value: Seq<u8>,
) -> bool {
    let rs0 = w0@.meta.records;
    let i = first_path_at(rs0, path);
    let st = intern_pair(w0@.meta.attr_keys, rs0[i].attrs(), key, value);
    &&& w1@.meta.attr_keys == st.0
    &&& w1@.meta.records.len() == rs0.len()
    &&& w1@.meta.records[i].attrs() == st.1
    &&& w1@.meta.records[i].path() == rs0[i].path()
    &&& forall|j: int| 0 <= j < rs0.len() && j != i ==> rs0[j] == #[trigger] w1@.meta.records[j]
    &&& w1@.meta.attrs == w0@.meta.attrs
    &&& w1@.header == w0@.header
}

/// The exact effect of a successful insert on the writer's state.
pub open spec fn insert_effect(
    w0: BoxWriter,
    w1: BoxWriter,
    compression: Compression,
    path: Seq<Seq<char>>,
    content: Seq<u8>,
    raw_attrs: Seq<(Seq<char>, Seq<u8>)>,
    out: InsertOutcome,
) -> bool {
    let rs0 = w0@.meta.records;
    let st = intern_fold(w0@.meta.attr_keys, Seq::empty(), raw_attrs);
    let pref: Option<u64> = if path.len() >= 2 {
        Some((first_path_at(rs0, path.drop_last()) + 1) as u64)
    } else {
        None
    };
    &&& insert_parent_ok(rs0, path)
    &&& !has_path(rs0, path)
    &&& !(compression is Unknown)
    &&& out.record == rs0.len()
    &&& out.offset == spec_next_addr(w0@)
    &&& out.bytes@ == compressed_of(compression, content)
    &&& decoded_of(compression, out.bytes@) == Some(content)
    &&& out.offset + out.bytes@.len() <= u64::MAX
    &&& w1@.header == w0@.header
    &&& w1@.meta.attrs == w0@.meta.attrs
    &&& w1@.meta.attr_keys == st.0
    &&& w1@.meta.records.len() == rs0.len() + 1
    &&& w1@.meta.records[rs0.len() as int] == RecordV::File(
        FileV {
            parent: pref,
            compression,
            length: out.bytes@.len() as u64,
            decompressed_length: content.len() as u64,
            path,
            attrs: st.1,
            data: out.offset,
        },
    )
    &&& forall|j: int|
        0 <= j < rs0.len() ==> same_but_children(rs0[j], #[trigger] w1@.meta.records[j])
    &&& (path.len() >= 2 ==> ({
        let pi = first_path_at(rs0, path.drop_last());
        &&& w1@.meta.records[pi] matches RecordV::Directory(dn) && (rs0[pi]
            matches RecordV::Directory(dold) && dn == (DirectoryV {
            children: dold.children.push((rs0.len() + 1) as u64),
            ..dold
        }))
        &&& forall|j: int| 0 <= j < rs0.len() && j != pi ==> rs0[j] == #[trigger] w1@.meta.records[j]
    }))
    &&& (path.len() == 1 ==> forall|j: int|
        0 <= j < rs0.len() ==> rs0[j] == #[trigger] w1@.meta.records[j])
}


/// The deepest strict prefix length (at most `hi`) under which a
/// record already exists; zero when none does.
pub open spec fn deepest_existing(rs: Seq<RecordV>, p: Seq<Seq<char>>, hi: int) -> int
    decreases hi,
{
    if hi <= 0 {
        0
    } else if has_path(rs, p.take(hi)) {
        hi
    } else {
        deepest_existing(rs, p, hi - 1)
    }
}

/// A path's parent chain is blocked when the deepest existing strict
/// prefix is carried by a record that is not a directory.
pub open spec fn parent_blocked(rs: Seq<RecordV>, p: Seq<Seq<char>>) -> bool {
    let e = deepest_existing(rs, p, p.len() - 1);
    e >= 1 && !(rs[first_path_at(rs, p.take(e))] is Directory)
}

/// The exact linkage of the records an operation appends for `p`: the
/// created parent directories, then one final record. The first new
/// record hangs under the deepest pre-existing directory (or at root
/// level), each later one under its predecessor; the only
/// pre-existing record that changes is that directory, whose child
/// list gains exactly the first new 1-based position; each created
/// directory's child list holds exactly its successor in the chain.
pub open spec fn chain_effect(rs0: Seq<RecordV>, rs1: Seq<RecordV>, p: Seq<Seq<char>>) -> bool {
    let e = deepest_existing(rs0, p, p.len() - 1);
    let n0 = rs0.len() as int;
    &&& rs1.len() == n0 + (p.len() - 1 - e) + 1
    &&& (e >= 1 ==> ({
        let pi = first_path_at(rs0, p.take(e));
        &&& 0 <= pi < n0
        &&& rs1[pi] matches RecordV::Directory(dn) && (rs0[pi] matches RecordV::Directory(dold)
            && dn == (DirectoryV {
            children: dold.children.push((n0 + 1) as u64),
            ..dold
        }))
        &&& forall|j: int| 0 <= j < n0 && j != pi ==> rs0[j] == #[trigger] rs1[j]
    }))
    &&& (e == 0 ==> forall|j: int| 0 <= j < n0 ==> rs0[j] == #[trigger] rs1[j])
    &&& rs1[n0].parent() == (if e >= 1 {
        Some((first_path_at(rs0, p.take(e)) + 1) as u64)
    } else {
        None::<u64>
    })
    &&& forall|j: int|
        n0 < j < rs1.len() ==> (#[trigger] rs1[j]).parent() == Some(j as u64)
    &&& forall|j: int|
        n0 <= j < rs1.len() - 1 ==> ((#[trigger] rs1[j]) matches RecordV::Directory(d) && d.path
            == p.take(e + 1 + (j - n0)) && d.children == seq![(j + 2) as u64] && d.attrs == Seq::<
            (u64, Seq<u8>),
        >::empty())
}

/// The state after the missing parent directories for `p` exist but
/// before the final record is appended: the chain so far, and the
/// position `p0` the final record will hang under.
pub open spec fn parents_ready(
    rs0: Seq<RecordV>,
    rs1: Seq<RecordV>,
    p: Seq<Seq<char>>,
    p0: Option<usize>,
) -> bool {
    let e = deepest_existing(rs0, p, p.len() - 1);
    let n0 = rs0.len() as int;
    &&& rs1.len() == n0 + (p.len() - 1 - e)
    &&& (rs1.len() == n0 ==> rs1 == rs0 && (match p0 {
        Some(i) => e >= 1 && e == p.len() - 1 && i as int == first_path_at(rs0, p.take(e)),
        None => p.len() == 1 && e == 0,
    }))
    &&& (rs1.len() > n0 ==> ({
        &&& p0 matches Some(i) && i as int == rs1.len() - 1
        &&& (e >= 1 ==> ({
            let pi = first_path_at(rs0, p.take(e));
            &&& 0 <= pi < n0
            &&& rs1[pi] matches RecordV::Directory(dn) && (rs0[pi] matches RecordV::Directory(
                dold,
            ) && dn == (DirectoryV { children: dold.children.push((n0 + 1) as u64), ..dold }))
            &&& forall|j: int| 0 <= j < n0 && j != pi ==> rs0[j] == #[trigger] rs1[j]
        }))
        &&& (e == 0 ==> forall|j: int| 0 <= j < n0 ==> rs0[j] == #[trigger] rs1[j])
        &&& rs1[n0].parent() == (if e >= 1 {
            Some((first_path_at(rs0, p.take(e)) + 1) as u64)
        } else {
            None::<u64>
        })
        &&& forall|j: int| n0 < j < rs1.len() ==> (#[trigger] rs1[j]).parent() == Some(j as u64)
        &&& forall|j: int|
            n0 <= j < rs1.len() - 1 ==> ((#[trigger] rs1[j]) matches RecordV::Directory(d)
                && d.path == p.take(e + 1 + (j - n0)) && d.children == seq![(j + 2) as u64]
                && d.attrs == Seq::<(u64, Seq<u8>)>::empty())
        &&& rs1[rs1.len() - 1] matches RecordV::Directory(d) && d.path == p.take(p.len() - 1)
            && d.children == Seq::<u64>::empty() && d.attrs == Seq::<(u64, Seq<u8>)>::empty()
    }))
}

/// Appending the final record under the position [`parents_ready`]
/// names completes the chain that [`chain_effect`] describes.
#[verifier::rlimit(100)]
proof fn lemma_chain_step(
    rs0: Seq<RecordV>,
    rs_mid: Seq<RecordV>,
    rs_fin: Seq<RecordV>,
    p: Seq<Seq<char>>,
    p0: Option<usize>,
    rv: RecordV,
)
    requires
        p.len() >= 1,
        rs_mid.len() >= rs0.len(),
        parents_ready(rs0, rs_mid, p, p0),
        rs_fin.len() == rs_mid.len() + 1,
        rs_fin[rs_mid.len() as int] == rv,
        forall|j: int|
            0 <= j < rs_mid.len() && (match p0 {
                Some(i) => j != i,
                None => true,
            }) ==> rs_mid[j] == #[trigger] rs_fin[j],
        match p0 {
            Some(i) => i < rs_mid.len() && (rs_fin[i as int] matches RecordV::Directory(dn) && (
            rs_mid[i as int] matches RecordV::Directory(dold) && dn == (DirectoryV {
                children: dold.children.push((rs_mid.len() + 1) as u64),
                ..dold
            }))),
            None => true,
        },
        rv.parent() == (match p0 {
            Some(i) => Some((i + 1) as u64),
            None => None::<u64>,
        }),
    ensures
        chain_effect(rs0, rs_fin, p),
{
    let e = deepest_existing(rs0, p, p.len() - 1);
    let n0 = rs0.len() as int;
    assert(rs_fin.len() == n0 + (p.len() - 1 - e) + 1);
    if rs_mid.len() == rs0.len() {
        match p0 {
            Some(i) => {
                assert(rs_mid == rs0);
                assert(e >= 1 && i as int == first_path_at(rs0, p.take(e)));
                assert(rs_fin[n0].parent() == Some((i + 1) as u64));
            },
            None => {
                assert(rs_mid == rs0);
                assert(e == 0);
                assert(rs_fin[n0].parent() == None::<u64>);
            },
        }
    } else {
        let q = rs_mid.len() - 1;
        assert(p0 matches Some(i) && i as int == q);
        assert(rs_mid[q]->Directory_0.children == Seq::<u64>::empty());
        assert(Seq::<u64>::empty().push((rs_mid.len() + 1) as u64) =~= seq![
            (rs_mid.len() + 1) as u64,
        ]);
        assert(rs_fin[q]->Directory_0.children == seq![(q + 2) as u64]);
        assert(rs_fin[q].parent() == rs_mid[q].parent());
        assert(rs_fin[q].path() == rs_mid[q].path());
        assert(rs_fin[q].attrs() == rs_mid[q].attrs());
        assert(e + 1 + (q - n0) == p.len() - 1);
        if e >= 1 {
            let pi = first_path_at(rs0, p.take(e));
            assert(pi < n0);
            assert(rs_fin[pi] == rs_mid[pi]);
        }
        if q == n0 {
            assert(rs_fin[n0].parent() == rs_mid[n0].parent());
        } else {
            assert(rs_fin[n0] == rs_mid[n0]);
        }
        assert forall|j: int| n0 < j < rs_fin.len() implies (#[trigger] rs_fin[j]).parent()
            == Some(j as u64) by {
            if j < rs_mid.len() {
                if j == q {
                    assert(rs_fin[j].parent() == rs_mid[j].parent());
                } else {
                    assert(rs_fin[j] == rs_mid[j]);
                }
            } else {
                assert(rs_fin[j] == rv);
            }
        }
        assert forall|j: int|
            n0 <= j < rs_fin.len() - 1 implies ((#[trigger] rs_fin[j])
            matches RecordV::Directory(d) && d.path == p.take(e + 1 + (j - n0)) && d.children
            == seq![(j + 2) as u64] && d.attrs == Seq::<(u64, Seq<u8>)>::empty()) by {
            if j < q {
                assert(rs_fin[j] == rs_mid[j]);
            } else {
                assert(j == q);
            }
        }
    }
}

proof fn lemma_deepest_at(rs: Seq<RecordV>, p: Seq<Seq<char>>, d: int, hi: int)
    requires
        0 <= d <= hi,
        d >= 1 ==> has_path(rs, p.take(d)),
        forall|t: int| d < t <= hi ==> !has_path(rs, p.take(t)),
    ensures
        deepest_existing(rs, p, hi) == d,
    decreases hi,
{
    if hi > d {
        lemma_deepest_at(rs, p, d, hi - 1);
    }
}

/// Finds the deepest strict prefix of `path` that already has a
/// record. It must be a directory: anything else blocks the parent
/// chain.
fn deepest_dir(meta: &BoxMetadata, path: &BoxPath) -> (r: Result<(usize, usize), BoxError>)
    requires
        path.wf(),
        path@.len() >= 2,
    ensures
        match r {
            Ok((e, eidx)) => !parent_blocked(meta@.records, path@) && e <= path@.len() - 1 && e
                as int == deepest_existing(meta@.records, path@, path@.len() - 1) && (e == 0 || (1
                <= e && eidx < meta@.records.len() && eidx as int == first_path_at(
                meta@.records,
                path@.take(e as int),
            ) && meta@.records[eidx as int] is Directory && meta@.records[eidx as int].path()
                == path@.take(e as int))),
            Err(err) => err == BoxError::NotFound && parent_blocked(meta@.records, path@),
        },
{
    let ghost rs = meta@.records;
    let depth = path.depth();
    let mut d: usize = depth - 1;
    loop
        invariant_except_break
            1 <= d <= depth - 1,
            depth == path@.len(),
            path.wf(),
            rs == meta@.records,
            forall|t: int| d < t <= depth - 1 ==> !has_path(rs, path@.take(t)),
        ensures
            !parent_blocked(rs, path@) || parent_blocked(rs, path@),
        decreases d,
    {
        let pp = path.prefix(d);
        match meta.find_record(&pp) {
            Some(i) => {
                if meta.record_at(i).as_directory().is_none() {
                    proof {
                        lemma_deepest_at(rs, path@, d as int, depth - 1);
                        assert(i == first_path_at(rs, path@.take(d as int)));
                        assert(parent_blocked(rs, path@));
                    }
                    return Err(BoxError::NotFound);
                }
                proof {
                    lemma_deepest_at(rs, path@, d as int, depth - 1);
                    assert(!parent_blocked(rs, path@));
                }
                return Ok((d, i));
            },
            None => {
                if d == 1 {
                    proof {
                        lemma_deepest_at(rs, path@, 0, depth - 1);
                        assert(!parent_blocked(rs, path@));
                    }
                    return Ok((0, 0));
                }
                d = d - 1;
            },
        }
    }
}

/// What is written where after the trailer and header are rebuilt.
pub struct FinishData {
    /// Offset the trailer goes to; the header's trailer pointer.
    pub trailer_offset: u64,
    /// The serialized header, to be written at offset zero.
    pub header_bytes: Vec<u8>,
    /// The serialized metadata, to be written at the trailer offset.
    pub trailer_bytes: Vec<u8>,
    /// End of the trailer: the file is truncated to exactly this.
    pub total_len: u64,
}

impl BoxWriter {
    /// Makes every strict prefix of `path` below the deepest existing
    /// one exist as a directory, and hands back the position of the
    /// record for `path`'s parent (or `None` at root level). Fails,
    /// changing nothing, when an existing prefix is not a directory.
    #[verifier::rlimit(100)]
    fn ensure_parents(&mut self, path: &BoxPath) -> (r: Result<Option<usize>, BoxError>)
        requires
            old(self).wf(),
            path.wf(),
            old(self)@.meta.records.len() + path@.len() < u64::MAX,
        ensures
            final(self).wf(),
            r is Err ==> *final(self) == *old(self),
            (r == Err::<Option<usize>, BoxError>(BoxError::NotFound)) <==> parent_blocked(
                old(self)@.meta.records,
                path@,
            ),
            r is Ok <==> !parent_blocked(old(self)@.meta.records, path@),
            final(self)@.header == old(self)@.header,
            final(self)@.meta.attr_keys == old(self)@.meta.attr_keys,
            final(self)@.meta.attrs == old(self)@.meta.attrs,
            r matches Ok(p0) ==> ({
                let rs0 = old(self)@.meta.records;
                let rs1 = final(self)@.meta.records;
                let e = deepest_existing(rs0, path@, path@.len() - 1);
                let n0 = rs0.len() as int;
                &&& rs0.len() <= rs1.len() <= rs0.len() + path@.len() - 1
                &&& rs1.len() == n0 + (path@.len() - 1 - e)
                &&& forall|j: int|
                    0 <= j < rs0.len() ==> same_but_children(rs0[j], #[trigger] rs1[j])
                &&& forall|j: int|
                    rs0.len() <= j < rs1.len() ==> (#[trigger] rs1[j]) is Directory && rs1[
                    j].attrs() == Seq::<(u64, Seq<u8>)>::empty() && exists|t: int|
                        1 <= t < path@.len() && rs1[j].path() == path@.take(t)
                &&& match p0 {
                    Some(i) => path@.len() >= 2 && i < rs1.len() && rs1[i as int] is Directory
                        && rs1[i as int].path() == path@.drop_last(),
                    None => path@.len() == 1,
                }
                &&& parents_ready(rs0, rs1, path@, p0)
            }),
    {
        let ghost rs0 = self@.meta.records;
        let depth = path.depth();
        if depth == 1 {
            proof {
                assert(deepest_existing(rs0, path@, 0) == 0);
            }
            return Ok(None);
        }
        // Find the deepest strict prefix that already has a record; it
        // must be a directory.
        let (e, eidx) = match deepest_dir(&self.meta, path) {
            Err(err) => {
                return Err(err);
            },
            Ok(p) => p,
        };
        // Create the missing prefixes below the deepest existing one.
        let mut parent: Option<usize> = if e >= 1 {
            Some(eidx)
        } else {
            None
        };
        let mut k: usize = e + 1;
        while k < depth
            invariant
                e + 1 <= k <= depth,
                depth == path@.len(),
                path.wf(),
                rs0 == old(self)@.meta.records,
                rs0.len() + path@.len() < u64::MAX,
                self.wf(),
                self@.header == old(self)@.header,
                self@.meta.attr_keys == old(self)@.meta.attr_keys,
                self@.meta.attrs == old(self)@.meta.attrs,
                self@.meta.records.len() == rs0.len() + (k - 1 - e),
                e as int == deepest_existing(rs0, path@, path@.len() - 1),
                e >= 1 ==> eidx < rs0.len() && eidx as int == first_path_at(
                    rs0,
                    path@.take(e as int),
                ),
                forall|j: int|
                    0 <= j < rs0.len() ==> same_but_children(
                        rs0[j],
                        #[trigger] self@.meta.records[j],
                    ),
                forall|j: int|
                    rs0.len() <= j < self@.meta.records.len() ==> (#[trigger] self@
                        .meta
                        .records[j]) is Directory && self@.meta.records[j].attrs() == Seq::<
                        (u64, Seq<u8>),
                    >::empty() && self@.meta.records[j].path() == path@.take(e + 1 + (j - rs0.len())),
                match parent {
                    Some(i) => k >= 2 && i < self@.meta.records.len()
                        && self@.meta.records[i as int] is Directory
                        && self@.meta.records[i as int].path() == path@.take(k - 1),
                    None => k == 1,
                },
                k == e + 1 ==> self@.meta.records == rs0 && parent == (if e >= 1 {
                    Some(eidx)
                } else {
                    None::<usize>
                }),
                k > e + 1 && e >= 1 ==> ({
                    let pi = first_path_at(rs0, path@.take(e as int));
                    &&& self@.meta.records[pi] matches RecordV::Directory(dn) && (rs0[pi]
                        matches RecordV::Directory(dold) && dn == (DirectoryV {
                        children: dold.children.push((rs0.len() + 1) as u64),
                        ..dold
                    }))
                    &&& forall|j: int|
                        0 <= j < rs0.len() && j != pi ==> rs0[j]
                            == #[trigger] self@.meta.records[j]
                }),
                k > e + 1 && e == 0 ==> forall|j: int|
                    0 <= j < rs0.len() ==> rs0[j] == #[trigger] self@.meta.records[j],
                k > e + 1 ==> self@.meta.records[rs0.len() as int].parent() == (if e >= 1 {
                    Some((eidx + 1) as u64)
                } else {
                    None::<u64>
                }),
                forall|j: int|
                    rs0.len() < j < self@.meta.records.len() ==> (#[trigger] self@
                        .meta
                        .records[j]).parent() == Some(j as u64),
                forall|j: int|
                    rs0.len() <= j < self@.meta.records.len() - 1 ==> ((#[trigger] self@
                        .meta
                        .records[j]) matches RecordV::Directory(d) && d.children == seq![
                        (j + 2) as u64,
                    ]),
                k > e + 1 ==> ({
                    &&& self@.meta.records[self@.meta.records.len() - 1]
                        matches RecordV::Directory(d) && d.children == Seq::<u64>::empty()
                    &&& parent matches Some(i) && i as int == self@.meta.records.len() - 1
                }),
            decreases depth - k,
        {
            let pp = path.prefix(k);
            let pref: Option<u64> = match parent {
                Some(i) => Some((i as u64) + 1),
                None => None,
            };
            let rec = DirectoryRecord {
                parent: pref,
                path: pp,
                children: Vec::new(),
                attrs: AttrMap::new(),
            };
            let ghost rs_cur = self@.meta.records;
            let ghost rv = rec@;
            let pos = self.meta.append_record(Record::Directory(rec), parent);
            proof {
                lemma_payload_grow(rs_cur, self@.meta.records, self@.header.alignment);
                let rs_new = self@.meta.records;
                assert(rs_new[pos as int] == RecordV::Directory(rv));
                assert(rs_new[pos as int].path() == path@.take(k as int));
                assert(rs_new[pos as int]->Directory_0.children == Seq::<u64>::empty());
                assert(forall|j: int|
                    0 <= j < rs0.len() ==> same_but_children(rs0[j], #[trigger] rs_new[j]));
                match parent {
                    Some(q) => {
                        assert(rs_new[q as int] matches RecordV::Directory(dn) && (rs_cur[q as int]
                            matches RecordV::Directory(dold) && dn == (DirectoryV {
                            children: dold.children.push((pos + 1) as u64),
                            ..dold
                        })));
                        assert(rs_new[q as int].parent() == rs_cur[q as int].parent());
                        assert(forall|j: int|
                            0 <= j < pos && j != q ==> rs_cur[j] == #[trigger] rs_new[j]);
                        if k == e + 1 {
                            // First append: the deepest existing directory
                            // gains the chain's head.
                            assert(q == eidx && rs_cur == rs0 && pos == rs0.len());
                        } else {
                            // Later append: the previous chain element held
                            // no child yet and now holds exactly this one.
                            assert(q as int == rs_cur.len() - 1 && rs_cur.len() > rs0.len());
                            assert(rs_cur[q as int]->Directory_0.children == Seq::<u64>::empty());
                            assert(Seq::<u64>::empty().push((pos + 1) as u64) =~= seq![
                                (pos + 1) as u64,
                            ]);
                            assert(rs_new[q as int]->Directory_0.children == seq![(q + 2) as u64]);
                            if e >= 1 {
                                let pi = first_path_at(rs0, path@.take(e as int));
                                assert(pi < rs0.len() && pi != q as int);
                                assert(rs_new[pi] == rs_cur[pi]);
                            }
                            assert(rs_new[rs0.len() as int].parent() == rs_cur[rs0.len() as int]
                                .parent());
                        }
                    },
                    None => {
                        assert(k == e + 1 && e == 0 && rs_cur == rs0);
                        assert(forall|j: int| 0 <= j < pos ==> rs_cur[j] == #[trigger] rs_new[j]);
                    },
                }
                assert(rs_new[pos as int].parent() == rv.parent);
            }
            parent = Some(pos);
            k = k + 1;
        }
        proof {
            assert(path@.take(depth - 1) =~= path@.drop_last());
            assert forall|j: int|
                rs0.len() <= j < self@.meta.records.len() implies (#[trigger] self@
                .meta
                .records[j]) is Directory && self@.meta.records[j].attrs() == Seq::<
                (u64, Seq<u8>),
            >::empty() && exists|t: int|
                1 <= t < path@.len() && self@.meta.records[j].path() == path@.take(t) by {
                let t = e + 1 + (j - rs0.len());
                assert(self@.meta.records[j].path() == path@.take(t));
            }
        }
        match parent {
            Some(i) => Ok(Some(i)),
            None => {
                proof {
                    assert(false);
                }
                Ok(None)
            },
        }
    }

    /// Creates a directory at `path`, creating any missing parent
    /// directories on the way, and links each under its parent. Fails
    /// with `AlreadyExists` when a record carries `path`, and with
    /// `NotFound` when an existing prefix is not a directory; on any
    /// error the writer is unchanged.
    #[verifier::rlimit(100)]
    pub fn mkdir(&mut self, path: BoxPath, attrs: Vec<(String, Vec<u8>)>) -> (r: Result<
        (),
        BoxError,
    >)
        requires
            old(self).wf(),
            path.wf(),
            old(self)@.meta.records.len() + path@.len() < u64::MAX,
            old(self)@.meta.attr_keys.len() + attrs@.len() < u64::MAX,
        ensures
            final(self).wf(),
            r is Err ==> *final(self) == *old(self),
            (r == Err::<(), BoxError>(BoxError::AlreadyExists)) <==> has_path(
                old(self)@.meta.records,
                path@,
            ),
            (r == Err::<(), BoxError>(BoxError::NotFound)) <==> (!has_path(
                old(self)@.meta.records,
                path@,
            ) && parent_blocked(old(self)@.meta.records, path@)),
            r is Ok <==> (!has_path(old(self)@.meta.records, path@) && !parent_blocked(
                old(self)@.meta.records,
                path@,
            )),
            r is Ok ==> ({
                let rs0 = old(self)@.meta.records;
                let rs1 = final(self)@.meta.records;
                let st = intern_fold(old(self)@.meta.attr_keys, Seq::empty(), kv_views(attrs@));
                &&& rs0.len() < rs1.len() <= rs0.len() + path@.len()
                &&& rs1[rs1.len() - 1] is Directory
                &&& rs1[rs1.len() - 1].path() == path@
                &&& rs1[rs1.len() - 1].attrs() == st.1
                &&& rs1[rs1.len() - 1]->Directory_0.children == Seq::<u64>::empty()
                &&& chain_effect(rs0, rs1, path@)
                &&& forall|j: int|
                    0 <= j < rs0.len() ==> same_but_children(rs0[j], #[trigger] rs1[j])
                &&& forall|j: int|
                    rs0.len() <= j < rs1.len() ==> (#[trigger] rs1[j]) is Directory && exists|
                    t: int|
                        1 <= t <= path@.len() && rs1[j].path() == path@.take(t)
                &&& final(self)@.meta.attr_keys == st.0
                &&& final(self)@.meta.attrs == old(self)@.meta.attrs
                &&& final(self)@.header == old(self)@.header
            }),
    {
        let ghost rs0 = self@.meta.records;
        match self.meta.find_record(&path) {
            Some(_) => {
                return Err(BoxError::AlreadyExists);
            },
            None => {},
        }
        let parent0 = match self.ensure_parents(&path) {
            Err(e) => {
                return Err(e);
            },
            Ok(p) => p,
        };
        let ghost rs_mid = self@.meta.records;
        let am = self.intern_attrs(attrs);
        let pref: Option<u64> = match parent0 {
            Some(i) => Some((i as u64) + 1),
            None => None,
        };
        let ghost pv = path@;
        let rec = DirectoryRecord { parent: pref, path, children: Vec::new(), attrs: am };
        let ghost rv = rec@;
        let ghost rs_cur = self@.meta.records;
        let pos = self.meta.append_record(Record::Directory(rec), parent0);
        proof {
            lemma_payload_grow(rs_cur, self@.meta.records, self@.header.alignment);
            assert(self@.meta.records[pos as int].path() == pv);
            assert(forall|j: int|
                0 <= j < rs0.len() ==> same_but_children(rs0[j], #[trigger] self@.meta.records[j]));
            assert(forall|j: int|
                rs0.len() <= j < self@.meta.records.len() ==> (#[trigger] self@.meta.records[j])
                    is Directory);
            assert(self@.meta.records[pos as int].path() == pv && pv == pv.take(pv.len() as int))
                by {
                assert(pv.take(pv.len() as int) =~= pv);
            }
            lemma_chain_step(rs0, rs_cur, self@.meta.records, pv, parent0, RecordV::Directory(rv));
        }
        Ok(())
    }

    /// Creates a symbolic link at `path` pointing at `target`, which
    /// is stored canonically and may dangle; missing parents are
    /// created as for `mkdir`. On any error the writer is unchanged.
    #[verifier::rlimit(100)]
    pub fn link(
        &mut self,
        path: BoxPath,
        target: BoxPath,
        attrs: Vec<(String, Vec<u8>)>,
    ) -> (r: Result<(), BoxError>)
        requires
            old(self).wf(),
            path.wf(),
            target.wf(),
            old(self)@.meta.records.len() + path@.len() < u64::MAX,
            old(self)@.meta.attr_keys.len() + attrs@.len() < u64::MAX,
        ensures
            final(self).wf(),
            r is Err ==> *final(self) == *old(self),
            (r == Err::<(), BoxError>(BoxError::AlreadyExists)) <==> has_path(
                old(self)@.meta.records,
                path@,
            ),
            (r == Err::<(), BoxError>(BoxError::NotFound)) <==> (!has_path(
                old(self)@.meta.records,
                path@,
            ) && parent_blocked(old(self)@.meta.records, path@)),
            r is Ok <==> (!has_path(old(self)@.meta.records, path@) && !parent_blocked(
                old(self)@.meta.records,
                path@,
            )),
            r is Ok ==> ({
                let rs0 = old(self)@.meta.records;
                let rs1 = final(self)@.meta.records;
                let st = intern_fold(old(self)@.meta.attr_keys, Seq::empty(), kv_views(attrs@));
                &&& rs0.len() < rs1.len() <= rs0.len() + path@.len()
                &&& rs1[rs1.len() - 1] matches RecordV::Link(l) && l.path == path@ && l.target
                    == target@ && l.attrs == st.1
                &&& chain_effect(rs0, rs1, path@)
                &&& forall|j: int|
                    0 <= j < rs0.len() ==> same_but_children(rs0[j], #[trigger] rs1[j])
                &&& final(self)@.meta.attr_keys == st.0
                &&& final(self)@.meta.attrs == old(self)@.meta.attrs
                &&& final(self)@.header == old(self)@.header
            }),
    {
        let ghost rs0 = self@.meta.records;
        match self.meta.find_record(&path) {
            Some(_) => {
                return Err(BoxError::AlreadyExists);
            },
            None => {},
        }
        let parent0 = match self.ensure_parents(&path) {
            Err(e) => {
                return Err(e);
            },
            Ok(p) => p,
        };
        let am = self.intern_attrs(attrs);
        let pref: Option<u64> = match parent0 {
            Some(i) => Some((i as u64) + 1),
            None => None,
        };
        let rec = LinkRecord { parent: pref, path, target, attrs: am };
        let ghost rv = rec@;
        let ghost rs_cur = self@.meta.records;
        let pos = self.meta.append_record(Record::Link(rec), parent0);
        proof {
            lemma_payload_grow(rs_cur, self@.meta.records, self@.header.alignment);
            assert(forall|j: int|
                0 <= j < rs0.len() ==> same_but_children(rs0[j], #[trigger] self@.meta.records[j]));
            lemma_chain_step(
                rs0,
                rs_cur,
                self@.meta.records,
                rv.path,
                parent0,
                RecordV::Link(rv),
            );
        }
        Ok(())
    }

    /// Stores `value` under the attribute key string `key` on the
    /// record carrying `path`, interning the key if it is new; fails
    /// with `NotFound`, changing nothing, when no record carries it.
    pub fn set_attr(&mut self, path: &BoxPath, key: &str, value: Vec<u8>) -> (r: Result<
        (),
        BoxError,
    >)
        requires
            old(self).wf(),
            old(self)@.meta.attr_keys.len() < u64::MAX,
        ensures
            final(self).wf(),
            r is Err ==> *final(self) == *old(self),
            (r == Err::<(), BoxError>(BoxError::NotFound)) <==> !has_path(
                old(self)@.meta.records,
                path@,
            ),
            r is Ok <==> has_path(old(self)@.meta.records, path@),
            r is Ok ==> set_attr_effect(*old(self), *final(self), path@, key@, value@),
    {
        let i = match self.meta.find_record(path) {
            None => {
                return Err(BoxError::NotFound);
            },
            Some(i) => i,
        };
        self.set_attr_found(i, key, value);
        Ok(())
    }

    /// Stores an attribute on the record at a known position.
    #[verifier::rlimit(100)]
    fn set_attr_found(&mut self, i: usize, key: &str, value: Vec<u8>)
        requires
            old(self).wf(),
            old(self)@.meta.attr_keys.len() < u64::MAX,
            i < old(self)@.meta.records.len(),
        ensures
            final(self).wf(),
            ({
                let rs0 = old(self)@.meta.records;
                let st = intern_pair(
                    old(self)@.meta.attr_keys,
                    rs0[i as int].attrs(),
                    key@,
                    value@,
                );
                &&& final(self)@.meta.attr_keys == st.0
                &&& final(self)@.meta.records.len() == rs0.len()
                &&& final(self)@.meta.records[i as int].attrs() == st.1
                &&& final(self)@.meta.records[i as int].path() == rs0[i as int].path()
                &&& forall|j: int|
                    0 <= j < rs0.len() && j != i ==> rs0[j]
                        == #[trigger] final(self)@.meta.records[j]
                &&& final(self)@.meta.attrs == old(self)@.meta.attrs
                &&& final(self)@.header == old(self)@.header
            }),
    {
        let ghost rs0 = self@.meta.records;
        let ghost st = intern_pair(self@.meta.attr_keys, rs0[i as int].attrs(), key@, value@);
        let id = self.meta.attr_key_or_create(key);
        proof {
            assert(self@.meta.attr_keys == st.0);
            assert(id == intern_at(st.0, key@) as u64) by {
                assert(intern_at(st.0, key@) == id as int);
            }
        }
        self.meta.set_record_attr(i, id, value);
        proof {
            assert(self@.meta.records[i as int].attrs() == st.1);
        }
    }

    /// Stores `value` under the attribute key string `key` in the
    /// archive-level attribute map, interning the key if it is new.
    pub fn set_archive_attr(&mut self, key: &str, value: Vec<u8>)
        requires
            old(self).wf(),
            old(self)@.meta.attr_keys.len() < u64::MAX,
        ensures
            final(self).wf(),
            ({
                let st = intern_pair(
                    old(self)@.meta.attr_keys,
                    old(self)@.meta.attrs,
                    key@,
                    value@,
                );
                &&& final(self)@.meta.attr_keys == st.0
                &&& final(self)@.meta.attrs == st.1
                &&& final(self)@.meta.records == old(self)@.meta.records
                &&& final(self)@.header == old(self)@.header
            }),
    {
        let id = self.meta.attr_key_or_create(key);
        self.meta.set_meta_attr(id, value);
    }

    /// Serializes the trailer and the header that points at it: the
    /// trailer goes to the next write address, the header to offset
    /// zero, and the file is truncated to the trailer's end. Fails
    /// exactly when the trailer's end no longer fits in 64 bits.
    pub fn finish(&self) -> (r: Result<FinishData, BoxError>)
        requires
            self.wf(),
        ensures
            match r {
                Ok(d) => ({
                    &&& d.trailer_offset == spec_next_addr(self@)
                    &&& d.trailer_bytes@ == enc_meta(self@.meta)
                    &&& d.header_bytes@ == enc_header(
                        BoxHeader { trailer: Some(d.trailer_offset), ..self@.header },
                    )
                    &&& d.total_len == d.trailer_offset + d.trailer_bytes@.len()
                }),
                Err(e) => e == BoxError::TooLarge && spec_next_addr(self@) + enc_meta(
                    self@.meta,
                ).len() > u64::MAX,
            },
    {
        let trailer_offset = match self.next_write_addr() {
            Err(e) => {
                return Err(e);
            },
            Ok(a) => a,
        };
        let trailer_bytes = encode_meta(&self.meta);
        if trailer_bytes.len() as u64 > u64::MAX - trailer_offset {
            return Err(BoxError::TooLarge);
        }
        let total_len = trailer_offset + (trailer_bytes.len() as u64);
        let header2 = BoxHeader {
            version: self.header.version,
            alignment: self.header.alignment,
            trailer: Some(trailer_offset),
        };
        let mut header_bytes: Vec<u8> = Vec::new();
        crate::header::write_header(&mut header_bytes, &header2);
        Ok(FinishData { trailer_offset, header_bytes, trailer_bytes, total_len })
    }
}

/// Payload regions of distinct file records never overlap: with the
/// payloads ordered, one of the two regions ends before the other
/// begins.
pub proof fn lemma_payloads_disjoint(rs: Seq<RecordV>, i: int, j: int)
    requires
        payload_ordered(rs),
        0 <= i < rs.len(),
        0 <= j < rs.len(),
        i != j,
        rs[i] is File,
        rs[j] is File,
    ensures
        rs[i]->File_0.data + rs[i]->File_0.length <= rs[j]->File_0.data || rs[j]->File_0.data
            + rs[j]->File_0.length <= rs[i]->File_0.data,
{
}

} // verus!
