//! The archive's metadata: the append-only record table, the
//! attribute-key intern table, and the archive-level attribute map.
use vstd::prelude::*;

use crate::path::BoxPath;
use crate::record::{wf_attrs, AttrMap, DirectoryV, FileV, Record, RecordV};

verus! {

/// Spec form of the metadata.
pub struct MetaV {
    pub records: Seq<RecordV>,
    pub attr_keys: Seq<Seq<char>>,
    pub attrs: Seq<(u64, Seq<u8>)>,
}

/// No key string is interned twice.
pub open spec fn wf_keys(ks: Seq<Seq<char>>) -> bool {
    forall|i: int, j: int| 0 <= i < j < ks.len() ==> ks[i] != ks[j]
}

/// True when `s` is already interned.
pub open spec fn has_intern(ks: Seq<Seq<char>>, s: Seq<char>) -> bool {
    exists|i: int| 0 <= i < ks.len() && ks[i] == s
}

/// The id under which `s` is interned.
pub open spec fn intern_at(ks: Seq<Seq<char>>, s: Seq<char>) -> int {
    choose|i: int| 0 <= i < ks.len() && ks[i] == s
}

/// Interning is referentially stable: every position holding a key
/// string is the one id interning yields for it.
pub proof fn lemma_intern_stable(ks: Seq<Seq<char>>, s: Seq<char>, i: int)
    requires
        wf_keys(ks),
        0 <= i < ks.len(),
        ks[i] == s,
    ensures
        has_intern(ks, s),
        intern_at(ks, s) == i,
{
    assert(has_intern(ks, s));
    let w = intern_at(ks, s);
    assert(ks[w] == s);
}

/// True when some record carries the path `p`.
pub open spec fn has_path(rs: Seq<RecordV>, p: Seq<Seq<char>>) -> bool {
    exists|i: int| 0 <= i < rs.len() && rs[i].path() == p
}

/// The position of the first record carrying `p`: path resolution is
/// by most specific match, scanning from the start of the table.
pub open spec fn first_path_at(rs: Seq<RecordV>, p: Seq<Seq<char>>) -> int {
    choose|i: int|
        0 <= i < rs.len() && rs[i].path() == p && (forall|m: int|
            0 <= m < i ==> (#[trigger] rs[m]).path() != p)
}

/// Structural consistency of one table entry: its parent reference
/// names an existing directory, and a directory's child list holds
/// only positions of records whose parent points back to it.
pub open spec fn tree_ok_at(rs: Seq<RecordV>, i: int) -> bool {
    &&& (match rs[i].parent() {
        Some(p) => 1 <= p <= rs.len() && rs[p - 1] is Directory,
        None => true,
    })
    &&& (rs[i] matches RecordV::Directory(d) ==> forall|k: int|
        0 <= k < d.children.len() ==> 1 <= #[trigger] d.children[k] <= rs.len() && rs[d.children[k]
            - 1].parent() == Some((i + 1) as u64))
}

/// Structural consistency of the whole table.
pub open spec fn wf_tree(rs: Seq<RecordV>) -> bool {
    forall|i: int| 0 <= i < rs.len() ==> #[trigger] tree_ok_at(rs, i)
}

/// The converse direction for one entry: a record's parent reference
/// is matched by an entry in that directory's child list.
pub open spec fn links_ok_at(rs: Seq<RecordV>, j: int) -> bool {
    match rs[j].parent() {
        Some(p) => 1 <= p <= rs.len() && (rs[p - 1] matches RecordV::Directory(d) && d.children
            .contains((j + 1) as u64)),
        None => true,
    }
}

/// The converse direction for the whole table. Together with
/// [`wf_tree`] it makes the tree bidirectionally consistent: a
/// directory's child list holds exactly the positions of the records
/// whose parent reference points back at it.
pub open spec fn wf_links(rs: Seq<RecordV>) -> bool {
    forall|j: int| 0 <= j < rs.len() ==> #[trigger] links_ok_at(rs, j)
}

impl MetaV {
    /// Well-formedness the codec maintains: every record valid, every
    /// attribute key unique, the intern table free of duplicates.
    pub open spec fn wf(&self) -> bool {
        &&& forall|i: int| 0 <= i < self.records.len() ==> (#[trigger] self.records[i]).wf()
        &&& wf_keys(self.attr_keys)
        &&& wf_attrs(self.attrs)
    }
}

/// The metadata of one archive.
#[derive(Debug)]
pub struct BoxMetadata {
    pub(crate) records: Vec<Record>,
    pub(crate) attr_keys: Vec<String>,
    pub(crate) attrs: AttrMap,
}

impl View for BoxMetadata {
    type V = MetaV;

    closed spec fn view(&self) -> MetaV {
        MetaV {
            records: Seq::new(self.records@.len(), |i: int| self.records@[i]@),
            attr_keys: self.attr_keys.deep_view(),
            attrs: self.attrs@,
        }
    }
}

/// Compares two strings character by character.
pub(crate) fn str_eq(a: &str, b: &str) -> (r: bool)
    ensures
        r == (a@ == b@),
{
    let na = a.unicode_len();
    let nb = b.unicode_len();
    if na != nb {
        proof {
            assert(a@ != b@);
        }
        return false;
    }
    let mut k: usize = 0;
    while k < na
        invariant
            k <= na,
            na == a@.len() == b@.len(),
            forall|m: int| 0 <= m < k ==> a@[m] == b@[m],
        decreases na - k,
    {
        if a.get_char(k) != b.get_char(k) {
            proof {
                assert(a@[k as int] != b@[k as int]);
            }
            return false;
        }
        k = k + 1;
    }
    proof {
        assert(a@ =~= b@);
    }
    true
}

impl BoxMetadata {
    pub open spec fn wf(&self) -> bool {
        self@.wf()
    }

    /// Builds metadata from its three parts.
    pub(crate) fn assemble(records: Vec<Record>, attr_keys: Vec<String>, attrs: AttrMap) -> (r:
        BoxMetadata)
        ensures
            r@.records == Seq::new(records@.len(), |i: int| records@[i]@),
            r@.attr_keys == attr_keys.deep_view(),
            r@.attrs == attrs@,
    {
        BoxMetadata { records, attr_keys, attrs }
    }

    /// Empty metadata: no records, no interned keys, no attributes.
    pub fn new() -> (r: BoxMetadata)
        ensures
            r@.records == Seq::<RecordV>::empty(),
            r@.attr_keys == Seq::<Seq<char>>::empty(),
            r@.attrs == Seq::<(u64, Seq<u8>)>::empty(),
            r.wf(),
    {
        let r = BoxMetadata { records: Vec::new(), attr_keys: Vec::new(), attrs: AttrMap::new() };
        proof {
            assert(r@.records =~= Seq::<RecordV>::empty());
            assert(r@.attr_keys =~= Seq::<Seq<char>>::empty());
        }
        r
    }

    /// Number of records in the table.
    pub fn record_count(&self) -> (r: usize)
        ensures
            r == self@.records.len(),
    {
        self.records.len()
    }

    /// The record at a 0-based position.
    pub fn record_at(&self, i: usize) -> (r: &Record)
        requires
            i < self@.records.len(),
        ensures
            r@ == self@.records[i as int],
    {
        &self.records[i]
    }

    /// Number of interned attribute keys.
    pub fn attr_key_count(&self) -> (r: usize)
        ensures
            r == self@.attr_keys.len(),
    {
        self.attr_keys.len()
    }

    /// The interned attribute key at an id.
    pub fn attr_key_at(&self, i: usize) -> (r: &String)
        requires
            i < self@.attr_keys.len(),
        ensures
            r@ == self@.attr_keys[i as int],
    {
        &self.attr_keys[i]
    }

    /// The archive-level attribute map.
    pub fn attrs(&self) -> (r: &AttrMap)
        ensures
            r@ == self@.attrs,
    {
        &self.attrs
    }

    /// Stores `value` under the interned key `key_id` in the
    /// archive-level attribute map, in place.
    pub fn set_meta_attr(&mut self, key_id: u64, value: Vec<u8>)
        requires
            old(self).wf(),
        ensures
            final(self).wf(),
            final(self)@.records == old(self)@.records,
            final(self)@.attr_keys == old(self)@.attr_keys,
            final(self)@.attrs == attrs_set_spec(old(self)@.attrs, key_id, value@),
    {
        self.attrs.set(key_id, value);
        proof {
            assert(self@.records == old(self)@.records);
            assert forall|j: int|
                0 <= j < self@.records.len() implies (#[trigger] self@.records[j]).wf() by {
                assert(old(self)@.records[j].wf());
            }
        }
    }

    /// The position of the record carrying `path`, scanning from the
    /// start of the table; `None` when no record carries it.
    pub fn find_record(&self, path: &BoxPath) -> (r: Option<usize>)
        ensures
            match r {
                Some(i) => i < self@.records.len() && self@.records[i as int].path() == path@
                    && has_path(self@.records, path@) && i == first_path_at(
                    self@.records,
                    path@,
                ),
                None => !has_path(self@.records, path@),
            },
    {
        let n = self.records.len();
        let mut i: usize = 0;
        while i < n
            invariant
                i <= n,
                n == self@.records.len(),
                n == self.records@.len(),
                forall|m: int| 0 <= m < i ==> (#[trigger] self@.records[m]).path() != path@,
            decreases n - i,
        {
            if self.records[i].path().eq(path) {
                proof {
                    let rs = self@.records;
                    assert(rs[i as int].path() == path@);
                    let w = first_path_at(rs, path@);
                    assert(0 <= w < rs.len() && rs[w].path() == path@ && (forall|m: int|
                        0 <= m < w ==> (#[trigger] rs[m]).path() != path@));
                    assert(w == i as int);
                }
                return Some(i);
            }
            proof {
                assert(self@.records[i as int].path() != path@);
            }
            i = i + 1;
        }
        proof {
            assert(!has_path(self@.records, path@));
        }
        None
    }

    /// The id under which `key` is interned; `None` when it never was.
    pub fn attr_key_for(&self, key: &str) -> (r: Option<u64>)
        ensures
            match r {
                Some(id) => id < self@.attr_keys.len() && self@.attr_keys[id as int] == key@,
                None => !has_intern(self@.attr_keys, key@),
            },
    {
        let n = self.attr_keys.len();
        let mut i: usize = 0;
        while i < n
            invariant
                i <= n,
                n == self@.attr_keys.len(),
                n == self.attr_keys@.len(),
                forall|m: int| 0 <= m < i ==> self@.attr_keys[m] != key@,
            decreases n - i,
        {
            if str_eq(self.attr_keys[i].as_str(), key) {
                proof {
                    assert(self@.attr_keys[i as int] == key@);
                    assert(self.attr_keys@.len() <= u64::MAX);
                }
                return Some(i as u64);
            }
            i = i + 1;
        }
        proof {
            assert(!has_intern(self@.attr_keys, key@));
        }
        None
    }

    /// The attribute stored under the key string `key` on the record
    /// carrying `path`: absent when no record carries the path, the
    /// key was never interned, or the record has no such attribute.
    pub fn attr<'a>(&'a self, path: &BoxPath, key: &str) -> (r: Option<&'a Vec<u8>>)
        requires
            self.wf(),
        ensures
            match r {
                Some(v) => has_path(self@.records, path@) && has_intern(self@.attr_keys, key@)
                    && crate::record::attrs_get(
                    self@.records[first_path_at(self@.records, path@)].attrs(),
                    intern_at(self@.attr_keys, key@) as u64,
                ) == Some(v@),
                None => !has_path(self@.records, path@) || !has_intern(self@.attr_keys, key@)
                    || crate::record::attrs_get(
                    self@.records[first_path_at(self@.records, path@)].attrs(),
                    intern_at(self@.attr_keys, key@) as u64,
                ) is None,
            },
    {
        let id = match self.attr_key_for(key) {
            None => {
                return None;
            },
            Some(id) => id,
        };
        proof {
            lemma_intern_stable(self@.attr_keys, key@, id as int);
            assert(intern_at(self@.attr_keys, key@) == id as int);
        }
        let i = match self.find_record(path) {
            None => {
                return None;
            },
            Some(i) => i,
        };
        let rec = self.record_at(i);
        proof {
            assert(self@.wf());
            assert(self@.records[i as int].wf());
        }
        rec.attrs().get(id)
    }

    /// The id of `key`, interning it now if it was never seen: the
    /// existing id when present, else the next free one, with the key
    /// appended to the table. Ids are first-seen order and stable.
    pub fn attr_key_or_create(&mut self, key: &str) -> (r: u64)
        requires
            old(self)@.attr_keys.len() < u64::MAX,
            wf_keys(old(self)@.attr_keys),
        ensures
            final(self)@.records == old(self)@.records,
            final(self)@.attrs == old(self)@.attrs,
            wf_keys(final(self)@.attr_keys),
            r < final(self)@.attr_keys.len(),
            final(self)@.attr_keys[r as int] == key@,
            has_intern(final(self)@.attr_keys, key@) && intern_at(final(self)@.attr_keys, key@)
                == r,
            if has_intern(old(self)@.attr_keys, key@) {
                final(self)@ == old(self)@ && r == intern_at(old(self)@.attr_keys, key@)
            } else {
                final(self)@.attr_keys == old(self)@.attr_keys.push(key@) && r == old(
                    self,
                )@.attr_keys.len()
            },
    {
        let ghost ks0 = self@.attr_keys;
        match self.attr_key_for(key) {
            Some(id) => {
                proof {
                    lemma_intern_stable(ks0, key@, id as int);
                }
                id
            },
            None => {
                let id = self.attr_keys.len() as u64;
                let ghost m0 = self@;
                self.attr_keys.push(key.to_owned());
                proof {
                    assert(self@.attr_keys =~= ks0.push(key@));
                    assert(self@.records =~= m0.records);
                    assert(wf_keys(self@.attr_keys)) by {
                        assert(forall|m: int|
                            0 <= m < ks0.len() ==> #[trigger] self@.attr_keys[m] == ks0[m]);
                        assert(self@.attr_keys[ks0.len() as int] == key@);
                    }
                    lemma_intern_stable(self@.attr_keys, key@, id as int);
                }
                id
            },
        }
    }
}

/// A record preserved through table growth: everything but a
/// directory's child list is unchanged.
pub open spec fn same_but_children(a: RecordV, b: RecordV) -> bool {
    &&& a.path() == b.path()
    &&& a.parent() == b.parent()
    &&& a.attrs() == b.attrs()
    &&& (a is File <==> b is File)
    &&& (a is Directory <==> b is Directory)
    &&& (a is Link <==> b is Link)
    &&& (a is File ==> a == b)
    &&& (a is Link ==> a == b)
}

impl BoxMetadata {
    /// Appends a record and links it under its parent directory (or
    /// leaves it at root level), keeping the table consistent. The new
    /// record's 0-based position is returned.
    #[verifier::rlimit(60)]
    pub fn append_record(&mut self, rec: Record, parent0: Option<usize>) -> (pos: usize)
        requires
            old(self).wf(),
            wf_tree(old(self)@.records),
            wf_links(old(self)@.records),
            rec.wf(),
            old(self)@.records.len() < u64::MAX,
            match parent0 {
                Some(i) => i < old(self)@.records.len() && old(self)@.records[i as int]
                    is Directory && rec@.parent() == Some((i + 1) as u64),
                None => rec@.parent() is None,
            },
            rec@ matches RecordV::Directory(d) ==> d.children == Seq::<u64>::empty(),
        ensures
            final(self).wf(),
            wf_tree(final(self)@.records),
            wf_links(final(self)@.records),
            final(self)@.attr_keys == old(self)@.attr_keys,
            final(self)@.attrs == old(self)@.attrs,
            pos == old(self)@.records.len(),
            final(self)@.records.len() == old(self)@.records.len() + 1,
            final(self)@.records[pos as int] == rec@,
            forall|j: int|
                0 <= j < pos ==> same_but_children(
                    old(self)@.records[j],
                    #[trigger] final(self)@.records[j],
                ),
            forall|j: int|
                0 <= j < pos && (match parent0 {
                    Some(i) => j != i,
                    None => true,
                }) ==> old(self)@.records[j] == #[trigger] final(self)@.records[j],
            match parent0 {
                Some(i) => final(self)@.records[i as int] matches RecordV::Directory(dn) && (old(
                    self,
                )@.records[i as int] matches RecordV::Directory(dold) && dn == (DirectoryV {
                    children: dold.children.push((pos + 1) as u64),
                    ..dold
                })),
                None => final(self)@.records =~= old(self)@.records.push(rec@),
            },
    {
        let ghost rs0 = self@.records;
        let ghost rv = rec@;
        let pos = self.records.len();
        self.records.push(rec);
        proof {
            assert(Seq::new(self.records@.len(), |i: int| self.records@[i]@) =~= rs0.push(rv));
        }
        match parent0 {
            Some(i) => {
                let ghost rs1 = self@.records;
                let newpos: u64 = (pos as u64) + 1;
                let parent = &mut self.records[i];
                match parent {
                    Record::Directory(d) => {
                        d.children.push(newpos);
                    },
                    _ => {
                        proof {
                            assert(false);
                        }
                    },
                }
                proof {
                    let rs2 = Seq::new(self.records@.len(), |k: int| self.records@[k]@);
                    assert(forall|j: int| 0 <= j < rs2.len() && j != i ==> rs2[j] == #[trigger] rs1[j]);
                    assert(rs2[i as int] is Directory);
                    lemma_append_tree(rs0, rs1, rs2, rv, i as int);
                    assert(rs2[i as int].wf()) by {
                        let dn = rs2[i as int]->Directory_0;
                        let dold = rs0[i as int]->Directory_0;
                        assert(rs0[i as int].wf());
                        assert(dn.children == dold.children.push(((pos + 1) as u64)));
                        assert(forall|m: int|
                            0 <= m < dold.children.len() ==> dn.children[m]
                                == #[trigger] dold.children[m]);
                        assert(dn.children.last() >= 1);
                    }
                    assert(forall|j: int| 0 <= j < rs0.len() ==> (#[trigger] rs0[j]).wf()) by {
                        assert(old(self)@.wf());
                    }
                    assert forall|j: int| 0 <= j < rs2.len() implies (#[trigger] rs2[j]).wf() by {
                        if j == i as int {
                            assert(rs2[i as int].wf());
                        } else if j == rs0.len() {
                            assert(rs2[j] == rs1[j]);
                            assert(rs1[j] == rv);
                            assert(rv.wf());
                        } else {
                            assert(rs2[j] == rs1[j]);
                            assert(rs1[j] == rs0[j]);
                            assert(rs0[j].wf());
                        }
                    }
                }
            },
            None => {
                proof {
                    lemma_append_tree_root(rs0, self@.records, rv);
                }
            },
        }
        pos
    }

    /// Stores `value` under the interned key `key_id` on the record at
    /// `pos`, in place; nothing else changes.
    pub fn set_record_attr(&mut self, pos: usize, key_id: u64, value: Vec<u8>)
        requires
            old(self).wf(),
            wf_tree(old(self)@.records),
            wf_links(old(self)@.records),
            pos < old(self)@.records.len(),
        ensures
            final(self).wf(),
            wf_tree(final(self)@.records),
            wf_links(final(self)@.records),
            final(self)@.attr_keys == old(self)@.attr_keys,
            final(self)@.attrs == old(self)@.attrs,
            final(self)@.records.len() == old(self)@.records.len(),
            forall|j: int|
                0 <= j < old(self)@.records.len() && j != pos ==> old(self)@.records[j]
                    == #[trigger] final(self)@.records[j],
            final(self)@.records[pos as int].path() == old(self)@.records[pos as int].path(),
            final(self)@.records[pos as int].parent() == old(self)@.records[pos as int].parent(),
            final(self)@.records[pos as int] is File <==> old(self)@.records[pos as int] is File,
            final(self)@.records[pos as int] is Directory <==> old(self)@.records[pos as int]
                is Directory,
            final(self)@.records[pos as int] matches RecordV::Directory(dn) ==> (old(
                self,
            )@.records[pos as int] matches RecordV::Directory(do2) && dn.children == do2.children),
            final(self)@.records[pos as int] matches RecordV::File(fn2) ==> (old(
                self,
            )@.records[pos as int] matches RecordV::File(fo) && fn2 == (FileV {
                attrs: fn2.attrs,
                ..fo
            })),
            final(self)@.records[pos as int].attrs() == attrs_set_spec(
                old(self)@.records[pos as int].attrs(),
                key_id,
                value@,
            ),
    {
        let ghost rs0 = self@.records;
        let ghost vv = value@;
        let rec = &mut self.records[pos];
        let am = rec.attrs_mut();
        am.set(key_id, value);
        proof {
            let rs2 = Seq::new(self.records@.len(), |k: int| self.records@[k]@);
            assert(forall|j: int| 0 <= j < rs2.len() && j != pos ==> rs2[j] == #[trigger] rs0[j]);
            assert(rs2[pos as int].attrs() == attrs_set_spec(rs0[pos as int].attrs(), key_id, vv));
            lemma_tree_same_shape(rs0, rs2);
            assert(rs2[pos as int].wf()) by {
                assert(rs0[pos as int].wf());
                assert(wf_attrs(rs2[pos as int].attrs()));
            }
            assert(forall|j: int| 0 <= j < rs0.len() ==> (#[trigger] rs0[j]).wf()) by {
                assert(old(self)@.wf());
            }
            assert forall|j: int| 0 <= j < rs2.len() implies (#[trigger] rs2[j]).wf() by {
                if j == pos as int {
                    assert(rs2[pos as int].wf());
                } else {
                    assert(rs2[j] == rs0[j]);
                    assert(rs0[j].wf());
                }
            }
        }
    }
}

/// The effect of storing a value in an attribute table.
pub open spec fn attrs_set_spec(m: Seq<(u64, Seq<u8>)>, key: u64, value: Seq<u8>) -> Seq<
    (u64, Seq<u8>),
> {
    if crate::record::has_key(m, key) {
        m.update(crate::record::key_at(m, key), (key, value))
    } else {
        m.push((key, value))
    }
}

/// Growing the table by one root-level record keeps it consistent.
proof fn lemma_append_tree_root(rs0: Seq<RecordV>, rs1: Seq<RecordV>, rv: RecordV)
    requires
        wf_tree(rs0),
        wf_links(rs0),
        rs0.len() < u64::MAX,
        rs1 == rs0.push(rv),
        rv.parent() is None,
        rv matches RecordV::Directory(d) ==> d.children == Seq::<u64>::empty(),
    ensures
        wf_tree(rs1),
        wf_links(rs1),
{
    assert(forall|i: int| 0 <= i < rs1.len() ==> #[trigger] tree_ok_at(rs1, i)) by {
        assert(forall|j: int| 0 <= j < rs0.len() ==> rs1[j] == #[trigger] rs0[j]);
        assert(forall|i: int| 0 <= i < rs0.len() ==> #[trigger] tree_ok_at(rs0, i));
        assert(forall|i: int|
            0 <= i < rs0.len() ==> (tree_ok_at(rs0, i) ==> #[trigger] tree_ok_at(rs1, i)));
        assert(tree_ok_at(rs1, rs0.len() as int));
    }
    assert forall|j: int| 0 <= j < rs1.len() implies #[trigger] links_ok_at(rs1, j) by {
        if j < rs0.len() {
            assert(links_ok_at(rs0, j));
            match rs0[j].parent() {
                Some(p) => {
                    assert(rs1[p - 1] == rs0[p - 1]);
                },
                None => {},
            }
        }
    }
}

/// Growing the table by one record linked under an existing directory
/// keeps it consistent: `rs1` is the table after the push, `rs2` after
/// the parent's child list gains the new 1-based position.
#[verifier::rlimit(60)]
proof fn lemma_append_tree(rs0: Seq<RecordV>, rs1: Seq<RecordV>, rs2: Seq<RecordV>, rv: RecordV, i: int)
    requires
        wf_tree(rs0),
        rs0.len() < u64::MAX,
        0 <= i < rs0.len(),
        rs0[i] is Directory,
        rv.parent() == Some((i + 1) as u64),
        rv matches RecordV::Directory(d) ==> d.children == Seq::<u64>::empty(),
        rs1 == rs0.push(rv),
        rs2.len() == rs1.len(),
        forall|j: int| 0 <= j < rs2.len() && j != i ==> rs2[j] == #[trigger] rs1[j],
        rs2[i] matches RecordV::Directory(dn) && (rs1[i] matches RecordV::Directory(dold) && dn
            == (DirectoryV { children: dold.children.push((rs0.len() + 1) as u64), ..dold })),
        wf_links(rs0),
    ensures
        wf_tree(rs2),
        wf_links(rs2),
{
    assert forall|j: int| 0 <= j < rs2.len() implies #[trigger] links_ok_at(rs2, j) by {
        let dn = rs2[i]->Directory_0;
        let dold = rs0[i]->Directory_0;
        assert(forall|m: int| 0 <= m < rs0.len() ==> rs1[m] == #[trigger] rs0[m]);
        assert(forall|m: int| 0 <= m < rs0.len() && m != i ==> rs2[m] == #[trigger] rs0[m]);
        assert(forall|m: int|
            0 <= m < dold.children.len() ==> dn.children[m] == #[trigger] dold.children[m]);
        assert(rs2[i].parent() == rs0[i].parent());
        if j < rs0.len() {
            assert(links_ok_at(rs0, j));
            assert(rs2[j].parent() == rs0[j].parent());
            match rs0[j].parent() {
                Some(p) => {
                    if p - 1 == i {
                        let w = choose|w: int|
                            0 <= w < dold.children.len() && dold.children[w] == (j + 1) as u64;
                        assert(dn.children[w] == (j + 1) as u64);
                        assert(dn.children.contains((j + 1) as u64));
                    } else {
                        assert(rs2[p - 1] == rs0[p - 1]);
                    }
                },
                None => {},
            }
        } else {
            assert(j == rs0.len());
            assert(rs2[j] == rs1[j]);
            assert(rs1[j] == rv);
            assert(dn.children.last() == (rs0.len() + 1) as u64);
            assert(dn.children.contains((j + 1) as u64));
        }
    }
    assert(forall|k: int| 0 <= k < rs2.len() ==> rs2[k].parent() == #[trigger] rs1[k].parent());
    assert(forall|k: int| 0 <= k < rs2.len() ==> ((#[trigger] rs2[k]) is Directory <==> rs1[k]
        is Directory));
    assert(forall|k: int| 0 <= k < rs2.len() ==> #[trigger] tree_ok_at(rs2, k)) by {
        assert(forall|k: int| 0 <= k < rs0.len() ==> #[trigger] tree_ok_at(rs0, k));
        assert forall|k: int| 0 <= k < rs2.len() implies #[trigger] tree_ok_at(rs2, k) by {
            if k == i {
                let dn = rs2[i]->Directory_0;
                let dold = rs0[i]->Directory_0;
                assert(tree_ok_at(rs0, i));
                assert(forall|m: int|
                    0 <= m < dold.children.len() ==> dn.children[m] == #[trigger] dold.children[m]);
                assert(dn.children.last() == (rs0.len() + 1) as u64);
                assert(rs2[rs0.len() as int] == rv);
            } else if k == rs0.len() {
                assert(rs2[k] == rv);
            } else {
                assert(tree_ok_at(rs0, k));
                assert(rs2[k] == rs0[k]);
            }
        }
    }
}

/// Tables of the same shape (paths, parents, variants and child lists
/// unchanged) are equally consistent.
proof fn lemma_tree_same_shape(rs0: Seq<RecordV>, rs2: Seq<RecordV>)
    requires
        wf_tree(rs0),
        wf_links(rs0),
        rs2.len() == rs0.len(),
        forall|k: int| 0 <= k < rs2.len() ==> rs2[k].parent() == #[trigger] rs0[k].parent(),
        forall|k: int| 0 <= k < rs2.len() ==> ((#[trigger] rs2[k]) is Directory <==> rs0[k]
            is Directory),
        forall|k: int|
            #![trigger rs2[k]]
            0 <= k < rs2.len() ==> (rs2[k] matches RecordV::Directory(dn) ==> (rs0[k]
                matches RecordV::Directory(dold) && dn.children == dold.children)),
    ensures
        wf_tree(rs2),
        wf_links(rs2),
{
    assert forall|k: int| 0 <= k < rs2.len() implies #[trigger] tree_ok_at(rs2, k) by {
        assert(tree_ok_at(rs0, k));
    }
    assert forall|k: int| 0 <= k < rs2.len() implies #[trigger] links_ok_at(rs2, k) by {
        assert(links_ok_at(rs0, k));
        match rs0[k].parent() {
            Some(p) => {
                assert(rs2[p - 1] is Directory);
            },
            None => {},
        }
    }
}

} // verus!
