//! Records: the entries of an archive's metadata, and their attribute
//! tables.
use vstd::prelude::*;

use crate::compression::Compression;
use crate::path::{wf_component, BoxPath};

verus! {

// ---------------------------------------------------------------------------
// Attribute maps.
// ---------------------------------------------------------------------------
/// True when some entry of `m` carries `key`.
pub open spec fn has_key(m: Seq<(u64, Seq<u8>)>, key: u64) -> bool {
    exists|i: int| 0 <= i < m.len() && m[i].0 == key
}

/// The position of the entry carrying `key`.
pub open spec fn key_at(m: Seq<(u64, Seq<u8>)>, key: u64) -> int {
    choose|i: int| 0 <= i < m.len() && m[i].0 == key
}

/// The value stored under `key`, if any.
pub open spec fn attrs_get(m: Seq<(u64, Seq<u8>)>, key: u64) -> Option<Seq<u8>> {
    if has_key(m, key) {
        Some(m[key_at(m, key)].1)
    } else {
        None
    }
}

/// No two entries carry the same key.
pub open spec fn wf_attrs(m: Seq<(u64, Seq<u8>)>) -> bool {
    forall|i: int, j: int| 0 <= i < j < m.len() ==> (#[trigger] m[i]).0 != (#[trigger] m[j]).0
}

/// A mapping from interned attribute-key ids to opaque byte values,
/// in insertion order, with no key stored twice.
#[derive(Debug)]
pub struct AttrMap {
    pub(crate) entries: Vec<(u64, Vec<u8>)>,
}

impl View for AttrMap {
    type V = Seq<(u64, Seq<u8>)>;

    closed spec fn view(&self) -> Seq<(u64, Seq<u8>)> {
        Seq::new(self.entries@.len(), |i: int| (self.entries@[i].0, self.entries@[i].1@))
    }
}

impl AttrMap {
    pub open spec fn wf(&self) -> bool {
        wf_attrs(self@)
    }

    /// An empty attribute map.
    pub fn new() -> (r: AttrMap)
        ensures
            r@ == Seq::<(u64, Seq<u8>)>::empty(),
            r.wf(),
    {
        let r = AttrMap { entries: Vec::new() };
        proof {
            assert(r@ =~= Seq::<(u64, Seq<u8>)>::empty());
        }
        r
    }

    /// Number of entries.
    pub fn len(&self) -> (r: usize)
        ensures
            r == self@.len(),
    {
        self.entries.len()
    }

    /// The entry at a position, as an id and a borrowed value.
    pub fn entry_at(&self, i: usize) -> (r: (u64, &Vec<u8>))
        requires
            i < self@.len(),
        ensures
            r.0 == self@[i as int].0,
            r.1@ == self@[i as int].1,
    {
        let e = &self.entries[i];
        (e.0, &e.1)
    }

    /// The value stored under `key`, exactly as [`attrs_get`]
    /// describes.
    pub fn get(&self, key: u64) -> (r: Option<&Vec<u8>>)
        requires
            self.wf(),
        ensures
            match r {
                Some(v) => attrs_get(self@, key) == Some(v@),
                None => attrs_get(self@, key) is None,
            },
    {
        let n = self.entries.len();
        let mut i: usize = 0;
        while i < n
            invariant
                i <= n,
                n == self@.len(),
                n == self.entries@.len(),
                self.wf(),
                forall|m: int| 0 <= m < i ==> (#[trigger] self@[m]).0 != key,
            decreases n - i,
        {
            if self.entries[i].0 == key {
                proof {
                    assert(self@[i as int].0 == key);
                    assert(has_key(self@, key));
                    let w = key_at(self@, key);
                    assert(self@[w].0 == key);
                    assert(w == i as int);
                }
                return Some(&self.entries[i].1);
            }
            i = i + 1;
        }
        proof {
            assert(!has_key(self@, key));
        }
        None
    }

    /// Stores `value` under `key`: replaces the entry carrying `key`
    /// in place, or appends a new entry.
    pub fn set(&mut self, key: u64, value: Vec<u8>)
        requires
            old(self).wf(),
        ensures
            final(self).wf(),
            final(self)@ == if has_key(old(self)@, key) {
                old(self)@.update(key_at(old(self)@, key), (key, value@))
            } else {
                old(self)@.push((key, value@))
            },
            attrs_get(final(self)@, key) == Some(value@),
    {
        let ghost m0 = self@;
        let n = self.entries.len();
        let mut i: usize = 0;
        while i < n
            invariant
                i <= n,
                n == self@.len(),
                n == self.entries@.len(),
                self.wf(),
                self@ == m0,
                m0 == old(self)@,
                forall|m: int| 0 <= m < i ==> (#[trigger] self@[m]).0 != key,
            decreases n - i,
        {
            if self.entries[i].0 == key {
                proof {
                    assert(m0[i as int].0 == key);
                    assert(has_key(m0, key));
                    let w = key_at(m0, key);
                    assert(m0[w].0 == key);
                    assert(w == i as int);
                }
                self.entries[i] = (key, value);
                proof {
                    assert(self@ =~= m0.update(i as int, (key, value@)));
                    lemma_attrs_update_wf(m0, i as int, key, value@);
                    assert(self@[i as int].0 == key);
                    assert(has_key(self@, key));
                    let w2 = key_at(self@, key);
                    assert(self@[w2].0 == key);
                    assert(w2 == i as int);
                }
                return ;
            }
            i = i + 1;
        }
        proof {
            assert(!has_key(m0, key));
        }
        self.entries.push((key, value));
        proof {
            assert(self@ =~= m0.push((key, value@)));
            assert(forall|m: int| 0 <= m < m0.len() ==> (#[trigger] self@[m]) == m0[m]);
            assert(self.wf());
            assert(self@[m0.len() as int].0 == key);
            assert(has_key(self@, key));
            let w2 = key_at(self@, key);
            assert(self@[w2].0 == key);
            assert(w2 == m0.len() as int);
        }
    }
}

/// Replacing the value under an existing key keeps the keys unique.
proof fn lemma_attrs_update_wf(m: Seq<(u64, Seq<u8>)>, i: int, key: u64, value: Seq<u8>)
    requires
        wf_attrs(m),
        0 <= i < m.len(),
        m[i].0 == key,
    ensures
        wf_attrs(m.update(i, (key, value))),
{
    let m2 = m.update(i, (key, value));
    assert(forall|k: int| 0 <= k < m.len() ==> (#[trigger] m2[k]).0 == m[k].0);
}

// ---------------------------------------------------------------------------
// Records.
// ---------------------------------------------------------------------------
/// Spec form of a stored file entry.
pub struct FileV {
    pub parent: Option<u64>,
    pub compression: Compression,
    pub length: u64,
    pub decompressed_length: u64,
    pub path: Seq<Seq<char>>,
    pub attrs: Seq<(u64, Seq<u8>)>,
    pub data: u64,
}

/// Spec form of a directory entry.
pub struct DirectoryV {
    pub parent: Option<u64>,
    pub path: Seq<Seq<char>>,
    pub children: Seq<u64>,
    pub attrs: Seq<(u64, Seq<u8>)>,
}

/// Spec form of a link entry.
pub struct LinkV {
    pub parent: Option<u64>,
    pub path: Seq<Seq<char>>,
    pub target: Seq<Seq<char>>,
    pub attrs: Seq<(u64, Seq<u8>)>,
}

/// Spec form of a record.
pub enum RecordV {
    File(FileV),
    Directory(DirectoryV),
    Link(LinkV),
}

/// A stored file: its payload lies at `[data, data + length)` in the
/// archive, compressed as `compression` says.
#[derive(Debug)]
pub struct FileRecord {
    /// 1-based position of the containing directory; `None` at root.
    pub parent: Option<u64>,
    pub compression: Compression,
    /// Byte length of the payload as stored, after compression.
    pub length: u64,
    /// Advisory decompressed length; not authoritative for sizing.
    pub decompressed_length: u64,
    pub path: BoxPath,
    pub attrs: AttrMap,
    /// Byte offset of the payload; never zero.
    pub data: u64,
}

/// A directory: the positions of the records linked under it.
#[derive(Debug)]
pub struct DirectoryRecord {
    /// 1-based position of the containing directory; `None` at root.
    pub parent: Option<u64>,
    pub path: BoxPath,
    /// 1-based positions of the records linked under this directory.
    pub children: Vec<u64>,
    pub attrs: AttrMap,
}

/// A symbolic link to another canonical path, which may dangle.
#[derive(Debug)]
pub struct LinkRecord {
    /// 1-based position of the containing directory; `None` at root.
    pub parent: Option<u64>,
    pub path: BoxPath,
    pub target: BoxPath,
    pub attrs: AttrMap,
}

/// One entry of the archive's metadata.
#[derive(Debug)]
pub enum Record {
    File(FileRecord),
    Directory(DirectoryRecord),
    Link(LinkRecord),
}

impl View for FileRecord {
    type V = FileV;

    open spec fn view(&self) -> FileV {
        FileV {
            parent: self.parent,
            compression: self.compression,
            length: self.length,
            decompressed_length: self.decompressed_length,
            path: self.path@,
            attrs: self.attrs@,
            data: self.data,
        }
    }
}

impl View for DirectoryRecord {
    type V = DirectoryV;

    open spec fn view(&self) -> DirectoryV {
        DirectoryV {
            parent: self.parent,
            path: self.path@,
            children: self.children@,
            attrs: self.attrs@,
        }
    }
}

impl View for LinkRecord {
    type V = LinkV;

    open spec fn view(&self) -> LinkV {
        LinkV { parent: self.parent, path: self.path@, target: self.target@, attrs: self.attrs@ }
    }
}

impl View for Record {
    type V = RecordV;

    open spec fn view(&self) -> RecordV {
        match self {
            Record::File(f) => RecordV::File(f@),
            Record::Directory(d) => RecordV::Directory(d@),
            Record::Link(l) => RecordV::Link(l@),
        }
    }
}

/// A parent reference is either absent or a 1-based position.
pub open spec fn wf_parent(p: Option<u64>) -> bool {
    match p {
        Some(q) => q >= 1,
        None => true,
    }
}

/// A structurally valid path view: non-empty, with well-formed
/// components.
pub open spec fn wf_path_view(p: Seq<Seq<char>>) -> bool {
    p.len() >= 1 && forall|i: int| 0 <= i < p.len() ==> wf_component(#[trigger] p[i])
}

impl FileV {
    pub open spec fn wf(&self) -> bool {
        &&& wf_parent(self.parent)
        &&& self.compression.wf()
        &&& wf_path_view(self.path)
        &&& wf_attrs(self.attrs)
        &&& self.data >= 1
        &&& self.data + self.length <= u64::MAX
    }
}

impl DirectoryV {
    pub open spec fn wf(&self) -> bool {
        &&& wf_parent(self.parent)
        &&& wf_path_view(self.path)
        &&& wf_attrs(self.attrs)
        &&& forall|i: int| 0 <= i < self.children.len() ==> #[trigger] self.children[i] >= 1
    }
}

impl LinkV {
    pub open spec fn wf(&self) -> bool {
        &&& wf_parent(self.parent)
        &&& wf_path_view(self.path)
        &&& wf_path_view(self.target)
        &&& wf_attrs(self.attrs)
    }
}

impl RecordV {
    pub open spec fn wf(&self) -> bool {
        match self {
            RecordV::File(f) => f.wf(),
            RecordV::Directory(d) => d.wf(),
            RecordV::Link(l) => l.wf(),
        }
    }

    pub open spec fn path(&self) -> Seq<Seq<char>> {
        match self {
            RecordV::File(f) => f.path,
            RecordV::Directory(d) => d.path,
            RecordV::Link(l) => l.path,
        }
    }

    pub open spec fn parent(&self) -> Option<u64> {
        match self {
            RecordV::File(f) => f.parent,
            RecordV::Directory(d) => d.parent,
            RecordV::Link(l) => l.parent,
        }
    }

    pub open spec fn attrs(&self) -> Seq<(u64, Seq<u8>)> {
        match self {
            RecordV::File(f) => f.attrs,
            RecordV::Directory(d) => d.attrs,
            RecordV::Link(l) => l.attrs,
        }
    }
}

impl Record {
    pub open spec fn wf(&self) -> bool {
        self@.wf()
    }

    /// The record's canonical path.
    pub fn path(&self) -> (r: &BoxPath)
        ensures
            r@ == self@.path(),
    {
        match self {
            Record::File(f) => &f.path,
            Record::Directory(d) => &d.path,
            Record::Link(l) => &l.path,
        }
    }

    /// The record's parent reference.
    pub fn parent(&self) -> (r: Option<u64>)
        ensures
            r == self@.parent(),
    {
        match self {
            Record::File(f) => f.parent,
            Record::Directory(d) => d.parent,
            Record::Link(l) => l.parent,
        }
    }

    /// The record's attribute table.
    pub fn attrs(&self) -> (r: &AttrMap)
        ensures
            r@ == self@.attrs(),
    {
        match self {
            Record::File(f) => &f.attrs,
            Record::Directory(d) => &d.attrs,
            Record::Link(l) => &l.attrs,
        }
    }

    /// The record's attribute table, for updating in place.
    pub fn attrs_mut(&mut self) -> (r: &mut AttrMap)
        ensures
            r@ == old(self)@.attrs(),
            final(self)@.path() == old(self)@.path(),
            final(self)@.parent() == old(self)@.parent(),
            final(self)@.attrs() == final(r)@,
            final(self)@ is File <==> old(self)@ is File,
            final(self)@ is Directory <==> old(self)@ is Directory,
            final(self)@ is Link <==> old(self)@ is Link,
            final(self)@ matches RecordV::File(f) ==> (old(self)@ matches RecordV::File(g) && f
                == (FileV { attrs: f.attrs, ..g })),
            final(self)@ matches RecordV::Directory(f) ==> (old(self)@ matches RecordV::Directory(
                g,
            ) && f == (DirectoryV { attrs: f.attrs, ..g })),
            final(self)@ matches RecordV::Link(f) ==> (old(self)@ matches RecordV::Link(g) && f
                == (LinkV { attrs: f.attrs, ..g })),
    {
        match self {
            Record::File(f) => &mut f.attrs,
            Record::Directory(d) => &mut d.attrs,
            Record::Link(l) => &mut l.attrs,
        }
    }

    /// This record as a file, if it is one.
    pub fn as_file(&self) -> (r: Option<&FileRecord>)
        ensures
            match r {
                Some(f) => self@ == RecordV::File(f@),
                None => !(self@ is File),
            },
    {
        match self {
            Record::File(f) => Some(f),
            _ => None,
        }
    }

    /// This record as a directory, if it is one.
    pub fn as_directory(&self) -> (r: Option<&DirectoryRecord>)
        ensures
            match r {
                Some(d) => self@ == RecordV::Directory(d@),
                None => !(self@ is Directory),
            },
    {
        match self {
            Record::Directory(d) => Some(d),
            _ => None,
        }
    }

    /// This record as a link, if it is one.
    pub fn as_link(&self) -> (r: Option<&LinkRecord>)
        ensures
            match r {
                Some(l) => self@ == RecordV::Link(l@),
                None => !(self@ is Link),
            },
    {
        match self {
            Record::Link(l) => Some(l),
            _ => None,
        }
    }
}

} // verus!
