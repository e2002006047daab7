//! End-to-end archive behaviour on in-memory images.
use box_format::compress::decompress_bytes;
use box_format::header::HEADER_SIZE;
use box_format::reader::open_archive;
use box_format::writer::BoxWriter;
use box_format::{BoxError, BoxPath, Compression};

/// Builds the byte image of an archive from the writer's state and
/// the payloads it handed out.
fn image(w: &BoxWriter, payloads: &[(u64, Vec<u8>)]) -> Vec<u8> {
    let fin = w.finish().unwrap();
    let mut img = vec![0u8; fin.total_len as usize];
    img[..fin.header_bytes.len()].copy_from_slice(&fin.header_bytes);
    for (off, bytes) in payloads {
        let s = *off as usize;
        img[s..s + bytes.len()].copy_from_slice(bytes);
    }
    let t = fin.trailer_offset as usize;
    img[t..t + fin.trailer_bytes.len()].copy_from_slice(&fin.trailer_bytes);
    img
}

#[test]
fn end_to_end_store_and_reopen() {
    let mut w = BoxWriter::create();
    w.mkdir(BoxPath::new("test").unwrap(), vec![]).unwrap();
    let hello = b"hello".to_vec();
    let out1 = w
        .insert(Compression::Stored, BoxPath::new("test/a.txt").unwrap(), &hello, vec![])
        .unwrap();
    let big: Vec<u8> = "reduce, reuse, recycle. ".repeat(220).into_bytes();
    assert!(big.len() > 5000);
    let out2 = w
        .insert(Compression::Zstd, BoxPath::new("test/b.txt").unwrap(), &big, vec![])
        .unwrap();
    let img = image(&w, &[(out1.offset, out1.bytes.clone()), (out2.offset, out2.bytes.clone())]);

    let (header, meta) = open_archive(&img).unwrap();
    assert_eq!(header.version, 0);
    let a = meta.find_record(&BoxPath::new("test/a.txt").unwrap()).unwrap();
    let b = meta.find_record(&BoxPath::new("test/b.txt").unwrap()).unwrap();
    let fa = meta.record_at(a).as_file().unwrap();
    let fb = meta.record_at(b).as_file().unwrap();
    assert_eq!(fa.parent, fb.parent);
    let da = &img[fa.data as usize..(fa.data + fa.length) as usize];
    let db = &img[fb.data as usize..(fb.data + fb.length) as usize];
    assert_eq!(decompress_bytes(fa.compression, da).unwrap(), hello);
    assert_eq!(decompress_bytes(fb.compression, db).unwrap(), big);
    assert_eq!(fa.decompressed_length, 5);
    assert_eq!(fb.decompressed_length, big.len() as u64);
}

#[test]
fn insert_twice_fails_and_changes_nothing() {
    let mut w = BoxWriter::create();
    w.mkdir(BoxPath::new("test").unwrap(), vec![]).unwrap();
    let out = w
        .insert(Compression::Stored, BoxPath::new("test/a.txt").unwrap(), b"hello", vec![])
        .unwrap();
    let before = image(&w, &[(out.offset, out.bytes.clone())]);
    let err = w
        .insert(Compression::Stored, BoxPath::new("test/a.txt").unwrap(), b"other", vec![])
        .unwrap_err();
    assert_eq!(err, BoxError::AlreadyExists);
    let after = image(&w, &[(out.offset, out.bytes.clone())]);
    assert_eq!(before, after);
    let i = w.metadata().find_record(&BoxPath::new("test/a.txt").unwrap()).unwrap();
    let f = w.metadata().record_at(i).as_file().unwrap();
    assert_eq!((f.data, f.length), (out.offset, out.bytes.len() as u64));
}

#[test]
fn insert_under_missing_parent_writes_nothing() {
    let mut w = BoxWriter::create();
    let before = image(&w, &[]);
    let err = w
        .insert(Compression::Stored, BoxPath::new("no/dir/x.bin").unwrap(), b"data", vec![])
        .unwrap_err();
    assert_eq!(err, BoxError::NotFound);
    let after = image(&w, &[]);
    assert_eq!(before, after, "a failed insert must not grow the file");
}

#[test]
fn insert_under_file_fails() {
    let mut w = BoxWriter::create();
    w.insert(Compression::Stored, BoxPath::new("plain").unwrap(), b"x", vec![]).unwrap();
    let err = w
        .insert(Compression::Stored, BoxPath::new("plain/child").unwrap(), b"y", vec![])
        .unwrap_err();
    assert_eq!(err, BoxError::NotFound);
}

#[test]
fn alignment_is_respected() {
    let mut w = BoxWriter::create_with_alignment(64);
    let o1 = w.insert(Compression::Stored, BoxPath::new("a").unwrap(), b"abc", vec![]).unwrap();
    let o2 = w.insert(Compression::Stored, BoxPath::new("b").unwrap(), b"defgh", vec![]).unwrap();
    assert_eq!(o1.offset % 64, 0);
    assert_eq!(o2.offset % 64, 0);
    assert!(o2.offset >= o1.offset + 3);
    let img = image(&w, &[(o1.offset, o1.bytes.clone()), (o2.offset, o2.bytes.clone())]);
    let (header, meta) = open_archive(&img).unwrap();
    assert_eq!(header.alignment, Some(64));
    let i = meta.find_record(&BoxPath::new("b").unwrap()).unwrap();
    assert_eq!(meta.record_at(i).as_file().unwrap().data % 64, 0);
}

#[test]
fn allocation_is_monotonic_and_disjoint() {
    let mut w = BoxWriter::create();
    let mut spans: Vec<(u64, u64)> = Vec::new();
    for (name, data) in [("f1", &b"12345"[..]), ("f2", b"678"), ("f3", b"90abcdef")] {
        let o = w.insert(Compression::Stored, BoxPath::new(name).unwrap(), data, vec![]).unwrap();
        spans.push((o.offset, o.offset + o.bytes.len() as u64));
    }
    assert!(spans[0].0 >= HEADER_SIZE);
    for k in 1..spans.len() {
        assert!(spans[k - 1].1 <= spans[k].0, "payloads overlap or are out of order");
    }
}

#[test]
fn attribute_keys_are_interned_once() {
    let mut w = BoxWriter::create();
    w.mkdir(BoxPath::new("d").unwrap(), vec![("owner".to_string(), b"ada".to_vec())]).unwrap();
    w.insert(
        Compression::Stored,
        BoxPath::new("d/f").unwrap(),
        b"x",
        vec![("owner".to_string(), b"bob".to_vec()), ("mode".to_string(), b"644".to_vec())],
    )
        .unwrap();
    w.set_archive_attr("owner", b"root".to_vec());
    let meta = w.metadata();
    assert_eq!(meta.attr_key_count(), 2);
    assert_eq!(meta.attr_key_at(0).as_str(), "owner");
    assert_eq!(meta.attr_key_at(1).as_str(), "mode");
    assert_eq!(meta.attr(&BoxPath::new("d").unwrap(), "owner").unwrap(), &b"ada".to_vec());
    assert_eq!(meta.attr(&BoxPath::new("d/f").unwrap(), "owner").unwrap(), &b"bob".to_vec());
    assert_eq!(meta.attr(&BoxPath::new("d/f").unwrap(), "mode").unwrap(), &b"644".to_vec());
    assert!(meta.attr(&BoxPath::new("d/f").unwrap(), "unseen").is_none());
}

#[test]
fn set_attr_updates_in_place() {
    let mut w = BoxWriter::create();
    w.insert(Compression::Stored, BoxPath::new("f").unwrap(), b"x", vec![]).unwrap();
    w.set_attr(&BoxPath::new("f").unwrap(), "k", b"1".to_vec()).unwrap();
    w.set_attr(&BoxPath::new("f").unwrap(), "k", b"2".to_vec()).unwrap();
    assert_eq!(w.metadata().attr_key_count(), 1);
    assert_eq!(w.metadata().attr(&BoxPath::new("f").unwrap(), "k").unwrap(), &b"2".to_vec());
    let err = w.set_attr(&BoxPath::new("missing").unwrap(), "k", b"3".to_vec()).unwrap_err();
    assert_eq!(err, BoxError::NotFound);
}

#[test]
fn mkdir_creates_missing_parents() {
    let mut w = BoxWriter::create();
    w.mkdir(BoxPath::new("a/b/c").unwrap(), vec![]).unwrap();
    let meta = w.metadata();
    for p in ["a", "a/b", "a/b/c"] {
        let i = meta.find_record(&BoxPath::new(p).unwrap()).unwrap();
        assert!(meta.record_at(i).as_directory().is_some(), "{} must be a directory", p);
    }
    let err = w.mkdir(BoxPath::new("a/b/c").unwrap(), vec![]).unwrap_err();
    assert_eq!(err, BoxError::AlreadyExists);
}

#[test]
fn link_stores_target() {
    let mut w = BoxWriter::create();
    w.mkdir(BoxPath::new("dir").unwrap(), vec![]).unwrap();
    w.link(BoxPath::new("dir/l").unwrap(), BoxPath::new("dangling/target").unwrap(), vec![])
        .unwrap();
    let meta = w.metadata();
    let i = meta.find_record(&BoxPath::new("dir/l").unwrap()).unwrap();
    let l = meta.record_at(i).as_link().unwrap();
    assert_eq!(l.target.to_display(), "dangling/target");
}

#[test]
fn reopened_archive_round_trips() {
    let mut w = BoxWriter::create_with_alignment(8);
    w.mkdir(BoxPath::new("d").unwrap(), vec![("k".to_string(), b"v".to_vec())]).unwrap();
    let o = w.insert(Compression::Deflate, BoxPath::new("d/z").unwrap(), b"zzzz", vec![]).unwrap();
    w.set_archive_attr("note", b"hi".to_vec());
    let img = image(&w, &[(o.offset, o.bytes.clone())]);
    let (header, meta) = open_archive(&img).unwrap();
    let w2 = BoxWriter::from_parts(header, meta).unwrap();
    let img2 = image(&w2, &[(o.offset, o.bytes.clone())]);
    let (_, meta2) = open_archive(&img2).unwrap();
    assert_eq!(meta2.attr(&BoxPath::new("d").unwrap(), "k").unwrap(), &b"v".to_vec());
    assert_eq!(meta2.record_count(), 2);
}

#[test]
fn bad_magic_and_missing_trailer_are_distinct() {
    let mut w = BoxWriter::create();
    w.insert(Compression::Stored, BoxPath::new("f").unwrap(), b"x", vec![]).unwrap();
    let fin = w.finish().unwrap();
    let mut img = vec![0u8; fin.total_len as usize];
    img[..fin.header_bytes.len()].copy_from_slice(&fin.header_bytes);
    let t = fin.trailer_offset as usize;
    img[t..t + fin.trailer_bytes.len()].copy_from_slice(&fin.trailer_bytes);

    let mut bad = img.clone();
    bad[0] = 0x7F;
    assert!(matches!(
        open_archive(&bad),
        Err(BoxError::Format(box_format::FormatError::BadMagic))
    ));

    // A freshly created header has no trailer pointer yet.
    let empty = BoxWriter::create();
    let fin0 = empty.finish().unwrap();
    let mut no_trailer = vec![0u8; 24];
    no_trailer[..4].copy_from_slice(&fin0.header_bytes[..4]);
    assert!(matches!(open_archive(&no_trailer), Err(BoxError::NoTrailer)));

    assert!(open_archive(&img).is_ok());
}

#[test]
fn unknown_record_tag_is_rejected() {
    let mut w = BoxWriter::create();
    w.insert(Compression::Stored, BoxPath::new("f").unwrap(), b"x", vec![]).unwrap();
    let fin = w.finish().unwrap();
    let mut img = vec![0u8; fin.total_len as usize];
    img[..fin.header_bytes.len()].copy_from_slice(&fin.header_bytes);
    let t = fin.trailer_offset as usize;
    img[t..t + fin.trailer_bytes.len()].copy_from_slice(&fin.trailer_bytes);
    // The first byte after the record count is the first record's tag;
    // an unknown tag is invalid data, not a truncation.
    img[t + 1] = 9;
    assert!(matches!(
        open_archive(&img),
        Err(BoxError::Format(box_format::FormatError::InvalidData))
    ));
}

#[test]
fn zero_data_offset_is_invalid_data() {
    let mut w = BoxWriter::create();
    w.insert(Compression::Stored, BoxPath::new("f").unwrap(), b"x", vec![]).unwrap();
    let mut trailer = box_format::ser::encode_meta(w.metadata());
    // The file record ends with its 8-byte data offset, followed only
    // by the empty key table and the empty archive attribute map (one
    // count byte each).
    let n = trailer.len();
    for b in &mut trailer[n - 10..n - 2] {
        *b = 0;
    }
    assert!(matches!(
        box_format::de::read_meta(&trailer, 0),
        Err(box_format::FormatError::InvalidData)
    ));
}

#[test]
fn truncated_trailer_is_truncated() {
    let mut w = BoxWriter::create();
    w.insert(Compression::Stored, BoxPath::new("f").unwrap(), b"x", vec![]).unwrap();
    let trailer = box_format::ser::encode_meta(w.metadata());
    let cut = &trailer[..trailer.len() - 1];
    assert!(matches!(
        box_format::de::read_meta(cut, 0),
        Err(box_format::FormatError::Truncated)
    ));
}

#[test]
fn unlinked_child_is_rejected_on_reopen() {
    // A directory with an empty child list, and a file whose parent
    // reference points at it: each direction of the tree check passes
    // alone, but the link back is missing, so a writer refuses it.
    let mut t: Vec<u8> = vec![0x82]; // two records
    t.push(0x01); // directory tag
    t.push(0x80); // no parent
    t.extend_from_slice(&[0x81, b'd']); // path "d"
    t.push(0x80); // no children
    t.push(0x80); // no attributes
    t.push(0x00); // file tag
    t.push(0x81); // parent: record 1
    t.push(0x00); // stored
    t.extend_from_slice(&[1, 0, 0, 0, 0, 0, 0, 0]); // length
    t.extend_from_slice(&[1, 0, 0, 0, 0, 0, 0, 0]); // decompressed length
    t.extend_from_slice(&[0x83, b'd', 0x1f, b'f']); // path "d/f"
    t.push(0x80); // no attributes
    t.extend_from_slice(&[24, 0, 0, 0, 0, 0, 0, 0]); // data offset
    t.push(0x80); // no interned keys
    t.push(0x80); // no archive attributes
    let (meta, end) = box_format::de::read_meta(&t, 0).unwrap();
    assert_eq!(end, t.len());
    let header = box_format::header::BoxHeader::new(None);
    assert!(matches!(
        BoxWriter::from_parts(header, meta),
        Err(BoxError::Format(box_format::FormatError::InvalidData))
    ));
}

#[test]
fn unknown_compression_id_round_trips_in_metadata() {
    assert_eq!(Compression::from_id(box_format::compression::COMPRESSION_ZSTD), Compression::Zstd);
    let odd = Compression::from_id(0x77);
    assert_eq!(odd, Compression::Unknown(0x77));
    assert_eq!(odd.id(), 0x77);
}

#[test]
fn metadata_survives_encode_decode_exactly() {
    let mut w = BoxWriter::create();
    w.mkdir(BoxPath::new("d").unwrap(), vec![("k".to_string(), b"v".to_vec())]).unwrap();
    w.insert(Compression::Snappy, BoxPath::new("d/f").unwrap(), b"payload", vec![]).unwrap();
    w.link(BoxPath::new("d/l").unwrap(), BoxPath::new("d/f").unwrap(), vec![]).unwrap();
    let first = box_format::ser::encode_meta(w.metadata());
    let (meta2, end) = box_format::de::read_meta(&first, 0).unwrap();
    assert_eq!(end, first.len());
    let second = box_format::ser::encode_meta(&meta2);
    assert_eq!(first, second, "decoding and re-encoding must be byte-exact");
}

#[test]
fn unknown_compression_id_survives_reencoding() {
    let mut w = BoxWriter::create();
    w.insert(Compression::Stored, BoxPath::new("f").unwrap(), b"x", vec![]).unwrap();
    let mut trailer = box_format::ser::encode_meta(w.metadata());
    // Record list count, tag byte, parent reference, then the
    // one-byte compression id.
    assert_eq!(trailer[3], 0x00);
    trailer[3] = 0x77;
    let (meta2, _) = box_format::de::read_meta(&trailer, 0).unwrap();
    let rec = meta2.record_at(0).as_file().unwrap();
    assert_eq!(rec.compression, Compression::Unknown(0x77));
    let reenc = box_format::ser::encode_meta(&meta2);
    assert_eq!(reenc, trailer, "an unrecognized id must re-encode unchanged");
}

#[test]
fn truncated_image_is_rejected() {
    let mut w = BoxWriter::create();
    w.insert(Compression::Stored, BoxPath::new("f").unwrap(), b"x", vec![]).unwrap();
    let img = image(&w, &[]);
    assert!(matches!(
        open_archive(&img[..10]),
        Err(BoxError::Format(box_format::FormatError::Truncated))
    ));
}

#[test]
fn absurd_alignment_overflows_allocation() {
    let mut w = BoxWriter::create_with_alignment(u64::MAX);
    let err = w
        .insert(Compression::Stored, BoxPath::new("f").unwrap(), b"x", vec![])
        .unwrap_err();
    assert_eq!(err, BoxError::TooLarge);
}
