//! Path canonicalization: the concrete cases and idempotence.
use box_format::{BoxPath, PathError};

fn parts(p: &BoxPath) -> Vec<String> {
    let mut out: Vec<String> = Vec::new();
    let mut k: usize = 0;
    while k < p.depth() {
        out.push(p.prefix(k + 1).filename());
        k += 1;
    }
    out
}

#[test]
fn canonicalize_resolves_dots() {
    let p = BoxPath::new("/a/../b/./c.txt").unwrap();
    assert_eq!(parts(&p), vec!["b".to_string(), "c.txt".to_string()]);
    assert_eq!(p.to_display(), "b/c.txt");
}

#[test]
fn canonicalize_rejects_empty() {
    assert_eq!(BoxPath::new("").unwrap_err(), PathError::EmptyPath);
    assert_eq!(BoxPath::new("/").unwrap_err(), PathError::EmptyPath);
    assert_eq!(BoxPath::new("a/..").unwrap_err(), PathError::EmptyPath);
}

#[test]
fn canonicalize_rejects_control_characters() {
    assert_eq!(BoxPath::new("\0").unwrap_err(), PathError::UnrepresentableStr);
    assert_eq!(BoxPath::new("a/b\u{1f}c").unwrap_err(), PathError::UnrepresentableStr);
}

#[test]
fn canonicalize_is_idempotent() {
    let samples = vec!["/a/../b/./c.txt", "x\\y\\z", "  spaced  /name", "ünïcödé/päth"];
    for s in samples {
        let once = BoxPath::new(s).unwrap();
        let twice = BoxPath::new(&once.to_display()).unwrap();
        assert_eq!(once, twice, "input {:?}", s);
    }
}

#[test]
fn canonicalize_trims_and_splits() {
    let p = BoxPath::new("  a  //  b  ").unwrap();
    assert_eq!(p.to_display(), "a/b");
    let q = BoxPath::new("a\\b/c").unwrap();
    assert_eq!(q.depth(), 3);
}

#[test]
fn parent_and_filename() {
    let p = BoxPath::new("a/b/c").unwrap();
    assert_eq!(p.filename(), "c");
    let parent = p.parent().unwrap();
    assert_eq!(parent.to_display(), "a/b");
    let root = BoxPath::new("a").unwrap();
    assert!(root.parent().is_none());
}

#[test]
fn dotdot_pops_silently_past_start() {
    let p = BoxPath::new("../../a").unwrap();
    assert_eq!(p.to_display(), "a");
}
