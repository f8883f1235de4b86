use analycore::patch::{Range, Substitutes};

#[test]
fn range_new_keeps_bounds() {
    let r = Range::new(3, 9);
    assert_eq!(r.lo, 3);
    assert_eq!(r.hi, 9);
}

#[test]
fn source_slice_copies_the_region() {
    let src: Vec<u8> = b"abcdefghij".to_vec();
    assert_eq!(analycore::patch::source_slice(&src, 2, 5), b"cde".to_vec());
    assert_eq!(analycore::patch::source_slice(&src, 0, 0), Vec::<u8>::new());
    assert_eq!(analycore::patch::source_slice(&src, 0, 10), src);
}

// Patch composition: a replacement followed by a later insertion, with
// the running offset delta carrying the three removed bytes (replaced by
// one) into the insertion position.
#[test]
fn apply_composes_replacement_and_insertion() {
    let mut s = Substitutes::new();
    s.rewrite(2, 5, b"X".to_vec());
    s.rewrite(8, 8, b"Y".to_vec());
    let out = s.apply(&b"abcdefghij".to_vec());
    assert_eq!(out, b"abXfghYij".to_vec());
}

#[test]
fn apply_sorts_edits_by_start_offset() {
    let mut s = Substitutes::new();
    s.rewrite(8, 8, b"Y".to_vec());
    s.rewrite(2, 5, b"X".to_vec());
    let out = s.apply(&b"abcdefghij".to_vec());
    assert_eq!(out, b"abXfghYij".to_vec());
}

#[test]
fn apply_with_no_edits_returns_the_text_unchanged() {
    let s = Substitutes::new();
    assert_eq!(s.apply(&b"abc".to_vec()), b"abc".to_vec());
}

#[test]
fn apply_pure_deletion() {
    let mut s = Substitutes::new();
    s.rewrite(1, 3, Vec::new());
    assert_eq!(s.apply(&b"abcd".to_vec()), b"ad".to_vec());
}

#[test]
fn apply_insertion_at_both_ends() {
    let mut s = Substitutes::new();
    s.rewrite(0, 0, b"<<".to_vec());
    s.rewrite(3, 3, b">>".to_vec());
    assert_eq!(s.apply(&b"mid".to_vec()), b"<<mid>>".to_vec());
}

#[test]
fn merge_concatenates_edit_lists() {
    let mut a = Substitutes::new();
    a.rewrite(0, 1, b"Z".to_vec());
    let mut b = Substitutes::new();
    b.rewrite(2, 2, b"Q".to_vec());
    a.merge(&b);
    assert_eq!(a.replaces.len(), 2);
    assert_eq!(a.apply(&b"xy".to_vec()), b"ZyQ".to_vec());
}

#[test]
fn wf_for_accepts_disjoint_edits() {
    let mut s = Substitutes::new();
    s.rewrite(2, 5, b"X".to_vec());
    s.rewrite(8, 8, b"Y".to_vec());
    assert!(s.wf_for(10));
    assert!(!s.wf_for(7));
}

#[test]
fn wf_for_rejects_overlapping_edits() {
    let mut s = Substitutes::new();
    s.rewrite(2, 6, b"X".to_vec());
    s.rewrite(4, 8, b"Y".to_vec());
    assert!(!s.wf_for(10));
}

#[test]
fn wf_for_rejects_shared_start_offsets() {
    let mut s = Substitutes::new();
    s.rewrite(3, 3, b"X".to_vec());
    s.rewrite(3, 3, b"Y".to_vec());
    assert!(!s.wf_for(10));
}
