//! Scenario tests for the buffer edits: insert, remove, load.

use editor_core::{Editor, TextPosition};

fn doc(lines: &[&[u8]]) -> Editor {
    let mut ed = Editor::new();
    ed.load(lines.iter().map(|l| l.to_vec()).collect());
    ed
}

#[test]
fn insert_at_line_start() {
    let mut ed = doc(&[b"hello"]);
    let r = ed.insert(TextPosition::new(0, 0), &b"X".to_vec());
    assert_eq!(ed.line_count(), 1);
    assert_eq!(ed.line(0).unwrap().as_slice(), b"Xhello");
    assert_eq!(r, TextPosition::new(1, 0));
}

#[test]
fn insert_in_middle_fast_path() {
    let mut ed = doc(&[b"hello"]);
    let r = ed.insert(TextPosition::new(2, 0), &b"YY".to_vec());
    assert_eq!(ed.line(0).unwrap().as_slice(), b"heYYllo");
    assert_eq!(r, TextPosition::new(4, 0));
}

#[test]
fn insert_with_newline_splits_paragraph() {
    let mut ed = doc(&[b"hello"]);
    let r = ed.insert(TextPosition::new(5, 0), &b"\nworld".to_vec());
    assert_eq!(ed.line_count(), 2);
    assert_eq!(ed.line(0).unwrap().as_slice(), b"hello");
    assert_eq!(ed.line(1).unwrap().as_slice(), b"world");
    assert_eq!(r, TextPosition::new(5, 1));
}

#[test]
fn insert_newline_in_middle() {
    let mut ed = doc(&[b"hello"]);
    let r = ed.insert(TextPosition::new(2, 0), &b"X\nY".to_vec());
    assert_eq!(ed.line_count(), 2);
    assert_eq!(ed.line(0).unwrap().as_slice(), b"heX");
    assert_eq!(ed.line(1).unwrap().as_slice(), b"Yllo");
    assert_eq!(r, TextPosition::new(1, 1));
}

#[test]
fn insert_three_parts() {
    let mut ed = doc(&[b"abcd"]);
    let r = ed.insert(TextPosition::new(2, 0), &b"1\n2\n3".to_vec());
    assert_eq!(ed.line_count(), 3);
    assert_eq!(ed.line(0).unwrap().as_slice(), b"ab1");
    assert_eq!(ed.line(1).unwrap().as_slice(), b"2");
    assert_eq!(ed.line(2).unwrap().as_slice(), b"3cd");
    assert_eq!(r, TextPosition::new(1, 2));
}

#[test]
fn insert_empty_is_a_no_op() {
    let mut ed = doc(&[b"hello"]);
    let p = TextPosition::new(99, 99);
    let r = ed.insert(p, &Vec::new());
    assert_eq!(r, p);
    assert_eq!(ed.line(0).unwrap().as_slice(), b"hello");
}

#[test]
fn insert_into_empty_document_appends() {
    let mut ed = Editor::new();
    let r = ed.insert(TextPosition::new(0, 0), &b"one\ntwo".to_vec());
    assert_eq!(ed.line_count(), 2);
    assert_eq!(ed.line(0).unwrap().as_slice(), b"one");
    assert_eq!(ed.line(1).unwrap().as_slice(), b"two");
    assert_eq!(r, TextPosition::new(3, 1));
}

#[test]
fn insert_normalizes_out_of_range_position() {
    let mut ed = doc(&[b"ab"]);
    // paragraph out of range: clamps to the end of the last line
    let r = ed.insert(TextPosition::new(0, 7), &b"Z".to_vec());
    assert_eq!(ed.line(0).unwrap().as_slice(), b"abZ");
    assert_eq!(r, TextPosition::new(3, 0));
}

#[test]
fn insert_multibyte_never_splits_code_point() {
    let mut ed = doc(&[b"ab"]);
    // "\u{e9}" is two bytes: 0xC3 0xA9
    let r = ed.insert(TextPosition::new(1, 0), &"\u{e9}".as_bytes().to_vec());
    assert_eq!(ed.line(0).unwrap().as_slice(), &[0x61, 0xC3, 0xA9, 0x62]);
    assert_eq!(r, TextPosition::new(3, 0));
    // the returned byte index is a code-point boundary of the new line
    let snapped = ed.mov(editor_core::Movement::Nowhere, r);
    assert_eq!(snapped, r);
}

#[test]
fn remove_whole_line_in_place() {
    let mut ed = doc(&[b"ab"]);
    let r = ed.remove(TextPosition::range(TextPosition::new(0, 0), TextPosition::new(2, 0)));
    assert_eq!(ed.line_count(), 1);
    assert_eq!(ed.line(0).unwrap().as_slice(), b"");
    assert_eq!(r, TextPosition::new(0, 0));
}

#[test]
fn remove_middle_of_line() {
    let mut ed = doc(&[b"hello"]);
    let r = ed.remove(TextPosition::range(TextPosition::new(1, 0), TextPosition::new(4, 0)));
    assert_eq!(ed.line(0).unwrap().as_slice(), b"ho");
    assert_eq!(r, TextPosition::new(1, 0));
}

#[test]
fn remove_empty_range_is_a_no_op() {
    let mut ed = doc(&[b"hello"]);
    let p = TextPosition::new(3, 0);
    let r = ed.remove(TextPosition::range(p, p));
    assert_eq!(r, p);
    assert_eq!(ed.line(0).unwrap().as_slice(), b"hello");
}

#[test]
fn remove_out_of_range_start_is_a_no_op() {
    let mut ed = doc(&[b"hello"]);
    let r = ed.remove(TextPosition::range(TextPosition::new(0, 4), TextPosition::new(1, 5)));
    assert_eq!(r, TextPosition::new(0, 4));
    assert_eq!(ed.line_count(), 1);
}

#[test]
fn remove_across_paragraphs_merges_tail_into_head() {
    let mut ed = doc(&[b"abc", b"mid", b"defg"]);
    // head keeps "a" and gains the tail's suffix "fg"; the line between
    // and the tail paragraph itself are deleted
    let r = ed.remove(TextPosition::range(TextPosition::new(1, 0), TextPosition::new(2, 2)));
    assert_eq!(r, TextPosition::new(1, 0));
    assert_eq!(ed.line_count(), 1);
    assert_eq!(ed.line(0).unwrap().as_slice(), b"afg");
}

#[test]
fn remove_joins_two_lines_at_the_break() {
    let mut ed = doc(&[b"ab", b"cd"]);
    // deleting just the paragraph break merges the lines
    let r = ed.remove(TextPosition::range(TextPosition::new(2, 0), TextPosition::new(0, 1)));
    assert_eq!(r, TextPosition::new(2, 0));
    assert_eq!(ed.line_count(), 1);
    assert_eq!(ed.line(0).unwrap().as_slice(), b"abcd");
}

#[test]
fn remove_then_reinsert_restores_across_paragraphs() {
    let mut ed = doc(&[b"one", b"two", b"three"]);
    let start = TextPosition::new(1, 0);
    let end = TextPosition::new(2, 2);
    // the removed text, with a newline at each paragraph join
    let removed = b"ne\ntwo\nth".to_vec();
    let r = ed.remove(TextPosition::range(start, end));
    assert_eq!(ed.line_count(), 1);
    assert_eq!(ed.line(0).unwrap().as_slice(), b"oree");
    let back = ed.insert(r, &removed);
    assert_eq!(ed.line_count(), 3);
    assert_eq!(ed.line(0).unwrap().as_slice(), b"one");
    assert_eq!(ed.line(1).unwrap().as_slice(), b"two");
    assert_eq!(ed.line(2).unwrap().as_slice(), b"three");
    assert_eq!(back, end);
}

#[test]
fn remove_then_reinsert_restores_same_paragraph() {
    let mut ed = doc(&[b"hello world"]);
    let start = TextPosition::new(3, 0);
    let end = TextPosition::new(8, 0);
    let removed = ed.line(0).unwrap()[3..8].to_vec();
    let r = ed.remove(TextPosition::range(start, end));
    assert_eq!(ed.line(0).unwrap().as_slice(), b"helrld");
    let back = ed.insert(r, &removed);
    assert_eq!(ed.line(0).unwrap().as_slice(), b"hello world");
    assert_eq!(back, end);
}

#[test]
fn load_replaces_document() {
    let mut ed = doc(&[b"old"]);
    ed.load(vec![b"new one".to_vec(), b"new two".to_vec()]);
    assert_eq!(ed.line_count(), 2);
    assert_eq!(ed.line(0).unwrap().as_slice(), b"new one");
    assert_eq!(ed.line(1).unwrap().as_slice(), b"new two");
    assert!(ed.line(2).is_none());
}
