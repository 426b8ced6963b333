//! Caret movement: normalization, single steps, and the round trips the
//! movement laws promise.

use editor_core::{Editor, Movement, TextPosition};

fn doc(lines: &[&[u8]]) -> Editor {
    let mut ed = Editor::new();
    ed.load(lines.iter().map(|l| l.to_vec()).collect());
    ed
}

#[test]
fn nowhere_on_empty_document_is_origin() {
    let ed = Editor::new();
    let r = ed.mov(Movement::Nowhere, TextPosition::new(5, 3));
    assert_eq!(r, TextPosition::new(0, 0));
}

#[test]
fn nowhere_clamps_paragraph_and_snaps_byte() {
    let ed = doc(&["a\u{e9}b".as_bytes()]);
    // out-of-range paragraph: end of last line
    assert_eq!(ed.mov(Movement::Nowhere, TextPosition::new(0, 9)), TextPosition::new(4, 0));
    // byte index inside the two-byte code point snaps down to its start
    assert_eq!(ed.mov(Movement::Nowhere, TextPosition::new(2, 0)), TextPosition::new(1, 0));
}

#[test]
fn nowhere_is_idempotent() {
    let ed = doc(&["a\u{e9}b".as_bytes(), b"xy"]);
    for byte in 0..6 {
        for para in 0..3 {
            let once = ed.mov(Movement::Nowhere, TextPosition::new(byte, para));
            let twice = ed.mov(Movement::Nowhere, once);
            assert_eq!(once, twice);
        }
    }
}

#[test]
fn right_steps_over_multibyte_code_point() {
    let ed = doc(&["a\u{e9}b".as_bytes()]);
    let p1 = ed.mov(Movement::Right, TextPosition::new(0, 0));
    assert_eq!(p1, TextPosition::new(1, 0));
    let p2 = ed.mov(Movement::Right, p1);
    assert_eq!(p2, TextPosition::new(3, 0));
    let p3 = ed.mov(Movement::Right, p2);
    assert_eq!(p3, TextPosition::new(4, 0));
}

#[test]
fn right_at_line_end_moves_to_next_paragraph() {
    let ed = doc(&[b"ab", b"cd"]);
    let r = ed.mov(Movement::Right, TextPosition::new(2, 0));
    assert_eq!(r, TextPosition::new(0, 1));
}

#[test]
fn right_at_document_end_stays() {
    let ed = doc(&[b"ab", b"cd"]);
    let end = TextPosition::new(2, 1);
    assert_eq!(ed.mov(Movement::Right, end), end);
}

#[test]
fn left_at_line_start_moves_to_previous_end() {
    let ed = doc(&[b"ab", b"cd"]);
    let r = ed.mov(Movement::Left, TextPosition::new(0, 1));
    assert_eq!(r, TextPosition::new(2, 0));
}

#[test]
fn left_at_document_start_stays() {
    let ed = doc(&[b"ab"]);
    assert_eq!(ed.mov(Movement::Left, TextPosition::new(0, 0)), TextPosition::new(0, 0));
}

#[test]
fn right_then_left_round_trips() {
    let ed = doc(&["a\u{e9}b".as_bytes(), b"xy"]);
    let positions = [
        TextPosition::new(0, 0),
        TextPosition::new(1, 0),
        TextPosition::new(3, 0),
        TextPosition::new(4, 0),
        TextPosition::new(0, 1),
        TextPosition::new(1, 1),
    ];
    for p in positions {
        let r = ed.mov(Movement::Right, p);
        let back = ed.mov(Movement::Left, r);
        assert_eq!(back, p);
    }
}

#[test]
fn left_then_right_round_trips() {
    let ed = doc(&["a\u{e9}b".as_bytes(), b"xy"]);
    let positions = [
        TextPosition::new(1, 0),
        TextPosition::new(3, 0),
        TextPosition::new(4, 0),
        TextPosition::new(0, 1),
        TextPosition::new(2, 1),
    ];
    for p in positions {
        let l = ed.mov(Movement::Left, p);
        let back = ed.mov(Movement::Right, l);
        assert_eq!(back, p);
    }
}

#[test]
fn range_orders_its_ends() {
    let a = TextPosition::new(3, 1);
    let b = TextPosition::new(0, 0);
    let r = editor_core::TextPosition::range(a, b);
    assert_eq!(r.start, b);
    assert_eq!(r.end, a);
    let r2 = editor_core::TextPosition::range(b, a);
    assert_eq!(r2.start, b);
    assert_eq!(r2.end, a);
}
