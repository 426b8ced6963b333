//! The paint projection: order and content of the emitted drawing ops.

use editor_core::{Editor, IPoint, PaintOp, PaintOpts, TextPosition};

fn doc(lines: &[&[u8]]) -> Editor {
    let mut ed = Editor::new();
    ed.load(lines.iter().map(|l| l.to_vec()).collect());
    ed.set_width(200);
    ed
}

#[test]
fn paint_starts_with_the_background() {
    let mut ed = doc(&[b"ab"]);
    let ops = ed.paint(PaintOpts::default());
    assert!(matches!(ops[0], PaintOp::Background { color: 0xFFFFFFFF }));
}

#[test]
fn paint_without_selection_or_caret_is_background_plus_runs() {
    let mut ed = doc(&[b"ab", b"cd"]);
    let ops = ed.paint(PaintOpts::default());
    assert_eq!(ops.len(), 3);
    assert!(matches!(ops[1], PaintOp::GlyphRun { line: 0, .. }));
    assert!(matches!(ops[2], PaintOp::GlyphRun { line: 1, .. }));
}

#[test]
fn paint_emits_one_selection_fill_per_position() {
    let mut ed = doc(&[b"ab"]);
    let mut opts = PaintOpts::default();
    opts.selection = Some((TextPosition::new(0, 0), TextPosition::new(2, 0)));
    let ops = ed.paint(opts);
    // background, two selected positions, one glyph run
    assert_eq!(ops.len(), 4);
    assert!(matches!(ops[1], PaintOp::Fill { color: 0xFFBAD3FC, .. }));
    assert!(matches!(ops[2], PaintOp::Fill { color: 0xFFBAD3FC, .. }));
    assert!(matches!(ops[3], PaintOp::GlyphRun { line: 0, .. }));
}

#[test]
fn paint_selection_order_does_not_matter() {
    let mut ed = doc(&[b"ab"]);
    let mut opts = PaintOpts::default();
    opts.selection = Some((TextPosition::new(2, 0), TextPosition::new(0, 0)));
    let ops = ed.paint(opts);
    assert_eq!(ops.len(), 4);
}

#[test]
fn paint_draws_the_caret_after_the_selection() {
    let mut ed = doc(&[b"ab"]);
    let mut opts = PaintOpts::default();
    opts.selection = Some((TextPosition::new(0, 0), TextPosition::new(1, 0)));
    opts.cursor = Some(TextPosition::new(1, 0));
    let ops = ed.paint(opts);
    // background, one selection fill, the caret, one glyph run
    assert_eq!(ops.len(), 4);
    assert!(matches!(ops[1], PaintOp::Fill { color: 0xFFBAD3FC, .. }));
    assert!(matches!(ops[2], PaintOp::Fill { color: 0xFFFF0000, .. }));
    assert!(matches!(ops[3], PaintOp::GlyphRun { line: 0, .. }));
}

#[test]
fn paint_selection_spanning_lines_walks_across_the_break() {
    let mut ed = doc(&[b"ab", b"cd"]);
    let mut opts = PaintOpts::default();
    opts.selection = Some((TextPosition::new(1, 0), TextPosition::new(1, 1)));
    let ops = ed.paint(opts);
    // positions (1,0), (2,0), (0,1) are highlighted
    assert_eq!(ops.len(), 1 + 3 + 2);
}

#[test]
fn paint_on_a_fresh_empty_editor_is_just_the_background() {
    let mut ed = Editor::new();
    let ops = ed.paint(PaintOpts::default());
    assert_eq!(ops.len(), 1);
}
