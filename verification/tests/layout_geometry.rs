//! The reshape pass, the shaping engine, and the pixel queries.

use editor_core::geom::unset_rect;
use editor_core::{Editor, Font, IPoint, Rect, ShapeRow, ShapeRun, TextPosition};

fn doc(lines: &[&[u8]]) -> Editor {
    let mut ed = Editor::new();
    ed.load(lines.iter().map(|l| l.to_vec()).collect());
    ed
}

#[test]
fn reshape_gives_every_line_a_full_cursor_array() {
    let mut ed = doc(&[b"hello", b"", "a\u{e9}".as_bytes()]);
    ed.set_width(200);
    ed.reshape_all();
    for line in ed.text().iter() {
        assert!(line.shaped);
        assert_eq!(line.cursor_pos.len(), line.text.len() + 1);
        assert_eq!(line.word_boundaries.len(), line.text.len());
    }
}

#[test]
fn reshape_stacks_origins_and_totals_height() {
    let mut ed = doc(&[b"one", b"two", b"three"]);
    ed.set_font(Font::with_size(16));
    ed.set_width(500);
    ed.reshape_all();
    // built-in metrics: spacing = 16 + 16/4 = 20
    assert_eq!(ed.line_height(0), 20);
    let lines = ed.text();
    assert_eq!(lines[0].origin, IPoint { x: 0, y: 0 });
    assert_eq!(lines[1].origin, IPoint { x: 0, y: 20 });
    assert_eq!(lines[2].origin, IPoint { x: 0, y: 40 });
    assert_eq!(ed.get_height(), 60);
}

#[test]
fn reshape_seeds_an_empty_document_with_one_line() {
    let mut ed = Editor::new();
    ed.set_width(50);
    ed.reshape_all();
    assert_eq!(ed.line_count(), 1);
    assert_eq!(ed.line(0).unwrap().as_slice(), b"");
}

#[test]
fn narrow_width_wraps_and_records_break_offsets() {
    let mut ed = doc(&[b"abcde"]);
    ed.set_font(Font::with_size(16));
    // advance = (16+1)/2 = 8: two glyphs fit in 20 pixels
    ed.set_width(20);
    ed.reshape_all();
    let line = &ed.text()[0];
    assert_eq!(line.line_end_offsets.as_slice(), &[2, 4]);
    // a wide line does not wrap
    ed.set_width(1000);
    ed.reshape_all();
    let line = &ed.text()[0];
    assert_eq!(line.line_end_offsets.as_slice(), &[] as &[usize]);
}

#[test]
fn set_width_invalidates_and_next_query_reshapes() {
    let mut ed = doc(&[b"ab", b"cd"]);
    ed.set_width(100);
    ed.reshape_all();
    assert!(ed.text().iter().all(|l| l.shaped));
    ed.set_width(120);
    assert!(ed.text().iter().all(|l| !l.shaped));
    let loc = ed.get_location(TextPosition::new(0, 0));
    assert!(loc.is_some());
    assert!(ed.text().iter().all(|l| l.shaped));
}

#[test]
fn word_boundaries_mark_code_point_starts() {
    let mut ed = doc(&["a\u{e9}b".as_bytes()]);
    ed.set_width(100);
    ed.reshape_all();
    let line = &ed.text()[0];
    assert_eq!(line.word_boundaries.as_slice(), &[true, true, false, true]);
}

#[test]
fn get_location_narrows_to_a_two_pixel_caret() {
    let mut ed = doc(&[b"hello"]);
    ed.set_font(Font::with_size(16));
    ed.set_width(100);
    let r = ed.get_location(TextPosition::new(0, 0)).unwrap();
    // glyph box (0, 0, 8, 20) narrowed to the left edge
    assert_eq!(r, Rect { left: -1, top: 0, right: 1, bottom: 20 });
    let r1 = ed.get_location(TextPosition::new(1, 0)).unwrap();
    assert_eq!(r1, Rect { left: 7, top: 0, right: 9, bottom: 20 });
}

#[test]
fn get_location_offsets_by_line_origin() {
    let mut ed = doc(&[b"ab", b"cd"]);
    ed.set_font(Font::with_size(16));
    ed.set_width(100);
    let r = ed.get_location(TextPosition::new(0, 1)).unwrap();
    assert_eq!(r, Rect { left: -1, top: 20, right: 1, bottom: 40 });
}

#[test]
fn get_location_on_fresh_empty_editor_is_none() {
    let mut ed = Editor::new();
    assert!(ed.get_location(TextPosition::new(0, 0)).is_none());
}

#[test]
fn get_position_hits_a_glyph_exactly() {
    let mut ed = doc(&[b"hello"]);
    ed.set_font(Font::with_size(16));
    ed.set_width(100);
    // second glyph box spans x 8..16, y 0..20
    let r = ed.get_position(IPoint { x: 9, y: 5 });
    assert_eq!(r, Some(TextPosition::new(1, 0)));
}

#[test]
fn get_position_below_all_text_approximates_line_end() {
    let mut ed = doc(&[b"hello"]);
    ed.set_width(100);
    let r = ed.get_position(IPoint { x: 90, y: 5000 });
    assert_eq!(r, Some(TextPosition::new(5, 0)));
}

#[test]
fn get_position_left_of_line_approximates_line_start() {
    let mut ed = doc(&[b"hello"]);
    ed.set_width(100);
    let r = ed.get_position(IPoint { x: 0, y: 5000 });
    assert_eq!(r, Some(TextPosition::new(0, 0)));
}

#[test]
fn get_position_outside_width_is_none() {
    let mut ed = doc(&[b"hello"]);
    ed.set_width(100);
    assert_eq!(ed.get_position(IPoint { x: -3, y: 5 }), None);
    assert_eq!(ed.get_position(IPoint { x: 150, y: 5 }), None);
    assert_eq!(ed.get_position(IPoint { x: 5, y: -1 }), None);
}

#[test]
fn shape_assigns_one_box_per_cluster() {
    let text = b"ab".to_vec();
    let rows = vec![ShapeRow {
        runs: vec![ShapeRun {
            glyphs: vec![1, 2],
            positions: vec![IPoint { x: 0, y: 0 }, IPoint { x: 7, y: 0 }],
            clusters: vec![0, 1],
            advances: vec![7, 7],
            ascent: -10,
            descent: 3,
            leading: 0,
            advance: IPoint { x: 14, y: 0 },
            utf8_end: 2,
        }],
    }];
    let font = Font::with_size(17);
    let r = editor_core::shape(&text, &rows, &font);
    assert_eq!(r.vertical_advance, 21);
    assert_eq!(r.glyph_bounds.len(), 3);
    assert_eq!(r.glyph_bounds[0], Rect { left: 0, top: -10, right: 7, bottom: 3 });
    assert_eq!(r.glyph_bounds[1], Rect { left: 7, top: -10, right: 14, bottom: 3 });
    // the trailing caret at the final pen position, one font size wide
    assert_eq!(r.glyph_bounds[2], Rect { left: 14, top: 0, right: 31, bottom: 13 });
    assert_eq!(r.word_breaks.as_slice(), &[true, true]);
    assert_eq!(r.line_break_offsets.as_slice(), &[] as &[usize]);
}

#[test]
fn shape_divides_a_multi_code_point_cluster() {
    // "e" followed by a combining acute accent: one cluster, two code points
    let text = vec![0x65, 0xCC, 0x81];
    let rows = vec![ShapeRow {
        runs: vec![ShapeRun {
            glyphs: vec![1, 2],
            positions: vec![IPoint { x: 0, y: 0 }, IPoint { x: 5, y: 0 }],
            clusters: vec![0, 0],
            advances: vec![6, 0],
            ascent: -8,
            descent: 2,
            leading: 0,
            advance: IPoint { x: 6, y: 0 },
            utf8_end: 3,
        }],
    }];
    let font = Font::with_size(17);
    let r = editor_core::shape(&text, &rows, &font);
    assert_eq!(r.glyph_bounds.len(), 4);
    // the union box (0,-8,6,2) split into two equal-width sub-boxes
    assert_eq!(r.glyph_bounds[0], Rect { left: 0, top: -8, right: 3, bottom: 2 });
    assert_eq!(r.glyph_bounds[1], Rect { left: 3, top: -8, right: 6, bottom: 2 });
    // the continuation byte keeps no box of its own
    assert_eq!(r.glyph_bounds[2], unset_rect());
    assert_eq!(r.word_breaks.as_slice(), &[true, true, false]);
}

#[test]
fn shape_leaves_uncovered_bytes_unset() {
    let text = b"ab".to_vec();
    let rows = vec![ShapeRow {
        runs: vec![ShapeRun {
            glyphs: vec![1],
            positions: vec![IPoint { x: 0, y: 0 }],
            clusters: vec![0],
            advances: vec![7],
            ascent: -10,
            descent: 3,
            leading: 0,
            advance: IPoint { x: 7, y: 0 },
            utf8_end: 1,
        }],
    }];
    let r = editor_core::shape(&text, &rows, &Font::with_size(17));
    assert_ne!(r.glyph_bounds[0], unset_rect());
    assert_eq!(r.glyph_bounds[1], unset_rect());
}

#[test]
fn shape_of_empty_text_synthesizes_a_fallback_caret() {
    let text: Vec<u8> = Vec::new();
    let rows: Vec<ShapeRow> = Vec::new();
    let font = Font::with_size(16);
    let r = editor_core::shape(&text, &rows, &font);
    assert_eq!(r.glyph_bounds.len(), 1);
    // no ascent/descent band: fall back to the font's own metrics
    assert_eq!(r.glyph_bounds[0], Rect { left: 0, top: 0, right: 16, bottom: 20 });
    assert_eq!(r.line_break_offsets.len(), 0);
}

#[test]
fn wrap_offsets_are_strictly_increasing() {
    let mut ed = doc(&[b"aaaaaaaaaaaaaaaa"]);
    ed.set_font(Font::with_size(16));
    ed.set_width(17);
    ed.reshape_all();
    let offs = &ed.text()[0].line_end_offsets;
    assert!(offs.len() > 1);
    for i in 1..offs.len() {
        assert!(offs[i - 1] < offs[i]);
    }
}

#[test]
fn set_font_with_the_same_font_changes_nothing() {
    let mut ed = doc(&[b"ab"]);
    ed.set_font(Font::with_size(16));
    ed.set_width(100);
    ed.reshape_all();
    assert!(ed.text().iter().all(|l| l.shaped));
    ed.set_font(Font::with_size(16));
    assert!(ed.text().iter().all(|l| l.shaped));
    let changed = Font::new(7, 16, -16, 4, 0, 20);
    ed.set_font(changed);
    assert!(ed.text().iter().all(|l| !l.shaped));
    assert_eq!(*ed.font(), changed);
}

#[test]
fn edits_mark_only_affected_lines_dirty() {
    let mut ed = doc(&[b"ab", b"cd", b"ef"]);
    ed.set_width(100);
    ed.reshape_all();
    ed.insert(TextPosition::new(1, 1), &b"X".to_vec());
    let lines = ed.text();
    assert!(lines[0].shaped);
    assert!(!lines[1].shaped);
    assert!(lines[2].shaped);
}

#[test]
fn reshape_fills_exactly_the_code_point_starts() {
    let mut ed = doc(&["a\u{e9}b\u{4e16}".as_bytes()]);
    ed.set_width(200);
    ed.reshape_all();
    let line = &ed.text()[0];
    for b in 0..line.text.len() {
        let starts_code_point = b == 0 || !(0x80..0xC0).contains(&line.text[b]);
        assert_eq!(line.cursor_pos[b] != unset_rect(), starts_code_point);
    }
}
