use giui::editor::{ByteIndex, Position, Selection, TextEditor, VerticalMove};
use giui::text::SpannedString;

// "a̐éö̲\r\n": grapheme clusters start at bytes 0, 3, 6 and 11
const TEXT: &str = "a\u{310}e\u{301}o\u{308}\u{332}\r\n";

#[test]
fn selection_ends() {
    let mut s = Selection { cursor: ByteIndex(5), anchor: ByteIndex(2) };
    assert!(!s.is_empty());
    assert_eq!(s.start(), ByteIndex(2));
    assert_eq!(s.end(), ByteIndex(5));
    s.set_pos(ByteIndex(3));
    assert!(s.is_empty());
    assert_eq!(s, Selection { cursor: ByteIndex(3), anchor: ByteIndex(3) });
}

#[test]
fn new_editor_is_at_start() {
    let e = TextEditor::new();
    assert_eq!(e.selection(), Selection { cursor: ByteIndex(0), anchor: ByteIndex(0) });
    assert_eq!(e.selection_range(), 0..0);
}

#[test]
fn offset_by_clusters() {
    let e = TextEditor::new();
    assert_eq!(e.offset_byte_index(ByteIndex(0), 1, TEXT), ByteIndex(3));
    assert_eq!(e.offset_byte_index(ByteIndex(0), 2, TEXT), ByteIndex(6));
    assert_eq!(e.offset_byte_index(ByteIndex(3), 10, TEXT), ByteIndex(11));
    assert_eq!(e.offset_byte_index(ByteIndex(11), -1, TEXT), ByteIndex(6));
    assert_eq!(e.offset_byte_index(ByteIndex(11), -5, TEXT), ByteIndex(0));
    assert_eq!(e.offset_byte_index(ByteIndex(0), -1, TEXT), ByteIndex(0));
    assert_eq!(e.offset_byte_index(ByteIndex(4), 0, TEXT), ByteIndex(4));
}

#[test]
fn positions_and_byte_indexes() {
    let e = TextEditor::new();
    let text = "ab\ncd";
    let lines = [0..3, 3..5];
    assert_eq!(e.get_position_from_byte_index(4, text, &lines), Position { line: 1, collumn: 1 });
    assert_eq!(e.get_position_from_byte_index(2, text, &lines), Position { line: 0, collumn: 2 });
    assert_eq!(e.get_byte_index(Position { line: 1, collumn: 1 }, text, &lines), 4);
    // a column past the end of the line is the start of the line
    assert_eq!(e.get_byte_index(Position { line: 0, collumn: 7 }, text, &lines), 0);
}

#[test]
fn move_cursor_horizontally() {
    let mut e = TextEditor::new();
    assert_eq!(e.move_cursor_hor(2, false, TEXT), ByteIndex(6));
    assert_eq!(e.selection(), Selection { cursor: ByteIndex(6), anchor: ByteIndex(6) });
    // expanding keeps the anchor
    e.move_cursor_hor(-1, true, TEXT);
    assert_eq!(e.selection(), Selection { cursor: ByteIndex(3), anchor: ByteIndex(6) });
    assert_eq!(e.selection_range(), 3..6);
    // moving right without expanding collapses to the end of the selection
    e.move_cursor_hor(1, false, TEXT);
    assert_eq!(e.selection(), Selection { cursor: ByteIndex(6), anchor: ByteIndex(6) });
}

#[test]
fn move_to_line_ends() {
    let mut e = TextEditor::new();
    let lines = [0..3, 3..6];
    e.set_cursor(ByteIndex(4), false);
    e.move_cursor_line_end(false, &lines);
    assert_eq!(e.selection().cursor, ByteIndex(5));
    e.move_cursor_line_start(true, &lines);
    assert_eq!(e.selection(), Selection { cursor: ByteIndex(3), anchor: ByteIndex(5) });
}

#[test]
fn vertical_moves() {
    let mut e = TextEditor::new();
    let lines = [0..3, 3..6, 6..9];
    e.set_cursor(ByteIndex(4), false);
    assert_eq!(e.vertical_move(1, &lines), VerticalMove::Line(2));
    assert_eq!(e.vertical_move(-1, &lines), VerticalMove::Line(0));
    assert_eq!(e.vertical_move(-2, &lines), VerticalMove::To(ByteIndex(0)));
    assert_eq!(e.vertical_move(2, &lines), VerticalMove::To(ByteIndex(8)));
}

#[test]
fn insert_and_delete() {
    let mut e = TextEditor::new();
    let mut s = SpannedString::from_string("hello".into(), Default::default());
    e.set_cursor(ByteIndex(5), false);
    e.insert_text(" world", &mut s);
    assert_eq!(s.string(), "hello world");
    assert_eq!(e.selection(), Selection { cursor: ByteIndex(11), anchor: ByteIndex(11) });
    // delete one cluster to the left
    let text = s.string().to_string();
    e.delete_hor(-1, &text, &mut s);
    assert_eq!(s.string(), "hello worl");
    assert_eq!(e.selection().cursor, ByteIndex(10));
    // a selection is deleted whatever the direction
    e.set_cursor(ByteIndex(0), true);
    let text = s.string().to_string();
    e.delete_hor(1, &text, &mut s);
    assert_eq!(s.string(), "");
    assert_eq!(e.selection_range(), 0..0);
}
