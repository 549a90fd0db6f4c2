//! The text buffer: byte-offset addressing, edits and their rejection.

use incparse::text::Text;

#[test]
fn empty_buffer() {
    let t = Text::new();
    assert_eq!(t.byte_len(), 0);
    assert_eq!(t.read(0), None);
    assert!(t.is_newline(0));
}

#[test]
fn ascii_roundtrip() {
    let mut t = Text::new();
    assert!(t.edit((0, 0), "hello"));
    assert_eq!(t.byte_len(), 5);
    assert_eq!(t.read(0), Some('h'));
    assert_eq!(t.read(4), Some('o'));
    assert_eq!(t.read(5), None);
    assert_eq!(t.char_len(), 5);
    assert_eq!(t.char_at(1), 'e');
}

#[test]
fn multibyte_offsets() {
    let mut t = Text::new();
    assert!(t.edit((0, 0), "h\u{e9}llo"));
    // 'é' takes two bytes.
    assert_eq!(t.byte_len(), 6);
    assert_eq!(t.read(1), Some('\u{e9}'));
    // Offset 2 is inside the two-byte scalar.
    assert_eq!(t.read(2), None);
    assert_eq!(t.read(3), Some('l'));
    assert_eq!(t.read(6), None);
}

#[test]
fn edit_replaces_range() {
    let mut t = Text::new();
    assert!(t.edit((0, 0), "hello"));
    assert!(t.edit((1, 3), "e"));
    assert_eq!(t.byte_len(), 4);
    assert_eq!(t.read(0), Some('h'));
    assert_eq!(t.read(1), Some('e'));
    assert_eq!(t.read(2), Some('l'));
    assert_eq!(t.read(3), Some('o'));
}

#[test]
fn rejected_edits_change_nothing() {
    let mut t = Text::new();
    assert!(t.edit((0, 0), "h\u{e9}llo"));
    // Reversed span.
    assert!(!t.edit((2, 1), "x"));
    // End past the buffer.
    assert!(!t.edit((0, 7), "x"));
    // Offset inside a two-byte scalar.
    assert!(!t.edit((2, 2), "x"));
    assert_eq!(t.byte_len(), 6);
    assert_eq!(t.read(0), Some('h'));
    assert_eq!(t.read(1), Some('\u{e9}'));
}

#[test]
fn newline_detection() {
    let mut t = Text::new();
    assert!(t.edit((0, 0), "a\nb"));
    assert!(!t.is_newline(0));
    assert!(t.is_newline(1));
    assert!(!t.is_newline(2));
    // Past the end counts as a line break.
    assert!(t.is_newline(3));
    assert!(t.is_newline(99));
}

#[test]
fn delete_to_empty() {
    let mut t = Text::new();
    assert!(t.edit((0, 0), "abc"));
    assert!(t.edit((0, 3), ""));
    assert_eq!(t.byte_len(), 0);
    assert_eq!(t.read(0), None);
}
