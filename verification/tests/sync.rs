use asciidoc_editor::sync::{line_of_offset, offset_of_line};

#[test]
fn maps_offsets_to_lines() {
    let src = "one\ntwo\nthree";

    assert_eq!(line_of_offset(src, 0), 1);
    assert_eq!(line_of_offset(src, 3), 1);
    assert_eq!(line_of_offset(src, 4), 2);
    assert_eq!(line_of_offset(src, 9), 3);
}

#[test]
fn maps_lines_back_to_offsets() {
    let src = "one\ntwo\nthree";

    assert_eq!(offset_of_line(src, 1), 0);
    assert_eq!(offset_of_line(src, 2), 4);
    assert_eq!(offset_of_line(src, 3), 8);
    // Past the end clamps to the end of the source.
    assert_eq!(offset_of_line(src, 99), 13);
}

/// The DOM counts UTF-16 units, so astral characters advance by two.
#[test]
fn offsets_are_utf16_not_bytes() {
    let src = "🦀\nnext";

    assert_eq!(line_of_offset(src, 2), 1);
    assert_eq!(line_of_offset(src, 3), 2);
    assert_eq!(offset_of_line(src, 2), 3);
}

#[test]
fn round_trips() {
    let src = "a\nbb\nccc\n";
    for line in 1..=4 {
        assert_eq!(line_of_offset(src, offset_of_line(src, line)), line);
    }
}
