use asciidoc_editor::table::{decode, encode, parse, to_asciidoc, Slot};

fn cells(values: &[&str]) -> Vec<String> {
    values.iter().map(|value| value.to_string()).collect()
}

#[test]
fn reads_rows_and_their_layout() {
    let rows = "| Crate | Role\n\n| parser\n| Parses\n\n| renderer\n| Renders";

    let (found, shape) = parse(rows).expect("plain cells");

    assert_eq!(
        found,
        cells(&["Crate", "Role", "parser", "Parses", "renderer", "Renders"])
    );
    assert_eq!(
        shape,
        vec![
            Slot::Row(2),
            Slot::Blank,
            Slot::Row(1),
            Slot::Row(1),
            Slot::Blank,
            Slot::Row(1),
            Slot::Row(1)
        ]
    );
}

#[test]
fn refuses_cell_specifiers() {
    assert_eq!(parse("| a 2+| spans two"), None);
    assert_eq!(parse("| a a| an asciidoc cell"), None);
    assert_eq!(parse("| a ^| centred"), None);
    assert_eq!(parse("not a row"), None);
}

#[test]
fn reads_escaped_separators() {
    let (found, _) = parse("| a \\| b | c").expect("escaped pipe");

    assert_eq!(found, cells(&["a | b", "c"]));
}

#[test]
fn writes_cells_back_into_the_layout_they_came_from() {
    let rows = "| Crate | Role\n\n| parser\n| Parses";
    let (found, shape) = parse(rows).expect("plain cells");

    assert_eq!(to_asciidoc(&found, &shape, 2, true), rows);
}

#[test]
fn falls_back_to_one_row_per_line_when_the_shape_no_longer_fits() {
    let (_, shape) = parse("| a | b").expect("plain cells");
    let grown = cells(&["a", "b", "c", "d"]);

    assert_eq!(to_asciidoc(&grown, &shape, 2, false), "| a | b\n| c | d");
}

#[test]
fn keeps_the_header_separated_when_reflowing() {
    let (_, shape) = parse("| a | b").expect("plain cells");
    let grown = cells(&["a", "b", "c", "d"]);

    assert_eq!(to_asciidoc(&grown, &shape, 2, true), "| a | b\n\n| c | d");
}

#[test]
fn a_shape_survives_being_written_down() {
    let (_, shape) = parse("| a | b\n\n| c\n| d").expect("plain cells");

    assert_eq!(encode(&shape), "2,b,1,1");
    assert_eq!(decode(&encode(&shape)), shape);
}

#[test]
fn leaves_no_trailing_space_after_an_empty_cell() {
    let (_, shape) = parse("| a | b").expect("plain cells");
    let with_empties = cells(&["a", "b", "", ""]);

    assert_eq!(
        to_asciidoc(&with_empties, &shape, 2, false),
        "| a | b\n|  |"
    );
}

#[test]
fn escapes_separators_and_flattens_line_breaks() {
    let awkward = cells(&["a | b", "two\nlines"]);
    let (_, shape) = parse("| x | y").expect("plain cells");

    assert_eq!(
        to_asciidoc(&awkward, &shape, 2, false),
        "| a \\| b | two lines"
    );
}
