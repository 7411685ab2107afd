use asciidoc_editor::source::{
    admonition_label, admonition_lead, as_block, as_list, as_title, block_title_line,
    block_title_text, columns_attribute, heading_level, heading_text, insert_block, insert_line,
    is_block_title, list_marker, list_range, paragraph_range, remove_line, remove_lines, replace,
    table_block_range, table_range, text_of, with_columns, Columns, LineRange,
};

const DOC: &str = "= Title\n\nFirst para\nsecond line\n\n== Section\n\nTail\n";

#[test]
fn paragraph_extends_to_the_next_blank_line() {
    assert_eq!(paragraph_range(DOC, 3), LineRange { start: 3, end: 4 });
    assert_eq!(paragraph_range(DOC, 8), LineRange { start: 8, end: 8 });
}

#[test]
fn paragraph_range_skips_lines_attached_above_the_block() {
    let titled = "= T\n\n.A title\n[.lead]\nThe paragraph\nwraps here\n\nAfter\n";

    assert_eq!(paragraph_range(titled, 3), LineRange { start: 5, end: 6 });
}

#[test]
fn inserts_and_removes_single_lines() {
    let doc = "= T\n\nBody\n";

    assert_eq!(insert_line(doc, 3, ".A title"), "= T\n\n.A title\nBody\n");
    assert_eq!(remove_line("= T\n\n.A title\nBody\n", 3), "= T\n\nBody\n");
    assert_eq!(insert_line(doc, 99, "Tail"), "= T\n\nBody\nTail\n");
}

#[test]
fn reads_the_text_of_a_range() {
    assert_eq!(
        text_of(DOC, LineRange { start: 3, end: 4 }),
        "First para\nsecond line"
    );
    assert_eq!(text_of(DOC, LineRange::single(6)), "== Section");
}

#[test]
fn replaces_a_multi_line_range_with_one_line() {
    let edited = replace(DOC, LineRange { start: 3, end: 4 }, "Rewritten");

    assert_eq!(edited, "= Title\n\nRewritten\n\n== Section\n\nTail\n");
}

#[test]
fn replaces_one_line_with_several() {
    let edited = replace(DOC, LineRange::single(8), "a\n\nb");

    assert_eq!(
        edited,
        "= Title\n\nFirst para\nsecond line\n\n== Section\n\na\n\nb\n"
    );
}

#[test]
fn preserves_whether_the_document_ends_in_a_newline() {
    assert!(replace("a\n", LineRange::single(1), "b").ends_with('\n'));
    assert!(!replace("a", LineRange::single(1), "b").ends_with('\n'));
}

#[test]
fn inserts_a_block_before_a_line() {
    let edited = insert_block(DOC, 6, "New para");

    assert_eq!(
        edited,
        "= Title\n\nFirst para\nsecond line\n\nNew para\n\n== Section\n\nTail\n"
    );
}

#[test]
fn inserts_a_block_past_the_end() {
    assert_eq!(insert_block("a\n", 99, "b"), "a\n\nb\n");
}

#[test]
fn finds_the_rows_between_table_delimiters() {
    let doc = "= T\n\n.A table\n[cols=\"1,2\"]\n|===\n| a | b\n| c | d\n|===\n\nAfter\n";

    assert_eq!(table_range(doc, 3), Some(LineRange { start: 6, end: 7 }));
}

#[test]
fn reads_and_rewrites_plain_column_widths() {
    let doc = "= T\n\n.A table\n[cols=\"1,2\"]\n|===\n| a | b\n|===\n";

    assert_eq!(
        columns_attribute(doc, 3),
        Columns::Widths {
            line: 4,
            values: vec!["1".to_string(), "2".to_string()]
        }
    );
    assert_eq!(
        with_columns(
            "[cols=\"1,2\",options=\"header\"]",
            &["1".to_string(), "1".to_string()]
        ),
        "[cols=\"1,1\",options=\"header\"]"
    );
}

#[test]
fn leaves_alone_the_column_specs_it_cannot_keep_in_step() {
    let repeated = "= T\n\n[cols=\"3*\"]\n|===\n| a\n|===\n";
    let aligned = "= T\n\n[cols=\"^1,>2\"]\n|===\n| a\n|===\n";
    let none = "= T\n\n|===\n| a\n|===\n";

    assert_eq!(columns_attribute(repeated, 3), Columns::Opaque);
    assert_eq!(columns_attribute(aligned, 3), Columns::Opaque);
    assert_eq!(columns_attribute(none, 3), Columns::Implicit);
}

#[test]
fn removes_a_whole_table() {
    let doc = "= T\n\nBefore\n\n.A table\n|===\n| a\n|===\n\nAfter\n";
    let range = table_block_range(doc, 5).expect("a table");

    assert_eq!(range, LineRange { start: 5, end: 8 });
    assert_eq!(remove_lines(doc, range), "= T\n\nBefore\n\n\nAfter\n");
}

#[test]
fn refuses_tables_it_cannot_address() {
    assert_eq!(table_range("= T\n\n|===\n|===\n", 3), None, "no rows");
    assert_eq!(table_range("= T\n\n|===\n| a\n", 3), None, "never closed");
    assert_eq!(table_range("= T\n\nA paragraph\n", 3), None);
}

#[test]
fn recognises_admonition_labels() {
    assert_eq!(admonition_lead("NOTE: something"), Some("NOTE: "));
    assert_eq!(admonition_lead("WARNING: careful"), Some("WARNING: "));
    assert_eq!(admonition_lead("NOTE:no space"), None);
    assert_eq!(admonition_lead("Note: lowercase"), None);
    assert_eq!(admonition_lead("NOTE"), None);
    assert_eq!(admonition_lead("Body text"), None);
}

#[test]
fn matches_labels_to_their_canonical_form() {
    assert_eq!(admonition_label("NOTE: text"), Some("NOTE"));
    assert_eq!(admonition_label("WARNING: "), Some("WARNING"));
    assert_eq!(admonition_label("TIP"), Some("TIP"));
    assert_eq!(admonition_label("Nope"), None);
}

#[test]
fn recognises_block_titles() {
    assert!(is_block_title(".Things that work"));
    assert!(!is_block_title(". a list item"));
    assert!(!is_block_title("...."), "a delimiter");
    assert!(!is_block_title("..nested title"));
    assert!(!is_block_title("."));
    assert!(!is_block_title("Body text"));
}

#[test]
fn finds_a_title_above_its_block() {
    let doc = "= T\n\n.A table\n[cols=\"1,2\"]\n|===\n| a\n|===\n";

    // Recorded line is the title itself.
    assert_eq!(block_title_line(doc, 3), Some(3));
    // Or an attribute line above it.
    let attrs_first = "= T\n\n[cols=\"1,2\"]\n.A table\n|===\n";
    assert_eq!(block_title_line(attrs_first, 3), Some(4));
}

#[test]
fn finds_no_title_when_there_is_none() {
    assert_eq!(block_title_line("= T\n\nJust a paragraph\n", 3), None);
    assert_eq!(block_title_line("= T\n\nNOTE: an admonition\n", 3), None);
    assert_eq!(block_title_line("= T\n\n", 3), None);
}

#[test]
fn writes_titles_back() {
    assert_eq!(block_title_text(".A table"), "A table");
    assert_eq!(as_title("A table"), ".A table");
    assert_eq!(as_title(" folded\nover lines "), ".folded over lines");
}

#[test]
fn recognises_list_markers() {
    assert_eq!(list_marker("* item"), Some("*"));
    assert_eq!(list_marker("- item"), Some("-"));
    assert_eq!(list_marker("** nested"), Some("**"));
    assert_eq!(list_marker(". step"), Some("."));
    assert_eq!(list_marker("  * indented"), Some("*"));
    assert_eq!(
        list_marker(".Block title"),
        None,
        "no space after the marker"
    );
    assert_eq!(list_marker("----"), None, "a delimiter, not a marker");
    assert_eq!(list_marker("*-* mixed"), None);
    assert_eq!(list_marker("1. numbered"), None, "cannot be written back");
    assert_eq!(list_marker("text"), None);
    assert_eq!(list_marker("*  "), None, "a marker with no item text");
}

#[test]
fn list_range_skips_an_attached_title() {
    let doc = "= T\n\n.A title\n* one\n* two\n\nAfter\n";

    assert_eq!(list_range(doc, 3), Some(LineRange { start: 4, end: 5 }));
}

#[test]
fn list_range_needs_at_least_one_item() {
    assert_eq!(list_range("= T\n\nJust a paragraph\n", 3), None);
}

#[test]
fn turns_a_paragraph_into_a_single_item() {
    assert_eq!(as_list("Some text", Some('*')), "* Some text");
    assert_eq!(
        as_list("wrapped\nover lines", Some('.')),
        ". wrapped over lines"
    );
}

#[test]
fn swaps_markers_while_keeping_depth() {
    let list = "* one\n** nested\n* two";

    assert_eq!(as_list(list, Some('.')), ". one\n.. nested\n. two");
    assert_eq!(as_list(list, Some('-')), "- one\n-- nested\n- two");
}

#[test]
fn turns_a_list_back_into_paragraphs() {
    assert_eq!(as_list("* one\n* two", None), "one\n\ntwo");
}

#[test]
fn leaves_body_text_alone() {
    assert_eq!(as_list("Some text", None), "Some text");
}

#[test]
fn recognises_heading_lines() {
    assert_eq!(heading_level("== Section"), Some(2));
    assert_eq!(heading_level("====== Deep"), Some(6));
    assert_eq!(heading_level("======= Too deep"), None);
    assert_eq!(heading_level("==Section"), None, "a space is required");
    assert_eq!(heading_level("Body text"), None);
}

#[test]
fn strips_and_applies_heading_prefixes() {
    assert_eq!(heading_text("=== Deep section"), "Deep section");
    assert_eq!(heading_text("Body text"), "Body text");
    assert_eq!(as_block("Title", Some(2)), "== Title");
    assert_eq!(as_block("Title", None), "Title");
    assert_eq!(as_block("Two\nlines", Some(1)), "= Two lines");
}

#[test]
fn replacing_lines_with_themselves_changes_nothing() {
    for start in 1..=8 {
        for end in start..=8 {
            let range = LineRange { start, end };
            assert_eq!(replace(DOC, range, &text_of(DOC, range)), DOC);
        }
    }
}

#[test]
fn lines_below_a_replaced_range_move_with_it() {
    let edited = replace(DOC, LineRange { start: 3, end: 4 }, "a\nb\nc\nd");

    for line in 5..=8 {
        assert_eq!(
            text_of(DOC, LineRange::single(line)),
            text_of(&edited, LineRange::single(line + 2))
        );
    }
}

#[test]
fn a_line_put_in_and_taken_out_leaves_the_document() {
    for line in 1..=8 {
        assert_eq!(remove_line(&insert_line(DOC, line, "x"), line), DOC);
    }
}

#[test]
fn headings_and_titles_are_read_back() {
    for level in 1..=6 {
        let line = as_block(" two\nlines ", Some(level));
        assert_eq!(heading_level(&line), Some(level));
        assert_eq!(heading_text(&line), "two lines");
    }
    let line = as_title(" two\nlines ");
    assert!(is_block_title(&line));
    assert_eq!(block_title_text(&line), "two lines");
    assert!(!is_block_title(&as_title(".x")));
}

#[test]
fn column_widths_are_read_back() {
    let line = with_columns("[a,cols=\"9\",b]", &["1".to_string(), "22".to_string()]);
    let doc = format!("{line}\n|===\n| a\n|===\n");

    assert_eq!(line, "[a,cols=\"1,22\",b]");
    assert_eq!(
        columns_attribute(&doc, 1),
        Columns::Widths { line: 1, values: vec!["1".to_string(), "22".to_string()] }
    );
}

#[test]
fn swapping_markers_twice_is_swapping_once() {
    let list = "* one\n** nested\n* two";

    assert_eq!(as_list(&as_list(list, Some('.')), Some('*')), list);
}

#[test]
fn edits_past_the_end_append() {
    assert_eq!(replace("a\n", LineRange::single(9), "b"), "a\nb\n");
    assert_eq!(insert_line("", 1, "a"), "a");
    assert_eq!(remove_line("a\n", 9), "a\n");
    assert_eq!(insert_block("a\n\n", 99, "b"), "a\n\nb\n");
}

#[test]
fn an_empty_last_line_and_carriage_returns_are_not_kept() {
    assert_eq!(replace("a\n\n", LineRange::single(1), "a"), "a\n");
    assert_eq!(replace("a\r\nb\n", LineRange::single(2), "b"), "a\nb\n");
    assert_eq!(replace("\n", LineRange::single(1), ""), "\n");
    assert_eq!(replace("a\rb\n", LineRange::single(1), "a\rb"), "a\rb\n");
    assert_eq!(remove_line(&insert_line("\n", 1, "x"), 1), "\n");
}

#[test]
fn a_document_keeps_its_ending() {
    for line in 1..=8 {
        assert!(replace(DOC, LineRange::single(line), "x").ends_with('\n'));
        assert!(!replace(DOC.trim_end(), LineRange::single(line), "x").ends_with('\n'));
    }
}

#[test]
fn a_line_that_ends_in_a_carriage_return_can_be_taken_out_again() {
    for src in ["a\nb\n", "a\nb", "\n", "a"] {
        for line in ["x\r", "\r", "x\r\r", ""] {
            let longer = insert_line(src, 1, line);
            assert_eq!(remove_line(&longer, 1), src, "{longer:?}");
        }
    }
}

#[test]
fn what_is_written_over_lines_is_what_they_say() {
    for src in ["a\r\r\nb\nc\n", "a\nb\nc", "", "\n", "a\n\n"] {
        let count = src.lines().count();
        for (start, end) in [(1, 1), (2, 3), (3, 3), (2, 9), (4, 5), (8, 8)] {
            for text in ["x", "x\ny", "x\n\ny z", ""] {
                let edited = replace(src, LineRange { start, end }, text);
                let first = if start <= count { start } else { count + 1 };
                let last = first + text.split('\n').count() - 1;

                assert_eq!(
                    text_of(&edited, LineRange { start: first, end: last }),
                    text,
                    "{src:?} {start} {end}"
                );
            }
        }
    }
}
