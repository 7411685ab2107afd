use asciidoc_editor::inline::Inline;
use asciidoc_editor::list::{to_asciidoc, Item, List};

fn item(text: &str) -> Item {
    Item {
        content: vec![Inline::Text(text.to_string())],
        nested: None,
    }
}

fn list(items: Vec<Item>) -> List {
    List {
        ordered: false,
        items,
    }
}

#[test]
fn writes_one_line_per_item() {
    let list = list(vec![item("one"), item("two")]);

    assert_eq!(to_asciidoc(&list, '*'), "* one\n* two");
}

#[test]
fn keeps_the_marker_the_source_uses() {
    assert_eq!(to_asciidoc(&list(vec![item("one")]), '-'), "- one");
}

#[test]
fn ordered_items_are_always_dots() {
    let ordered = List {
        ordered: true,
        items: vec![item("first"), item("second")],
    };

    assert_eq!(to_asciidoc(&ordered, '*'), ". first\n. second");
}

#[test]
fn nesting_repeats_the_marker() {
    let nested = List {
        ordered: false,
        items: vec![
            Item {
                content: vec![Inline::Text("outer".to_string())],
                nested: Some(list(vec![item("inner")])),
            },
            item("after"),
        ],
    };

    assert_eq!(to_asciidoc(&nested, '*'), "* outer\n** inner\n* after");
}

#[test]
fn keeps_inline_formatting() {
    let formatted = list(vec![Item {
        content: vec![
            Inline::Text("a ".to_string()),
            Inline::Code(vec![Inline::Text("code".to_string())]),
        ],
        nested: None,
    }]);

    assert_eq!(to_asciidoc(&formatted, '*'), "* a `code`");
}

/// The renderer indents its markup, so items arrive padded with newlines.
#[test]
fn trims_surrounding_whitespace() {
    let padded = list(vec![Item {
        content: vec![Inline::Text("\n  text  \n".to_string())],
        nested: None,
    }]);

    assert_eq!(to_asciidoc(&padded, '*'), "* text");
}

/// Pressing Enter creates an item before there is anything to put in it.
#[test]
fn skips_items_with_nothing_in_them() {
    let with_empty = list(vec![item("one"), item("  "), item("two")]);

    assert_eq!(to_asciidoc(&with_empty, '*'), "* one\n* two");
}
