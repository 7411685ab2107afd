use asciidoc_editor::inline::{to_asciidoc, Inline};

fn text(value: &str) -> Inline {
    Inline::Text(value.to_string())
}

#[test]
fn writes_formatting_markers() {
    let tree = vec![
        text("plain "),
        Inline::Strong(vec![text("bold")]),
        text(" "),
        Inline::Emphasis(vec![text("italic")]),
        text(" "),
        Inline::Code(vec![text("mono")]),
    ];

    assert_eq!(to_asciidoc(&tree), "plain *bold* _italic_ `mono`");
}

#[test]
fn nests_formatting() {
    let tree = vec![Inline::Strong(vec![
        text("bold "),
        Inline::Emphasis(vec![text("and italic")]),
    ])];

    assert_eq!(to_asciidoc(&tree), "*bold _and italic_*");
}

#[test]
fn drops_empty_formatting() {
    assert_eq!(to_asciidoc(&[Inline::Strong(vec![])]), "");
    assert_eq!(to_asciidoc(&[Inline::Code(vec![text("")])]), "");
}

#[test]
fn writes_bare_and_labelled_links() {
    let bare = Inline::Link {
        href: "https://example.com".to_string(),
        children: vec![text("https://example.com")],
    };
    let labelled = Inline::Link {
        href: "https://example.com".to_string(),
        children: vec![text("Example")],
    };

    assert_eq!(to_asciidoc(&[bare]), "https://example.com");
    assert_eq!(to_asciidoc(&[labelled]), "https://example.com[Example]");
}

#[test]
fn line_breaks_become_newlines() {
    let tree = vec![text("one"), Inline::LineBreak, text("two")];

    assert_eq!(to_asciidoc(&tree), "one\ntwo");
}
