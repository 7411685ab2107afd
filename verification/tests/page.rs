use asciidoc_editor::dom::{collect_text, Element, Node};
use asciidoc_editor::marking::REFUSED;
use asciidoc_editor::page::{mark_editable, page_placed, Mark};
use asciidoc_editor::source::{text_of, LineRange};
use asciidoc_editor::wysiwyg::inline_of;

fn text(value: &str) -> Node {
    Node::Text(value.to_string())
}

/// An element `tag.class.class` known by `key`.
fn element(key: usize, name: &str, line: Option<usize>, children: Vec<Node>) -> Element {
    let mut parts = name.split('.');
    Element {
        key: Some(key),
        tag: parts.next().unwrap_or_default().to_string(),
        classes: parts.map(str::to_string).collect(),
        line: line.map(|line| line.to_string()),
        href: None,
        children,
    }
}

fn node(key: usize, name: &str, line: Option<usize>, children: Vec<Node>) -> Node {
    Node::Element(element(key, name, line, children))
}

fn content(children: Vec<Node>) -> Element {
    element(0, "div", None, children)
}

fn marks(children: Vec<Node>, src: &str) -> Vec<String> {
    let page = content(children);
    assert!(page_placed(&page));
    mark_editable(&page, src).iter().map(show).collect()
}

fn show(mark: &Mark) -> String {
    format!("{}:{}={}", mark.key.unwrap_or_default(), mark.name, mark.value)
}

fn editable(key: usize, start: usize, end: usize) -> Vec<String> {
    vec![
        format!("{key}:contenteditable=true"),
        format!("{key}:data-edit-line={start}"),
        format!("{key}:data-edit-end={end}"),
    ]
}

fn refused(key: usize) -> String {
    format!("{key}:title={REFUSED}")
}

#[test]
fn marks_paragraphs_that_round_trip_and_refuses_the_others() {
    let src = "One *two*\n\nVersion {v}\n";
    let found = marks(
        vec![
            node(
                1,
                "div.paragraph",
                Some(1),
                vec![node(
                    2,
                    "p",
                    None,
                    vec![text("One "), node(3, "strong", None, vec![text("two")])],
                )],
            ),
            node(4, "div.paragraph", Some(3), vec![node(5, "p", None, vec![text("Version 1")])]),
            node(6, "div.paragraph", None, vec![node(7, "p", None, vec![text("One *two*")])]),
            node(8, "div.other", Some(1), vec![node(9, "p", None, vec![text("One *two*")])]),
        ],
        src,
    );

    let mut expected = editable(2, 1, 1);
    expected.push(refused(5));
    assert_eq!(found, expected);
}

#[test]
fn what_is_editable_says_what_its_lines_say() {
    let src = "One\n\nTwo {v}\n\nThree\nfour  \n\nFive\n";
    let said = ["One", "Two 1", "Three\nfour", "Six"];
    let lines = [1, 3, 5, 8];
    let blocks: Vec<Node> = (0..4)
        .map(|i| {
            let p = node(10 + i, "p", None, vec![text(said[i])]);
            node(i, "div.paragraph", Some(lines[i]), vec![p])
        })
        .collect();
    let page = content(blocks);
    let found = mark_editable(&page, src);

    let mut editable_keys = Vec::new();
    for (i, mark) in found.iter().enumerate() {
        if mark.name != "contenteditable" {
            continue;
        }
        let (line, end) = (&found[i + 1], &found[i + 2]);
        assert_eq!((line.key, line.name), (mark.key, "data-edit-line"));
        assert_eq!((end.key, end.name), (mark.key, "data-edit-end"));
        let range = LineRange {
            start: line.value.parse().expect("a line"),
            end: end.value.parse().expect("a line"),
        };
        let key = mark.key.expect("a key");
        let shown = element(key, "p", None, vec![text(said[key - 10])]);
        assert_eq!(inline_of(&shown), text_of(src, range).trim_end());
        editable_keys.push(key);
    }
    assert_eq!(editable_keys, [10, 12]);
}

#[test]
fn marks_headings_by_their_level_and_the_title_of_the_document() {
    let src = "= Title\n\n== Section\n\n=== Sub\n";
    let found = marks(
        vec![
            node(1, "h1", None, vec![text("Title")]),
            node(
                2,
                "div.sect1",
                Some(3),
                vec![
                    node(3, "h2", None, vec![text("Section")]),
                    node(4, "h4", None, vec![text("Section")]),
                    node(5, "div.sect2", Some(5), vec![node(6, "h3", None, vec![text("Sub")])]),
                ],
            ),
        ],
        src,
    );

    let mut expected = editable(3, 3, 3);
    expected.push("3:data-edit-level=2".to_string());
    expected.extend(editable(6, 5, 5));
    expected.push("6:data-edit-level=3".to_string());
    expected.extend(editable(1, 1, 1));
    expected.push("1:data-edit-level=1".to_string());
    assert_eq!(found, expected);
}

#[test]
fn marks_the_outer_list_and_leaves_the_nested_one_to_it() {
    let src = ".Things\n- one\n-- two\n";
    let inner = node(
        6,
        "div.ulist",
        Some(3),
        vec![node(7, "ul", None, vec![node(8, "li", None, vec![text("two")])])],
    );
    let found = marks(
        vec![node(
            1,
            "div.ulist",
            Some(1),
            vec![
                node(2, "div.title", None, vec![text("Things")]),
                node(3, "ul", None, vec![node(4, "li", None, vec![text("one"), inner])]),
            ],
        )],
        src,
    );

    let mut expected = vec!["3:data-edit-marker=-".to_string()];
    expected.extend(editable(3, 2, 3));
    expected.extend(editable(2, 1, 1));
    expected.push("2:data-edit-title=true".to_string());
    assert_eq!(found, expected);
}

#[test]
fn marks_attributions_and_images_by_their_lines() {
    let page = |author: &str| {
        content(vec![
            node(
                1,
                "div.quoteblock",
                Some(1),
                vec![node(2, "div.attribution", None, vec![text(author)])],
            ),
            node(3, "div.imageblock", Some(4), vec![]),
        ])
    };
    let found = |author: &str, src: &str| -> Vec<String> {
        mark_editable(&page(author), src).iter().map(show).collect()
    };

    let other = "[quote,A. Author,A Work]\nWords\n\nimage::a.png[Alt,300]\n";
    assert_eq!(found("\u{2014} A. Author", other), vec![refused(2), refused(3)]);

    let src = "[quote,A. Author]\nWords\n\nimage::a.png[Alt]\n";
    let recorded = || {
        vec![
            "2:data-edit-prefix=\u{2014} ".to_string(),
            "2:data-edit-attribution=quote".to_string(),
        ]
    };
    let image = [
        "3:tabindex=0".to_string(),
        "3:data-edit-image=a.png".to_string(),
        "3:data-edit-image-alt=Alt".to_string(),
        "3:data-edit-line=4".to_string(),
        "3:data-edit-end=4".to_string(),
    ];
    let mut expected = recorded();
    expected.extend(editable(2, 1, 1));
    expected.extend(image.clone());
    assert_eq!(found("\u{2014} A. Author", src), expected);

    let mut named = vec!["2:data-edit-attribution=quote".to_string(), refused(2)];
    named.extend(image);
    assert_eq!(found("\u{2014} Somebody", src), named);
}

#[test]
fn leaves_alone_what_would_be_written_otherwise() {
    let cells = |line: usize| {
        node(
            1,
            "table.tableblock",
            Some(line),
            vec![node(
                2,
                "tr",
                None,
                vec![
                    node(3, "td", None, vec![text("a")]),
                    node(4, "td", None, vec![text("b")]),
                ],
            )],
        )
    };
    assert!(marks(vec![cells(1)], "|===\n|a |b\n|===\n").is_empty());
    assert!(!marks(vec![cells(1)], "|===\n| a | b\n|===\n").is_empty());

    let section = || node(1, "div.sect1", Some(1), vec![node(2, "h2", None, vec![text("Section")])]);
    assert_eq!(marks(vec![section()], "==  Section\n"), vec![refused(2)]);
    let mut expected = editable(2, 1, 1);
    expected.push("2:data-edit-level=2".to_string());
    assert_eq!(marks(vec![section()], "== Section\n"), expected);
}

#[test]
fn marks_each_cell_of_a_table_and_its_numbered_caption() {
    let src = ".Numbers\n[cols=\"2*\"]\n|===\n| a | b\n|===\n";
    let found = marks(
        vec![node(
            1,
            "table.tableblock",
            Some(1),
            vec![
                node(2, "caption.title", None, vec![text("Table 1. Numbers")]),
                node(
                    3,
                    "tbody",
                    None,
                    vec![node(
                        4,
                        "tr",
                        None,
                        vec![
                            node(5, "td", None, vec![text("a")]),
                            node(6, "td", None, vec![text("b")]),
                        ],
                    )],
                ),
            ],
        )],
        src,
    );

    let mut expected = Vec::new();
    for key in [5, 6] {
        expected.push(format!("{key}:data-edit-shape=2"));
        expected.push(format!("{key}:data-edit-fixed-columns=true"));
        expected.extend(editable(key, 4, 4));
    }
    expected.push("2:data-edit-prefix=Table 1. ".to_string());
    expected.extend(editable(2, 1, 1));
    expected.push("2:data-edit-title=true".to_string());
    assert_eq!(found, expected);
}

fn admonition(title: &str, said: &str) -> Vec<Node> {
    vec![node(
        1,
        "div.admonitionblock.note",
        Some(1),
        vec![node(
            2,
            "table",
            None,
            vec![node(
                3,
                "tr",
                None,
                vec![
                    node(4, "td.icon", None, vec![node(5, "div.title", None, vec![text("Note")])]),
                    node(
                        6,
                        "td.content",
                        None,
                        vec![node(7, "div.title", None, vec![text(title)]), text(said)],
                    ),
                ],
            )],
        )],
    )]
}

#[test]
fn an_admonition_hosts_the_title_in_its_cell() {
    let src = ".Care\nNOTE: Caremind it\n";
    // The cell reads as its title and its text in a row.
    let mut expected = vec!["6:data-edit-lead=NOTE: ".to_string()];
    expected.extend(editable(6, 1, 2));

    assert_eq!(marks(admonition("Care", "mind it"), src), expected);
}

#[test]
fn an_admonition_that_is_refused_leaves_its_title_to_itself() {
    let src = ".Care\nNOTE: mind it\n";
    let mut expected = vec!["6:data-edit-lead=NOTE: ".to_string(), refused(6)];
    expected.extend(editable(7, 1, 1));
    expected.push("7:data-edit-title=true".to_string());

    assert_eq!(marks(admonition("Care", "mind it"), src), expected);

    // A title that the source does not have is not taken for the block's.
    let found = marks(admonition("Other", "mind it"), src);
    assert_eq!(found, vec!["6:data-edit-lead=NOTE: ".to_string(), refused(7)]);
}

#[test]
fn a_page_whose_lines_cannot_be_looked_up_is_told() {
    let at = |line: usize| content(vec![node(1, "div", Some(line), vec![])]);

    assert!(!page_placed(&at(0)));
    assert!(page_placed(&at(1)));
    assert!(page_placed(&at(usize::MAX - 4)));
    assert!(!page_placed(&at(usize::MAX - 3)));
    assert!(page_placed(&content(vec![])));
}

#[test]
fn collects_the_text_of_nodes() {
    let mut out = "-".to_string();
    collect_text(&[text("a"), node(1, "b", None, vec![text("c"), Node::Other]), text("d")], &mut out);

    assert_eq!(out, "-acd");
}
