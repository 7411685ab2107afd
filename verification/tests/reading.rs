use asciidoc_editor::dom::{Element, Node};
use asciidoc_editor::inline::{from_node, from_nodes, to_asciidoc, Inline};
use asciidoc_editor::list;
use asciidoc_editor::sync::{
    block_at_or_before, follows, line_of_offset, locate, offset_of_line, source_line,
    source_line_of_click,
};
use asciidoc_editor::table;

fn text(value: &str) -> Node {
    Node::Text(value.to_string())
}

fn element(tag: &str, children: Vec<Node>) -> Node {
    Node::Element(block(tag, children))
}

fn block(tag: &str, children: Vec<Node>) -> Element {
    Element { key: None, tag: tag.to_string(), classes: vec![], line: None, href: None, children }
}

fn keyed(key: usize, tag: &str, children: Vec<Node>) -> Node {
    Node::Element(Element { key: Some(key), tag: tag.to_string(), classes: vec![], line: None, href: None, children })
}

fn link(href: Option<&str>, label: &str) -> Node {
    Node::Element(Element {
        key: None,
        tag: "a".to_string(),
        classes: vec![],
        line: None,
        href: href.map(str::to_string),
        children: vec![text(label)],
    })
}

#[test]
fn reads_the_formatting_of_renderer_and_browser_alike() {
    let rendered = block(
        "p",
        vec![
            text("a "),
            element("strong", vec![text("b")]),
            element("B", vec![text("c")]),
            element("em", vec![text("d")]),
            element("i", vec![text("e")]),
            element("code", vec![text("f")]),
            element("br", vec![]),
            Node::Other,
        ],
    );

    assert_eq!(to_asciidoc(&from_node(&rendered)), "a *b**c*_d__e_`f`\n");
    assert_eq!(
        from_nodes(&[element("strong", vec![text("x")])]),
        vec![Inline::Strong(vec![Inline::Text("x".to_string())])]
    );
}

#[test]
fn sees_through_unknown_wrappers() {
    let rendered = block(
        "p",
        vec![element("span", vec![text("a"), element("u", vec![element("em", vec![text("b")])])])],
    );

    assert_eq!(to_asciidoc(&from_node(&rendered)), "a_b_");
}

#[test]
fn reads_links_with_and_without_a_target() {
    let rendered = block("p", vec![link(Some("https://e.org"), "E"), link(None, "none")]);

    assert_eq!(to_asciidoc(&from_node(&rendered)), "https://e.org[E][none]");
}

#[test]
fn writing_in_order_is_writing_as_one() {
    let one = vec![Inline::Text("a".to_string()), Inline::LineBreak];
    let two = vec![Inline::Code(vec![Inline::Text("b".to_string())])];
    let both = vec![
        Inline::Text("a".to_string()),
        Inline::LineBreak,
        Inline::Code(vec![Inline::Text("b".to_string())]),
    ];

    assert_eq!(format!("{}{}", to_asciidoc(&one), to_asciidoc(&two)), to_asciidoc(&both));
}

#[test]
fn reads_a_list_through_the_wrappers_of_the_renderer() {
    let inner = element(
        "div",
        vec![text("\n"), element("ol", vec![element("LI", vec![element("p", vec![text("deep")])])])],
    );
    let outer = block(
        "ul",
        vec![
            text("\n"),
            element("li", vec![element("p", vec![text("one")]), inner]),
            element("p", vec![text("stray")]),
            element("li", vec![element("p", vec![text("two")])]),
        ],
    );
    let read = list::from_element(&outer).expect("a list");

    assert!(!read.ordered);
    assert_eq!(read.items.len(), 2);
    assert!(read.items[0].nested.as_ref().expect("a nested list").ordered);
    assert_eq!(list::to_asciidoc(&read, '-'), "- one\n.. deep\n- two");
    assert_eq!(list::from_element(&block("p", vec![])), None);
}

#[test]
fn the_last_nested_list_of_an_item_is_the_one() {
    let item = element(
        "li",
        vec![
            text("a"),
            element("ul", vec![element("li", vec![text("lost")])]),
            element("ul", vec![element("li", vec![text("kept")])]),
        ],
    );
    let read = list::from_element(&block("ul", vec![item])).expect("a list");

    assert_eq!(list::to_asciidoc(&read, '*'), "* a\n** kept");
}

#[test]
fn a_list_under_an_ordered_one_keeps_the_marker_given() {
    let item = element(
        "li",
        vec![text("a"), element("ul", vec![element("li", vec![text("b")])])],
    );
    let read = list::from_element(&block("ol", vec![item])).expect("a list");

    assert_eq!(list::to_asciidoc(&read, '*'), ". a\n** b");
    assert_eq!(list::to_asciidoc(&read, '-'), ". a\n-- b");
}

fn table_of(rows: &[&[&str]], header: bool) -> Element {
    let mut head = Vec::new();
    let mut body = Vec::new();
    for (i, row) in rows.iter().enumerate() {
        let cells = row
            .iter()
            .enumerate()
            .map(|(j, cell)| {
                keyed(100 * (i + 1) + j, "td", vec![element("p", vec![text(&format!(" {cell} "))])])
            })
            .collect();
        let row = keyed(i + 1, "tr", cells);
        if header && i == 0 {
            head.push(row);
        } else {
            body.push(row);
        }
    }
    let mut parts = vec![element("tbody", body)];
    if header {
        parts.insert(0, element("thead", head));
    }
    block("table", parts)
}

#[test]
fn reads_the_cells_of_a_rendered_table() {
    let rendered = table_of(&[&["a", "b"], &["c"]], true);

    assert_eq!(table::cells_from_dom(&rendered), vec!["a", "b", "c"]);
    assert_eq!(table::columns(&rendered), 2);
    assert!(table::has_header(&rendered));
    assert!(!table::has_header(&table_of(&[&["a"]], false)));
    assert_eq!(table::rows_of(&rendered).len(), 2);
    assert_eq!(table::cells_of(table::rows_of(&rendered)[0]).len(), 2);
    assert_eq!(table::columns(&block("table", vec![])), 0);
    assert!(!table::has_header(&block("table", vec![element("thead", vec![])])));
}

#[test]
fn finds_where_a_cell_sits() {
    let rendered = table_of(&[&["a", "b"], &["c", "d"]], true);

    assert_eq!(table::position(&rendered, 1, 100), Some((0, 0)));
    assert_eq!(table::position(&rendered, 2, 201), Some((1, 1)));
    assert_eq!(table::position(&rendered, 2, 100), None);
    assert_eq!(table::position(&rendered, 7, 100), None);
}

#[test]
fn tables_that_are_written_are_read_back() {
    for (cells, shape) in [
        (vec!["a", "b | c", "", "d\\"], vec![table::Slot::Row(2), table::Slot::Row(2)]),
        (
            vec!["", "x", "\\|y"],
            vec![table::Slot::Row(1), table::Slot::Blank, table::Slot::Row(2)],
        ),
        (vec![], vec![]),
    ] {
        let cells: Vec<String> = cells.iter().map(|cell| cell.to_string()).collect();
        let written = table::to_asciidoc(&cells, &shape, 2, false);

        assert_eq!(table::parse(&written), Some((cells, shape)), "{written:?}");
    }
}

#[test]
fn tables_are_read_back_however_they_are_laid_out() {
    let cells: Vec<String> =
        [" a\nb ", "| c |", "", "\t", "\u{a0}d", "e"].iter().map(|cell| cell.to_string()).collect();
    let flat: Vec<String> =
        ["a b", "| c |", "", "", "d", "e"].iter().map(|cell| cell.to_string()).collect();
    let row = |n: usize| table::Slot::Row(n);

    for shape in [vec![row(3), row(3)], vec![], vec![row(0), row(6), table::Slot::Blank], vec![row(1)]] {
        for columns in [0, 1, 2, 4, 7] {
            for header in [false, true] {
                let written = table::to_asciidoc(&cells, &shape, columns, header);
                let (found, _) = table::parse(&written).expect("plain cells");

                assert_eq!(found, flat, "{written:?}");
            }
        }
    }
    let written = table::to_asciidoc(&cells, &vec![row(2), table::Slot::Blank, row(4)], 9, true);
    assert_eq!(
        table::parse(&written),
        Some((flat, vec![row(2), table::Slot::Blank, row(4)]))
    );
}

#[test]
fn a_blank_line_at_the_end_of_a_table_is_lost() {
    let shape = vec![table::Slot::Row(1), table::Slot::Blank];
    let written = table::to_asciidoc(&["a".to_string()], &shape, 1, false);

    assert_eq!(table::parse(&written), Some((vec!["a".to_string()], vec![table::Slot::Row(1)])));
}

#[test]
fn shapes_too_large_to_add_up_do_not_fit() {
    let shape = table::decode("18446744073709551615,2");

    assert_eq!(shape, vec![table::Slot::Row(usize::MAX), table::Slot::Row(2)]);
    assert_eq!(table::to_asciidoc(&["a".to_string()], &shape, 0, true), "| a\n");
}

#[test]
fn entries_that_are_no_shape_are_dropped() {
    assert_eq!(
        table::decode("2,,b,x,+1"),
        vec![table::Slot::Row(2), table::Slot::Blank, table::Slot::Row(1)]
    );
    assert_eq!(table::decode(""), vec![]);
    assert_eq!(table::encode(&vec![]), "");
}

#[test]
fn finds_the_block_at_or_before_a_line() {
    let blocks = [Some(1), Some(3), Some(8), None, Some(9)];

    assert_eq!(block_at_or_before(&blocks, 0), None);
    assert_eq!(block_at_or_before(&blocks, 3), Some(1));
    assert_eq!(block_at_or_before(&blocks, 7), Some(1));
    assert_eq!(block_at_or_before(&blocks, 50), Some(2));
    assert_eq!(block_at_or_before(&[], 1), None);
}

#[test]
fn a_click_belongs_to_the_nearest_annotated_element() {
    let chain = [None, Some("3".to_string()), Some("1".to_string())];

    assert_eq!(source_line_of_click(&chain), Some(3));
    assert_eq!(source_line_of_click(&[Some("x".to_string()), Some("1".to_string())]), None);
    assert_eq!(source_line_of_click(&[None, None]), None);
    assert_eq!(source_line(Some("12")), Some(12));
    assert_eq!(source_line(None), None);
    assert_eq!(locate("a\nb\nc", &chain), Some((3, 4)));
    assert_eq!(locate("a\nb\nc", &[None]), None);
}

#[test]
fn follows_the_caret_to_another_line() {
    assert!(follows(2, 1, false));
    assert!(!follows(2, 2, false));
    assert!(follows(2, 2, true));
}

#[test]
fn code_units_are_those_of_std() {
    let src = "a🦀\nß\u{ffff}\u{10000}\nlast";
    let mut offset = 0;
    let mut line = 1;
    for c in src.chars() {
        assert_eq!(line_of_offset(src, offset), line);
        if c == '\n' {
            line += 1;
            assert_eq!(offset_of_line(src, line), offset + 1);
        }
        offset += c.len_utf16();
    }
    for place in 0..=offset {
        assert!(offset_of_line(src, line_of_offset(src, place)) <= place);
    }
}
