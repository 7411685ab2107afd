use asciidoc_editor::dom::{Element, Node};
use asciidoc_editor::history::{History, Step, HISTORY_DEPTH};
use asciidoc_editor::indent::reindent;
use asciidoc_editor::keys;
use asciidoc_editor::keys::{neighbour, on_key_down, settles, Action, Command, Format, Key, Place};
use asciidoc_editor::list;
use asciidoc_editor::render::Warning;
use asciidoc_editor::toolbar::{
    describe, description_of, given, has_changed, icon_for, label_for, list_marker_for,
    opening_document,
    opening_mode, status, takes_admonition, takes_level, takes_list, takes_title, too_large,
    wrapper_for, Mode,
};
use asciidoc_editor::wysiwyg::Kind;

// History -------------------------------------------------------------

fn step(source: &str, line: Option<usize>) -> Option<Step> {
    Some(Step { source: source.to_string(), line })
}

#[test]
fn takes_a_change_back_and_makes_it_again() {
    let mut history = History::new("a");
    history.settle("b", Some(1));
    history.settle("b", Some(2));

    assert_eq!(history.depth(), (1, 0));
    assert_eq!(history.travel(true, "b", Some(3)), step("a", Some(1)));
    assert_eq!(history.settled(), "a");
    assert_eq!(history.depth(), (0, 1));
    assert_eq!(history.travel(true, "a", None), None);
    assert_eq!(history.travel(false, "a", Some(1)), step("b", Some(3)));
    assert_eq!(history.depth(), (1, 0));
    history.travel(true, "b", None);
    history.settle("c", None);
    assert_eq!(history.depth(), (1, 0), "a change leaves nothing to make again");
    assert_eq!(history.travel(false, "c", None), None);
}

#[test]
fn remembers_so_many_steps_and_no_more() {
    let mut history = History::new("0");
    for i in 1..=HISTORY_DEPTH + 50 {
        history.settle(&i.to_string(), None);
    }

    assert_eq!(history.depth(), (HISTORY_DEPTH, 0));
    let mut current = (HISTORY_DEPTH + 50).to_string();
    while let Some(step) = history.travel(true, &current, None) {
        current = step.source;
    }
    assert_eq!(current, "50");
    assert_eq!(history.depth(), (0, HISTORY_DEPTH));
}

// Keys ----------------------------------------------------------------

fn key(name: &str) -> Key {
    Key { name: name.to_string(), shift: false, ctrl: false, meta: false }
}

fn ctrl(name: &str) -> Key {
    Key { ctrl: true, ..key(name) }
}

const INSIDE: Place =
    Place { list: false, at_bottom: false, at_top: false, below: true, above: true };

#[test]
fn enter_splits_a_block_but_not_a_list() {
    assert_eq!(on_key_down(&key("Enter"), INSIDE), Action::Split);
    assert_eq!(on_key_down(&key("Enter"), Place { list: true, ..INSIDE }), Action::Leave);
    assert_eq!(on_key_down(&Key { shift: true, ..key("Enter") }, INSIDE), Action::Leave);
}

#[test]
fn arrows_cross_to_the_next_block_at_the_edge() {
    let edge = Place { at_bottom: true, at_top: true, ..INSIDE };

    assert_eq!(on_key_down(&key("ArrowDown"), edge), Action::Cross { down: true });
    assert_eq!(on_key_down(&key("ArrowUp"), edge), Action::Cross { down: false });
    assert_eq!(on_key_down(&key("ArrowDown"), INSIDE), Action::Leave);
    assert_eq!(on_key_down(&key("ArrowUp"), Place { above: false, ..edge }), Action::Leave);
    assert_eq!(on_key_down(&Key { shift: true, ..key("ArrowDown") }, edge), Action::Leave);
    assert_eq!(on_key_down(&ctrl("ArrowDown"), edge), Action::Leave);
}

#[test]
fn tab_moves_an_item() {
    let in_list = Place { list: true, ..INSIDE };

    assert_eq!(on_key_down(&key("Tab"), in_list), Action::Reindent { outdent: false });
    assert_eq!(
        on_key_down(&Key { shift: true, ..key("Tab") }, in_list),
        Action::Reindent { outdent: true }
    );
    assert_eq!(on_key_down(&key("Tab"), INSIDE), Action::Leave);
}

#[test]
fn shortcuts_travel_and_format() {
    assert_eq!(on_key_down(&ctrl("z"), INSIDE), Action::Travel { back: true });
    assert_eq!(
        on_key_down(&Key { shift: true, ..ctrl("Z") }, INSIDE),
        Action::Travel { back: false }
    );
    assert_eq!(on_key_down(&ctrl("B"), INSIDE), Action::Apply(Format::Bold));
    assert_eq!(
        on_key_down(&Key { meta: true, ..key("i") }, INSIDE),
        Action::Apply(Format::Italic)
    );
    assert_eq!(on_key_down(&ctrl("e"), INSIDE), Action::Apply(Format::Code));
    assert_eq!(on_key_down(&ctrl("q"), INSIDE), Action::Leave);
    assert_eq!(on_key_down(&key("b"), INSIDE), Action::Leave);
}

#[test]
fn goes_to_the_neighbour_there_is() {
    assert_eq!(neighbour(3, 0, true), Some(1));
    assert_eq!(neighbour(3, 2, true), None);
    assert_eq!(neighbour(3, 2, false), Some(1));
    assert_eq!(neighbour(3, 0, false), None);
    assert!(settles(false, false));
    assert!(!settles(true, false));
    assert!(!settles(false, true));
}

#[test]
fn formats_the_selection() {
    assert_eq!(keys::format(Format::Bold, false, "x"), Command::Run("bold"));
    assert_eq!(keys::format(Format::Italic, true, ""), Command::Run("italic"));
    assert_eq!(keys::format(Format::Code, true, "x"), Command::Run("removeFormat"));
    assert_eq!(keys::format(Format::Code, false, ""), Command::Nothing);
    assert_eq!(
        keys::format(Format::Code, false, "a < b & c > d"),
        Command::Insert("<code>a &lt; b &amp; c &gt; d</code>".to_string())
    );
}

// Toolbar -------------------------------------------------------------

#[test]
fn names_blocks() {
    assert_eq!(describe(Kind::Body), "Paragraph");
    assert_eq!(describe(Kind::Heading(1)), "Heading 1");
    assert_eq!(describe(Kind::Heading(2)), "Heading 1");
    assert_eq!(describe(Kind::Heading(4)), "Heading 3");
    assert_eq!(describe(Kind::List { ordered: true }), "Numbered list");
    assert_eq!(describe(Kind::List { ordered: false }), "Bulleted list");
    assert_eq!(describe(Kind::Title), "Block title");
    assert_eq!(describe(Kind::Admonition("TIP")), "TIP");
    assert_eq!(describe(Kind::Table { fixed_columns: true }), "Table cell");
    assert_eq!(describe(Kind::Image), "Image");
    assert_eq!(describe(Kind::Attribution("quote")), "quote attribution");
}

#[test]
fn draws_admonitions() {
    assert_eq!(icon_for("NOTE"), "\u{2139}\u{fe0f}");
    assert_eq!(icon_for("TIP"), "\u{1f4a1}");
    assert_eq!(icon_for("IMPORTANT"), "\u{2757}");
    assert_eq!(icon_for("WARNING"), "\u{26a0}\u{fe0f}");
    assert_eq!(icon_for("CAUTION"), "\u{1f525}");
    assert_eq!(icon_for("OTHER"), "\u{2139}\u{fe0f}");
}

#[test]
fn offers_what_a_block_can_become() {
    let all = [
        Kind::Body,
        Kind::Heading(2),
        Kind::List { ordered: true },
        Kind::Title,
        Kind::Admonition("TIP"),
        Kind::Attribution("quote"),
        Kind::Image,
        Kind::Table { fixed_columns: false },
    ];
    let which = |f: fn(Option<Kind>) -> bool| all.map(|kind| f(Some(kind)));

    assert_eq!(which(takes_list), [true, true, true, false, false, false, false, false]);
    assert_eq!(which(takes_level), [true, true, false, false, false, false, false, false]);
    assert_eq!(which(takes_admonition), [true, false, false, false, true, false, false, false]);
    assert!(takes_list(None) && takes_level(None) && !takes_admonition(None));
    assert!(!takes_title(Kind::Heading(2)));
    assert!(takes_title(Kind::Body));
}

#[test]
fn buttons_toggle() {
    assert_eq!(list_marker_for(Some(Kind::Body), true), Some('.'));
    assert_eq!(list_marker_for(None, false), Some('*'));
    assert_eq!(list_marker_for(Some(Kind::List { ordered: true }), true), None);
    assert_eq!(list_marker_for(Some(Kind::List { ordered: true }), false), Some('*'));
    assert_eq!(label_for(Some("TIP"), Some(Kind::Admonition("TIP"))), None);
    assert_eq!(label_for(Some("TIP"), Some(Kind::Admonition("NOTE"))), Some("TIP"));
    assert_eq!(label_for(None, Some(Kind::Admonition("NOTE"))), None);
    assert_eq!(label_for(Some("TIP"), None), Some("TIP"));
    assert_eq!(wrapper_for("quote", Some("quote")), None);
    assert_eq!(wrapper_for("quote", Some("source")), Some("quote"));
    assert_eq!(wrapper_for("quote", None), Some("quote"));
}

#[test]
fn opens_the_document_the_page_names() {
    let some = |s: &str| Some(s.to_string());

    assert_eq!(opening_document(some("given"), some("saved"), "sample"), "given");
    assert_eq!(opening_document(some(""), some("saved"), "sample"), "saved");
    assert_eq!(opening_document(None, some(""), "sample"), "sample");
    assert_eq!(given(some("")), None);
    assert_eq!(given(some("x")), some("x"));
    assert_eq!(opening_mode(None), Mode::Rich);
    assert_eq!(opening_mode(Some(true)), Mode::Rich);
    assert_eq!(opening_mode(Some(false)), Mode::Source);
}

#[test]
fn tells_the_page_of_a_change_alone() {
    assert!(has_changed(Some("before"), "after"));
    assert!(!has_changed(Some("same"), "same"));
    assert!(!has_changed(None, "first"));
}

#[test]
fn describes_an_embedded_image() {
    assert_eq!(description_of("  A cat ", "cat.png"), "A cat");
    assert_eq!(description_of("  ", "my.cat.png"), "my.cat");
    assert_eq!(description_of("", "cat"), "cat");
}

#[test]
fn refuses_to_embed_large_files() {
    assert_eq!(too_large("a.png", 2_097_152), None);
    assert_eq!(
        too_large("a.png", 2_097_153).as_deref(),
        Some("a.png is 2.0 MB \u{2014} too large to embed. Link to it instead.")
    );
    for bytes in [
        2_097_153u64, 2_149_580, 2_149_581, 2_359_296, 2_411_724, 2_411_725, 2_621_440, 2_883_584,
        3_145_728, 104_857_600, 123_456_789,
    ] {
        assert_eq!(
            too_large("f", bytes),
            Some(format!(
                "f is {:.1} MB \u{2014} too large to embed. Link to it instead.",
                bytes as f64 / 1_048_576.0
            ))
        );
    }
}

#[test]
fn sums_up_the_warnings() {
    let warning = |line: usize| Warning { line, message: "odd".to_string() };

    assert_eq!(status(&[]), "No warnings");
    assert_eq!(status(&[warning(3)]), "1 warning(s) \u{2014} line 3: odd");
    assert_eq!(
        status(&[warning(1), warning(2), warning(3), warning(4)]),
        "4 warning(s) \u{2014} line 1: odd \u{b7} line 2: odd \u{b7} line 3: odd"
    );
}

// Items ---------------------------------------------------------------

fn item(key: usize, value: &str, nested: Vec<Node>) -> Node {
    let mut children = vec![Node::Text(value.to_string())];
    children.extend(nested);
    Node::Element(Element { key: Some(key), tag: "LI".to_string(), classes: vec![], line: None, href: None, children })
}

fn items(tag: &str, children: Vec<Node>) -> Element {
    Element { key: None, tag: tag.to_string(), classes: vec![], line: None, href: None, children }
}

fn written(list: &Element) -> String {
    list::to_asciidoc(&list::from_element(list).expect("a list"), '*')
}

#[test]
fn nests_an_item_under_the_one_before() {
    let list = items("UL", vec![item(1, "a", vec![]), item(2, "b", vec![]), item(3, "c", vec![])]);
    let moved = reindent(list, 2, false);

    assert_eq!(written(&moved), "* a\n** b\n* c");
    let moved = reindent(moved, 3, false);
    assert_eq!(written(&moved), "* a\n** b\n** c");
    let moved = reindent(moved, 3, false);
    assert_eq!(written(&moved), "* a\n** b\n*** c");
}

#[test]
fn the_first_item_stays() {
    let list = items("UL", vec![item(1, "a", vec![]), item(2, "b", vec![])]);

    assert_eq!(written(&reindent(list, 1, false)), "* a\n* b");
    let list = items("UL", vec![item(1, "a", vec![]), item(2, "b", vec![])]);
    assert_eq!(written(&reindent(list, 2, true)), "* a\n* b");
    let list = items("UL", vec![item(1, "a", vec![])]);
    assert_eq!(written(&reindent(list, 9, true)), "* a");
}

#[test]
fn an_item_moved_in_and_out_is_where_it_was() {
    let make = || items("OL", vec![item(1, "a", vec![]), item(2, "b", vec![]), item(3, "c", vec![])]);

    assert_eq!(reindent(reindent(make(), 2, false), 2, true), make());
}

#[test]
fn items_below_a_lifted_one_follow_it() {
    let inner = items(
        "UL",
        vec![item(2, "b", vec![]), item(3, "c", vec![]), item(4, "d", vec![])],
    );
    let list = items(
        "UL",
        vec![item(1, "a", vec![Node::Element(inner)]), item(5, "e", vec![])],
    );

    assert_eq!(written(&reindent(list, 3, true)), "* a\n** b\n* c\n** d\n* e");
}

#[test]
fn a_list_left_empty_goes_with_its_wrapper() {
    let wrapped = items(
        "DIV",
        vec![Node::Element(items("UL", vec![item(2, "b", vec![])]))],
    );
    let list = items("UL", vec![item(1, "a", vec![Node::Element(wrapped)])]);
    let moved = reindent(list, 2, true);

    assert_eq!(moved, items("UL", vec![item(1, "a", vec![]), item(2, "b", vec![])]));
}

#[test]
fn nests_into_the_list_that_is_there() {
    let inner = items("OL", vec![item(2, "b", vec![])]);
    let wrapped = items("DIV", vec![Node::Element(inner)]);
    let list = items(
        "UL",
        vec![
            item(1, "a", vec![Node::Element(wrapped)]),
            Node::Text("\n".to_string()),
            item(3, "c", vec![]),
        ],
    );

    assert_eq!(written(&reindent(list, 3, false)), "* a\n.. b\n.. c");
}

#[test]
fn an_item_moved_into_a_list_and_out_is_where_it_was() {
    let make = || {
        let inner = items("OL", vec![item(2, "b", vec![])]);
        let wrapped = items("DIV", vec![Node::Element(inner)]);
        items("UL", vec![item(1, "a", vec![Node::Element(wrapped)]), item(3, "c", vec![])])
    };

    assert_ne!(reindent(make(), 3, false), make());
    assert_eq!(reindent(reindent(make(), 3, false), 3, true), make());
}

#[test]
fn an_empty_list_goes_with_the_item_lifted_out_of_it() {
    let empty = Node::Element(items("UL", vec![]));
    let list = items("UL", vec![item(1, "a", vec![empty]), item(2, "b", vec![])]);
    let moved = reindent(reindent(list, 2, false), 2, true);

    assert_eq!(moved, items("UL", vec![item(1, "a", vec![]), item(2, "b", vec![])]));
}
