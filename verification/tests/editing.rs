use asciidoc_editor::dom::{Element, Node};
use asciidoc_editor::edits::{
    add_title, block_source, insert_block_below, offset_within, remove_image, remove_table,
    remove_title, set_admonition, set_level, set_list, shift_lines_below, split_block,
    sync_block, table_column, table_row, update_image, write_block, Edit, Recorded, Split, Written,
};
use asciidoc_editor::marking::{
    make_editable, offer_admonition, offer_attribution, offer_document_title, offer_heading,
    offer_image, offer_list, offer_paragraph, offer_table, offer_title, round_trips, title_line,
    Outcome,
};
use asciidoc_editor::source::{
    self, attribution, image_macro, image_parts, with_attribution, LineRange,
};
use asciidoc_editor::wysiwyg::{
    focused_block, image_of, is_list, kind_of, serialize, table_of, takes_links, title_line_of,
    Block, Kind, Marks, Surroundings, TitleMarks,
};

fn text(value: &str) -> Node {
    Node::Text(value.to_string())
}

fn element(tag: &str, children: Vec<Node>) -> Element {
    Element { key: None, tag: tag.to_string(), classes: vec![], line: None, href: None, children }
}

fn words(tag: &str, value: &str) -> Element {
    element(tag, vec![text(value)])
}

fn no_marks() -> Marks {
    Marks {
        line: None,
        end: None,
        level: None,
        marker: None,
        title: false,
        attribution: None,
        prefix: None,
        lead: None,
        shape: None,
        image: None,
        image_alt: None,
        fixed: false,
    }
}

fn at(line: usize, end: usize) -> Marks {
    Marks { line: Some(line.to_string()), end: Some(end.to_string()), ..no_marks() }
}

fn nothing_around() -> Surroundings {
    Surroundings { held: None, caption: None, beside: None, inside: None }
}

const DOC: &str = "= Title\n\nFirst *bold* para\nsecond line\n\n== Section\n\nTail\n";

// Kinds ---------------------------------------------------------------

#[test]
fn tells_what_a_block_is() {
    let some = |s: &str| Some(s.to_string());

    assert_eq!(kind_of("p", &no_marks()), Kind::Body);
    assert_eq!(kind_of("p", &Marks { title: true, ..no_marks() }), Kind::Title);
    assert_eq!(
        kind_of("h2", &Marks { level: some("2"), ..no_marks() }),
        Kind::Heading(2)
    );
    assert_eq!(kind_of("p", &Marks { level: some("0"), ..no_marks() }), Kind::Body);
    assert_eq!(kind_of("p", &Marks { level: some("x"), ..no_marks() }), Kind::Body);
    assert_eq!(kind_of("ul", &no_marks()), Kind::List { ordered: false });
    assert_eq!(kind_of("OL", &no_marks()), Kind::List { ordered: true });
    assert_eq!(
        kind_of("td", &Marks { lead: some("TIP: "), ..no_marks() }),
        Kind::Admonition("TIP")
    );
    assert_eq!(
        kind_of("td", &Marks { shape: some("1"), fixed: true, ..no_marks() }),
        Kind::Table { fixed_columns: true }
    );
    assert_eq!(kind_of("div", &Marks { image: some("a.png"), ..no_marks() }), Kind::Image);
    assert_eq!(
        kind_of("div", &Marks { attribution: some("verse"), ..no_marks() }),
        Kind::Attribution("verse")
    );
    assert_eq!(
        kind_of("div", &Marks { attribution: some("other"), ..no_marks() }),
        Kind::Body
    );
    assert!(is_list("ul") && is_list("OL") && !is_list("li"));
    assert!(takes_links(Kind::Body));
    assert!(!takes_links(Kind::Image));
}

#[test]
fn finds_the_line_of_a_title() {
    let some = |s: &str| Some(s.to_string());
    let title = |marked: bool, line: &str| Some(TitleMarks { marked, line: some(line) });

    assert_eq!(
        title_line_of(&Marks { title: true, ..at(3, 3) }, &nothing_around()),
        Some(3)
    );
    assert_eq!(
        title_line_of(&at(5, 6), &Surroundings { held: title(true, "4"), ..nothing_around() }),
        Some(4)
    );
    assert_eq!(
        title_line_of(&at(5, 6), &Surroundings { held: title(false, "9"), ..nothing_around() }),
        Some(5)
    );
    assert_eq!(
        title_line_of(
            &Marks { shape: some("1"), ..at(5, 6) },
            &Surroundings { caption: some("2"), beside: title(true, "7"), ..nothing_around() }
        ),
        Some(2)
    );
    assert_eq!(
        title_line_of(
            &at(5, 6),
            &Surroundings { beside: title(true, "7"), inside: title(true, "8"), ..nothing_around() }
        ),
        Some(7)
    );
    assert_eq!(
        title_line_of(&at(5, 6), &Surroundings { inside: title(true, "8"), ..nothing_around() }),
        Some(8)
    );
    assert_eq!(title_line_of(&at(5, 6), &nothing_around()), None);
}

#[test]
fn describes_the_focused_block() {
    assert_eq!(
        focused_block("p", &at(3, 4), &nothing_around()),
        Some(Block { line: 3, end: 4, kind: Kind::Body, title_line: None })
    );
    let pending = Marks { end: None, ..at(3, 3) };
    assert_eq!(focused_block("p", &pending, &nothing_around()).map(|b| b.end), Some(3));
    assert_eq!(focused_block("p", &no_marks(), &nothing_around()), None);
}

#[test]
fn reads_what_an_image_points_at() {
    let image = Marks { image: Some("a.png".to_string()), ..no_marks() };

    assert_eq!(image_of(&image), Some(("a.png".to_string(), String::new())));
    assert_eq!(image_of(&no_marks()), None);
}

// Offers --------------------------------------------------------------

#[test]
fn offers_a_paragraph_that_survives_the_round_trip() {
    let rendered = element(
        "p",
        vec![
            text("First "),
            Node::Element(words("strong", "bold")),
            text(" para\nsecond line"),
        ],
    );
    let offer = offer_paragraph(DOC, 3, &rendered);

    assert_eq!(offer.outcome, Outcome::Editable);
    assert_eq!(offer.range, LineRange { start: 3, end: 4 });
    assert_eq!(offer.kind, Kind::Body);
    assert_eq!(offer_paragraph(DOC, 3, &words("p", "other")).outcome, Outcome::Refused);
    assert!(round_trips("a", "a  \n"));
    assert!(!round_trips("a ", "a "));
}

#[test]
fn an_editable_paragraph_written_back_changes_nothing() {
    let rendered = element(
        "p",
        vec![
            text("First "),
            Node::Element(words("strong", "bold")),
            text(" para\nsecond line"),
        ],
    );
    let offer = offer_paragraph(DOC, 3, &rendered);
    let written = serialize(&rendered, &no_marks(), None);
    let back = write_block(DOC, &at(offer.range.start, offer.range.end), &written).expect("a line");

    assert_eq!(back.source, DOC);
    assert_eq!((back.added, back.removed), (2, 2));
}

#[test]
fn refuses_what_renders_as_something_else() {
    let src = "Version {version} -- and more\n";

    assert_eq!(
        offer_paragraph(src, 1, &words("p", "Version 1.0 \u{2014} and more")).outcome,
        Outcome::Refused
    );
}

#[test]
fn offers_a_heading_of_the_level_the_source_has() {
    let offer = offer_heading(DOC, 6, 2, &words("h2", "Section"));

    assert_eq!(offer.outcome, Outcome::Editable);
    assert_eq!(offer.kind, Kind::Heading(2));
    assert_eq!(offer.range, LineRange::single(6));
    assert_eq!(offer_heading(DOC, 6, 3, &words("h3", "Section")).outcome, Outcome::Skipped);
    assert_eq!(offer_heading(DOC, 6, 2, &words("h2", "1. Section")).outcome, Outcome::Refused);
}

#[test]
fn offers_the_document_title() {
    assert_eq!(title_line(DOC), Some(1));
    assert_eq!(title_line("== no\n\ntext"), None);
    assert_eq!(offer_document_title(DOC, &words("h1", "Title")).outcome, Outcome::Editable);
    assert_eq!(offer_document_title("text", &words("h1", "Title")).outcome, Outcome::Skipped);
}

#[test]
fn offers_a_list_with_the_marker_it_uses() {
    let src = "= T\n\n.A title\n- one\n- two\n\nAfter\n";
    let item = |value: &str| Node::Element(words("li", value));
    let items = element("ul", vec![item("one"), item("two")]);
    let offer = offer_list(src, 3, &items, false);

    assert_eq!(offer.outcome, Outcome::Editable);
    assert_eq!(offer.range, LineRange { start: 4, end: 5 });
    assert_eq!(offer.marker.as_deref(), Some("-"));
    assert_eq!(offer_list(src, 3, &items, true).outcome, Outcome::Skipped);
    assert_eq!(offer_list("text\n", 1, &items, false).outcome, Outcome::Skipped);
    let shorter = element("ul", vec![item("one")]);
    let refused = offer_list(src, 3, &shorter, false);
    assert_eq!(refused.outcome, Outcome::Refused);
    assert_eq!(refused.marker.as_deref(), Some("-"));
}

#[test]
fn offers_a_title_whatever_the_renderer_puts_in_front() {
    let src = ".A table\n|===\n| a\n|===\n";
    let offer = offer_title(src, 1, &words("caption", "Table 1. A table"), false);

    assert_eq!(offer.outcome, Outcome::Editable);
    assert_eq!(offer.prefix.as_deref(), Some("Table 1. "));
    assert_eq!(offer.range, LineRange::single(1));
    let marks = Marks { title: true, prefix: offer.prefix, ..at(1, 1) };
    assert_eq!(block_source(Kind::Title, &marks, "Table 1. A table", None), ".A table");
    assert_eq!(block_source(Kind::Title, &marks, "Tab", None), ".Tab");

    let plain = offer_title(src, 1, &words("div", "A table"), false);
    assert_eq!((plain.outcome, plain.prefix), (Outcome::Editable, None));
    assert_eq!(offer_title(src, 1, &words("div", "A table"), true).outcome, Outcome::Skipped);
    assert_eq!(offer_title("text\n", 1, &words("div", "Note"), false).outcome, Outcome::Skipped);
    assert_eq!(offer_title(src, 1, &words("div", "Other"), false).outcome, Outcome::Refused);
}

#[test]
fn offers_an_attribution_without_its_dash() {
    let src = "Text\n\n[quote,A. Author]\nWords\n";
    let rendered = words("div", "\u{2014} A. Author");
    let offer = offer_attribution(src, 3, &rendered).expect("an offer");

    assert_eq!(offer.outcome, Outcome::Editable);
    assert_eq!(offer.kind, Kind::Attribution("quote"));
    assert_eq!(offer.prefix.as_deref(), Some("\u{2014} "));
    assert_eq!(offer.range, LineRange::single(3));
    let marks = Marks { attribution: Some("quote".to_string()), prefix: offer.prefix, ..at(3, 3) };
    let written = |said: &str| block_source(Kind::Attribution("quote"), &marks, said, None);
    assert_eq!(written("\u{2014} A. Author"), "[quote,A. Author]");
    assert_eq!(written("\u{2014} B.\nWriter "), "[quote,B. Writer]");
    assert_eq!(written("Nobody"), "[quote,Nobody]");

    // The line says more, or says it otherwise than it would be written.
    assert_eq!(offer_attribution("[quote,A. Author,A Work]\n", 1, &rendered), None);
    assert_eq!(offer_attribution("[quote, A. Author]\n", 1, &rendered), None);
    assert_eq!(offer_attribution("Words\n", 1, &rendered), None);
    let other = offer_attribution("[verse,Other]\n", 1, &rendered).expect("an offer");
    assert_eq!((other.outcome, other.kind), (Outcome::Refused, Kind::Attribution("verse")));
}

#[test]
fn offers_an_admonition_with_its_label() {
    let src = "= T\n\nNOTE: mind the gap\n";
    let offer = offer_admonition(src, 3, &words("td", "mind the gap"), None);

    assert_eq!(offer.outcome, Outcome::Editable);
    assert_eq!(offer.kind, Kind::Admonition("NOTE"));
    assert_eq!(offer.lead.as_deref(), Some("NOTE: "));
    assert_eq!(offer.range, LineRange::single(3));
    let marks = Marks { lead: offer.lead, ..at(3, 3) };
    assert_eq!(
        block_source(Kind::Admonition("NOTE"), &marks, "mind the gap", None),
        "NOTE: mind the gap"
    );
    assert_eq!(
        offer_admonition("text\n", 1, &words("td", "text"), None).outcome,
        Outcome::Skipped
    );
}

#[test]
fn an_admonition_owns_the_title_in_its_cell() {
    let src = "= T\n\n.Careful\nNOTE: mind the gap\n";
    let body = words("td", "mind the gap");
    let offer = offer_admonition(src, 3, &body, Some("Careful"));

    assert_eq!(offer.range, LineRange { start: 3, end: 4 });
    assert_eq!(offer.outcome, Outcome::Editable);
    assert_eq!(offer_admonition(src, 3, &body, Some("Other")).outcome, Outcome::Skipped);
    assert_eq!(offer_admonition(src, 3, &body, None).range, LineRange::single(4));
    let marks = Marks { lead: offer.lead, ..at(3, 4) };
    assert_eq!(
        block_source(Kind::Admonition("NOTE"), &marks, "mind\nit", Some(" Care ")),
        ".Care\nNOTE: mind\nit"
    );
}

#[test]
fn offers_an_image_that_is_nothing_else() {
    let src = "= T\n\n.A title\nimage::a.png[Alt]\n";
    let offer = offer_image(src, 3).expect("an offer");

    assert_eq!(offer.range, LineRange::single(4));
    assert_eq!((offer.target.as_str(), offer.alt.as_str()), ("a.png", "Alt"));
    assert_eq!(offer_image("image::a.png[Alt,300]\n", 1), None);
    assert_eq!(offer_image("Text\n", 1), None);
}

#[test]
fn an_image_is_read_as_it_is_written() {
    let read = |text: &str| image_parts(text);

    assert_eq!(image_macro("a.png", "Alt text"), "image::a.png[Alt text]");
    for (target, alt) in [("a.png", "Alt text"), ("https://x.org/a_b.png", ""), ("a", "b \u{e9}")] {
        assert_eq!(
            read(&image_macro(target, alt)),
            Some((target.to_string(), alt.to_string()))
        );
    }
    assert_eq!(read("image::a.png[Alt]  \n"), Some(("a.png".to_string(), "Alt".to_string())));
    for other in ["image::a.png", "image:a.png[Alt]", "image::[Alt]", "image::a b.png[Alt]"] {
        assert_eq!(read(other), None, "{other}");
    }
    assert_eq!(read("image::a.png[width=3]"), None);
    assert_eq!(read("image::a.png[\"Alt\"]"), None);
}

#[test]
fn an_attribution_is_read_as_it_is_written() {
    for style in ["quote", "verse"] {
        let line = with_attribution(style, " A.\nAuthor ");
        assert_eq!(line, format!("[{style},A. Author]"));
        assert_eq!(attribution(&line), Some((style, "A. Author")));
    }
    for other in ["[quote]", "[quote,]", "[NOTE,A]", "[quote,A", "quote,A]", "[quote,A,B]"] {
        assert_eq!(attribution(other), None, "{other}");
    }
}

fn rendered_table(rows: &[&[&str]]) -> Element {
    let rows = rows
        .iter()
        .map(|row| {
            let cells = row.iter().map(|cell| Node::Element(words("td", cell))).collect();
            Node::Element(element("tr", cells))
        })
        .collect();
    element("table", vec![Node::Element(element("tbody", rows))])
}

const TABLE: &str = "[cols=\"1,2\"]\n|===\n| a | b\n\n| c\n| d\n|===\n";

#[test]
fn offers_the_cells_of_a_table_that_reads_back() {
    let rendered = rendered_table(&[&["a", "b"], &["c", "d"]]);
    let offer = offer_table(TABLE, 1, &rendered).expect("an offer");

    assert_eq!(offer.range, LineRange { start: 3, end: 6 });
    assert_eq!(offer.shape, "2,b,1,1");
    assert!(!offer.fixed);
    assert_eq!(table_of(&rendered, &offer.shape), "| a | b\n\n| c\n| d");
    let fixed = TABLE.replace("1,2", "2*");
    assert!(offer_table(&fixed, 1, &rendered).expect("an offer").fixed);
    assert_eq!(offer_table(TABLE, 1, &rendered_table(&[&["a", "b"]])), None);
    assert_eq!(offer_table("text\n", 1, &rendered), None);
    assert_eq!(offer_table("|===\n2+| a\n|===\n", 1, &rendered), None);
}

#[test]
fn a_table_that_would_be_rewritten_is_left_alone() {
    let rendered = rendered_table(&[&["a", "b"], &["c", "d"]]);
    let offered = |rows: &str| offer_table(&format!("|===\n{rows}\n|===\n"), 1, &rendered).is_some();

    assert!(offered("| a | b\n| c | d"));
    assert!(offered("| a | b\n\n| c | d"));
    // Read as the same cells, but written otherwise.
    assert!(!offered("|a |b\n|c |d"));
    assert!(!offered("| a  | b\n| c | d"));
    assert!(!offered(" | a | b\n| c | d"));
    assert!(!offered("| a | b\n \n| c | d"));
}

#[test]
fn a_heading_that_would_be_rewritten_is_refused() {
    let heading = words("h2", "Section");

    assert_eq!(offer_heading("== Section\n", 1, 2, &heading).outcome, Outcome::Editable);
    assert_eq!(offer_heading("== Section  \n", 1, 2, &heading).outcome, Outcome::Editable);
    assert_eq!(offer_heading("==  Section\n", 1, 2, &heading).outcome, Outcome::Refused);
    let title = words("h1", "Title");
    assert_eq!(offer_document_title("= Title\n", &title).outcome, Outcome::Editable);
    assert_eq!(offer_document_title("=  Title\n", &title).outcome, Outcome::Refused);
}

#[test]
fn a_title_or_an_admonition_that_would_be_rewritten_is_refused() {
    let title = words("div", "Things");
    assert_eq!(offer_title(".Things\n* a\n", 1, &title, false).outcome, Outcome::Editable);
    assert_eq!(offer_title(".Things  \n* a\n", 1, &title, false).outcome, Outcome::Editable);

    // The title in the cell is not the one above the text, so it would be
    // written a second time.
    let body = words("td", "mind it");
    let apart = ".Care\n[role=x]\nNOTE: mind it\n";
    assert_eq!(offer_admonition(apart, 1, &body, Some("Care")).outcome, Outcome::Refused);
    assert_eq!(offer_admonition(apart, 1, &body, None).outcome, Outcome::Editable);
}

#[test]
fn a_cell_stands_for_its_table() {
    let rendered = rendered_table(&[&["a", "b"], &["c", "d"]]);
    let cell = words("td", "a");
    let marks = Marks { shape: Some("2,b,1,1".to_string()), ..at(3, 6) };

    assert_eq!(serialize(&cell, &marks, Some(&rendered)), "| a | b\n\n| c\n| d");
    assert_eq!(serialize(&cell, &marks, None), "a");
    assert_eq!(serialize(&cell, &no_marks(), Some(&rendered)), "a");
}

#[test]
fn records_what_makes_a_block_editable() {
    let names = |kind: Kind| {
        make_editable(LineRange { start: 3, end: 14 }, kind)
            .into_iter()
            .map(|a| format!("{}={}", a.name, a.value))
            .collect::<Vec<_>>()
    };

    assert_eq!(
        names(Kind::Body),
        vec!["contenteditable=true", "data-edit-line=3", "data-edit-end=14"]
    );
    assert_eq!(names(Kind::Heading(2))[3], "data-edit-level=2");
    assert_eq!(names(Kind::Title)[3], "data-edit-title=true");
}

// Edits ---------------------------------------------------------------

#[test]
fn writes_a_block_back_over_its_lines() {
    let written = write_block(DOC, &at(3, 4), "one\ntwo\nthree").expect("a line");

    assert_eq!(
        written,
        Written {
            source: "= Title\n\none\ntwo\nthree\n\n== Section\n\nTail\n".to_string(),
            start: 3,
            end: 5,
            added: 3,
            removed: 2,
        }
    );
    assert_eq!(write_block(DOC, &no_marks(), "x"), None);
}

#[test]
fn a_synced_block_moves_the_blocks_below() {
    let blocks = [
        Recorded { line: 3, end: Some(4) },
        Recorded { line: 6, end: Some(6) },
        Recorded { line: 8, end: None },
    ];
    let sync = |kind: Kind, marks: &Marks, said: &str, title: Option<&str>| {
        sync_block(DOC, kind, marks, said, title, &blocks)
    };

    let synced = sync(Kind::Body, &at(3, 4), "one\ntwo\nthree", None).expect("a line");
    assert_eq!(synced.written, write_block(DOC, &at(3, 4), "one\ntwo\nthree").expect("a line"));
    assert_eq!(
        synced.blocks,
        vec![
            Recorded { line: 3, end: Some(4) },
            Recorded { line: 7, end: Some(7) },
            Recorded { line: 9, end: None },
        ]
    );

    // As it was rendered, it leaves everything as it was.
    let same = sync(Kind::Body, &at(3, 4), "First *bold* para\nsecond line", None).expect("a line");
    assert_eq!(same.written.source, DOC);
    assert_eq!(same.blocks, blocks.to_vec());

    let heading = Marks { level: Some("2".to_string()), ..at(6, 6) };
    let raised = sync(Kind::Heading(2), &heading, "Part", None).expect("a line");
    assert_eq!(raised.written.source, DOC.replace("== Section", "== Part"));

    let label = Marks { lead: Some("TIP: ".to_string()), ..at(8, 8) };
    let tip = sync(Kind::Admonition("TIP"), &label, "Tail", Some("Care")).expect("a line");
    assert_eq!(tip.written.source, DOC.replace("Tail", ".Care\nTIP: Tail"));
    assert_eq!(tip.blocks, blocks.to_vec());

    // A new block takes a line, and the blank one after it.
    let new = sync(Kind::Body, &Marks { end: None, ..at(3, 3) }, "New", None).expect("a line");
    assert_eq!((new.written.end, new.written.added, new.written.removed), (3, 2, 0));
    assert_eq!(new.blocks[1], Recorded { line: 8, end: Some(8) });

    assert_eq!(sync(Kind::Body, &no_marks(), "x", None), None);
    assert_eq!(sync(Kind::Body, &at(6, 3), "x", None), None);
    let far = [Recorded { line: usize::MAX, end: None }];
    assert_eq!(sync_block(DOC, Kind::Body, &at(3, 4), "a\nb\nc", None, &far), None);
}

#[test]
fn a_new_block_gets_lines_of_its_own() {
    let written = write_block(DOC, &Marks { end: None, ..at(6, 6) }, "New").expect("a line");

    assert_eq!(
        written.source,
        "= Title\n\nFirst *bold* para\nsecond line\n\nNew\n\n== Section\n\nTail\n"
    );
    assert_eq!((written.end, written.added, written.removed), (6, 2, 0));
}

#[test]
fn blocks_below_an_edit_keep_their_lines() {
    let written = write_block(DOC, &at(3, 4), "one\ntwo\nthree").expect("a line");
    let blocks = [
        Recorded { line: 1, end: Some(1) },
        Recorded { line: 3, end: Some(4) },
        Recorded { line: 6, end: Some(6) },
        Recorded { line: 8, end: None },
    ];
    let moved = shift_lines_below(&blocks, written.start, written.added, written.removed);

    assert_eq!(moved[0], blocks[0]);
    assert_eq!(moved[1], blocks[1]);
    assert_eq!(moved[2], Recorded { line: 7, end: Some(7) });
    assert_eq!(moved[3], Recorded { line: 9, end: None });
    for (before, after) in [(6, 7), (8, 9)] {
        assert_eq!(
            source::text_of(DOC, LineRange::single(before)),
            source::text_of(&written.source, LineRange::single(after))
        );
    }
    assert_eq!(shift_lines_below(&blocks, 3, 2, 2), blocks.to_vec());
}

#[test]
fn re_casts_a_block() {
    let heading = set_level(DOC, &at(3, 4), "First\npara", Some(3)).expect("an edit");
    assert_eq!(heading.source, "= Title\n\n=== First para\n\n== Section\n\nTail\n");
    assert_eq!(heading.line, Some(3));

    let listed = set_list(DOC, &at(8, 8), "Tail", Some('*')).expect("an edit");
    assert!(listed.source.ends_with("\n* Tail\n"));
    assert_eq!(set_list(DOC, &Marks { title: true, ..at(8, 8) }, "Tail", Some('*')), None);
    assert_eq!(
        set_list(DOC, &Marks { lead: Some("TIP: ".to_string()), ..at(8, 8) }, "Tail", None),
        None
    );

    let noted = set_admonition(DOC, Kind::Body, &at(8, 8), "Tail", Some("TIP")).expect("an edit");
    assert!(noted.source.ends_with("\nTIP: Tail\n"));
    let bare = set_admonition(&noted.source, Kind::Admonition("TIP"), &at(8, 8), "Tail", None);
    assert_eq!(bare.expect("an edit").source, DOC);
    assert_eq!(set_admonition(DOC, Kind::Heading(2), &at(6, 6), "Section", Some("TIP")), None);
    assert_eq!(set_level(DOC, &no_marks(), "x", None), None);
}

#[test]
fn a_title_put_in_and_taken_out_leaves_the_document() {
    let titled = add_title(DOC, &at(3, 4)).expect("an edit");

    assert_eq!(
        titled.source,
        "= Title\n\n.Title\nFirst *bold* para\nsecond line\n\n== Section\n\nTail\n"
    );
    assert_eq!(remove_title(&titled.source, titled.line).expect("an edit").source, DOC);
    assert_eq!(remove_title(DOC, None), None);
    assert_eq!(add_title(DOC, &no_marks()), None);
}

#[test]
fn puts_blocks_in_and_takes_them_out() {
    let below = insert_block_below(DOC, Some(4), "New");
    assert_eq!(
        below.source,
        "= Title\n\nFirst *bold* para\nsecond line\n\nNew\n\n== Section\n\nTail\n"
    );
    assert_eq!(insert_block_below(DOC, None, "New").source, format!("{DOC}\nNew\n"));

    let src = "= T\n\n.A title\nimage::a.png[]\n\nAfter\n";
    let image = Marks { image: Some("a.png".to_string()), ..at(4, 4) };
    assert_eq!(
        remove_image(src, Some(3), &image),
        Some(Edit { source: "= T\n\n\nAfter\n".to_string(), line: None })
    );
    assert_eq!(remove_image(src, Some(3), &at(4, 4)), None);
    assert_eq!(remove_image(src, None, &image), None);
    let block = Block { line: 4, end: 4, kind: Kind::Image, title_line: Some(3) };
    assert_eq!(
        update_image(src, block, "b.png", "B").source,
        "= T\n\n.A title\nimage::b.png[B]\n\nAfter\n"
    );
    assert_eq!(
        remove_table("Before\n\n|===\n| a\n|===\n\nAfter\n", 3).expect("an edit").source,
        "Before\n\n\nAfter\n"
    );
    assert_eq!(remove_table(DOC, 3), None);
}

#[test]
fn adds_and_removes_rows() {
    let rendered = rendered_table(&[&["a", "b"], &["c", "d"]]);
    let added = table_row(TABLE, &rendered, 0, "2,b,1,1", 3, 6, true).expect("an edit");

    assert_eq!(added.source, "[cols=\"1,2\"]\n|===\n| a | b\n|  |\n| c | d\n|===\n");
    assert_eq!(added.line, Some(3));
    let removed = table_row(TABLE, &rendered, 1, "2,b,1,1", 3, 6, false).expect("an edit");
    assert_eq!(removed.source, "[cols=\"1,2\"]\n|===\n| a | b\n|===\n");
    assert_eq!(
        table_row(TABLE, &rendered_table(&[&["a", "b"]]), 0, "2", 3, 3, false),
        None,
        "a table needs a row"
    );
}

#[test]
fn adds_and_removes_columns_and_their_widths() {
    let rendered = rendered_table(&[&["a", "b"], &["c", "d"]]);
    let added = table_column(TABLE, &rendered, 0, "2,b,1,1", 3, 6, 1, true).expect("an edit");

    assert_eq!(added.source, "[cols=\"1,1,2\"]\n|===\n| a |  | b\n| c |  | d\n|===\n");
    let removed = table_column(TABLE, &rendered, 0, "2,b,1,1", 3, 6, 1, false).expect("an edit");
    assert_eq!(removed.source, "[cols=\"2\"]\n|===\n| b\n| d\n|===\n");
    let single = rendered_table(&[&["a"]]);
    assert_eq!(table_column("|===\n| a\n|===\n", &single, 0, "1", 2, 2, 1, false), None);
    let plain = "|===\n| a | b\n| c\n|===\n";
    let ragged = rendered_table(&[&["a", "b"], &["c"]]);
    assert_eq!(
        table_column(plain, &ragged, 1, "2,1", 2, 3, 1, true).expect("an edit").source,
        "|===\n| a | b |\n| c |\n|===\n"
    );
    assert_eq!(
        table_column(plain, &ragged, 1, "2,1", 2, 3, 1, false).expect("an edit").source,
        "|===\n| a\n| c\n|===\n"
    );
}

#[test]
fn splits_a_paragraph_at_the_caret() {
    let marks = at(3, 4);
    let said = "First *bold* para\nsecond line";

    assert_eq!(
        split_block(DOC, Kind::Body, &marks, said, Some(12)),
        Split::Rewritten {
            source: "= Title\n\nFirst *bold*\n\npara\nsecond line\n\n== Section\n\nTail\n"
                .to_string(),
            line: 5,
        }
    );
    assert_eq!(
        split_block(DOC, Kind::Body, &marks, said, Some(18)),
        Split::Rewritten {
            source: "= Title\n\nFirst *bold* para\n\nsecond line\n\n== Section\n\nTail\n"
                .to_string(),
            line: 5,
        }
    );
    assert_eq!(split_block(DOC, Kind::Body, &marks, said, Some(99)), Split::Pending { line: 6 });
    assert_eq!(split_block(DOC, Kind::Body, &marks, said, None), Split::Pending { line: 6 });
    assert_eq!(split_block(DOC, Kind::Title, &marks, said, Some(3)), Split::Nothing);
    assert_eq!(split_block(DOC, Kind::Body, &no_marks(), said, Some(3)), Split::Nothing);
    assert_eq!(split_block(DOC, Kind::Body, &marks, "é b", Some(1)), Split::Nothing);
    let heading = Marks { level: Some("2".to_string()), ..at(6, 6) };
    assert_eq!(
        split_block(DOC, Kind::Heading(2), &heading, "Section", Some(3)),
        Split::Pending { line: 8 }
    );
}

#[test]
fn measures_the_caret_by_what_is_written_before_it() {
    let before = [text("  é "), Node::Element(words("b", "x"))];

    assert_eq!(offset_within(&before), "é *x*".len());
    assert_eq!(offset_within(&[]), 0);
}

#[test]
fn a_caret_in_the_text_splits_it_where_it_stands() {
    let head = || vec![text("  Fïrst "), Node::Element(words("strong", "bold"))];
    let mut all = head();
    all.push(text(" one two"));
    let mut before = head();
    before.push(text(" one "));
    let said = serialize(&element("p", all), &no_marks(), None);
    let offset = offset_within(&before);

    assert_eq!(&said[..offset], "Fïrst *bold* one ");
    assert_eq!(
        split_block(DOC, Kind::Body, &at(3, 4), &said, Some(offset)),
        Split::Rewritten {
            source: "= Title\n\nFïrst *bold* one\n\ntwo\n\n== Section\n\nTail\n".to_string(),
            line: 5,
        }
    );
}
