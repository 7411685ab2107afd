//! Turning a rendered list back into AsciiDoc.
//!
//! A list is edited as a single block rather than item by item, and the whole
//! list is written back over the source lines it came from. This matters
//! because the renderer marks the *list* with a source line, not its items; an
//! individual item has no line of its own to write back to.
use vstd::prelude::*;

use crate::dom;
use crate::dom::{Element, Node};
use crate::inline::{Inline, Span};
use crate::source;
use crate::text;
use crate::text::{join, repeat, trim};

verus! {

/// A rendered list, as far as the rich-text surface understands one.
#[derive(Debug, PartialEq)]
pub struct List {
    pub ordered: bool,
    pub items: Vec<Item>,
}

/// One item of a list, with the list nested in it.
#[derive(Debug, PartialEq)]
pub struct Item {
    pub content: Vec<Inline>,
    pub nested: Option<List>,
}

/// What a list stands for.
pub struct Outline {
    pub ordered: bool,
    pub items: Seq<Entry>,
}

/// What an item of a list stands for.
pub struct Entry {
    pub content: Seq<Span>,
    pub nested: Option<Outline>,
}

pub open spec fn outline(list: List) -> Outline
    decreases list,
{
    Outline { ordered: list.ordered, items: entries(list.items@) }
}

pub open spec fn entry(item: Item) -> Entry
    decreases item,
{
    Entry {
        content: crate::inline::spans(item.content@),
        nested: match item.nested {
            Some(list) => Some(outline(list)),
            None => None,
        },
    }
}

pub open spec fn entries(items: Seq<Item>) -> Seq<Entry>
    decreases items,
{
    if items.len() == 0 {
        Seq::empty()
    } else {
        entries(items.drop_last()).push(entry(items.last()))
    }
}

// ---------------------------------------------------------------------
// Writing
// ---------------------------------------------------------------------

/// The line of an item that says `words`, at the given depth.
pub open spec fn item_line(words: Seq<char>, own: char, depth: nat) -> Seq<char> {
    text::repeated(own, depth) + seq![' '] + words
}

/// What an item says.
pub open spec fn item_words(item: Entry) -> Seq<char> {
    text::trimmed(crate::inline::written(item.content))
}

/// The lines of one item at the given depth, of a list whose items are marked
/// with `own`; `given` marks those of the unordered lists in it.
///
/// An item with neither text nor children is one the user has started but not
/// filled in; it has nothing to write.
pub open spec fn entry_lines(item: Entry, own: char, given: char, depth: nat) -> Seq<Seq<char>>
    decreases item,
{
    let words = item_words(item);
    let first = item_line(words, own, depth);
    match item.nested {
        Some(nested) => seq![first] + list_lines(nested, given, depth + 1),
        None => if words.len() == 0 {
            Seq::empty()
        } else {
            seq![first]
        },
    }
}

/// The lines of items at the given depth.
pub open spec fn entries_lines(items: Seq<Entry>, own: char, given: char, depth: nat) -> Seq<
    Seq<char>,
>
    decreases items,
{
    if items.len() == 0 {
        Seq::empty()
    } else {
        entries_lines(items.drop_last(), own, given, depth) + entry_lines(
            items.last(),
            own,
            given,
            depth,
        )
    }
}

/// What marks the items of a list. Only unordered lists carry a style worth
/// preserving; ordered items are always written with `.`, whatever numbering
/// the source used.
pub open spec fn marker_in(list: Outline, given: char) -> char {
    if list.ordered {
        '.'
    } else {
        given
    }
}

/// The lines of a list at the given depth. An unordered list is marked with
/// `given`, wherever it is nested.
pub open spec fn list_lines(list: Outline, given: char, depth: nat) -> Seq<Seq<char>>
    decreases list,
{
    entries_lines(list.items, marker_in(list, given), given, depth)
}

/// A list as AsciiDoc, one line per item.
pub open spec fn list_text(list: Outline, marker: char) -> Seq<char> {
    text::joined(list_lines(list, marker, 1), source::newline())
}

/// Writes a list back out, one line per item.
///
/// `marker` is the character the source already uses (`*` or `-` for unordered
/// lists), so that editing a list does not rewrite its style. Nesting repeats
/// the marker, which is how AsciiDoc expresses depth.
pub fn to_asciidoc(list: &List, marker: char) -> (r: String)
    ensures
        r@ == list_text(outline(*list), marker),
{
    let mut lines: Vec<String> = Vec::new();
    let top = String::new();
    write(list, marker, &top, &mut lines);
    proof {
        reveal_strlit("\n");
        assert("\n"@ == source::newline());
        assert(text::texts(lines@) == list_lines(outline(*list), marker, 1));
    }
    join(&lines, "\n")
}

/// As many of `marker` as `above` has characters, and one more.
fn one_more(marker: char, above: &str) -> (r: String)
    ensures
        r@ == text::repeated(marker, above@.len() + 1),
{
    let mut out = repeat(marker, above.unicode_len());
    out.push(marker);
    assert(out@ == text::repeated(marker, above@.len() + 1));
    out
}

/// Writes the items of `list`, one level below the markers in `above`.
fn write(list: &List, marker: char, above: &str, lines: &mut Vec<String>)
    ensures
        text::texts(final(lines)@) == text::texts(old(lines)@) + list_lines(
            outline(*list),
            marker,
            above@.len() + 1,
        ),
    decreases list,
{
    let own = if list.ordered {
        '.'
    } else {
        marker
    };
    let markers = one_more(own, above);
    let ghost depth = above@.len() + 1;
    let ghost before = text::texts(lines@);
    let items = &list.items;
    let mut i: usize = 0;
    while i < items.len()
        invariant
            i <= items@.len(),
            items == list.items,
            depth == above@.len() + 1,
            markers@ == text::repeated(own, depth),
            text::texts(lines@) == before + entries_lines(
                entries(items@.take(i as int)),
                own,
                marker,
                depth,
            ),
        decreases items.len() - i,
    {
        let item = &items[i];
        let ghost now = text::texts(lines@);
        proof {
            assert(items@.take(i + 1).drop_last() == items@.take(i as int));
            let all = entries(items@.take(i + 1));
            assert(all.drop_last() == entries(items@.take(i as int)));
            assert(all.last() == entry(*item));
            assert(decreases_to!(list => list.items@[i as int]));
        }
        let content = crate::inline::to_asciidoc(&item.content);
        let words = trim(&content);
        if !(words.is_empty() && item.nested.is_none()) {
            let mut line = markers.clone();
            line.push(' ');
            line.append(words);
            proof {
                assert(line@ == item_line(words@, own, depth));
            }
            lines.push(line);
            assert(text::texts(lines@) == now + seq![item_line(words@, own, depth)]);
            if let Some(nested) = &item.nested {
                write(nested, marker, &markers, lines);
            }
        }
        proof {
            assert(text::texts(lines@) == now + entry_lines(entry(*item), own, marker, depth));
        }
        i += 1;
    }
    assert(items@.take(i as int) == items@);
}

// ---------------------------------------------------------------------
// Reading
// ---------------------------------------------------------------------

/// The list that a rendered `ul` or `ol` reads as.
pub open spec fn element_list(element: dom::ElementModel) -> Option<Outline>
    decreases element,
{
    if dom::is_called(element, "UL"@) {
        Some(Outline { ordered: false, items: items_read(element.children) })
    } else if dom::is_called(element, "OL"@) {
        Some(Outline { ordered: true, items: items_read(element.children) })
    } else {
        None
    }
}

/// The items in a run of nodes: its `li` elements.
pub open spec fn items_read(nodes: Seq<dom::NodeModel>) -> Seq<Entry>
    decreases nodes,
{
    if nodes.len() == 0 {
        Seq::empty()
    } else {
        items_read(nodes.drop_last()) + item_read(nodes.last())
    }
}

/// The item that a node is, if it is one: what it says, apart from the lists
/// in it, and the last of those lists.
pub open spec fn item_read(node: dom::NodeModel) -> Seq<Entry>
    decreases node,
{
    match node {
        dom::NodeModel::Element(element) => if dom::is_called(element, "LI"@) {
            seq![
                Entry {
                    content: words_read(element.children),
                    nested: last_list(element.children),
                },
            ]
        } else {
            Seq::empty()
        },
        _ => Seq::empty(),
    }
}

/// What the nodes that are no lists read as.
pub open spec fn words_read(nodes: Seq<dom::NodeModel>) -> Seq<Span>
    decreases nodes,
{
    if nodes.len() == 0 {
        Seq::empty()
    } else if node_list(nodes.last()) is Some {
        words_read(nodes.drop_last())
    } else {
        words_read(nodes.drop_last()) + crate::inline::node_read(nodes.last())
    }
}

/// The last list in a run of nodes.
pub open spec fn last_list(nodes: Seq<dom::NodeModel>) -> Option<Outline>
    decreases nodes,
{
    if nodes.len() == 0 {
        None
    } else {
        match node_list(nodes.last()) {
            Some(list) => Some(list),
            None => last_list(nodes.drop_last()),
        }
    }
}

/// The first list in a run of nodes.
pub open spec fn first_list(nodes: Seq<dom::NodeModel>) -> Option<Outline>
    decreases nodes,
{
    if nodes.len() == 0 {
        None
    } else {
        match first_list(nodes.drop_last()) {
            Some(list) => Some(list),
            None => node_list(nodes.last()),
        }
    }
}

/// The list that a node reads as, seeing through the wrapper the renderer puts
/// around one (`<div class="ulist"><ul>`).
pub open spec fn node_list(node: dom::NodeModel) -> Option<Outline>
    decreases node,
{
    match node {
        dom::NodeModel::Element(element) => if dom::is_called(element, "UL"@) || dom::is_called(
            element,
            "OL"@,
        ) {
            element_list(element)
        } else if dom::is_called(element, "DIV"@) {
            first_list(element.children)
        } else {
            None
        },
        _ => None,
    }
}

/// What a list that may be missing stands for.
pub open spec fn maybe_outline(list: Option<List>) -> Option<Outline> {
    match list {
        Some(list) => Some(outline(list)),
        None => None,
    }
}

/// Reads a rendered `ul` or `ol`.
pub fn from_element(element: &Element) -> (r: Option<List>)
    ensures
        maybe_outline(r) == element_list(dom::element_model(*element)),
    decreases element, 0int,
{
    let ordered = if dom::called(element, "UL") {
        false
    } else if dom::called(element, "OL") {
        proof {
            reveal_strlit("UL");
            reveal_strlit("OL");
            assert("UL"@[0] != "OL"@[0]);
        }
        true
    } else {
        return None;
    };
    let nodes = &element.children;
    let mut items: Vec<Item> = Vec::new();
    let mut i: usize = 0;
    while i < nodes.len()
        invariant
            i <= nodes@.len(),
            nodes == element.children,
            entries(items@) == items_read(dom::nodes_model(nodes@.take(i as int))),
        decreases nodes.len() - i,
    {
        let ghost before = items@;
        proof {
            assert(nodes@.take(i + 1).drop_last() == nodes@.take(i as int));
            let all = dom::nodes_model(nodes@.take(i + 1));
            assert(all.drop_last() == dom::nodes_model(nodes@.take(i as int)));
            assert(all.last() == dom::node_model(nodes@[i as int]));
            assert(decreases_to!(element => element.children@[i as int]));
        }
        if let Node::Element(child) = &nodes[i] {
            if dom::called(child, "LI") {
                let item = item_from_li(child);
                let ghost read = entry(item);
                items.push(item);
                assert(items@.drop_last() == before);
                assert(entries(items@) == entries(before) + seq![read]);
            }
        }
        assert(entries(items@) == entries(before) + item_read(
            dom::node_model(nodes@[i as int]),
        ));
        i += 1;
    }
    assert(nodes@.take(i as int) == nodes@);
    Some(List { ordered, items })
}

/// Reads a rendered item.
fn item_from_li(li: &Element) -> (r: Item)
    ensures
        entry(r) == (Entry {
            content: words_read(dom::element_model(*li).children),
            nested: last_list(dom::element_model(*li).children),
        }),
    decreases li, 0int,
{
    let nodes = &li.children;
    let mut content: Vec<Inline> = Vec::new();
    let mut nested: Option<List> = None;
    let mut i: usize = 0;
    while i < nodes.len()
        invariant
            i <= nodes@.len(),
            nodes == li.children,
            crate::inline::spans(content@) == words_read(
                dom::nodes_model(nodes@.take(i as int)),
            ),
            maybe_outline(nested) == last_list(dom::nodes_model(nodes@.take(i as int))),
        decreases nodes.len() - i,
    {
        proof {
            assert(nodes@.take(i + 1).drop_last() == nodes@.take(i as int));
            let all = dom::nodes_model(nodes@.take(i + 1));
            assert(all.drop_last() == dom::nodes_model(nodes@.take(i as int)));
            assert(all.last() == dom::node_model(nodes@[i as int]));
            assert(decreases_to!(li => li.children@[i as int]));
        }
        match as_list(&nodes[i]) {
            Some(list) => {
                nested = Some(list);
            },
            None => {
                crate::inline::collect(&nodes[i], &mut content);
            },
        }
        i += 1;
    }
    assert(nodes@.take(i as int) == nodes@);
    Item { content, nested }
}

/// Reads a node as a nested list, seeing through the wrapper the renderer puts
/// around one.
fn as_list(node: &Node) -> (r: Option<List>)
    ensures
        maybe_outline(r) == node_list(dom::node_model(*node)),
    decreases node, 0int,
{
    if let Node::Element(element) = node {
        if dom::called(element, "UL") || dom::called(element, "OL") {
            from_element(element)
        } else if dom::called(element, "DIV") {
            let nodes = &element.children;
            let mut i: usize = 0;
            while i < nodes.len()
                invariant
                    i <= nodes@.len(),
                    node == Node::Element(*element),
                    nodes == element.children,
                    !dom::is_called(dom::element_model(*element), "UL"@),
                    !dom::is_called(dom::element_model(*element), "OL"@),
                    dom::is_called(dom::element_model(*element), "DIV"@),
                    first_list(dom::nodes_model(nodes@.take(i as int))) is None,
                decreases nodes.len() - i,
            {
                proof {
                    assert(nodes@.take(i + 1).drop_last() == nodes@.take(i as int));
                    let all = dom::nodes_model(nodes@.take(i + 1));
                    assert(all.drop_last() == dom::nodes_model(nodes@.take(i as int)));
                    assert(all.last() == dom::node_model(nodes@[i as int]));
                    assert(decreases_to!(element => element.children@[i as int]));
                }
                if let Some(list) = as_list(&nodes[i]) {
                    proof {
                        lemma_first_list(nodes@, i + 1);
                    }
                    return Some(list);
                }
                i += 1;
            }
            assert(nodes@.take(i as int) == nodes@);
            None
        } else {
            None
        }
    } else {
        None
    }
}

/// What is the first list stays the first, whatever follows.
proof fn lemma_first_list(nodes: Seq<Node>, n: int)
    requires
        0 <= n <= nodes.len(),
        first_list(dom::nodes_model(nodes.take(n))) is Some,
    ensures
        first_list(dom::nodes_model(nodes)) == first_list(dom::nodes_model(nodes.take(n))),
    decreases nodes.len() - n,
{
    if n < nodes.len() {
        assert(nodes.take(n + 1).drop_last() == nodes.take(n));
        let all = dom::nodes_model(nodes.take(n + 1));
        assert(all.drop_last() == dom::nodes_model(nodes.take(n)));
        lemma_first_list(nodes, n + 1);
    } else {
        assert(nodes.take(n) == nodes);
    }
}

// ---------------------------------------------------------------------
// What the lines of a list are
// ---------------------------------------------------------------------

/// The lines of items one after another are those of each.
pub proof fn law_items_in_order(
    a: Seq<Entry>,
    b: Seq<Entry>,
    own: char,
    given: char,
    depth: nat,
)
    ensures
        entries_lines(a + b, own, given, depth) == entries_lines(a, own, given, depth)
            + entries_lines(b, own, given, depth),
    decreases b.len(),
{
    let first = entries_lines(a, own, given, depth);
    if b.len() == 0 {
        assert(a + b == a);
        assert(first + entries_lines(b, own, given, depth) == first);
    } else {
        law_items_in_order(a, b.drop_last(), own, given, depth);
        assert((a + b).drop_last() == a + b.drop_last());
        assert((a + b).last() == b.last());
        assert(entries_lines(a + b, own, given, depth) == first + entries_lines(
            b,
            own,
            given,
            depth,
        ));
    }
}

/// An item with nothing in it leaves no trace in what is written.
pub proof fn law_empty_items_are_skipped(
    a: Seq<Entry>,
    item: Entry,
    b: Seq<Entry>,
    own: char,
    given: char,
    depth: nat,
)
    requires
        item.nested is None,
        text::is_blank(crate::inline::written(item.content)),
    ensures
        entries_lines(a + seq![item] + b, own, given, depth) == entries_lines(
            a + b,
            own,
            given,
            depth,
        ),
{
    text::lemma_trimmed(crate::inline::written(item.content));
    let one = seq![item];
    assert(one.drop_last() == Seq::<Entry>::empty());
    assert(entries_lines(one.drop_last(), own, given, depth) == Seq::<Seq<char>>::empty());
    assert(entry_lines(item, own, given, depth) == Seq::<Seq<char>>::empty());
    assert(one.last() == item);
    assert(entries_lines(one, own, given, depth) == Seq::<Seq<char>>::empty());
    law_items_in_order(a, one, own, given, depth);
    law_items_in_order(a + one, b, own, given, depth);
    law_items_in_order(a, b, own, given, depth);
    let first = entries_lines(a, own, given, depth);
    assert(first + Seq::<Seq<char>>::empty() == first);
}

/// The line of an item that says something is read as an item of the depth it
/// was written at, by the marker it was written with, and says what it said.
pub proof fn law_item_line_read_back(words: Seq<char>, marker: char, depth: nat)
    requires
        source::is_marker_char(marker),
        depth > 0,
        words.len() > 0,
        text::trimmed(words) == words,
    ensures
        ({
            let line = item_line(words, marker, depth);
            &&& source::marker_of(line) == Some(text::repeated(marker, depth))
            &&& source::item_text(line) == words
        }),
{
    let line = item_line(words, marker, depth);
    let n = depth as int;
    text::lemma_trimmed(words);
    assert(!text::is_space(line[0]));
    assert(text::spaces_before(line) == 0);
    assert(text::trimmed_start(line) == line);
    let rest = line.skip(n);
    assert(rest == seq![' '] + words);
    assert(rest[1] == words[0]);
    assert(source::is_marker(line, n));
    source::lemma_marker_of(line, n);
    assert(line.take(n) == text::repeated(marker, depth));
    text::lemma_trimmed_padded(seq![' '], words, Seq::empty());
    assert(rest == seq![' '] + words + Seq::<char>::empty());
}

/// An item that is written: what marks it, how deep it sits, and what it says.
pub struct Told {
    pub marker: char,
    pub depth: nat,
    pub words: Seq<char>,
}

/// The items that are written of a list, each before those nested in it.
pub open spec fn told_in(list: Outline, given: char, depth: nat) -> Seq<Told>
    decreases list,
{
    told_among(list.items, marker_in(list, given), given, depth)
}

/// The items that are written of a run of items.
pub open spec fn told_among(items: Seq<Entry>, own: char, given: char, depth: nat) -> Seq<Told>
    decreases items,
{
    if items.len() == 0 {
        Seq::empty()
    } else {
        told_among(items.drop_last(), own, given, depth) + told_of(items.last(), own, given, depth)
    }
}

/// The items that are written of one item: itself, unless there is nothing in
/// it, and those nested in it.
pub open spec fn told_of(item: Entry, own: char, given: char, depth: nat) -> Seq<Told>
    decreases item,
{
    let first = Told { marker: own, depth, words: item_words(item) };
    match item.nested {
        Some(nested) => seq![first] + told_in(nested, given, depth + 1),
        None => if first.words.len() == 0 {
            Seq::empty()
        } else {
            seq![first]
        },
    }
}

/// The lines of items.
pub open spec fn told_lines(items: Seq<Told>) -> Seq<Seq<char>> {
    items.map_values(|item: Told| item_line(item.words, item.marker, item.depth))
}

proof fn lemma_told_lines(a: Seq<Told>, b: Seq<Told>)
    ensures
        told_lines(a + b) == told_lines(a) + told_lines(b),
{
}

/// The lines of a list are those of the items that are written.
proof fn lemma_told_in(list: Outline, given: char, depth: nat)
    ensures
        list_lines(list, given, depth) == told_lines(told_in(list, given, depth)),
    decreases list,
{
    lemma_told_among(list.items, marker_in(list, given), given, depth);
}

proof fn lemma_told_among(items: Seq<Entry>, own: char, given: char, depth: nat)
    ensures
        entries_lines(items, own, given, depth) == told_lines(
            told_among(items, own, given, depth),
        ),
    decreases items,
{
    if items.len() > 0 {
        lemma_told_among(items.drop_last(), own, given, depth);
        lemma_told_of(items.last(), own, given, depth);
        lemma_told_lines(
            told_among(items.drop_last(), own, given, depth),
            told_of(items.last(), own, given, depth),
        );
    }
}

proof fn lemma_told_of(item: Entry, own: char, given: char, depth: nat)
    ensures
        entry_lines(item, own, given, depth) == told_lines(told_of(item, own, given, depth)),
    decreases item,
{
    let first = Told { marker: own, depth, words: item_words(item) };
    assert(told_lines(seq![first]) == seq![item_line(first.words, own, depth)]);
    if let Some(nested) = item.nested {
        lemma_told_in(nested, given, depth + 1);
        lemma_told_lines(seq![first], told_in(nested, given, depth + 1));
    }
}

/// What holds of each item that is written of a list: it sits at the depth of
/// the list or deeper, and is marked with a dot or with the marker given.
pub open spec fn are_told(items: Seq<Told>, given: char, depth: nat) -> bool {
    forall|i: int|
        0 <= i < items.len() ==> {
            let item = #[trigger] items[i];
            &&& item.depth >= depth
            &&& item.marker == '.' || item.marker == given
            &&& text::trimmed(item.words) == item.words
        }
}

proof fn lemma_are_told_in(list: Outline, given: char, depth: nat)
    ensures
        are_told(told_in(list, given, depth), given, depth),
    decreases list,
{
    lemma_are_told_among(list.items, marker_in(list, given), given, depth);
}

proof fn lemma_are_told_among(items: Seq<Entry>, own: char, given: char, depth: nat)
    requires
        own == '.' || own == given,
    ensures
        are_told(told_among(items, own, given, depth), given, depth),
    decreases items,
{
    if items.len() > 0 {
        lemma_are_told_among(items.drop_last(), own, given, depth);
        lemma_are_told_of(items.last(), own, given, depth);
    }
}

proof fn lemma_are_told_of(item: Entry, own: char, given: char, depth: nat)
    requires
        own == '.' || own == given,
    ensures
        are_told(told_of(item, own, given, depth), given, depth),
    decreases item,
{
    text::lemma_trimmed_twice(crate::inline::written(item.content));
    if let Some(nested) = item.nested {
        lemma_are_told_in(nested, given, depth + 1);
    }
}

/// A list is written as one line per item that is written, each before those
/// nested in it; each line is read back as an item by the marker it was written
/// with and at the depth it has, and says what the item says. An item that has
/// others nested in it says something, and what an item says is one line.
pub proof fn law_list_read_back(list: Outline, given: char)
    requires
        source::is_marker_char(given),
        forall|i: int|
            0 <= i < told_in(list, given, 1).len() ==> {
                let item = #[trigger] told_in(list, given, 1)[i];
                item.words.len() > 0 && text::free_of(item.words, '\n')
            },
    ensures
        ({
            let told = told_in(list, given, 1);
            let lines = text::lines_of(list_text(list, given));
            &&& lines == told_lines(told)
            &&& told.len() > 0 ==> text::pieces(list_text(list, given), '\n') == lines
            &&& told.len() == 0 ==> list_text(list, given).len() == 0
            &&& forall|i: int|
                0 <= i < told.len() ==> {
                    let item = #[trigger] told[i];
                    &&& source::marker_of(lines[i]) == Some(
                        text::repeated(item.marker, item.depth),
                    )
                    &&& source::item_text(lines[i]) == item.words
                }
        }),
{
    let told = told_in(list, given, 1);
    let lines = told_lines(told);
    lemma_told_in(list, given, 1);
    lemma_are_told_in(list, given, 1);
    assert forall|i: int| 0 <= i < told.len() implies {
        let item = #[trigger] told[i];
        &&& source::marker_of(lines[i]) == Some(text::repeated(item.marker, item.depth))
        &&& source::item_text(lines[i]) == item.words
        &&& text::is_line(lines[i])
    } by {
        let item = told[i];
        law_item_line_read_back(item.words, item.marker, item.depth);
        text::lemma_trimmed(item.words);
        assert(lines[i] == item_line(item.words, item.marker, item.depth));
        assert(lines[i].last() == item.words.last());
    }
    assert forall|i: int| 0 <= i < lines.len() implies text::is_line(#[trigger] lines[i]) by {
        assert(told[i].words.len() > 0);
    }
    if lines.len() > 0 {
        assert(told[lines.len() - 1].words.len() > 0);
    }
    text::law_lines_read_back(lines);
    if lines.len() > 0 {
        text::law_joined_splits(lines, '\n');
    }
}

/// How many items a list holds, those nested in them too.
pub open spec fn items_in(list: Outline) -> nat
    decreases list,
{
    items_among(list.items)
}

pub open spec fn items_among(items: Seq<Entry>) -> nat
    decreases items,
{
    if items.len() == 0 {
        0
    } else {
        items_among(items.drop_last()) + items_at(items.last())
    }
}

pub open spec fn items_at(item: Entry) -> nat
    decreases item,
{
    match item.nested {
        Some(nested) => 1 + items_in(nested),
        None => 1,
    }
}

/// Whether every item of a list says something, those nested in them too.
pub open spec fn all_filled(list: Outline) -> bool
    decreases list,
{
    are_filled(list.items)
}

pub open spec fn are_filled(items: Seq<Entry>) -> bool
    decreases items,
{
    items.len() == 0 || (are_filled(items.drop_last()) && is_filled(items.last()))
}

pub open spec fn is_filled(item: Entry) -> bool
    decreases item,
{
    item_words(item).len() > 0 && match item.nested {
        Some(nested) => all_filled(nested),
        None => true,
    }
}

/// Where every item says something, every item has a line.
pub proof fn law_every_item_is_written(list: Outline, given: char, depth: nat)
    requires
        all_filled(list),
    ensures
        list_lines(list, given, depth).len() == items_in(list),
    decreases list,
{
    lemma_every_item_among(list.items, marker_in(list, given), given, depth);
}

proof fn lemma_every_item_among(items: Seq<Entry>, own: char, given: char, depth: nat)
    requires
        are_filled(items),
    ensures
        entries_lines(items, own, given, depth).len() == items_among(items),
    decreases items,
{
    if items.len() > 0 {
        lemma_every_item_among(items.drop_last(), own, given, depth);
        lemma_every_item_at(items.last(), own, given, depth);
    }
}

proof fn lemma_every_item_at(item: Entry, own: char, given: char, depth: nat)
    requires
        is_filled(item),
    ensures
        entry_lines(item, own, given, depth).len() == items_at(item),
    decreases item,
{
    if let Some(nested) = item.nested {
        law_every_item_is_written(nested, given, depth + 1);
    }
}

/// An item is written on one line: its marker once per level, a space, and what
/// it says. What is nested in it follows, one level deeper, by dots if the list
/// is numbered and by the marker given if it is not.
pub proof fn law_nested_items_sit_one_deeper(item: Entry, own: char, given: char, depth: nat)
    ensures
        ({
            let lines = entry_lines(item, own, given, depth);
            let words = text::trimmed(crate::inline::written(item.content));
            &&& item.nested is Some || words.len() > 0 ==> {
                &&& lines.len() > 0
                &&& lines[0].len() == depth + 1 + words.len()
                &&& forall|i: int| 0 <= i < depth ==> #[trigger] lines[0][i] == own
                &&& lines[0][depth as int] == ' '
                &&& lines[0].skip(depth as int + 1) == words
            }
            &&& match item.nested {
                Some(nested) => lines.skip(1) == entries_lines(
                    nested.items,
                    if nested.ordered {
                        '.'
                    } else {
                        given
                    },
                    given,
                    depth + 1,
                ),
                None => lines.len() == (if words.len() > 0 {
                    1nat
                } else {
                    0
                }),
            }
        }),
        entries_lines(Seq::empty(), own, given, depth).len() == 0,
        entries_lines(seq![item], own, given, depth) == entry_lines(item, own, given, depth),
{
    let lines = entry_lines(item, own, given, depth);
    let words = text::trimmed(crate::inline::written(item.content));
    if item.nested is Some || words.len() > 0 {
        assert(lines[0] == item_line(words, own, depth));
        assert(lines[0].skip(depth as int + 1) == words);
    }
    if let Some(nested) = item.nested {
        assert(lines.skip(1) == list_lines(nested, given, depth + 1));
    }
    let one = seq![item];
    assert(one.drop_last() == Seq::<Entry>::empty());
    assert(entries_lines(one, own, given, depth) == entries_lines(
        Seq::empty(),
        own,
        given,
        depth,
    ) + entry_lines(item, own, given, depth));
    assert(Seq::<Seq<char>>::empty() + lines == lines);
}

/// What a list is rendered as, with or without a wrapper around each list that
/// is nested in it.
pub open spec fn list_rendered(list: Outline, wrapped: bool) -> dom::ElementModel
    decreases list,
{
    dom::ElementModel {
        key: None,
        tag: if list.ordered {
            "ol"@
        } else {
            "ul"@
        },
        classes: Seq::empty(),
        line: None,
        href: None,
        children: items_rendered(list.items, wrapped),
    }
}

/// What items are rendered as, one after another.
pub open spec fn items_rendered(items: Seq<Entry>, wrapped: bool) -> Seq<dom::NodeModel>
    decreases items,
{
    if items.len() == 0 {
        Seq::empty()
    } else {
        items_rendered(items.drop_last(), wrapped).push(item_rendered(items.last(), wrapped))
    }
}

/// What an item is rendered as.
pub open spec fn item_rendered(item: Entry, wrapped: bool) -> dom::NodeModel
    decreases item,
{
    let words = crate::inline::rendered_all(item.content, false);
    crate::inline::element_of(
        "li"@,
        None,
        match item.nested {
            Some(nested) => {
                let inner = dom::NodeModel::Element(list_rendered(nested, wrapped));
                words.push(
                    if wrapped {
                        crate::inline::element_of("div"@, None, seq![inner])
                    } else {
                        inner
                    },
                )
            },
            None => words,
        },
    )
}

/// A list that is rendered is read back from its rendering: every item, what it
/// says, and the list nested in it, whether or not that is wrapped.
pub proof fn law_rendered_list_read_back(list: Outline, wrapped: bool)
    ensures
        element_list(list_rendered(list, wrapped)) == Some(list),
    decreases list,
{
    lemma_list_names();
    lemma_items_read_back(list.items, wrapped);
}

proof fn lemma_items_read_back(items: Seq<Entry>, wrapped: bool)
    ensures
        items_read(items_rendered(items, wrapped)) == items,
    decreases items,
{
    if items.len() > 0 {
        let all = items_rendered(items, wrapped);
        lemma_items_read_back(items.drop_last(), wrapped);
        lemma_item_read_back(items.last(), wrapped);
        assert(all.drop_last() == items_rendered(items.drop_last(), wrapped));
        assert(all.last() == item_rendered(items.last(), wrapped));
        assert(items.drop_last() + seq![items.last()] == items);
    }
}

proof fn lemma_item_read_back(item: Entry, wrapped: bool)
    ensures
        item_read(item_rendered(item, wrapped)) == seq![item],
    decreases item,
{
    lemma_list_names();
    let words = crate::inline::rendered_all(item.content, false);
    lemma_words_read_back(item.content);
    if let Some(nested) = item.nested {
        let inner = dom::NodeModel::Element(list_rendered(nested, wrapped));
        law_rendered_list_read_back(nested, wrapped);
        assert(node_list(inner) == Some(nested));
        let wrapper = crate::inline::element_of("div"@, None, seq![inner]);
        assert(seq![inner].drop_last() == Seq::<dom::NodeModel>::empty());
        assert(first_list(seq![inner].drop_last()) is None);
        assert(first_list(seq![inner]) == Some(nested));
        assert(node_list(wrapper) == Some(nested));
        let last = if wrapped {
            wrapper
        } else {
            inner
        };
        assert(words.push(last).drop_last() == words);
        assert(words_read(words.push(last)) == item.content);
        assert(last_list(words.push(last)) == Some(nested));
    }
}

/// What no list is rendered as reads as words.
proof fn lemma_words_read_back(spans: Seq<Span>)
    ensures
        words_read(crate::inline::rendered_all(spans, false)) == spans,
        last_list(crate::inline::rendered_all(spans, false)) is None,
    decreases spans.len(),
{
    if spans.len() > 0 {
        let all = crate::inline::rendered_all(spans, false);
        lemma_words_read_back(spans.drop_last());
        lemma_list_names();
        assert(all.drop_last() == crate::inline::rendered_all(spans.drop_last(), false));
        assert(all.last() == crate::inline::rendered(spans.last(), false));
        crate::inline::lemma_rendered_one(spans.last(), false);
        crate::inline::lemma_names();
        assert(node_list(all.last()) is None);
        assert(spans.drop_last() + seq![spans.last()] == spans);
    }
}

/// The names of lists and items in upper case.
proof fn lemma_list_names()
    ensures
        text::uppercased("ul"@) == "UL"@,
        text::uppercased("ol"@) == "OL"@,
        text::uppercased("li"@) == "LI"@,
        text::uppercased("div"@) == "DIV"@,
        "UL"@ != "OL"@ && "DIV"@ != "UL"@ && "DIV"@ != "OL"@,
        "STRONG"@ != "UL"@ && "STRONG"@ != "OL"@ && "STRONG"@ != "DIV"@,
        "EM"@ != "UL"@ && "EM"@ != "OL"@ && "EM"@ != "DIV"@,
        "CODE"@ != "UL"@ && "CODE"@ != "OL"@ && "CODE"@ != "DIV"@,
        "A"@ != "UL"@ && "A"@ != "OL"@ && "A"@ != "DIV"@,
        "BR"@ != "UL"@ && "BR"@ != "OL"@ && "BR"@ != "DIV"@,
{
    reveal_strlit("ul");
    reveal_strlit("UL");
    reveal_strlit("ol");
    reveal_strlit("OL");
    reveal_strlit("li");
    reveal_strlit("LI");
    reveal_strlit("div");
    reveal_strlit("DIV");
    reveal_strlit("STRONG");
    reveal_strlit("EM");
    reveal_strlit("CODE");
    reveal_strlit("A");
    reveal_strlit("BR");
    assert(text::uppercased("ul"@) =~= "UL"@);
    assert(text::uppercased("ol"@) =~= "OL"@);
    assert(text::uppercased("li"@) =~= "LI"@);
    assert(text::uppercased("div"@) =~= "DIV"@);
    assert("UL"@[0] == 'U' && "OL"@[0] == 'O' && "EM"@[0] == 'E' && "BR"@[0] == 'B');
    assert("UL"@.len() == 2 && "OL"@.len() == 2 && "DIV"@.len() == 3 && "STRONG"@.len() == 6
        && "CODE"@.len() == 4 && "A"@.len() == 1);
}

/// What is not an item of a list is passed over, and of several lists in one
/// item the last counts, while every one of them is left out of what the item
/// says.
pub proof fn law_lists_in_items(
    before: Seq<dom::NodeModel>,
    node: dom::NodeModel,
)
    ensures
        node_list(node) is Some ==> last_list(before.push(node)) == node_list(node) && words_read(
            before.push(node),
        ) == words_read(before),
        node_list(node) is None ==> last_list(before.push(node)) == last_list(before)
            && words_read(before.push(node)) == words_read(before) + crate::inline::node_read(node),
        first_list(before) is Some ==> first_list(before.push(node)) == first_list(before),
        first_list(before) is None ==> first_list(before.push(node)) == node_list(node),
        node matches dom::NodeModel::Element(e) ==> {
            let name = text::uppercased(e.tag);
            &&& name == "LI"@ ==> items_read(before.push(node)).drop_last() == items_read(before)
                && items_read(before.push(node)).last() == (Entry {
                content: words_read(e.children),
                nested: last_list(e.children),
            })
            &&& name != "LI"@ ==> items_read(before.push(node)) == items_read(before)
            &&& name != "UL"@ && name != "OL"@ ==> element_list(e) is None
            &&& name == "DIV"@ ==> node_list(node) == first_list(e.children)
            &&& name != "UL"@ && name != "OL"@ && name != "DIV"@ ==> node_list(node) is None
        },
        !(node is Element) ==> items_read(before.push(node)) == items_read(before) && node_list(
            node,
        ) is None,
{
    lemma_list_names();
    assert(before.push(node).drop_last() == before);
    assert(before.push(node).last() == node);
    let made = items_read(before) + item_read(node);
    if let dom::NodeModel::Element(e) = node {
        if text::uppercased(e.tag) == "LI"@ {
            assert(made.drop_last() == items_read(before));
        } else {
            assert(made == items_read(before));
        }
    } else {
        assert(made == items_read(before));
    }
}

} // verus!
