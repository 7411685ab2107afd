//! What the marks on a rendered document promise.
//!
//! An element is marked as editable only if what would be written back for it
//! is what the source has on the lines that are recorded for it. Anything else
//! is left alone, or refused.
use vstd::prelude::*;

use crate::dom;
use crate::dom::{ElementModel, NodeModel};
use crate::edits;
use crate::marking;
use crate::marking::Outcome;
use crate::number;
use crate::page;
use crate::page::{MarkModel, Pass, SpotModel, Sought};
use crate::source;
use crate::source::LineRange;
use crate::table;
use crate::text;
use crate::wysiwyg;
use crate::wysiwyg::{Kind, Marks};

verus! {

// ---------------------------------------------------------------------
// Elements of a document
// ---------------------------------------------------------------------

/// Whether `element` is in a run of nodes.
pub open spec fn is_among(nodes: Seq<NodeModel>, element: ElementModel) -> bool
    decreases nodes,
{
    nodes.len() > 0 && (is_among(nodes.drop_last(), element) || is_at(nodes.last(), element))
}

/// Whether `element` is at a node or below it.
pub open spec fn is_at(node: NodeModel, element: ElementModel) -> bool
    decreases node,
{
    match node {
        NodeModel::Element(e) => e == element || is_among(e.children, element),
        _ => false,
    }
}

/// What is in an element is in what the element is in.
proof fn lemma_deeper(nodes: Seq<NodeModel>, outer: ElementModel, element: ElementModel)
    requires
        is_among(nodes, outer),
        is_among(outer.children, element),
    ensures
        is_among(nodes, element),
    decreases nodes,
{
    if is_among(nodes.drop_last(), outer) {
        lemma_deeper(nodes.drop_last(), outer, element);
    } else {
        lemma_deeper_at(nodes.last(), outer, element);
    }
}

proof fn lemma_deeper_at(node: NodeModel, outer: ElementModel, element: ElementModel)
    requires
        is_at(node, outer),
        is_among(outer.children, element),
    ensures
        is_at(node, element),
    decreases node,
{
    if let NodeModel::Element(e) = node {
        if e != outer {
            lemma_deeper(e.children, outer, element);
        }
    }
}

/// Elements that are found by their name are in the nodes they are found in.
proof fn lemma_named_among(nodes: Seq<NodeModel>, a: Seq<char>, b: Seq<char>, i: int)
    requires
        0 <= i < dom::named(nodes, a, b).len(),
    ensures
        is_among(nodes, dom::named(nodes, a, b)[i]),
        dom::is_called(dom::named(nodes, a, b)[i], a) || dom::is_called(
            dom::named(nodes, a, b)[i],
            b,
        ),
    decreases nodes,
{
    let before = dom::named(nodes.drop_last(), a, b);
    if i < before.len() {
        lemma_named_among(nodes.drop_last(), a, b, i);
    } else {
        lemma_named_at(nodes.last(), a, b, i - before.len());
    }
}

proof fn lemma_named_at(node: NodeModel, a: Seq<char>, b: Seq<char>, i: int)
    requires
        0 <= i < dom::named_at(node, a, b).len(),
    ensures
        is_at(node, dom::named_at(node, a, b)[i]),
        dom::is_called(dom::named_at(node, a, b)[i], a) || dom::is_called(
            dom::named_at(node, a, b)[i],
            b,
        ),
    decreases node,
{
    if let NodeModel::Element(e) = node {
        if dom::is_called(e, a) || dom::is_called(e, b) {
            if i > 0 {
                lemma_named_among(e.children, a, b, i - 1);
            }
        } else {
            lemma_named_among(e.children, a, b, i);
        }
    }
}

/// The places in a run of nodes are those of the elements in it.
proof fn lemma_spots_among(nodes: Seq<NodeModel>, above: Seq<ElementModel>, i: int)
    requires
        0 <= i < page::spots_among(nodes, above).len(),
    ensures
        is_among(nodes, page::spots_among(nodes, above)[i].element),
    decreases nodes,
{
    let before = page::spots_among(nodes.drop_last(), above);
    if i < before.len() {
        lemma_spots_among(nodes.drop_last(), above, i);
    } else {
        lemma_spots_at(nodes.last(), above, i - before.len());
    }
}

proof fn lemma_spots_at(node: NodeModel, above: Seq<ElementModel>, i: int)
    requires
        0 <= i < page::spots_at(node, above).len(),
    ensures
        is_at(node, page::spots_at(node, above)[i].element),
    decreases node,
{
    if let NodeModel::Element(e) = node {
        if i > 0 {
            lemma_spots_among(e.children, above.push(e), i - 1);
        }
    }
}

/// What is looked for is found at one of the places.
proof fn lemma_sought_among(spots: Seq<SpotModel>, sought: Sought)
    requires
        page::first_sought(spots, sought) is Some,
    ensures
        exists|i: int|
            0 <= i < spots.len() && #[trigger] spots[i] == page::first_sought(spots, sought)->0,
        page::is_sought(sought, page::first_sought(spots, sought)->0),
    decreases spots.len(),
{
    let before = spots.drop_last();
    if page::first_sought(before, sought) is Some {
        lemma_sought_among(before, sought);
        let i = choose|i: int|
            0 <= i < before.len() && #[trigger] before[i] == page::first_sought(before, sought)->0;
        assert(spots[i] == before[i]);
    } else {
        assert(spots[spots.len() - 1] == spots.last());
    }
}

/// What is looked for below a place is in the element there.
proof fn lemma_sought_below(spot: SpotModel, sought: Sought)
    requires
        page::first_sought(page::spots_below(spot), sought) is Some,
    ensures
        is_among(
            spot.element.children,
            page::first_sought(page::spots_below(spot), sought)->0.element,
        ),
        page::is_sought(sought, page::first_sought(page::spots_below(spot), sought)->0),
{
    let spots = page::spots_below(spot);
    lemma_sought_among(spots, sought);
    let i = choose|i: int|
        0 <= i < spots.len() && #[trigger] spots[i] == page::first_sought(spots, sought)->0;
    lemma_spots_among(spot.element.children, spot.above.push(spot.element), i);
}

/// A child is in the nodes it is one of.
proof fn lemma_child_among(nodes: Seq<NodeModel>, class: Seq<char>)
    requires
        page::child_classed(nodes, class) is Some,
    ensures
        is_among(nodes, page::child_classed(nodes, class)->0),
        dom::is_classed(page::child_classed(nodes, class)->0, class),
    decreases nodes.len(),
{
    if page::child_classed(nodes.drop_last(), class) is Some {
        lemma_child_among(nodes.drop_last(), class);
    } else {
        assert(is_at(nodes.last(), page::child_classed(nodes, class)->0));
    }
}

// ---------------------------------------------------------------------
// What would be written back for an element
// ---------------------------------------------------------------------

/// What an editable element is, with what is recorded of it besides its lines.
pub enum Origin {
    Paragraph,
    List { marker: Seq<char> },
    Heading { level: usize },
    /// A title, after the text that the renderer put in front.
    Title { prefix: Seq<char> },
    /// The cell of an admonition, without the label that the source leads with.
    Admonition { lead: Seq<char> },
    /// An attribution, after the text that the renderer put in front.
    Attribution { style: Seq<char>, prefix: Seq<char> },
    /// A cell of the table `t`.
    Cell { t: ElementModel, shape: Seq<char>, fixed: bool },
}

/// Whether `element` is a cell of the table `t`.
pub open spec fn is_cell_of(t: ElementModel, element: ElementModel) -> bool {
    exists|r: int, k: int|
        0 <= r < table::rows_in(t).len() && 0 <= k < table::cells_in(table::rows_in(t)[r]).len()
            && #[trigger] table::cells_in(table::rows_in(t)[r])[k] == element
}

/// Whether `lead` is what an inline admonition can start with.
pub open spec fn is_a_lead(lead: Seq<char>) -> bool {
    exists|i: int| 0 <= i < 5 && lead == #[trigger] source::lead_text(i)
}

/// Whether an element of a document can be what `origin` says.
pub open spec fn fits(origin: Origin, nodes: Seq<NodeModel>, element: ElementModel) -> bool {
    match origin {
        Origin::Paragraph => dom::is_called(element, "P"@),
        Origin::List { marker } => marker.len() > 0 && (dom::is_called(element, "UL"@)
            || dom::is_called(element, "OL"@)),
        Origin::Heading { level } => 1 <= level <= 6 && dom::is_called(
            element,
            page::HEADING_TAGS[level - 1]@,
        ),
        Origin::Title { prefix } => dom::is_classed(element, "title"@),
        Origin::Admonition { lead } => page::is_content_cell(element) && is_a_lead(lead),
        Origin::Attribution { style, prefix } => dom::is_classed(element, "attribution"@)
            && wysiwyg::is_attributed(style),
        Origin::Cell { t, shape, fixed } => is_among(nodes, t) && dom::is_called(t, "TABLE"@)
            && is_cell_of(t, element),
    }
}

/// What would be written back for an element, as it is.
pub open spec fn written_back(origin: Origin, element: ElementModel) -> Seq<char> {
    let inline = wysiwyg::inline_text(element);
    match origin {
        Origin::Paragraph => inline,
        Origin::List { marker } => wysiwyg::list_or_inline_text(element, marker[0]),
        Origin::Heading { level } => source::headed(inline, Some(level)),
        Origin::Title { prefix } => source::title_of(
            wysiwyg::without_prefix(marking::whole_text(element), prefix),
        ),
        Origin::Admonition { lead } => marking::admonition_text(
            lead,
            inline,
            page::held_words(page::child_classed(element.children, "title"@)),
        ),
        Origin::Attribution { style, prefix } => source::attributed(
            style,
            wysiwyg::without_prefix(marking::whole_text(element), prefix),
        ),
        Origin::Cell { t, shape, fixed } => wysiwyg::table_text(t, shape),
    }
}

/// Whether the mark numbered `i` sets the attribute `name` of the element known
/// by `key` to `value`.
pub open spec fn is_set(
    marks: Seq<MarkModel>,
    i: int,
    key: Option<usize>,
    name: Seq<char>,
    value: Seq<char>,
) -> bool {
    0 <= i < marks.len() && marks[i] == (MarkModel { key, name, value })
}

/// Whether what `origin` says is recorded around the mark numbered `i`, which
/// makes the element known by `key` editable.
pub open spec fn is_recorded(
    origin: Origin,
    marks: Seq<MarkModel>,
    i: int,
    key: Option<usize>,
) -> bool {
    match origin {
        Origin::Paragraph => true,
        Origin::List { marker } => is_set(marks, i - 1, key, wysiwyg::MARKER@, marker),
        Origin::Heading { level } => is_set(
            marks,
            i + 3,
            key,
            wysiwyg::LEVEL@,
            number::decimal(level as nat),
        ),
        Origin::Title { prefix } => {
            &&& is_set(marks, i + 3, key, wysiwyg::TITLE@, "true"@)
            &&& prefix.len() > 0 ==> is_set(marks, i - 1, key, wysiwyg::PREFIX@, prefix)
        },
        Origin::Admonition { lead } => is_set(marks, i - 1, key, wysiwyg::LEAD@, lead),
        Origin::Attribution { style, prefix } => {
            &&& is_set(marks, i - 1, key, wysiwyg::ATTRIBUTION@, style)
            &&& prefix.len() > 0 ==> is_set(marks, i - 2, key, wysiwyg::PREFIX@, prefix)
        },
        Origin::Cell { t, shape, fixed } => if fixed {
            &&& is_set(marks, i - 2, key, wysiwyg::SHAPE@, shape)
            &&& is_set(marks, i - 1, key, wysiwyg::FIXED@, "true"@)
        } else {
            is_set(marks, i - 1, key, wysiwyg::SHAPE@, shape)
        },
    }
}

/// Whether `element` is an element of the document, known by `key`, for which
/// exactly the text of the lines in `range` would be written back, but for white
/// space at the end.
pub open spec fn is_backed(
    key: Option<usize>,
    nodes: Seq<NodeModel>,
    element: ElementModel,
    origin: Origin,
    range: LineRange,
    src: Seq<char>,
) -> bool {
    &&& element.key == key
    &&& is_among(nodes, element)
    &&& fits(origin, nodes, element)
    &&& written_back(origin, element) == text::trimmed_end(marking::range_text(src, range))
}

/// Whether the mark numbered `i` makes an element editable that is backed by
/// the lines that are recorded right after, as what is recorded around.
pub open spec fn is_sound_at(
    marks: Seq<MarkModel>,
    i: int,
    nodes: Seq<NodeModel>,
    src: Seq<char>,
) -> bool {
    let key = marks[i].key;
    exists|element: ElementModel, origin: Origin, range: LineRange| #[trigger]
        is_backed(key, nodes, element, origin, range, src) && is_recorded(origin, marks, i, key)
            && is_set(marks, i + 1, key, wysiwyg::LINE@, number::decimal(range.start as nat))
            && is_set(marks, i + 2, key, wysiwyg::END@, number::decimal(range.end as nat))
}

/// Whether each mark that makes an element editable is backed by the source.
pub open spec fn are_sound(
    marks: Seq<MarkModel>,
    nodes: Seq<NodeModel>,
    src: Seq<char>,
) -> bool {
    forall|i: int|
        0 <= i < marks.len() && (#[trigger] marks[i]).name == "contenteditable"@ ==> is_sound_at(
            marks,
            i,
            nodes,
            src,
        )
}

proof fn lemma_sound_shifted(
    marks: Seq<MarkModel>,
    all: Seq<MarkModel>,
    by: int,
    i: int,
    nodes: Seq<NodeModel>,
    src: Seq<char>,
)
    requires
        0 <= i < marks.len(),
        0 <= by,
        by + marks.len() <= all.len(),
        forall|j: int| 0 <= j < marks.len() ==> #[trigger] marks[j] == all[j + by],
        is_sound_at(marks, i, nodes, src),
    ensures
        is_sound_at(all, i + by, nodes, src),
{
    let key = marks[i].key;
    let (element, origin, range) = choose|element: ElementModel, origin: Origin, range: LineRange|
     #[trigger]
        is_backed(key, nodes, element, origin, range, src) && is_recorded(origin, marks, i, key)
            && is_set(marks, i + 1, key, wysiwyg::LINE@, number::decimal(range.start as nat))
            && is_set(marks, i + 2, key, wysiwyg::END@, number::decimal(range.end as nat));
    assert(all[i + by].key == key);
    assert(is_set(all, i + by + 1, key, wysiwyg::LINE@, number::decimal(range.start as nat)));
    assert(is_set(all, i + by + 2, key, wysiwyg::END@, number::decimal(range.end as nat)));
    assert(is_recorded(origin, all, i + by, key));
    assert(is_backed(key, nodes, element, origin, range, src));
}

proof fn lemma_sound_in_order(
    a: Seq<MarkModel>,
    b: Seq<MarkModel>,
    nodes: Seq<NodeModel>,
    src: Seq<char>,
)
    requires
        are_sound(a, nodes, src),
        are_sound(b, nodes, src),
    ensures
        are_sound(a + b, nodes, src),
{
    let all = a + b;
    assert forall|i: int|
        0 <= i < all.len() && (#[trigger] all[i]).name == "contenteditable"@ implies is_sound_at(
        all,
        i,
        nodes,
        src,
    ) by {
        if i < a.len() {
            assert(all[i] == a[i]);
            lemma_sound_shifted(a, all, 0, i, nodes, src);
        } else {
            let k = i - a.len();
            assert(all[i] == b[k]);
            lemma_sound_shifted(b, all, a.len() as int, k, nodes, src);
        }
    }
}

/// The names of the other attributes.
proof fn lemma_other_names()
    ensures
        "title"@ != "contenteditable"@,
        "tabindex"@ != "contenteditable"@,
        wysiwyg::LINE@ != "contenteditable"@,
        wysiwyg::END@ != "contenteditable"@,
        wysiwyg::LEVEL@ != "contenteditable"@,
        wysiwyg::MARKER@ != "contenteditable"@,
        wysiwyg::TITLE@ != "contenteditable"@,
        wysiwyg::ATTRIBUTION@ != "contenteditable"@,
        wysiwyg::PREFIX@ != "contenteditable"@,
        wysiwyg::LEAD@ != "contenteditable"@,
        wysiwyg::SHAPE@ != "contenteditable"@,
        wysiwyg::IMAGE@ != "contenteditable"@,
        wysiwyg::IMAGE_ALT@ != "contenteditable"@,
        wysiwyg::FIXED@ != "contenteditable"@,
{
    reveal_strlit("contenteditable");
    reveal_strlit("title");
    reveal_strlit("tabindex");
    reveal_strlit("data-edit-line");
    reveal_strlit("data-edit-end");
    reveal_strlit("data-edit-level");
    reveal_strlit("data-edit-marker");
    reveal_strlit("data-edit-title");
    reveal_strlit("data-edit-attribution");
    reveal_strlit("data-edit-prefix");
    reveal_strlit("data-edit-lead");
    reveal_strlit("data-edit-shape");
    reveal_strlit("data-edit-image");
    reveal_strlit("data-edit-image-alt");
    reveal_strlit("data-edit-fixed-columns");
    assert("contenteditable"@[0] == 'c');
}

/// Marks that make no element editable.
spec fn are_other(marks: Seq<MarkModel>) -> bool {
    forall|i: int| 0 <= i < marks.len() ==> (#[trigger] marks[i]).name != "contenteditable"@
}

/// What makes an element editable is sound, after what is recorded before, if
/// the source backs it.
proof fn lemma_sound_editable(
    nodes: Seq<NodeModel>,
    element: ElementModel,
    origin: Origin,
    before: Seq<MarkModel>,
    range: LineRange,
    kind: Kind,
    src: Seq<char>,
)
    requires
        is_backed(element.key, nodes, element, origin, range, src),
        are_other(before),
        is_recorded(
            origin,
            before + page::keyed(element.key, marking::editable_marks(range, kind)),
            before.len() as int,
            element.key,
        ),
    ensures
        are_sound(
            before + page::keyed(element.key, marking::editable_marks(range, kind)),
            nodes,
            src,
        ),
{
    let own = page::keyed(element.key, marking::editable_marks(range, kind));
    let marks = before + own;
    let n = before.len() as int;
    let key = element.key;
    lemma_other_names();
    assert(marks[n] == own[0]);
    assert(marks[n + 1] == own[1]);
    assert(marks[n + 2] == own[2]);
    assert(is_set(marks, n + 1, key, wysiwyg::LINE@, number::decimal(range.start as nat)));
    assert(is_set(marks, n + 2, key, wysiwyg::END@, number::decimal(range.end as nat)));
    assert(is_sound_at(marks, n, nodes, src));
    assert forall|i: int|
        0 <= i < marks.len() && (#[trigger] marks[i]).name == "contenteditable"@ implies is_sound_at(
        marks,
        i,
        nodes,
        src,
    ) by {
        if i < n {
            assert(marks[i] == before[i]);
        } else if i > n {
            assert(marks[i] == own[i - n]);
        }
    }
}

/// What an element comes to is sound, if it is editable only when the source
/// backs it.
proof fn lemma_sound_outcome(
    nodes: Seq<NodeModel>,
    element: ElementModel,
    origin: Origin,
    before: Seq<MarkModel>,
    outcome: Outcome,
    range: LineRange,
    kind: Kind,
    src: Seq<char>,
)
    requires
        are_other(before),
        outcome == Outcome::Editable ==> {
            &&& is_backed(element.key, nodes, element, origin, range, src)
            &&& is_recorded(
                origin,
                before + page::keyed(element.key, marking::editable_marks(range, kind)),
                before.len() as int,
                element.key,
            )
        },
    ensures
        are_sound(
            before + page::outcome_marks(element.key, outcome, range, kind),
            nodes,
            src,
        ),
{
    lemma_other_names();
    if outcome == Outcome::Editable {
        lemma_sound_editable(nodes, element, origin, before, range, kind, src);
    } else {
        let own = page::outcome_marks(element.key, outcome, range, kind);
        let marks = before + own;
        assert forall|i: int| 0 <= i < marks.len() implies (#[trigger] marks[i]).name
            != "contenteditable"@ by {
            if i < before.len() {
                assert(marks[i] == before[i]);
            } else {
                assert(marks[i] == own[i - before.len()]);
            }
        }
    }
}

// ---------------------------------------------------------------------
// One kind of block after another
// ---------------------------------------------------------------------

/// The lines that places name, and those of the title, can be counted.
pub open spec fn is_countable(content: ElementModel, src: Seq<char>) -> bool {
    page::is_page_placed(content) && text::lines_of(src).len() <= usize::MAX
}

proof fn lemma_sound_paragraph(nodes: Seq<NodeModel>, block: ElementModel, src: Seq<char>)
    requires
        is_among(nodes, block),
    ensures
        are_sound(page::paragraph_marks(block, src), nodes, src),
{
    let found = dom::named(block.children, "P"@, "P"@);
    if page::line_in(block) is Some && found.len() > 0 && page::is_block(
        block,
        "paragraph"@,
        "paragraph"@,
    ) {
        let p = found[0];
        let range = page::paragraph_at(src, page::line_in(block)->0 as int);
        let outcome = marking::outcome_of(
            wysiwyg::inline_text(p),
            marking::range_text(src, range),
        );
        let none = Seq::<MarkModel>::empty();
        lemma_named_among(block.children, "P"@, "P"@, 0);
        lemma_deeper(nodes, block, p);
        lemma_sound_outcome(nodes, p, Origin::Paragraph, none, outcome, range, Kind::Body, src);
        let own = page::outcome_marks(p.key, outcome, range, Kind::Body);
        assert(none + own == own);
    }
}

/// A heading that is editable is backed by its line.
proof fn lemma_sound_headed(
    nodes: Seq<NodeModel>,
    element: ElementModel,
    level: usize,
    line: usize,
    src: Seq<char>,
)
    requires
        is_among(nodes, element),
        1 <= level <= 6,
        1 <= line,
        dom::is_called(element, page::HEADING_TAGS[level - 1]@),
    ensures
        ({
            let title = source::line_at(src, line as int);
            are_sound(
                page::outcome_marks(
                    element.key,
                    marking::heading_outcome(wysiwyg::inline_text(element), title, level),
                    LineRange { start: line, end: line },
                    Kind::Heading(level),
                ),
                nodes,
                src,
            )
        }),
{
    let title = source::line_at(src, line as int);
    let range = LineRange { start: line, end: line };
    let outcome = marking::heading_outcome(wysiwyg::inline_text(element), title, level);
    let none = Seq::<MarkModel>::empty();
    let kind = Kind::Heading(level);
    let origin = Origin::Heading { level };
    marking::lemma_single(src, line);
    let editable = page::keyed(element.key, marking::editable_marks(range, kind));
    assert(none + editable == editable);
    assert(is_set(
        none + editable,
        3,
        element.key,
        wysiwyg::LEVEL@,
        number::decimal(level as nat),
    ));
    lemma_sound_outcome(nodes, element, origin, none, outcome, range, kind, src);
    let own = page::outcome_marks(element.key, outcome, range, kind);
    assert(none + own == own);
}

proof fn lemma_sound_heading(
    nodes: Seq<NodeModel>,
    spot: SpotModel,
    level: usize,
    src: Seq<char>,
)
    requires
        is_among(nodes, spot.element),
        spot.above.len() > 0 ==> page::is_placed(spot.above.last()),
    ensures
        are_sound(page::heading_marks(spot, level, src), nodes, src),
{
    if 1 <= level <= 6 && spot.above.len() > 0 && dom::is_called(
        spot.element,
        page::HEADING_TAGS[level - 1]@,
    ) {
        if let Some(line) = page::line_in(spot.above.last()) {
            lemma_sound_headed(nodes, spot.element, level, line, src);
        }
    }
}

proof fn lemma_sound_list(nodes: Seq<NodeModel>, spot: SpotModel, src: Seq<char>)
    requires
        is_among(nodes, spot.element),
    ensures
        are_sound(page::list_marks(spot, src), nodes, src),
{
    let found = dom::named(spot.element.children, "UL"@, "OL"@);
    if page::line_in(spot.element) is Some && found.len() > 0 {
        let items = found[0];
        let start = page::line_in(spot.element)->0 as int;
        let at = page::list_at(src, start);
        if at is Some {
            let range = at->0;
            let first = source::line_at(src, range.start as int);
            let marker = source::marker_of(first)->0;
            let outcome = marking::outcome_of(
                wysiwyg::list_or_inline_text(items, marker[0]),
                marking::range_text(src, range),
            );
            assert(marking::is_list_range(src, start, range));
            assert(source::marker_of(first) is Some);
            source::lemma_marker_size(first);
            lemma_named_among(spot.element.children, "UL"@, "OL"@, 0);
            lemma_deeper(nodes, spot.element, items);
            lemma_other_names();
            let before = page::one(items.key, wysiwyg::MARKER@, marker);
            let editable = page::keyed(
                items.key,
                marking::editable_marks(range, Kind::Body),
            );
            assert(is_set(before + editable, 0, items.key, wysiwyg::MARKER@, marker));
            lemma_sound_outcome(
                nodes,
                items,
                Origin::List { marker },
                before,
                outcome,
                range,
                Kind::Body,
                src,
            );
        }
    }
}

proof fn lemma_sound_attribution(nodes: Seq<NodeModel>, block: ElementModel, src: Seq<char>)
    requires
        is_among(nodes, block),
        page::is_placed(block),
    ensures
        are_sound(page::attribution_marks(block, src), nodes, src),
{
    let child = page::child_classed(block.children, "attribution"@);
    lemma_other_names();
    if page::line_in(block) is Some && child is Some {
        let line = page::line_in(block)->0;
        let element = child->0;
        let found = source::line_at(src, line as int);
        lemma_child_among(block.children, "attribution"@);
        lemma_deeper(nodes, block, element);
        marking::lemma_single(src, line);
        if let Some((style, author)) = source::attribution_in(found) {
            let (i, read) = choose|i: int, read: Seq<char>| source::is_attribution(found, i, read);
            assert(source::is_attribution(found, i, read));
            assert(source::ATTRIBUTED[i]@ == style);
            let whole = marking::whole_text(element);
            let prefix = marking::generated(whole, author);
            let outcome = marking::attribution_outcome(whole, found, style, author);
            let range = LineRange { start: line, end: line };
            let first = page::prefix_marks(element.key, prefix);
            let second = page::one(element.key, wysiwyg::ATTRIBUTION@, style);
            let before = first + second;
            let marks = before + page::keyed(
                element.key,
                marking::editable_marks(range, Kind::Body),
            );
            let n = before.len() as int;
            assert(marks[n - 1] == second[0]);
            if prefix.len() > 0 {
                assert(marks[n - 2] == first[0]);
            }
            lemma_sound_outcome(
                nodes,
                element,
                Origin::Attribution { style, prefix },
                before,
                outcome,
                range,
                Kind::Body,
                src,
            );
        }
    }
}

proof fn lemma_sound_image(nodes: Seq<NodeModel>, block: ElementModel, src: Seq<char>)
    ensures
        are_sound(page::image_marks(block, src), nodes, src),
{
    lemma_other_names();
}

/// Whether what is written for the table `t`, in the layout that `shape`
/// records, is the text of the lines in `range`.
spec fn are_rows_backed(
    nodes: Seq<NodeModel>,
    t: ElementModel,
    range: LineRange,
    shape: Seq<char>,
    src: Seq<char>,
) -> bool {
    &&& is_among(nodes, t)
    &&& dom::is_called(t, "TABLE"@)
    &&& wysiwyg::table_text(t, shape) == text::trimmed_end(marking::range_text(src, range))
}

proof fn lemma_sound_cells(
    nodes: Seq<NodeModel>,
    t: ElementModel,
    r: int,
    n: int,
    range: LineRange,
    shape: Seq<char>,
    fixed: bool,
    src: Seq<char>,
)
    requires
        are_rows_backed(nodes, t, range, shape, src),
        0 <= r < table::rows_in(t).len(),
        0 <= n <= table::cells_in(table::rows_in(t)[r]).len(),
    ensures
        are_sound(
            page::cells_marks(
                table::cells_in(table::rows_in(t)[r]).take(n),
                range,
                shape,
                fixed,
            ),
            nodes,
            src,
        ),
    decreases n,
{
    let row = table::rows_in(t)[r];
    let cells = table::cells_in(row);
    if n > 0 {
        let cell = cells[n - 1];
        lemma_sound_cells(nodes, t, r, n - 1, range, shape, fixed, src);
        assert(cells.take(n).drop_last() == cells.take(n - 1));
        assert(cells.take(n).last() == cell);
        assert(is_cell_of(t, cell)) by {
            assert(table::cells_in(table::rows_in(t)[r])[n - 1] == cell);
        }
        lemma_named_among(t.children, "TR"@, "TR"@, r);
        lemma_named_among(row.children, "TH"@, "TD"@, n - 1);
        lemma_deeper(t.children, row, cell);
        lemma_deeper(nodes, t, cell);
        lemma_other_names();
        let kind = Kind::Table { fixed_columns: fixed };
        let first = page::one(cell.key, wysiwyg::SHAPE@, shape);
        let second = if fixed {
            page::one(cell.key, wysiwyg::FIXED@, "true"@)
        } else {
            Seq::empty()
        };
        let before = first + second;
        let marks = before + page::keyed(cell.key, marking::editable_marks(range, kind));
        assert(marks[0] == first[0]);
        if fixed {
            assert(marks[1] == second[0]);
        }
        lemma_sound_editable(
            nodes,
            cell,
            Origin::Cell { t, shape, fixed },
            before,
            range,
            kind,
            src,
        );
        lemma_sound_in_order(
            page::cells_marks(cells.take(n - 1), range, shape, fixed),
            page::cell_marks(cell.key, range, shape, fixed),
            nodes,
            src,
        );
    }
}

proof fn lemma_sound_rows(
    nodes: Seq<NodeModel>,
    t: ElementModel,
    n: int,
    range: LineRange,
    shape: Seq<char>,
    fixed: bool,
    src: Seq<char>,
)
    requires
        are_rows_backed(nodes, t, range, shape, src),
        0 <= n <= table::rows_in(t).len(),
    ensures
        are_sound(
            page::rows_marks(table::rows_in(t).take(n), range, shape, fixed),
            nodes,
            src,
        ),
    decreases n,
{
    let rows = table::rows_in(t);
    if n > 0 {
        let cells = table::cells_in(rows[n - 1]);
        lemma_sound_rows(nodes, t, n - 1, range, shape, fixed, src);
        assert(rows.take(n).drop_last() == rows.take(n - 1));
        assert(rows.take(n).last() == rows[n - 1]);
        lemma_sound_cells(nodes, t, n - 1, cells.len() as int, range, shape, fixed, src);
        assert(cells.take(cells.len() as int) == cells);
        lemma_sound_in_order(
            page::rows_marks(rows.take(n - 1), range, shape, fixed),
            page::cells_marks(cells, range, shape, fixed),
            nodes,
            src,
        );
    }
}

proof fn lemma_sound_table(nodes: Seq<NodeModel>, t: ElementModel, src: Seq<char>)
    requires
        is_among(nodes, t),
    ensures
        are_sound(page::table_marks(t, src), nodes, src),
{
    if let Some(line) = page::line_in(t) {
        if let Some(range) = page::rows_at(src, line as int) {
            let own = marking::range_text(src, range);
            if let Some((cells, shape)) = table::rows_read(text::lines_of(own)) {
                let layout = table::encoded(shape);
                if dom::is_called(t, "TABLE"@) && marking::outcome_of(
                    wysiwyg::table_text(t, layout),
                    own,
                ) == Outcome::Editable {
                    let rows = table::rows_in(t);
                    let fixed = marking::are_columns_fixed(src, line as int);
                    lemma_sound_rows(nodes, t, rows.len() as int, range, layout, fixed, src);
                    assert(rows.take(rows.len() as int) == rows);
                }
            }
        }
    }
}

proof fn lemma_sound_admonition(nodes: Seq<NodeModel>, spot: SpotModel, src: Seq<char>)
    requires
        is_among(nodes, spot.element),
    ensures
        are_sound(page::admonition_marks(spot, src), nodes, src),
{
    let body = page::first_sought(page::spots_below(spot), Sought::AdmonitionBody);
    lemma_other_names();
    if page::line_in(spot.element) is Some && body is Some {
        let line = page::line_in(spot.element)->0;
        let own = page::paragraph_at(src, line as int);
        let text = marking::range_text(src, own);
        let cell = body->0.element;
        lemma_sought_below(spot, Sought::AdmonitionBody);
        lemma_deeper(nodes, spot.element, cell);
        if let Some(lead) = page::lead_of(text) {
            assert(marking::is_lead(text, lead));
            assert(is_a_lead(lead));
            let title = page::child_classed(cell.children, "title"@);
            let above = own.start - 1;
            let titled = title is Some && marking::is_title_at(src, line as int, above);
            let range = LineRange {
                start: if titled {
                    above as usize
                } else {
                    own.start
                },
                end: own.end,
            };
            let outcome = marking::judged(
                wysiwyg::inline_text(cell),
                text.skip(lead.len() as int),
                marking::admonition_text(
                    lead,
                    wysiwyg::inline_text(cell),
                    page::held_words(title),
                ),
                marking::range_text(src, range),
            );
            let before = page::one(cell.key, wysiwyg::LEAD@, lead);
            let marks = before + page::keyed(
                cell.key,
                marking::editable_marks(range, Kind::Body),
            );
            assert(marks[0] == before[0]);
            lemma_sound_outcome(
                nodes,
                cell,
                Origin::Admonition { lead },
                before,
                outcome,
                range,
                Kind::Body,
                src,
            );
            assert(before + Seq::<MarkModel>::empty() == before);
        }
    }
}

proof fn lemma_sound_title(
    nodes: Seq<NodeModel>,
    spot: SpotModel,
    before: Seq<MarkModel>,
    src: Seq<char>,
)
    requires
        is_among(nodes, spot.element),
        page::is_placed(spot.element),
    ensures
        are_sound(page::title_marks(spot, before, src), nodes, src),
{
    let sought = Sought::Title { depth: spot.above.len() as usize };
    let found = page::first_sought(page::spots_below(spot), sought);
    lemma_other_names();
    if page::line_in(spot.element) is Some && found is Some {
        let line = page::line_in(spot.element)->0;
        let title = found->0.element;
        lemma_sought_below(spot, sought);
        lemma_deeper(nodes, spot.element, title);
        if let Some(n) = page::title_at(src, line as int) {
            assert(marking::is_title_at(src, line as int, n));
            let own = source::line_at(src, n);
            let whole = marking::whole_text(title);
            let prefix = marking::generated(whole, marking::title_words(own));
            let outcome = marking::title_outcome(whole, own);
            let range = LineRange { start: n as usize, end: n as usize };
            marking::lemma_single(src, n as usize);
            let first = page::prefix_marks(title.key, prefix);
            let second = page::keyed(title.key, marking::editable_marks(range, Kind::Title));
            let marks = first + second;
            assert(marks[first.len() as int + 3] == second[3]);
            if prefix.len() > 0 {
                assert(marks[0] == first[0]);
            }
            lemma_sound_outcome(
                nodes,
                title,
                Origin::Title { prefix },
                first,
                outcome,
                range,
                Kind::Title,
                src,
            );
        }
    }
}

proof fn lemma_sound_document_title(content: ElementModel, src: Seq<char>)
    requires
        is_countable(content, src),
    ensures
        are_sound(
            page::document_title_marks(page::spots_of(content), src),
            content.children,
            src,
        ),
{
    let spot = SpotModel { element: content, above: Seq::empty() };
    let found = page::first_sought(page::spots_of(content), Sought::DocumentTitle);
    if found is Some && exists|line: int| marking::is_title_line(src, line) {
        let title = found->0.element;
        let line = choose|line: int| marking::is_title_line(src, line);
        lemma_sought_below(spot, Sought::DocumentTitle);
        assert(marking::is_title_line(src, line));
        lemma_sound_headed(content.children, title, 1, line as usize, src);
    }
}

// ---------------------------------------------------------------------
// The whole document
// ---------------------------------------------------------------------

proof fn lemma_sound_pass(
    content: ElementModel,
    pass: Pass,
    n: int,
    before: Seq<MarkModel>,
    src: Seq<char>,
)
    requires
        is_countable(content, src),
        0 <= n <= page::spots_of(content).len(),
        are_sound(before, content.children, src),
    ensures
        are_sound(
            page::passed(pass, page::spots_of(content).take(n), before, src),
            content.children,
            src,
        ),
    decreases n,
{
    let spots = page::spots_of(content);
    let nodes = content.children;
    if n > 0 {
        let spot = spots[n - 1];
        lemma_sound_pass(content, pass, n - 1, before, src);
        assert(spots.take(n).drop_last() == spots.take(n - 1));
        assert(spots.take(n).last() == spot);
        lemma_spots_among(nodes, Seq::<ElementModel>::empty().push(content), n - 1);
        assert(page::is_spot_placed(spots[n - 1]));
        let so_far = page::passed(pass, spots.take(n - 1), before, src);
        match pass {
            Pass::Paragraphs => lemma_sound_paragraph(nodes, spot.element, src),
            Pass::Headings(level) => lemma_sound_heading(nodes, spot, level, src),
            Pass::Lists => lemma_sound_list(nodes, spot, src),
            Pass::Attributions => lemma_sound_attribution(nodes, spot.element, src),
            Pass::Images => lemma_sound_image(nodes, spot.element, src),
            Pass::Tables => lemma_sound_table(nodes, spot.element, src),
            Pass::Admonitions => lemma_sound_admonition(nodes, spot, src),
            Pass::Titles => lemma_sound_title(nodes, spot, so_far, src),
        }
        lemma_sound_in_order(so_far, page::marks_at(pass, spot, so_far, src), nodes, src);
    }
}

proof fn lemma_sound_passes(content: ElementModel, passes: Seq<Pass>, src: Seq<char>)
    requires
        is_countable(content, src),
    ensures
        are_sound(
            page::passed_all(passes, page::spots_of(content), src),
            content.children,
            src,
        ),
    decreases passes.len(),
{
    if passes.len() > 0 {
        let spots = page::spots_of(content);
        lemma_sound_passes(content, passes.drop_last(), src);
        lemma_sound_pass(
            content,
            passes.last(),
            spots.len() as int,
            page::passed_all(passes.drop_last(), spots, src),
            src,
        );
        assert(spots.take(spots.len() as int) == spots);
    }
}

/// An element of a rendered document is made editable only if it says what the
/// source has for it: what it says, written out, is what stands on the lines
/// that are recorded for it right after, but for white space at the end.
pub proof fn law_only_what_is_reproduced_is_editable(content: ElementModel, src: Seq<char>)
    requires
        is_countable(content, src),
    ensures
        are_sound(page::all_marks(content, src), content.children, src),
{
    let spots = page::spots_of(content);
    lemma_sound_passes(content, page::all_passes(), src);
    lemma_sound_document_title(content, src);
    lemma_sound_in_order(
        page::passed_all(page::all_passes(), spots, src),
        page::document_title_marks(spots, src),
        content.children,
        src,
    );
}

// ---------------------------------------------------------------------
// What the attributes of an element say
// ---------------------------------------------------------------------

/// Whether an attribute says `value`.
pub open spec fn says(attribute: Option<String>, value: Seq<char>) -> bool {
    attribute matches Some(text) && text@ == value
}

/// Whether an attribute says `value`, or is not there when that is nothing.
pub open spec fn says_if_any(attribute: Option<String>, value: Seq<char>) -> bool {
    if value.len() > 0 {
        says(attribute, value)
    } else {
        attribute is None
    }
}

/// Whether the attributes of an element say no more than that it is what
/// `origin` says, besides its lines.
pub open spec fn are_attributes(marks: Marks, origin: Origin) -> bool {
    &&& marks.title == (origin is Title)
    &&& marks.image is None
    &&& match origin {
        Origin::Title { prefix } => says_if_any(marks.prefix, prefix),
        Origin::Attribution { style, prefix } => says_if_any(marks.prefix, prefix),
        _ => true,
    }
    &&& match origin {
        Origin::Attribution { style, prefix } => says(marks.attribution, style),
        _ => marks.attribution is None,
    }
    &&& match origin {
        Origin::Cell { t, shape, fixed } => says(marks.shape, shape) && marks.fixed == fixed,
        _ => marks.shape is None,
    }
    &&& match origin {
        Origin::Admonition { lead } => says(marks.lead, lead),
        _ => marks.lead is None,
    }
    &&& match origin {
        Origin::List { marker } => says(marks.marker, marker),
        _ => marks.marker is None,
    }
    &&& match origin {
        Origin::Heading { level } => says(marks.level, number::decimal(level as nat)),
        _ => marks.level is None,
    }
}

/// The table that a cell is in.
pub open spec fn table_around(origin: Origin) -> Option<ElementModel> {
    match origin {
        Origin::Cell { t, shape, fixed } => Some(t),
        _ => None,
    }
}

/// What an edited element is written back as, going by its attributes, is what
/// would be written back for it, going by what it is.
pub proof fn law_written_by_its_attributes(
    origin: Origin,
    nodes: Seq<NodeModel>,
    element: ElementModel,
    marks: Marks,
    kind: Kind,
)
    requires
        fits(origin, nodes, element),
        are_attributes(marks, origin),
        wysiwyg::is_kind(element.tag, marks, kind),
    ensures
        edits::source_text(
            kind,
            marks,
            wysiwyg::block_text(element, marks, table_around(origin)),
            page::held_words(page::child_classed(element.children, "title"@)),
        ) == written_back(origin, element),
{
    reveal_strlit("UL");
    reveal_strlit("OL");
    reveal_strlit("P");
    reveal_strlit("TD");
    reveal_strlit("H1");
    reveal_strlit("H2");
    reveal_strlit("H3");
    reveal_strlit("H4");
    reveal_strlit("H5");
    reveal_strlit("H6");
    let name = text::uppercased(element.tag);
    assert(origin is Heading || origin is Paragraph || origin is Admonition
        ==> !wysiwyg::is_list_tag(element.tag)) by {
        match origin {
            Origin::Heading { level } => {
                assert(name[0] == 'H');
                assert("UL"@[0] == 'U');
                assert("OL"@[0] == 'O');
            },
            Origin::Paragraph => {
                assert(name.len() == 1);
                assert("UL"@.len() == 2);
                assert("OL"@.len() == 2);
            },
            Origin::Admonition { lead } => {
                assert(name[0] == 'T');
                assert("UL"@[0] == 'U');
                assert("OL"@[0] == 'O');
            },
            _ => {},
        }
    }
    match origin {
        Origin::Heading { level } => {
            number::law_number_read_back(level);
        },
        Origin::Admonition { lead } => {
            let i = choose|i: int| 0 <= i < 5 && lead == #[trigger] source::lead_text(i);
            assert(source::ADMONITIONS[i]@ =~= lead.take(source::ADMONITIONS[i]@.len() as int));
            assert(source::ADMONITIONS[i]@.is_prefix_of(lead));
            assert(wysiwyg::is_labelled(lead));
        },
        _ => {},
    }
}

/// Every element of a rendered document is looked at, whatever it is in.
pub proof fn law_every_element_is_looked_at(content: ElementModel, element: ElementModel)
    requires
        is_among(content.children, element),
    ensures
        exists|i: int|
            0 <= i < page::spots_of(content).len() && (#[trigger] page::spots_of(content)[i]).element
                == element,
{
    lemma_looked_at_among(content.children, Seq::<ElementModel>::empty().push(content), element);
    assert(page::spots_of(content) == page::spots_among(
        content.children,
        Seq::<ElementModel>::empty().push(content),
    ));
}

proof fn lemma_looked_at_among(
    nodes: Seq<NodeModel>,
    above: Seq<ElementModel>,
    element: ElementModel,
)
    requires
        is_among(nodes, element),
    ensures
        exists|i: int|
            0 <= i < page::spots_among(nodes, above).len() && (#[trigger] page::spots_among(
                nodes,
                above,
            )[i]).element == element,
    decreases nodes,
{
    let all = page::spots_among(nodes, above);
    let front = page::spots_among(nodes.drop_last(), above);
    let last = page::spots_at(nodes.last(), above);
    if is_among(nodes.drop_last(), element) {
        lemma_looked_at_among(nodes.drop_last(), above, element);
        let i = choose|i: int| 0 <= i < front.len() && (#[trigger] front[i]).element == element;
        assert(all[i] == front[i]);
    } else {
        lemma_looked_at(nodes.last(), above, element);
        let i = choose|i: int| 0 <= i < last.len() && (#[trigger] last[i]).element == element;
        assert(all[front.len() + i] == last[i]);
    }
}

proof fn lemma_looked_at(node: NodeModel, above: Seq<ElementModel>, element: ElementModel)
    requires
        is_at(node, element),
    ensures
        exists|i: int|
            0 <= i < page::spots_at(node, above).len() && (#[trigger] page::spots_at(
                node,
                above,
            )[i]).element == element,
    decreases node,
{
    if let NodeModel::Element(e) = node {
        let all = page::spots_at(node, above);
        if e == element {
            assert(all[0].element == element);
        } else {
            let below = page::spots_among(e.children, above.push(e));
            lemma_looked_at_among(e.children, above.push(e), element);
            let i = choose|i: int| 0 <= i < below.len() && (#[trigger] below[i]).element == element;
            assert(all[i + 1] == below[i]);
        }
    }
}

} // verus!
