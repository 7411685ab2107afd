//! Marking the blocks of a rendered document that can be edited.
//!
//! The document is looked through once for each kind of block, and each block
//! that is found is judged by what the source has for it. What comes out are
//! the attributes to be set, in order.
use vstd::prelude::*;

use crate::dom;
use crate::dom::{called, classed, find_named, Element, ElementModel, Node, NodeModel};
use crate::marking;
use crate::marking::{
    make_editable, offer_admonition, offer_attribution, offer_document_title, offer_heading,
    offer_image, offer_list, offer_paragraph, offer_table, offer_title, Outcome, REFUSED,
};
use crate::number;
use crate::number::write_number;
use crate::source;
use crate::source::LineRange;
use crate::table;
use crate::text;
use crate::wysiwyg;
use crate::wysiwyg::{attr, Kind};

verus! {

// ---------------------------------------------------------------------
// Places in the document
// ---------------------------------------------------------------------

/// An element of a rendered document, with the elements it is in, from the
/// outermost to its parent.
pub struct Spot<'a> {
    pub element: &'a Element,
    pub above: Vec<&'a Element>,
}

/// What a place in a rendered document stands for.
pub struct SpotModel {
    pub element: ElementModel,
    pub above: Seq<ElementModel>,
}

pub open spec fn spot_model(spot: Spot) -> SpotModel {
    SpotModel { element: dom::element_model(*spot.element), above: dom::models(spot.above@) }
}

/// What places stand for.
pub open spec fn spot_models(spots: Seq<Spot>) -> Seq<SpotModel> {
    spots.map_values(|spot: Spot| spot_model(spot))
}

/// The elements in a run of nodes, in reading order.
pub open spec fn spots_among(nodes: Seq<NodeModel>, above: Seq<ElementModel>) -> Seq<SpotModel>
    decreases nodes,
{
    if nodes.len() == 0 {
        Seq::empty()
    } else {
        spots_among(nodes.drop_last(), above) + spots_at(nodes.last(), above)
    }
}

/// The elements at a node and below it, in reading order.
pub open spec fn spots_at(node: NodeModel, above: Seq<ElementModel>) -> Seq<SpotModel>
    decreases node,
{
    match node {
        NodeModel::Element(element) => seq![SpotModel { element, above }] + spots_among(
            element.children,
            above.push(element),
        ),
        _ => Seq::empty(),
    }
}

/// The elements below a place, in reading order.
pub open spec fn spots_below(spot: SpotModel) -> Seq<SpotModel> {
    spots_among(spot.element.children, spot.above.push(spot.element))
}

fn copy_chain<'a>(chain: &Vec<&'a Element>) -> (r: Vec<&'a Element>)
    ensures
        r@ == chain@,
{
    let mut out: Vec<&'a Element> = Vec::new();
    let mut i: usize = 0;
    while i < chain.len()
        invariant
            i <= chain@.len(),
            out@ == chain@.take(i as int),
        decreases chain.len() - i,
    {
        out.push(chain[i]);
        assert(chain@.take(i + 1) == chain@.take(i as int).push(chain@[i as int]));
        i += 1;
    }
    assert(chain@.take(i as int) == chain@);
    out
}

/// Lists the elements in a run of nodes, in reading order, at the end of `out`.
fn collect_spots<'a>(nodes: &'a [Node], above: &Vec<&'a Element>, out: &mut Vec<Spot<'a>>)
    ensures
        spot_models(final(out)@) == spot_models(old(out)@) + spots_among(
            dom::nodes_model(nodes@),
            dom::models(above@),
        ),
    decreases nodes@,
{
    let ghost start = spot_models(out@);
    let ghost chain = dom::models(above@);
    let mut i: usize = 0;
    while i < nodes.len()
        invariant
            i <= nodes@.len(),
            chain == dom::models(above@),
            spot_models(out@) == start + spots_among(
                dom::nodes_model(nodes@.take(i as int)),
                chain,
            ),
        decreases nodes.len() - i,
    {
        let ghost before = spot_models(out@);
        proof {
            assert(nodes@.take(i + 1).drop_last() == nodes@.take(i as int));
            let all = dom::nodes_model(nodes@.take(i + 1));
            assert(all.drop_last() == dom::nodes_model(nodes@.take(i as int)));
            assert(all.last() == dom::node_model(nodes@[i as int]));
            assert(decreases_to!(nodes@ => nodes@[i as int]));
        }
        if let Node::Element(element) = &nodes[i] {
            let mut inner = copy_chain(above);
            out.push(Spot { element, above: copy_chain(above) });
            let ghost model = dom::element_model(*element);
            assert(spot_models(out@) == before + seq![SpotModel { element: model, above: chain }]);
            inner.push(element);
            assert(dom::models(inner@) == chain.push(model));
            collect_spots(&element.children, &inner, out);
        }
        assert(spot_models(out@) == before + spots_at(
            dom::node_model(nodes@[i as int]),
            chain,
        ));
        i += 1;
    }
    assert(nodes@.take(i as int) == nodes@);
}

/// Lists the elements below a place, in reading order.
fn list_below<'a>(element: &'a Element, above: &Vec<&'a Element>) -> (r: Vec<Spot<'a>>)
    ensures
        spot_models(r@) == spots_below(
            (SpotModel { element: dom::element_model(*element), above: dom::models(above@) }),
        ),
{
    let mut chain = copy_chain(above);
    chain.push(element);
    assert(dom::models(chain@) == dom::models(above@).push(dom::element_model(*element)));
    let mut out: Vec<Spot<'a>> = Vec::new();
    assert(spot_models(out@) == Seq::<SpotModel>::empty());
    collect_spots(&element.children, &chain, &mut out);
    out
}

/// What is looked for below a block, or in the whole document.
pub enum Sought {
    /// The cell that holds the text of an admonition.
    AdmonitionBody,
    /// The title of a block that is in `depth` elements. An admonition keeps its
    /// title inside the content cell rather than beside it.
    Title { depth: usize },
    /// The title of the document, which is rendered from the header rather than
    /// from a block.
    DocumentTitle,
}

/// Whether an element is the cell that holds the text of an admonition.
pub open spec fn is_content_cell(element: ElementModel) -> bool {
    dom::is_called(element, "TD"@) && dom::is_classed(element, "content"@)
}

/// Whether a place is what is looked for.
pub open spec fn is_sought(sought: Sought, spot: SpotModel) -> bool {
    match sought {
        Sought::AdmonitionBody => is_content_cell(spot.element),
        Sought::Title { depth } => dom::is_classed(spot.element, "title"@) && (spot.above.len()
            == depth + 1 || (spot.above.len() > depth + 1 && is_content_cell(
            spot.above.last(),
        ))),
        Sought::DocumentTitle => dom::is_called(spot.element, "H1"@) && spot.element.line is None,
    }
}

/// The first place that is what is looked for.
pub open spec fn first_sought(spots: Seq<SpotModel>, sought: Sought) -> Option<SpotModel>
    decreases spots.len(),
{
    if spots.len() == 0 {
        None
    } else {
        match first_sought(spots.drop_last(), sought) {
            Some(spot) => Some(spot),
            None => if is_sought(sought, spots.last()) {
                Some(spots.last())
            } else {
                None
            },
        }
    }
}

fn content_cell(element: &Element) -> (r: bool)
    ensures
        r == is_content_cell(dom::element_model(*element)),
{
    called(element, "TD") && classed(element, "content")
}

fn sought_here(sought: &Sought, spot: &Spot) -> (r: bool)
    ensures
        r == is_sought(*sought, spot_model(*spot)),
{
    let n = spot.above.len();
    assert(dom::models(spot.above@).len() == n);
    match sought {
        Sought::AdmonitionBody => content_cell(spot.element),
        Sought::Title { depth } => n > 0 && classed(spot.element, "title") && (n - 1 == *depth || (n
            - 1 > *depth && content_cell(spot.above[n - 1]))),
        Sought::DocumentTitle => called(spot.element, "H1") && spot.element.line.is_none(),
    }
}

proof fn lemma_sought_stays(spots: Seq<SpotModel>, sought: Sought, n: int)
    requires
        0 <= n <= spots.len(),
        first_sought(spots.take(n), sought) is Some,
    ensures
        first_sought(spots, sought) == first_sought(spots.take(n), sought),
    decreases spots.len() - n,
{
    if n < spots.len() {
        assert(spots.take(n + 1).drop_last() == spots.take(n));
        lemma_sought_stays(spots, sought, n + 1);
    } else {
        assert(spots.take(n) == spots);
    }
}

/// Finds the first place that is what is looked for.
fn find_spot(spots: &Vec<Spot>, sought: Sought) -> (r: Option<usize>)
    ensures
        match r {
            Some(i) => i < spots@.len() && first_sought(spot_models(spots@), sought) == Some(
                spot_model(spots@[i as int]),
            ),
            None => first_sought(spot_models(spots@), sought) is None,
        },
{
    let ghost all = spot_models(spots@);
    let mut i: usize = 0;
    while i < spots.len()
        invariant
            all == spot_models(spots@),
            i <= spots@.len(),
            first_sought(all.take(i as int), sought) is None,
        decreases spots.len() - i,
    {
        proof {
            assert(all.take(i + 1).drop_last() == all.take(i as int));
            assert(all.take(i + 1).last() == spot_model(spots@[i as int]));
        }
        if sought_here(&sought, &spots[i]) {
            proof {
                lemma_sought_stays(all, sought, i + 1);
            }
            return Some(i);
        }
        i += 1;
    }
    assert(all.take(i as int) == all);
    None
}

/// The first of some elements.
pub open spec fn first(found: Seq<ElementModel>) -> Option<ElementModel> {
    if found.len() > 0 {
        Some(found[0])
    } else {
        None
    }
}

/// What an element that may be missing stands for.
pub open spec fn maybe_model(element: Option<&Element>) -> Option<ElementModel> {
    match element {
        Some(e) => Some(dom::element_model(*e)),
        None => None,
    }
}

/// The first element below another that is called `a` or `b`.
fn first_named<'a>(element: &'a Element, a: &str, b: &str) -> (r: Option<&'a Element>)
    ensures
        maybe_model(r) == first(dom::named(dom::element_model(*element).children, a@, b@)),
{
    let mut found: Vec<&'a Element> = Vec::new();
    find_named(&element.children, a, b, &mut found);
    let ghost all = dom::named(dom::element_model(*element).children, a@, b@);
    assert(dom::models(found@) == all);
    assert(all.len() == found@.len());
    if found.len() > 0 {
        assert(all[0] == dom::element_model(*found@[0]));
        Some(found[0])
    } else {
        None
    }
}

/// The first child of the class `class` in a run of nodes.
pub open spec fn child_classed(nodes: Seq<NodeModel>, class: Seq<char>) -> Option<ElementModel>
    decreases nodes.len(),
{
    if nodes.len() == 0 {
        None
    } else {
        match child_classed(nodes.drop_last(), class) {
            Some(element) => Some(element),
            None => match nodes.last() {
                NodeModel::Element(element) => if dom::is_classed(element, class) {
                    Some(element)
                } else {
                    None
                },
                _ => None,
            },
        }
    }
}

proof fn lemma_child_stays(nodes: Seq<NodeModel>, class: Seq<char>, n: int)
    requires
        0 <= n <= nodes.len(),
        child_classed(nodes.take(n), class) is Some,
    ensures
        child_classed(nodes, class) == child_classed(nodes.take(n), class),
    decreases nodes.len() - n,
{
    if n < nodes.len() {
        assert(nodes.take(n + 1).drop_last() == nodes.take(n));
        lemma_child_stays(nodes, class, n + 1);
    } else {
        assert(nodes.take(n) == nodes);
    }
}

/// The first child of an element that has the class `class`.
fn first_child_classed<'a>(element: &'a Element, class: &str) -> (r: Option<&'a Element>)
    ensures
        maybe_model(r) == child_classed(dom::element_model(*element).children, class@),
{
    let nodes = &element.children;
    let ghost all = dom::nodes_model(nodes@);
    proof {
        dom::lemma_nodes_model(nodes@);
    }
    let mut i: usize = 0;
    while i < nodes.len()
        invariant
            all == dom::nodes_model(nodes@),
            all.len() == nodes@.len(),
            forall|j: int| 0 <= j < all.len() ==> #[trigger] all[j] == dom::node_model(nodes@[j]),
            i <= nodes@.len(),
            all == dom::element_model(*element).children,
            child_classed(all.take(i as int), class@) is None,
        decreases nodes.len() - i,
    {
        proof {
            assert(all.take(i + 1).drop_last() == all.take(i as int));
            assert(all.take(i + 1).last() == all[i as int]);
        }
        if let Node::Element(child) = &nodes[i] {
            if classed(child, class) {
                proof {
                    assert(all[i as int] == NodeModel::Element(dom::element_model(*child)));
                    lemma_child_stays(all, class@, i + 1);
                }
                return Some(child);
            }
        }
        i += 1;
    }
    assert(all.take(i as int) == all);
    None
}

// ---------------------------------------------------------------------
// What is set
// ---------------------------------------------------------------------

/// An attribute to be set on the element known by `key`.
#[derive(Debug, PartialEq)]
pub struct Mark {
    pub key: Option<usize>,
    pub name: &'static str,
    pub value: String,
}

/// What a mark stands for.
pub struct MarkModel {
    pub key: Option<usize>,
    pub name: Seq<char>,
    pub value: Seq<char>,
}

/// What marks stand for.
pub open spec fn mark_models(marks: Seq<Mark>) -> Seq<MarkModel> {
    marks.map_values(|m: Mark| MarkModel { key: m.key, name: m.name@, value: m.value@ })
}

/// One mark.
pub open spec fn one(key: Option<usize>, name: Seq<char>, value: Seq<char>) -> Seq<MarkModel> {
    seq![MarkModel { key, name, value }]
}

/// Attributes as marks of the element known by `key`.
pub open spec fn keyed(key: Option<usize>, attributes: Seq<(Seq<char>, Seq<char>)>) -> Seq<
    MarkModel,
> {
    attributes.map_values(
        |a: (Seq<char>, Seq<char>)| MarkModel { key, name: a.0, value: a.1 },
    )
}

/// What is set on an element that comes to `outcome`: what makes it editable,
/// or why it is not.
pub open spec fn outcome_marks(
    key: Option<usize>,
    outcome: Outcome,
    range: LineRange,
    kind: Kind,
) -> Seq<MarkModel> {
    match outcome {
        Outcome::Skipped => Seq::empty(),
        Outcome::Refused => one(key, "title"@, REFUSED@),
        Outcome::Editable => keyed(key, marking::editable_marks(range, kind)),
    }
}

fn push_mark(out: &mut Vec<Mark>, key: Option<usize>, name: &'static str, value: String)
    ensures
        mark_models(final(out)@) == mark_models(old(out)@) + one(key, name@, value@),
{
    let ghost before = out@;
    out.push(Mark { key, name, value });
    assert(mark_models(out@) == mark_models(before) + one(key, name@, value@));
}

/// Sets what makes an element editable.
fn push_editable(out: &mut Vec<Mark>, key: Option<usize>, range: LineRange, kind: Kind)
    ensures
        mark_models(final(out)@) == mark_models(old(out)@) + keyed(
            key,
            marking::editable_marks(range, kind),
        ),
{
    let ghost start = mark_models(out@);
    let attributes = make_editable(range, kind);
    let ghost all = keyed(key, marking::editable_marks(range, kind));
    assert(marking::attribute_texts(attributes@).len() == attributes@.len());
    let mut i: usize = 0;
    while i < attributes.len()
        invariant
            i <= attributes@.len(),
            marking::attribute_texts(attributes@) == marking::editable_marks(range, kind),
            all == keyed(key, marking::editable_marks(range, kind)),
            all.len() == attributes@.len(),
            mark_models(out@) == start + all.take(i as int),
        decreases attributes.len() - i,
    {
        let attribute = &attributes[i];
        proof {
            assert(marking::attribute_texts(attributes@)[i as int] == (
                attribute.name@,
                attribute.value@,
            ));
            assert(all.take(i + 1) == all.take(i as int) + one(
                key,
                attribute.name@,
                attribute.value@,
            ));
        }
        push_mark(out, key, attribute.name, attribute.value.clone());
        i += 1;
    }
    assert(all.take(i as int) == all);
}

/// Sets what an element comes to.
fn push_outcome(
    out: &mut Vec<Mark>,
    key: Option<usize>,
    outcome: Outcome,
    range: LineRange,
    kind: Kind,
)
    ensures
        mark_models(final(out)@) == mark_models(old(out)@) + outcome_marks(
            key,
            outcome,
            range,
            kind,
        ),
{
    match outcome {
        Outcome::Skipped => {
            assert(mark_models(out@) + outcome_marks(key, outcome, range, kind) == mark_models(
                out@,
            ));
        },
        Outcome::Refused => push_mark(out, key, "title", REFUSED.to_string()),
        Outcome::Editable => push_editable(out, key, range, kind),
    }
}

// ---------------------------------------------------------------------
// Paragraphs and headings
// ---------------------------------------------------------------------

/// The source line that an element was rendered from, if it says so.
pub open spec fn line_in(element: ElementModel) -> Option<usize> {
    match element.line {
        Some(text) => number::numeral(text),
        None => None,
    }
}

fn line_of(element: &Element) -> (r: Option<usize>)
    ensures
        r == line_in(dom::element_model(*element)),
{
    attr(&element.line)
}

/// Whether an element is a block of the class `a` or `b` that says which line
/// it was rendered from.
pub open spec fn is_block(element: ElementModel, a: Seq<char>, b: Seq<char>) -> bool {
    dom::is_called(element, "DIV"@) && (dom::is_classed(element, a) || dom::is_classed(element, b))
        && element.line is Some
}

fn block(element: &Element, a: &str, b: &str) -> (r: bool)
    ensures
        r == is_block(dom::element_model(*element), a@, b@),
{
    called(element, "DIV") && (classed(element, a) || classed(element, b))
        && element.line.is_some()
}

/// The lines of the content of the block starting at `start`.
pub open spec fn paragraph_at(src: Seq<char>, start: int) -> LineRange {
    choose|range: LineRange| source::is_paragraph(src, start, range)
}

/// What is set for a paragraph.
pub open spec fn paragraph_marks(block: ElementModel, src: Seq<char>) -> Seq<MarkModel> {
    match (line_in(block), first(dom::named(block.children, "P"@, "P"@))) {
        (Some(line), Some(p)) => if is_block(block, "paragraph"@, "paragraph"@) {
            let range = paragraph_at(src, line as int);
            outcome_marks(
                p.key,
                marking::outcome_of(wysiwyg::inline_text(p), marking::range_text(src, range)),
                range,
                Kind::Body,
            )
        } else {
            Seq::empty()
        },
        _ => Seq::empty(),
    }
}

/// Whether the lines that an element names can be looked up.
pub open spec fn is_placed(element: ElementModel) -> bool {
    line_in(element) matches Some(line) ==> 1 <= line <= usize::MAX - 4
}

fn mark_paragraph(element: &Element, src: &str, out: &mut Vec<Mark>)
    requires
        is_placed(dom::element_model(*element)),
    ensures
        mark_models(final(out)@) == mark_models(old(out)@) + paragraph_marks(
            dom::element_model(*element),
            src@,
        ),
{
    let ghost start = mark_models(out@);
    assert(start + Seq::<MarkModel>::empty() == start);
    if !block(element, "paragraph", "paragraph") {
        return;
    }
    match (line_of(element), first_named(element, "P", "P")) {
        (Some(line), Some(p)) => {
            let offer = offer_paragraph(src, line, p);
            proof {
                marking::lemma_paragraph_unique(
                    src@,
                    line as int,
                    offer.range,
                    paragraph_at(src@, line as int),
                );
            }
            push_outcome(out, p.key, offer.outcome, offer.range, Kind::Body);
        },
        _ => {},
    }
}

/// What headings are called, by their level.
pub const HEADING_TAGS: [&'static str; 6] = ["H1", "H2", "H3", "H4", "H5", "H6"];

/// What is set for a heading of level `level`.
pub open spec fn heading_marks(spot: SpotModel, level: usize, src: Seq<char>) -> Seq<MarkModel> {
    if 1 <= level <= 6 && spot.above.len() > 0 && dom::is_called(
        spot.element,
        HEADING_TAGS[level - 1]@,
    ) {
        match line_in(spot.above.last()) {
            Some(line) => {
                let title = source::line_at(src, line as int);
                if source::is_heading(title, level as int) {
                    outcome_marks(
                        spot.element.key,
                        marking::heading_outcome(
                            wysiwyg::inline_text(spot.element),
                            title,
                            level,
                        ),
                        LineRange { start: line, end: line },
                        Kind::Heading(level),
                    )
                } else {
                    Seq::empty()
                }
            },
            None => Seq::empty(),
        }
    } else {
        Seq::empty()
    }
}

fn mark_heading(spot: &Spot, level: usize, src: &str, out: &mut Vec<Mark>)
    requires
        1 <= level <= 6,
        spot.above@.len() > 0 ==> is_placed(dom::models(spot.above@).last()),
    ensures
        mark_models(final(out)@) == mark_models(old(out)@) + heading_marks(
            spot_model(*spot),
            level,
            src@,
        ),
{
    let ghost start = mark_models(out@);
    assert(start + Seq::<MarkModel>::empty() == start);
    let n = spot.above.len();
    assert(dom::models(spot.above@).len() == n);
    if n == 0 || !called(spot.element, HEADING_TAGS[level - 1]) {
        return;
    }
    let parent = spot.above[n - 1];
    assert(dom::models(spot.above@).last() == dom::element_model(*parent));
    if let Some(line) = line_of(parent) {
        let offer = offer_heading(src, line, level, spot.element);
        push_outcome(out, spot.element.key, offer.outcome, offer.range, Kind::Heading(level));
    }
}

/// What is set for the title of the document.
pub open spec fn document_title_marks(spots: Seq<SpotModel>, src: Seq<char>) -> Seq<MarkModel> {
    match first_sought(spots, Sought::DocumentTitle) {
        Some(spot) => if exists|line: int| marking::is_title_line(src, line) {
            let line = choose|line: int| marking::is_title_line(src, line);
            outcome_marks(
                spot.element.key,
                marking::heading_outcome(
                    wysiwyg::inline_text(spot.element),
                    source::line_at(src, line),
                    1,
                ),
                LineRange { start: line as usize, end: line as usize },
                Kind::Heading(1),
            )
        } else {
            Seq::empty()
        },
        None => Seq::empty(),
    }
}

fn mark_document_title(spots: &Vec<Spot>, src: &str, out: &mut Vec<Mark>)
    ensures
        mark_models(final(out)@) == mark_models(old(out)@) + document_title_marks(
            spot_models(spots@),
            src@,
        ),
{
    let ghost start = mark_models(out@);
    assert(start + Seq::<MarkModel>::empty() == start);
    if let Some(i) = find_spot(spots, Sought::DocumentTitle) {
        let title = spots[i].element;
        let offer = offer_document_title(src, title);
        proof {
            if offer.outcome != Outcome::Skipped {
                let line = choose|line: int| marking::is_title_line(src@, line);
                assert(marking::is_title_line(src@, offer.range.start as int));
                assert(marking::is_title_line(src@, line));
                if line < offer.range.start {
                    assert(!source::is_heading(source::line_at(src@, line), 1));
                } else if offer.range.start < line {
                    assert(!source::is_heading(
                        source::line_at(src@, offer.range.start as int),
                        1,
                    ));
                }
            }
        }
        push_outcome(out, title.key, offer.outcome, offer.range, Kind::Heading(1));
    }
}

// ---------------------------------------------------------------------
// Lists
// ---------------------------------------------------------------------

/// Whether a place is in a list.
pub open spec fn is_in_list(above: Seq<ElementModel>) -> bool {
    exists|i: int| 0 <= i < above.len() && wysiwyg::is_list_tag((#[trigger] above[i]).tag)
}

/// The lines of the list rendered from the block starting at `start`, if there
/// is one.
pub open spec fn list_at(src: Seq<char>, start: int) -> Option<LineRange> {
    if exists|range: LineRange| marking::is_list_range(src, start, range) {
        Some(choose|range: LineRange| marking::is_list_range(src, start, range))
    } else {
        None
    }
}

/// What is set for a list.
pub open spec fn list_marks(spot: SpotModel, src: Seq<char>) -> Seq<MarkModel> {
    match (line_in(spot.element), first(dom::named(spot.element.children, "UL"@, "OL"@))) {
        (Some(line), Some(items)) => {
            let found = list_at(src, line as int);
            if is_block(spot.element, "ulist"@, "olist"@) && !is_in_list(spot.above) && found is Some {
                let range = found->0;
                let marker = source::marker_of(source::line_at(src, range.start as int))->0;
                one(items.key, wysiwyg::MARKER@, marker) + outcome_marks(
                    items.key,
                    marking::outcome_of(
                        wysiwyg::list_or_inline_text(items, marker[0]),
                        marking::range_text(src, range),
                    ),
                    range,
                    Kind::Body,
                )
            } else {
                Seq::empty()
            }
        },
        _ => Seq::empty(),
    }
}

fn in_list(above: &Vec<&Element>) -> (r: bool)
    ensures
        r == is_in_list(dom::models(above@)),
{
    let ghost all = dom::models(above@);
    let mut i: usize = 0;
    while i < above.len()
        invariant
            all == dom::models(above@),
            i <= above@.len(),
            forall|j: int| 0 <= j < i ==> !wysiwyg::is_list_tag((#[trigger] all[j]).tag),
        decreases above.len() - i,
    {
        assert(all[i as int] == dom::element_model(*above@[i as int]));
        if wysiwyg::is_list(&above[i].tag) {
            return true;
        }
        i += 1;
    }
    false
}

fn mark_list(spot: &Spot, src: &str, out: &mut Vec<Mark>)
    requires
        is_placed(dom::element_model(*spot.element)),
    ensures
        mark_models(final(out)@) == mark_models(old(out)@) + list_marks(spot_model(*spot), src@),
{
    let ghost start = mark_models(out@);
    assert(start + Seq::<MarkModel>::empty() == start);
    if !block(spot.element, "ulist", "olist") {
        return;
    }
    match (line_of(spot.element), first_named(spot.element, "UL", "OL")) {
        (Some(line), Some(items)) => {
            let offer = offer_list(src, line, items, in_list(&spot.above));
            proof {
                if offer.outcome != Outcome::Skipped {
                    marking::lemma_list_range_unique(
                        src@,
                        line as int,
                        offer.range,
                        list_at(src@, line as int)->0,
                    );
                    source::lemma_marker_size(
                        source::line_at(src@, offer.range.start as int),
                    );
                }
            }
            if let Some(marker) = offer.marker {
                push_mark(out, items.key, wysiwyg::MARKER, marker);
            }
            push_outcome(out, items.key, offer.outcome, offer.range, Kind::Body);
            proof {
                if offer.outcome != Outcome::Skipped {
                    assert(mark_models(out@) == start + list_marks(spot_model(*spot), src@));
                }
            }
        },
        _ => {},
    }
}

// ---------------------------------------------------------------------
// Attributions and images
// ---------------------------------------------------------------------

/// What records the text that the renderer generated: nothing, if it generated
/// none.
pub open spec fn prefix_marks(key: Option<usize>, prefix: Seq<char>) -> Seq<MarkModel> {
    if prefix.len() == 0 {
        Seq::empty()
    } else {
        one(key, wysiwyg::PREFIX@, prefix)
    }
}

fn push_prefix(out: &mut Vec<Mark>, key: Option<usize>, prefix: Option<String>, text: Ghost<
    Seq<char>,
>)
    requires
        marking::is_recorded(prefix, text@),
    ensures
        mark_models(final(out)@) == mark_models(old(out)@) + prefix_marks(key, text@),
{
    match prefix {
        Some(words) => push_mark(out, key, wysiwyg::PREFIX, words),
        None => {
            assert(mark_models(out@) + Seq::<MarkModel>::empty() == mark_models(out@));
        },
    }
}

/// What is set for the attribution of a quote or a verse.
pub open spec fn attribution_marks(block: ElementModel, src: Seq<char>) -> Seq<MarkModel> {
    match (line_in(block), child_classed(block.children, "attribution"@)) {
        (Some(line), Some(attribution)) => if is_block(block, "quoteblock"@, "verseblock"@) {
            let found = source::line_at(src, line as int);
            match source::attribution_in(found) {
                Some((style, author)) => {
                    let whole = marking::whole_text(attribution);
                    prefix_marks(attribution.key, marking::generated(whole, author)) + one(
                        attribution.key,
                        wysiwyg::ATTRIBUTION@,
                        style,
                    ) + outcome_marks(
                        attribution.key,
                        marking::attribution_outcome(whole, found, style, author),
                        LineRange { start: line, end: line },
                        Kind::Body,
                    )
                },
                None => one(attribution.key, "title"@, REFUSED@),
            }
        } else {
            Seq::empty()
        },
        _ => Seq::empty(),
    }
}

fn mark_attribution(element: &Element, src: &str, out: &mut Vec<Mark>)
    requires
        is_placed(dom::element_model(*element)),
    ensures
        mark_models(final(out)@) == mark_models(old(out)@) + attribution_marks(
            dom::element_model(*element),
            src@,
        ),
{
    let ghost start = mark_models(out@);
    assert(start + Seq::<MarkModel>::empty() == start);
    if !block(element, "quoteblock", "verseblock") {
        return;
    }
    match (line_of(element), first_child_classed(element, "attribution")) {
        (Some(line), Some(attribution)) => match offer_attribution(src, line, attribution) {
            Some(offer) => {
                let ghost (_, author) = source::attribution_in(
                    source::line_at(src@, line as int),
                )->0;
                let ghost prefix = marking::generated(
                    marking::whole_text(dom::element_model(*attribution)),
                    author,
                );
                push_prefix(out, attribution.key, offer.prefix, Ghost(prefix));
                if let Kind::Attribution(style) = offer.kind {
                    push_mark(out, attribution.key, wysiwyg::ATTRIBUTION, style.to_string());
                }
                push_outcome(out, attribution.key, offer.outcome, offer.range, Kind::Body);
                assert(mark_models(out@) == start + attribution_marks(
                    dom::element_model(*element),
                    src@,
                ));
            },
            None => push_mark(out, attribution.key, "title", REFUSED.to_string()),
        },
        _ => {},
    }
}

/// What is set for an image.
pub open spec fn image_marks(block: ElementModel, src: Seq<char>) -> Seq<MarkModel> {
    match line_in(block) {
        Some(line) => if is_block(block, "imageblock"@, "imageblock"@) {
            let range = paragraph_at(src, line as int);
            match source::image_in(marking::range_text(src, range)) {
                Some((target, alt)) => keyed(
                    block.key,
                    seq![
                        ("tabindex"@, "0"@),
                        (wysiwyg::IMAGE@, target),
                        (wysiwyg::IMAGE_ALT@, alt),
                        (wysiwyg::LINE@, number::decimal(range.start as nat)),
                        (wysiwyg::END@, number::decimal(range.end as nat)),
                    ],
                ),
                None => one(block.key, "title"@, REFUSED@),
            }
        } else {
            Seq::empty()
        },
        None => Seq::empty(),
    }
}

fn mark_image(element: &Element, src: &str, out: &mut Vec<Mark>)
    requires
        is_placed(dom::element_model(*element)),
    ensures
        mark_models(final(out)@) == mark_models(old(out)@) + image_marks(
            dom::element_model(*element),
            src@,
        ),
{
    let ghost start = mark_models(out@);
    assert(start + Seq::<MarkModel>::empty() == start);
    if !block(element, "imageblock", "imageblock") {
        return;
    }
    if let Some(line) = line_of(element) {
        let key = element.key;
        let found = offer_image(src, line);
        proof {
            let range = choose|range: LineRange| #[trigger]
                source::is_paragraph(src@, line as int, range) && match source::image_in(
                    marking::range_text(src@, range),
                ) {
                    Some((target, alt)) => {
                        &&& found is Some
                        &&& found->0.range == range
                        &&& found->0.target@ == target
                        &&& found->0.alt@ == alt
                    },
                    None => found is None,
                };
            marking::lemma_paragraph_unique(
                src@,
                line as int,
                range,
                paragraph_at(src@, line as int),
            );
        }
        match found {
            Some(offer) => {
                push_mark(out, key, "tabindex", "0".to_string());
                push_mark(out, key, wysiwyg::IMAGE, offer.target);
                push_mark(out, key, wysiwyg::IMAGE_ALT, offer.alt);
                push_mark(out, key, wysiwyg::LINE, write_number(offer.range.start));
                push_mark(out, key, wysiwyg::END, write_number(offer.range.end));
                assert(mark_models(out@) == start + image_marks(
                    dom::element_model(*element),
                    src@,
                ));
            },
            None => push_mark(out, key, "title", REFUSED.to_string()),
        }
    }
}

// ---------------------------------------------------------------------
// Tables
// ---------------------------------------------------------------------

/// The lines of the rows of the table starting at `start`, if there are some.
pub open spec fn rows_at(src: Seq<char>, start: int) -> Option<LineRange> {
    if exists|range: LineRange| marking::is_rows_range(src, start, range) {
        Some(choose|range: LineRange| marking::is_rows_range(src, start, range))
    } else {
        None
    }
}

/// What is set on one cell of a table.
pub open spec fn cell_marks(
    key: Option<usize>,
    range: LineRange,
    shape: Seq<char>,
    fixed: bool,
) -> Seq<MarkModel> {
    one(key, wysiwyg::SHAPE@, shape) + (if fixed {
        one(key, wysiwyg::FIXED@, "true"@)
    } else {
        Seq::empty()
    }) + keyed(key, marking::editable_marks(range, Kind::Table { fixed_columns: fixed }))
}

/// What is set on cells of a table.
pub open spec fn cells_marks(
    cells: Seq<ElementModel>,
    range: LineRange,
    shape: Seq<char>,
    fixed: bool,
) -> Seq<MarkModel>
    decreases cells.len(),
{
    if cells.len() == 0 {
        Seq::empty()
    } else {
        cells_marks(cells.drop_last(), range, shape, fixed) + cell_marks(
            cells.last().key,
            range,
            shape,
            fixed,
        )
    }
}

/// What is set on the cells of rows of a table.
pub open spec fn rows_marks(
    rows: Seq<ElementModel>,
    range: LineRange,
    shape: Seq<char>,
    fixed: bool,
) -> Seq<MarkModel>
    decreases rows.len(),
{
    if rows.len() == 0 {
        Seq::empty()
    } else {
        rows_marks(rows.drop_last(), range, shape, fixed) + cells_marks(
            table::cells_in(rows.last()),
            range,
            shape,
            fixed,
        )
    }
}

/// What is set for a table: something on each of its cells, if they read back
/// exactly as the source wrote them, and the rows are written as they are.
pub open spec fn table_marks(t: ElementModel, src: Seq<char>) -> Seq<MarkModel> {
    match line_in(t) {
        Some(line) => match rows_at(src, line as int) {
            Some(range) => match table::rows_read(text::lines_of(marking::range_text(src, range))) {
                Some((cells, shape)) => if dom::is_called(t, "TABLE"@) && cells == table::row_texts(
                    table::rows_in(t),
                ) && marking::outcome_of(
                    wysiwyg::table_text(t, table::encoded(shape)),
                    marking::range_text(src, range),
                ) == Outcome::Editable {
                    rows_marks(
                        table::rows_in(t),
                        range,
                        table::encoded(shape),
                        marking::are_columns_fixed(src, line as int),
                    )
                } else {
                    Seq::empty()
                },
                None => Seq::empty(),
            },
            None => Seq::empty(),
        },
        None => Seq::empty(),
    }
}

fn mark_cells(
    cells: &Vec<&Element>,
    range: LineRange,
    shape: &str,
    fixed: bool,
    out: &mut Vec<Mark>,
)
    ensures
        mark_models(final(out)@) == mark_models(old(out)@) + cells_marks(
            dom::models(cells@),
            range,
            shape@,
            fixed,
        ),
{
    let ghost start = mark_models(out@);
    let ghost all = dom::models(cells@);
    let mut i: usize = 0;
    while i < cells.len()
        invariant
            all == dom::models(cells@),
            i <= cells@.len(),
            mark_models(out@) == start + cells_marks(all.take(i as int), range, shape@, fixed),
        decreases cells.len() - i,
    {
        let ghost before = mark_models(out@);
        let key = cells[i].key;
        proof {
            assert(all.take(i + 1).drop_last() == all.take(i as int));
            assert(all.take(i + 1).last() == dom::element_model(*cells@[i as int]));
        }
        push_mark(out, key, wysiwyg::SHAPE, shape.to_string());
        if fixed {
            push_mark(out, key, wysiwyg::FIXED, "true".to_string());
        }
        push_editable(out, key, range, Kind::Table { fixed_columns: fixed });
        assert(mark_models(out@) == before + cell_marks(key, range, shape@, fixed));
        i += 1;
    }
    assert(all.take(i as int) == all);
}

fn mark_table(t: &Element, src: &str, out: &mut Vec<Mark>)
    requires
        is_placed(dom::element_model(*t)),
    ensures
        mark_models(final(out)@) == mark_models(old(out)@) + table_marks(
            dom::element_model(*t),
            src@,
        ),
{
    let ghost start = mark_models(out@);
    let ghost model = dom::element_model(*t);
    assert(start + Seq::<MarkModel>::empty() == start);
    if !called(t, "TABLE") {
        assert(table_marks(model, src@) == Seq::<MarkModel>::empty());
        return;
    }
    let line = match line_of(t) {
        Some(line) => line,
        None => return,
    };
    let offer = match offer_table(src, line, t) {
        Some(offer) => offer,
        None => {
            proof {
                if let Some(range) = rows_at(src@, line as int) {
                    assert(marking::is_rows_range(src@, line as int, range));
                    assert(marking::range_text(src@, range) == marking::range_text(src@, range));
                }
                assert(table_marks(model, src@) == Seq::<MarkModel>::empty());
            }
            return;
        },
    };
    proof {
        marking::lemma_rows_range_unique(src@, line as int, offer.range);
        assert(rows_at(src@, line as int) == Some(offer.range));
    }
    let rows = table::rows_of(t);
    let ghost all = table::rows_in(model);
    let mut i: usize = 0;
    while i < rows.len()
        invariant
            all == dom::models(rows@),
            i <= rows@.len(),
            mark_models(out@) == start + rows_marks(
                all.take(i as int),
                offer.range,
                offer.shape@,
                offer.fixed,
            ),
        decreases rows.len() - i,
    {
        proof {
            assert(all.take(i + 1).drop_last() == all.take(i as int));
            assert(all.take(i + 1).last() == dom::element_model(*rows@[i as int]));
        }
        let cells = table::cells_of(rows[i]);
        mark_cells(&cells, offer.range, &offer.shape, offer.fixed, out);
        assert(mark_models(out@) == start + rows_marks(
            all.take(i + 1),
            offer.range,
            offer.shape@,
            offer.fixed,
        ));
        i += 1;
    }
    assert(all.take(i as int) == all);
}

// ---------------------------------------------------------------------
// Admonitions and titles
// ---------------------------------------------------------------------

/// What the inline admonition `text` starts with, if it is one.
pub open spec fn lead_of(text: Seq<char>) -> Option<Seq<char>> {
    if exists|lead: Seq<char>| marking::is_lead(text, lead) {
        Some(choose|lead: Seq<char>| marking::is_lead(text, lead))
    } else {
        None
    }
}

/// What a title that a cell may hold says.
pub open spec fn held_words(title: Option<ElementModel>) -> Option<Seq<char>> {
    match title {
        Some(held) => Some(dom::text_among(held.children)),
        None => None,
    }
}

/// What is set for an admonition.
pub open spec fn admonition_marks(spot: SpotModel, src: Seq<char>) -> Seq<MarkModel> {
    match (line_in(spot.element), first_sought(spots_below(spot), Sought::AdmonitionBody)) {
        (Some(line), Some(body)) => {
            let content = paragraph_at(src, line as int);
            let text = marking::range_text(src, content);
            if is_block(spot.element, "admonitionblock"@, "admonitionblock"@) && lead_of(
                text,
            ) is Some {
                let lead = lead_of(text)->0;
                let cell = body.element;
                let title = child_classed(cell.children, "title"@);
                let above = content.start - 1;
                let titled = title is Some && marking::is_title_at(src, line as int, above);
                let range = LineRange {
                    start: if titled {
                        above as usize
                    } else {
                        content.start
                    },
                    end: content.end,
                };
                one(cell.key, wysiwyg::LEAD@, lead) + (if titled && dom::text_among(
                    title->0.children,
                ) != marking::title_words(source::line_at(src, above)) {
                    Seq::empty()
                } else {
                    outcome_marks(
                        cell.key,
                        marking::judged(
                            wysiwyg::inline_text(cell),
                            text.skip(lead.len() as int),
                            marking::admonition_text(
                                lead,
                                wysiwyg::inline_text(cell),
                                held_words(title),
                            ),
                            marking::range_text(src, range),
                        ),
                        range,
                        Kind::Body,
                    )
                })
            } else {
                Seq::empty()
            }
        },
        _ => Seq::empty(),
    }
}

/// A text starts with one lead of an admonition at most.
proof fn lemma_lead_unique(text: Seq<char>, a: Seq<char>, b: Seq<char>)
    requires
        marking::is_lead(text, a),
        marking::is_lead(text, b),
    ensures
        a == b,
{
    let i = choose|i: int|
        0 <= i < 5 && a == #[trigger] source::lead_text(i) && a.is_prefix_of(text);
    let j = choose|j: int|
        0 <= j < 5 && b == #[trigger] source::lead_text(j) && b.is_prefix_of(text);
    assert(source::ADMONITIONS[i]@ =~= a.take(source::ADMONITIONS[i]@.len() as int));
    assert(source::ADMONITIONS[j]@ =~= b.take(source::ADMONITIONS[j]@.len() as int));
    reveal_strlit("NOTE");
    reveal_strlit("TIP");
    reveal_strlit("IMPORTANT");
    reveal_strlit("WARNING");
    reveal_strlit("CAUTION");
    assert(a[0] == text[0]);
    assert(b[0] == text[0]);
    assert(i == j);
}

fn mark_admonition(spot: &Spot, src: &str, out: &mut Vec<Mark>)
    requires
        is_placed(dom::element_model(*spot.element)),
    ensures
        mark_models(final(out)@) == mark_models(old(out)@) + admonition_marks(
            spot_model(*spot),
            src@,
        ),
{
    let ghost start = mark_models(out@);
    assert(start + Seq::<MarkModel>::empty() == start);
    if !block(spot.element, "admonitionblock", "admonitionblock") {
        return;
    }
    let line = match line_of(spot.element) {
        Some(line) => line,
        None => return,
    };
    let below = list_below(spot.element, &spot.above);
    let body = match find_spot(&below, Sought::AdmonitionBody) {
        Some(i) => below[i].element,
        None => return,
    };
    let mut words = String::new();
    let title = first_child_classed(body, "title");
    if let Some(held) = title {
        dom::collect_text(&held.children, &mut words);
        assert(words@ == dom::text_among(dom::element_model(*held).children));
    }
    let offer = match title {
        Some(_) => offer_admonition(src, line, body, Some(&words)),
        None => offer_admonition(src, line, body, None),
    };
    let ghost content = paragraph_at(src@, line as int);
    proof {
        assert(source::is_paragraph(src@, line as int, content));
        assert forall|r: LineRange| source::is_paragraph(src@, line as int, r) implies r
            == content by {
            marking::lemma_paragraph_unique(src@, line as int, r, content);
        }
    }
    let ghost text = marking::range_text(src@, content);
    if let Some(lead) = offer.lead {
        proof {
            assert(marking::is_lead(text, lead@));
            lemma_lead_unique(text, lead@, lead_of(text)->0);
        }
        push_mark(out, body.key, wysiwyg::LEAD, lead);
        push_outcome(out, body.key, offer.outcome, offer.range, Kind::Body);
        assert(mark_models(out@) == start + admonition_marks(spot_model(*spot), src@));
    } else {
        assert(lead_of(text) is None);
    }
}

/// The line of the title of the block starting at `start`, if the source writes
/// one.
pub open spec fn title_at(src: Seq<char>, start: int) -> Option<int> {
    if exists|n: int| marking::is_title_at(src, start, n) {
        Some(choose|n: int| marking::is_title_at(src, start, n))
    } else {
        None
    }
}

/// Whether what has been set makes the element known by `key` editable.
pub open spec fn is_editable(marks: Seq<MarkModel>, key: Option<usize>) -> bool {
    exists|i: int|
        0 <= i < marks.len() && (#[trigger] marks[i]).key == key && marks[i].name
            == "contenteditable"@ && marks[i].value == "true"@
}

/// Whether an element, or one that it is in, is editable.
pub open spec fn is_hosted(spot: SpotModel, marks: Seq<MarkModel>) -> bool {
    is_editable(marks, spot.element.key) || exists|i: int|
        0 <= i < spot.above.len() && is_editable(marks, (#[trigger] spot.above[i]).key)
}

/// What is set for the title of a block, when `before` has been set.
pub open spec fn title_marks(spot: SpotModel, before: Seq<MarkModel>, src: Seq<char>) -> Seq<
    MarkModel,
> {
    let depth = spot.above.len() as usize;
    match (line_in(spot.element), first_sought(spots_below(spot), Sought::Title { depth })) {
        (Some(line), Some(title)) => {
            if !is_hosted(title, before) && title_at(src, line as int) is Some {
                let n = title_at(src, line as int)->0;
                let found = source::line_at(src, n);
                let whole = marking::whole_text(title.element);
                let prefix = marking::generated(whole, marking::title_words(found));
                prefix_marks(title.element.key, prefix) + outcome_marks(
                    title.element.key,
                    marking::title_outcome(whole, found),
                    LineRange { start: n as usize, end: n as usize },
                    Kind::Title,
                )
            } else {
                Seq::empty()
            }
        },
        _ => Seq::empty(),
    }
}

fn editable(marks: &Vec<Mark>, key: Option<usize>) -> (r: bool)
    ensures
        r == is_editable(mark_models(marks@), key),
{
    let ghost all = mark_models(marks@);
    let mut i: usize = 0;
    while i < marks.len()
        invariant
            all == mark_models(marks@),
            i <= marks@.len(),
            forall|j: int|
                0 <= j < i ==> !((#[trigger] all[j]).key == key && all[j].name
                    == "contenteditable"@ && all[j].value == "true"@),
        decreases marks.len() - i,
    {
        let mark = &marks[i];
        assert(all[i as int] == (MarkModel { key: mark.key, name: mark.name@, value: mark.value@ }));
        let same = match (mark.key, key) {
            (Some(a), Some(b)) => a == b,
            (None, None) => true,
            _ => false,
        };
        if same && text::equal(mark.name, "contenteditable") && text::equal(&mark.value, "true") {
            return true;
        }
        i += 1;
    }
    false
}

fn hosted(spot: &Spot, marks: &Vec<Mark>) -> (r: bool)
    ensures
        r == is_hosted(spot_model(*spot), mark_models(marks@)),
{
    if editable(marks, spot.element.key) {
        return true;
    }
    let ghost all = dom::models(spot.above@);
    let mut i: usize = 0;
    while i < spot.above.len()
        invariant
            all == dom::models(spot.above@),
            i <= spot.above@.len(),
            forall|j: int|
                0 <= j < i ==> !is_editable(mark_models(marks@), (#[trigger] all[j]).key),
        decreases spot.above.len() - i,
    {
        assert(all[i as int] == dom::element_model(*spot.above@[i as int]));
        if editable(marks, spot.above[i].key) {
            assert(spot_model(*spot).above[i as int] == all[i as int]);
            return true;
        }
        i += 1;
    }
    false
}

fn mark_title(spot: &Spot, src: &str, out: &mut Vec<Mark>)
    requires
        is_placed(dom::element_model(*spot.element)),
    ensures
        mark_models(final(out)@) == mark_models(old(out)@) + title_marks(
            spot_model(*spot),
            mark_models(old(out)@),
            src@,
        ),
{
    let ghost start = mark_models(out@);
    assert(start + Seq::<MarkModel>::empty() == start);
    let line = match line_of(spot.element) {
        Some(line) => line,
        None => return,
    };
    let depth = spot.above.len();
    assert(dom::models(spot.above@).len() == spot.above@.len());
    let below = list_below(spot.element, &spot.above);
    let at = match find_spot(&below, Sought::Title { depth }) {
        Some(i) => i,
        None => return,
    };
    let title = below[at].element;
    let inside = hosted(&below[at], out);
    let offer = offer_title(src, line, title, inside);
    if matches!(offer.outcome, Outcome::Skipped) {
        proof {
            if !inside {
                assert forall|n: int| !marking::is_title_at(src@, line as int, n) by {}
            }
        }
        return;
    }
    let ghost n = offer.range.start as int;
    proof {
        marking::lemma_title_unique(src@, line as int, n, title_at(src@, line as int)->0);
    }
    let ghost prefix = marking::generated(
        marking::whole_text(dom::element_model(*title)),
        marking::title_words(source::line_at(src@, n)),
    );
    push_prefix(out, title.key, offer.prefix, Ghost(prefix));
    push_outcome(out, title.key, offer.outcome, offer.range, Kind::Title);
    assert(mark_models(out@) == start + title_marks(spot_model(*spot), start, src@));
}

// ---------------------------------------------------------------------
// The whole document
// ---------------------------------------------------------------------

/// A look through the document, for one kind of block.
#[derive(Clone, Copy, Debug, PartialEq, Eq, Structural)]
pub enum Pass {
    Paragraphs,
    Headings(usize),
    Lists,
    Attributions,
    Images,
    Tables,
    Admonitions,
    Titles,
}

/// What is set for the block at a place, when `before` has been set.
pub open spec fn marks_at(
    pass: Pass,
    spot: SpotModel,
    before: Seq<MarkModel>,
    src: Seq<char>,
) -> Seq<MarkModel> {
    match pass {
        Pass::Paragraphs => paragraph_marks(spot.element, src),
        Pass::Headings(level) => heading_marks(spot, level, src),
        Pass::Lists => list_marks(spot, src),
        Pass::Attributions => attribution_marks(spot.element, src),
        Pass::Images => image_marks(spot.element, src),
        Pass::Tables => table_marks(spot.element, src),
        Pass::Admonitions => admonition_marks(spot, src),
        Pass::Titles => title_marks(spot, before, src),
    }
}

/// What has been set after a look through the document, when `before` had been
/// set.
pub open spec fn passed(
    pass: Pass,
    spots: Seq<SpotModel>,
    before: Seq<MarkModel>,
    src: Seq<char>,
) -> Seq<MarkModel>
    decreases spots.len(),
{
    if spots.len() == 0 {
        before
    } else {
        let so_far = passed(pass, spots.drop_last(), before, src);
        so_far + marks_at(pass, spots.last(), so_far, src)
    }
}

/// What has been set after several looks through the document, one after
/// another.
pub open spec fn passed_all(passes: Seq<Pass>, spots: Seq<SpotModel>, src: Seq<char>) -> Seq<
    MarkModel,
>
    decreases passes.len(),
{
    if passes.len() == 0 {
        Seq::empty()
    } else {
        passed(passes.last(), spots, passed_all(passes.drop_last(), spots, src), src)
    }
}

/// The looks through the document, in order. A title that is in a block that
/// can be edited is edited with it, so titles come last.
pub open spec fn all_passes() -> Seq<Pass> {
    seq![
        Pass::Paragraphs,
        Pass::Headings(1),
        Pass::Headings(2),
        Pass::Headings(3),
        Pass::Headings(4),
        Pass::Headings(5),
        Pass::Headings(6),
        Pass::Lists,
        Pass::Attributions,
        Pass::Images,
        Pass::Tables,
        Pass::Admonitions,
        Pass::Titles,
    ]
}

/// All the elements of a rendered document, in reading order.
pub open spec fn spots_of(content: ElementModel) -> Seq<SpotModel> {
    spots_below((SpotModel { element: content, above: Seq::empty() }))
}

/// What is set to make every block of a rendered document editable that safely
/// can be.
pub open spec fn all_marks(content: ElementModel, src: Seq<char>) -> Seq<MarkModel> {
    let spots = spots_of(content);
    passed_all(all_passes(), spots, src) + document_title_marks(spots, src)
}

/// Whether the lines that the element at a place and its parent name can be
/// looked up.
pub open spec fn is_spot_placed(spot: SpotModel) -> bool {
    is_placed(spot.element) && (spot.above.len() > 0 ==> is_placed(spot.above.last()))
}

/// Whether the lines that the elements of a rendered document name can be
/// looked up.
pub open spec fn is_page_placed(content: ElementModel) -> bool {
    forall|i: int| 0 <= i < spots_of(content).len() ==> is_spot_placed(#[trigger] spots_of(content)[i])
}

fn placed(element: &Element) -> (r: bool)
    ensures
        r == is_placed(dom::element_model(*element)),
{
    match line_of(element) {
        Some(line) => 1 <= line && line <= usize::MAX - 4,
        None => true,
    }
}

/// Whether the lines that the elements of a rendered document name can be
/// looked up: they are counted from one, and there is room after them.
pub fn page_placed(content: &Element) -> (r: bool)
    ensures
        r == is_page_placed(dom::element_model(*content)),
{
    let none: Vec<&Element> = Vec::new();
    assert(dom::models(none@) == Seq::<ElementModel>::empty());
    let spots = list_below(content, &none);
    let ghost all = spots_of(dom::element_model(*content));
    let mut i: usize = 0;
    while i < spots.len()
        invariant
            all == spot_models(spots@),
            all == spots_of(dom::element_model(*content)),
            i <= spots@.len(),
            forall|j: int| 0 <= j < i ==> is_spot_placed(#[trigger] all[j]),
        decreases spots.len() - i,
    {
        let spot = &spots[i];
        let n = spot.above.len();
        proof {
            assert(all[i as int] == spot_model(spots@[i as int]));
            assert(dom::models(spot.above@).len() == n);
            if n > 0 {
                assert(dom::models(spot.above@).last() == dom::element_model(
                    *spot.above@[n - 1],
                ));
            }
        }
        if !placed(spot.element) || (n > 0 && !placed(spot.above[n - 1])) {
            return false;
        }
        i += 1;
    }
    true
}

/// Marks the block at a place, if it is of the kind that is looked for.
fn mark_spot(
    pass: Pass,
    spot: &Spot,
    src: &str,
    out: &mut Vec<Mark>,
)
    requires
        is_spot_placed(spot_model(*spot)),
        pass matches Pass::Headings(level) ==> 1 <= level <= 6,
    ensures
        mark_models(final(out)@) == mark_models(old(out)@) + marks_at(
            pass,
            spot_model(*spot),
            mark_models(old(out)@),
            src@,
        ),
{
    assert(dom::models(spot.above@).len() == spot.above@.len());
    match pass {
        Pass::Paragraphs => mark_paragraph(spot.element, src, out),
        Pass::Headings(level) => mark_heading(spot, level, src, out),
        Pass::Lists => mark_list(spot, src, out),
        Pass::Attributions => mark_attribution(spot.element, src, out),
        Pass::Images => mark_image(spot.element, src, out),
        Pass::Tables => mark_table(spot.element, src, out),
        Pass::Admonitions => mark_admonition(spot, src, out),
        Pass::Titles => mark_title(spot, src, out),
    }
}

/// Makes every safely editable block in the rendered document editable: gives
/// the attributes that are to be set, in order.
pub fn mark_editable(content: &Element, src: &str) -> (r: Vec<Mark>)
    requires
        is_page_placed(dom::element_model(*content)),
    ensures
        mark_models(r@) == all_marks(dom::element_model(*content), src@),
{
    let none: Vec<&Element> = Vec::new();
    assert(dom::models(none@) == Seq::<ElementModel>::empty());
    let spots = list_below(content, &none);
    let ghost all = spots_of(dom::element_model(*content));
    let mut out: Vec<Mark> = Vec::new();
    assert(mark_models(out@) == Seq::<MarkModel>::empty());
    let passes: [Pass; 13] = [
        Pass::Paragraphs,
        Pass::Headings(1),
        Pass::Headings(2),
        Pass::Headings(3),
        Pass::Headings(4),
        Pass::Headings(5),
        Pass::Headings(6),
        Pass::Lists,
        Pass::Attributions,
        Pass::Images,
        Pass::Tables,
        Pass::Admonitions,
        Pass::Titles,
    ];
    assert(passes@ == all_passes());
    let mut p: usize = 0;
    while p < 13
        invariant
            p <= 13,
            passes@ == all_passes(),
            all == spot_models(spots@),
            all == spots_of(dom::element_model(*content)),
            is_page_placed(dom::element_model(*content)),
            mark_models(out@) == passed_all(all_passes().take(p as int), all, src@),
        decreases 13 - p,
    {
        let pass = passes[p];
        let ghost before = mark_models(out@);
        proof {
            assert(all_passes().take(p + 1).drop_last() == all_passes().take(p as int));
            assert(all_passes().take(p + 1).last() == pass);
        }
        let mut i: usize = 0;
        while i < spots.len()
            invariant
                p < 13,
                pass == all_passes()[p as int],
                    all == spot_models(spots@),
                all == spots_of(dom::element_model(*content)),
                is_page_placed(dom::element_model(*content)),
                i <= spots@.len(),
                mark_models(out@) == passed(pass, all.take(i as int), before, src@),
            decreases spots.len() - i,
        {
            proof {
                assert(all.take(i + 1).drop_last() == all.take(i as int));
                assert(all[i as int] == spot_model(spots@[i as int]));
                assert(is_spot_placed(all[i as int]));
            }
            mark_spot(pass, &spots[i], src, &mut out);
            i += 1;
        }
        assert(all.take(i as int) == all);
        p += 1;
    }
    assert(all_passes().take(13) == all_passes());
    mark_document_title(&spots, src, &mut out);
    out
}

// ---------------------------------------------------------------------
// What is found is marked
// ---------------------------------------------------------------------

/// Whether an attribute is set on the element known by `key`.
pub open spec fn is_marked(
    marks: Seq<MarkModel>,
    key: Option<usize>,
    name: Seq<char>,
    value: Seq<char>,
) -> bool {
    exists|i: int|
        0 <= i < marks.len() && #[trigger] marks[i] == (MarkModel { key, name, value })
}

/// Whether the element known by `key` is made editable, over the lines from
/// `start` to `end`.
pub open spec fn is_open(marks: Seq<MarkModel>, key: Option<usize>, start: usize, end: usize) -> bool {
    &&& is_marked(marks, key, "contenteditable"@, "true"@)
    &&& is_marked(marks, key, "data-edit-line"@, number::decimal(start as nat))
    &&& is_marked(marks, key, "data-edit-end"@, number::decimal(end as nat))
}

proof fn lemma_marked_in_order(
    a: Seq<MarkModel>,
    b: Seq<MarkModel>,
    key: Option<usize>,
    name: Seq<char>,
    value: Seq<char>,
)
    ensures
        is_marked(a, key, name, value) || is_marked(b, key, name, value) ==> is_marked(
            a + b,
            key,
            name,
            value,
        ),
{
    let m = MarkModel { key, name, value };
    if is_marked(a, key, name, value) {
        let i = choose|i: int| 0 <= i < a.len() && #[trigger] a[i] == m;
        assert((a + b)[i] == m);
    } else if is_marked(b, key, name, value) {
        let i = choose|i: int| 0 <= i < b.len() && #[trigger] b[i] == m;
        assert((a + b)[a.len() + i] == m);
    }
}

/// What is set for a block is set after a look through the document, whatever
/// had been set before; and so is what had been set.
proof fn lemma_marked_in_pass(
    pass: Pass,
    spots: Seq<SpotModel>,
    before: Seq<MarkModel>,
    src: Seq<char>,
    j: int,
    key: Option<usize>,
    name: Seq<char>,
    value: Seq<char>,
)
    requires
        pass != Pass::Titles,
        0 <= j < spots.len(),
    ensures
        is_marked(before, key, name, value) || is_marked(
            marks_at(pass, spots[j], before, src),
            key,
            name,
            value,
        ) ==> is_marked(passed(pass, spots, before, src), key, name, value),
    decreases spots.len(),
{
    let front = spots.drop_last();
    let so_far = passed(pass, front, before, src);
    let now = marks_at(pass, spots.last(), so_far, src);
    lemma_whatever_was_set(pass, spots.last(), before, so_far, src);
    if j < front.len() {
        assert(front[j] == spots[j]);
        lemma_marked_in_pass(pass, front, before, src, j, key, name, value);
    } else {
        lemma_kept_in_pass(pass, front, before, src, key, name, value);
    }
    lemma_marked_in_order(so_far, now, key, name, value);
}

/// What is set for a block does not depend on what had been set, unless it is
/// for the title of one.
proof fn lemma_whatever_was_set(
    pass: Pass,
    spot: SpotModel,
    a: Seq<MarkModel>,
    b: Seq<MarkModel>,
    src: Seq<char>,
)
    requires
        pass != Pass::Titles,
    ensures
        marks_at(pass, spot, a, src) == marks_at(pass, spot, b, src),
{
}

proof fn lemma_kept_in_pass(
    pass: Pass,
    spots: Seq<SpotModel>,
    before: Seq<MarkModel>,
    src: Seq<char>,
    key: Option<usize>,
    name: Seq<char>,
    value: Seq<char>,
)
    ensures
        is_marked(before, key, name, value) ==> is_marked(
            passed(pass, spots, before, src),
            key,
            name,
            value,
        ),
    decreases spots.len(),
{
    if spots.len() > 0 {
        let so_far = passed(pass, spots.drop_last(), before, src);
        lemma_kept_in_pass(pass, spots.drop_last(), before, src, key, name, value);
        lemma_marked_in_order(
            so_far,
            marks_at(pass, spots.last(), so_far, src),
            key,
            name,
            value,
        );
    }
}

/// What is set for a block in one look is set in the end.
proof fn lemma_marked_in_the_end(
    content: ElementModel,
    src: Seq<char>,
    p: int,
    n: int,
    j: int,
    key: Option<usize>,
    name: Seq<char>,
    value: Seq<char>,
)
    requires
        0 <= p < n <= 13,
        all_passes()[p] != Pass::Titles,
        0 <= j < spots_of(content).len(),
        is_marked(
            marks_at(all_passes()[p], spots_of(content)[j], Seq::empty(), src),
            key,
            name,
            value,
        ),
    ensures
        is_marked(passed_all(all_passes().take(n), spots_of(content), src), key, name, value),
        is_marked(all_marks(content, src), key, name, value),
{
    let spots = spots_of(content);
    lemma_marked_by(content, src, p, n, j, key, name, value);
    lemma_marked_by(content, src, p, 13, j, key, name, value);
    assert(all_passes().take(13) == all_passes());
    lemma_marked_in_order(
        passed_all(all_passes(), spots, src),
        document_title_marks(spots, src),
        key,
        name,
        value,
    );
}

proof fn lemma_marked_by(
    content: ElementModel,
    src: Seq<char>,
    p: int,
    n: int,
    j: int,
    key: Option<usize>,
    name: Seq<char>,
    value: Seq<char>,
)
    requires
        0 <= p < n <= 13,
        all_passes()[p] != Pass::Titles,
        0 <= j < spots_of(content).len(),
        is_marked(
            marks_at(all_passes()[p], spots_of(content)[j], Seq::empty(), src),
            key,
            name,
            value,
        ),
    ensures
        is_marked(passed_all(all_passes().take(n), spots_of(content), src), key, name, value),
    decreases n,
{
    let spots = spots_of(content);
    let passes = all_passes().take(n);
    assert(passes.drop_last() == all_passes().take(n - 1));
    assert(passes.last() == all_passes()[n - 1]);
    let before = passed_all(passes.drop_last(), spots, src);
    if p == n - 1 {
        let pass = all_passes()[p];
        lemma_whatever_was_set(pass, spots[j], before, Seq::empty(), src);
        lemma_marked_in_pass(pass, spots, before, src, j, key, name, value);
    } else {
        lemma_marked_by(content, src, p, n - 1, j, key, name, value);
        lemma_kept_in_pass(passes.last(), spots, before, src, key, name, value);
    }
}

proof fn lemma_outcome_opens(key: Option<usize>, range: LineRange, kind: Kind)
    ensures
        is_open(
            outcome_marks(key, Outcome::Editable, range, kind),
            key,
            range.start,
            range.end,
        ),
        is_marked(
            outcome_marks(key, Outcome::Refused, range, kind),
            key,
            "title"@,
            "This block can only be edited in source mode"@,
        ),
        kind matches Kind::Heading(level) ==> is_marked(
            outcome_marks(key, Outcome::Editable, range, kind),
            key,
            "data-edit-level"@,
            number::decimal(level as nat),
        ),
{
    let marks = outcome_marks(key, Outcome::Editable, range, kind);
    assert(marks[0] == (MarkModel { key, name: "contenteditable"@, value: "true"@ }));
    assert(marks[1] == (MarkModel {
        key,
        name: "data-edit-line"@,
        value: number::decimal(range.start as nat),
    }));
    assert(marks[2] == (MarkModel {
        key,
        name: "data-edit-end"@,
        value: number::decimal(range.end as nat),
    }));
    if let Kind::Heading(level) = kind {
        assert(marks[3] == (MarkModel {
            key,
            name: "data-edit-level"@,
            value: number::decimal(level as nat),
        }));
    }
    assert(outcome_marks(key, Outcome::Refused, range, kind)[0] == (MarkModel {
        key,
        name: "title"@,
        value: "This block can only be edited in source mode"@,
    }));
}

/// A paragraph that says what its lines say is editable over those lines, and
/// one that does not is refused: a `div` of the class `paragraph` that names its
/// line, by the first `p` in it.
#[verifier::spinoff_prover]
pub proof fn law_every_paragraph_is_judged(
    content: ElementModel,
    src: Seq<char>,
    j: int,
    line: usize,
    range: LineRange,
)
    requires
        0 <= j < spots_of(content).len(),
        ({
            let e = spots_of(content)[j].element;
            &&& text::uppercased(e.tag) == "DIV"@
            &&& e.classes.contains("paragraph"@)
            &&& e.line is Some && number::numeral(e.line->0) == Some(line)
            &&& dom::named(e.children, "P"@, "P"@).len() > 0
        }),
        source::is_paragraph(src, line as int, range),
    ensures
        ({
            let p = dom::named(spots_of(content)[j].element.children, "P"@, "P"@)[0];
            let marks = all_marks(content, src);
            if wysiwyg::inline_text(p) == text::trimmed_end(marking::range_text(src, range)) {
                is_open(marks, p.key, range.start, range.end)
            } else {
                is_marked(
                    marks,
                    p.key,
                    "title"@,
                    "This block can only be edited in source mode"@,
                )
            }
        }),
{
    let e = spots_of(content)[j].element;
    let p = dom::named(e.children, "P"@, "P"@)[0];
    let found = paragraph_at(src, line as int);
    marking::lemma_paragraph_unique(src, line as int, range, found);
    lemma_outcome_opens(p.key, range, Kind::Body);
    assert(all_passes()[0] == Pass::Paragraphs);
    let here = marks_at(Pass::Paragraphs, spots_of(content)[j], Seq::empty(), src);
    assert(here == paragraph_marks(e, src));
    if wysiwyg::inline_text(p) == text::trimmed_end(marking::range_text(src, range)) {
        lemma_open_in_the_end(content, src, 0, j, p.key, range);
    } else {
        lemma_marked_in_the_end(
            content,
            src,
            0,
            13,
            j,
            p.key,
            "title"@,
            "This block can only be edited in source mode"@,
        );
    }
}

proof fn lemma_open_in_the_end(
    content: ElementModel,
    src: Seq<char>,
    p: int,
    j: int,
    key: Option<usize>,
    range: LineRange,
)
    requires
        0 <= p < 13,
        all_passes()[p] != Pass::Titles,
        0 <= j < spots_of(content).len(),
        is_open(
            marks_at(all_passes()[p], spots_of(content)[j], Seq::empty(), src),
            key,
            range.start,
            range.end,
        ),
    ensures
        is_open(all_marks(content, src), key, range.start, range.end),
{
    lemma_marked_in_the_end(content, src, p, 13, j, key, "contenteditable"@, "true"@);
    lemma_marked_in_the_end(
        content,
        src,
        p,
        13,
        j,
        key,
        "data-edit-line"@,
        number::decimal(range.start as nat),
    );
    lemma_marked_in_the_end(
        content,
        src,
        p,
        13,
        j,
        key,
        "data-edit-end"@,
        number::decimal(range.end as nat),
    );
}

/// A section title that says what its line says is editable, at its level: an
/// `h1` to `h6` in an element that names the line of a heading of that level.
#[verifier::spinoff_prover]
pub proof fn law_every_heading_is_judged(
    content: ElementModel,
    src: Seq<char>,
    j: int,
    line: usize,
    level: usize,
    words: Seq<char>,
)
    requires
        0 <= j < spots_of(content).len(),
        1 <= level <= 6,
        words.len() > 0,
        !text::is_space(words[0]),
        !text::is_space(words.last()),
        text::free_of(words, '\n'),
        ({
            let spot = spots_of(content)[j];
            let parent = spot.above.last();
            &&& text::uppercased(spot.element.tag) == HEADING_TAGS[level - 1]@
            &&& spot.above.len() > 0
            &&& parent.line is Some && number::numeral(parent.line->0) == Some(line)
            &&& wysiwyg::inline_text(spot.element) == words
        }),
        source::line_at(src, line as int) == text::repeated('=', level as nat) + seq![' '] + words,
    ensures
        ({
            let key = spots_of(content)[j].element.key;
            let marks = all_marks(content, src);
            &&& is_open(marks, key, line, line)
            &&& is_marked(marks, key, "data-edit-level"@, number::decimal(level as nat))
        }),
{
    let spot = spots_of(content)[j];
    let key = spot.element.key;
    let title = source::line_at(src, line as int);
    let range = LineRange { start: line, end: line };
    marking::law_lines_written_as_they_say(words, Seq::empty(), level, 2);
    assert(source::is_heading(title, level as int));
    lemma_outcome_opens(key, range, Kind::Heading(level));
    let p = level as int;
    assert(all_passes()[p] == Pass::Headings(level));
    let here = marks_at(all_passes()[p], spot, Seq::empty(), src);
    assert(here == outcome_marks(key, Outcome::Editable, range, Kind::Heading(level)));
    lemma_open_in_the_end(content, src, p, j, key, range);
    lemma_marked_in_the_end(
        content,
        src,
        p,
        13,
        j,
        key,
        "data-edit-level"@,
        number::decimal(level as nat),
    );
}

/// A list that is in no other and says what its lines say is editable over those
/// lines, with the marker that its first item has: a `div` of the class `ulist`
/// or `olist` that names its line, by the first list in it.
#[verifier::spinoff_prover]
pub proof fn law_every_list_is_judged(
    content: ElementModel,
    src: Seq<char>,
    j: int,
    line: usize,
    range: LineRange,
    marker: Seq<char>,
)
    requires
        0 <= j < spots_of(content).len(),
        ({
            let spot = spots_of(content)[j];
            let e = spot.element;
            &&& text::uppercased(e.tag) == "DIV"@
            &&& e.classes.contains("ulist"@) || e.classes.contains("olist"@)
            &&& e.line is Some && number::numeral(e.line->0) == Some(line)
            &&& dom::named(e.children, "UL"@, "OL"@).len() > 0
            &&& forall|i: int|
                0 <= i < spot.above.len() ==> text::uppercased((#[trigger] spot.above[i]).tag)
                    != "UL"@ && text::uppercased(spot.above[i].tag) != "OL"@
        }),
        marking::is_list_range(src, line as int, range),
        source::marker_of(source::line_at(src, range.start as int)) == Some(marker),
    ensures
        ({
            let list = dom::named(spots_of(content)[j].element.children, "UL"@, "OL"@)[0];
            let marks = all_marks(content, src);
            &&& is_marked(marks, list.key, "data-edit-marker"@, marker)
            &&& if wysiwyg::list_or_inline_text(list, marker[0]) == text::trimmed_end(
                marking::range_text(src, range),
            ) {
                is_open(marks, list.key, range.start, range.end)
            } else {
                is_marked(
                    marks,
                    list.key,
                    "title"@,
                    "This block can only be edited in source mode"@,
                )
            }
        }),
{
    let spot = spots_of(content)[j];
    let e = spot.element;
    let list = dom::named(e.children, "UL"@, "OL"@)[0];
    let found = list_at(src, line as int);
    marking::lemma_list_range_unique(src, line as int, range, found->0);
    assert(found == Some(range));
    assert(!is_in_list(spot.above));
    lemma_outcome_opens(list.key, range, Kind::Body);
    assert(all_passes()[7] == Pass::Lists);
    let first = one(list.key, wysiwyg::MARKER@, marker);
    assert(first[0] == (MarkModel { key: list.key, name: "data-edit-marker"@, value: marker }));
    let outcome = marking::outcome_of(
        wysiwyg::list_or_inline_text(list, marker[0]),
        marking::range_text(src, range),
    );
    let then = outcome_marks(list.key, outcome, range, Kind::Body);
    let here = marks_at(Pass::Lists, spot, Seq::empty(), src);
    assert(here == first + then);
    lemma_marked_in_order(first, then, list.key, "data-edit-marker"@, marker);
    lemma_marked_in_the_end(content, src, 7, 13, j, list.key, "data-edit-marker"@, marker);
    if outcome == Outcome::Editable {
        lemma_marked_in_order(first, then, list.key, "contenteditable"@, "true"@);
        lemma_marked_in_order(
            first,
            then,
            list.key,
            "data-edit-line"@,
            number::decimal(range.start as nat),
        );
        lemma_marked_in_order(
            first,
            then,
            list.key,
            "data-edit-end"@,
            number::decimal(range.end as nat),
        );
        lemma_open_in_the_end(content, src, 7, j, list.key, range);
    } else {
        let refused = "This block can only be edited in source mode"@;
        lemma_marked_in_order(first, then, list.key, "title"@, refused);
        lemma_marked_in_the_end(content, src, 7, 13, j, list.key, "title"@, refused);
    }
}

/// An image is marked with what it points at, how it is described and its lines:
/// a `div` of the class `imageblock` that names its line, if the lines there are
/// nothing but an image.
#[verifier::spinoff_prover]
pub proof fn law_every_image_is_marked(
    content: ElementModel,
    src: Seq<char>,
    j: int,
    line: usize,
    range: LineRange,
    target: Seq<char>,
    alt: Seq<char>,
)
    requires
        0 <= j < spots_of(content).len(),
        ({
            let e = spots_of(content)[j].element;
            &&& text::uppercased(e.tag) == "DIV"@
            &&& e.classes.contains("imageblock"@)
            &&& e.line is Some && number::numeral(e.line->0) == Some(line)
        }),
        source::is_paragraph(src, line as int, range),
        source::is_image(marking::range_text(src, range), target, alt),
    ensures
        ({
            let key = spots_of(content)[j].element.key;
            let marks = all_marks(content, src);
            &&& is_marked(marks, key, "tabindex"@, "0"@)
            &&& is_marked(marks, key, "data-edit-image"@, target)
            &&& is_marked(marks, key, "data-edit-image-alt"@, alt)
            &&& is_marked(marks, key, "data-edit-line"@, number::decimal(range.start as nat))
            &&& is_marked(marks, key, "data-edit-end"@, number::decimal(range.end as nat))
        }),
{
    let spot = spots_of(content)[j];
    let key = spot.element.key;
    let found = paragraph_at(src, line as int);
    marking::lemma_paragraph_unique(src, line as int, range, found);
    source::lemma_image_in(marking::range_text(src, range), target, alt);
    assert(all_passes()[9] == Pass::Images);
    let here = marks_at(Pass::Images, spot, Seq::empty(), src);
    let start = number::decimal(range.start as nat);
    let end = number::decimal(range.end as nat);
    assert(here[0] == (MarkModel { key, name: "tabindex"@, value: "0"@ }));
    assert(here[1] == (MarkModel { key, name: "data-edit-image"@, value: target }));
    assert(here[2] == (MarkModel { key, name: "data-edit-image-alt"@, value: alt }));
    assert(here[3] == (MarkModel { key, name: "data-edit-line"@, value: start }));
    assert(here[4] == (MarkModel { key, name: "data-edit-end"@, value: end }));
    lemma_marked_in_the_end(content, src, 9, 13, j, key, "tabindex"@, "0"@);
    lemma_marked_in_the_end(content, src, 9, 13, j, key, "data-edit-image"@, target);
    lemma_marked_in_the_end(content, src, 9, 13, j, key, "data-edit-image-alt"@, alt);
    lemma_marked_in_the_end(content, src, 9, 13, j, key, "data-edit-line"@, start);
    lemma_marked_in_the_end(content, src, 9, 13, j, key, "data-edit-end"@, end);
}

proof fn lemma_cell_marked(
    key: Option<usize>,
    range: LineRange,
    shape: Seq<char>,
    fixed: bool,
)
    ensures
        is_open(cell_marks(key, range, shape, fixed), key, range.start, range.end),
        is_marked(cell_marks(key, range, shape, fixed), key, "data-edit-shape"@, shape),
        fixed ==> is_marked(
            cell_marks(key, range, shape, fixed),
            key,
            "data-edit-fixed-columns"@,
            "true"@,
        ),
{
    let kind = Kind::Table { fixed_columns: fixed };
    let first = one(key, wysiwyg::SHAPE@, shape);
    let second = if fixed {
        one(key, wysiwyg::FIXED@, "true"@)
    } else {
        Seq::empty()
    };
    let third = keyed(key, marking::editable_marks(range, kind));
    assert(first[0] == (MarkModel { key, name: "data-edit-shape"@, value: shape }));
    if fixed {
        assert(second[0] == (MarkModel { key, name: "data-edit-fixed-columns"@, value: "true"@ }));
    }
    lemma_outcome_opens(key, range, kind);
    assert(third == outcome_marks(key, Outcome::Editable, range, kind));
    lemma_marked_in_order(first, second, key, "data-edit-shape"@, shape);
    lemma_marked_in_order(first + second, third, key, "data-edit-shape"@, shape);
    lemma_marked_in_order(first, second, key, "data-edit-fixed-columns"@, "true"@);
    lemma_marked_in_order(first + second, third, key, "data-edit-fixed-columns"@, "true"@);
    lemma_open_in_order(first + second, third, key, range);
}

proof fn lemma_open_in_order(
    a: Seq<MarkModel>,
    b: Seq<MarkModel>,
    key: Option<usize>,
    range: LineRange,
)
    ensures
        is_open(a, key, range.start, range.end) || is_open(b, key, range.start, range.end)
            ==> is_open(a + b, key, range.start, range.end),
{
    let start = number::decimal(range.start as nat);
    let end = number::decimal(range.end as nat);
    lemma_marked_in_order(a, b, key, "contenteditable"@, "true"@);
    lemma_marked_in_order(a, b, key, "data-edit-line"@, start);
    lemma_marked_in_order(a, b, key, "data-edit-end"@, end);
}

#[verifier::rlimit(30)]
#[verifier::spinoff_prover]
proof fn lemma_cells_marked(
    cells: Seq<ElementModel>,
    range: LineRange,
    shape: Seq<char>,
    fixed: bool,
    c: int,
)
    requires
        0 <= c < cells.len(),
    ensures
        ({
            let marks = cells_marks(cells, range, shape, fixed);
            let key = cells[c].key;
            &&& is_open(marks, key, range.start, range.end)
            &&& is_marked(marks, key, "data-edit-shape"@, shape)
            &&& fixed ==> is_marked(marks, key, "data-edit-fixed-columns"@, "true"@)
        }),
    decreases cells.len(),
{
    let key = cells[c].key;
    let front = cells_marks(cells.drop_last(), range, shape, fixed);
    let last = cell_marks(cells.last().key, range, shape, fixed);
    if c < cells.len() - 1 {
        lemma_cells_marked(cells.drop_last(), range, shape, fixed, c);
    } else {
        lemma_cell_marked(key, range, shape, fixed);
    }
    lemma_open_in_order(front, last, key, range);
    lemma_marked_in_order(front, last, key, "data-edit-shape"@, shape);
    lemma_marked_in_order(front, last, key, "data-edit-fixed-columns"@, "true"@);
}

#[verifier::rlimit(30)]
#[verifier::spinoff_prover]
proof fn lemma_rows_marked(
    rows: Seq<ElementModel>,
    range: LineRange,
    shape: Seq<char>,
    fixed: bool,
    r: int,
    c: int,
)
    requires
        0 <= r < rows.len(),
        0 <= c < table::cells_in(rows[r]).len(),
    ensures
        ({
            let marks = rows_marks(rows, range, shape, fixed);
            let key = table::cells_in(rows[r])[c].key;
            &&& is_open(marks, key, range.start, range.end)
            &&& is_marked(marks, key, "data-edit-shape"@, shape)
            &&& fixed ==> is_marked(marks, key, "data-edit-fixed-columns"@, "true"@)
        }),
    decreases rows.len(),
{
    let key = table::cells_in(rows[r])[c].key;
    let front = rows_marks(rows.drop_last(), range, shape, fixed);
    let last = cells_marks(table::cells_in(rows.last()), range, shape, fixed);
    if r < rows.len() - 1 {
        lemma_rows_marked(rows.drop_last(), range, shape, fixed, r, c);
    } else {
        lemma_cells_marked(table::cells_in(rows.last()), range, shape, fixed, c);
    }
    lemma_open_in_order(front, last, key, range);
    lemma_marked_in_order(front, last, key, "data-edit-shape"@, shape);
    lemma_marked_in_order(front, last, key, "data-edit-fixed-columns"@, "true"@);
}

/// Every cell of a table whose rows say what the source has for them is editable
/// over those rows, and records how they are laid out, and whether the columns
/// are pinned.
#[verifier::spinoff_prover]
pub proof fn law_every_cell_is_marked(
    content: ElementModel,
    src: Seq<char>,
    j: int,
    line: usize,
    range: LineRange,
    cells: Seq<Seq<char>>,
    shape: Seq<table::Slot>,
    r: int,
    c: int,
)
    requires
        0 <= j < spots_of(content).len(),
        ({
            let t = spots_of(content)[j].element;
            &&& text::uppercased(t.tag) == "TABLE"@
            &&& t.line is Some && number::numeral(t.line->0) == Some(line)
            &&& cells == table::row_texts(table::rows_in(t))
            &&& wysiwyg::table_text(t, table::encoded(shape)) == text::trimmed_end(
                marking::range_text(src, range),
            )
            &&& 0 <= r < table::rows_in(t).len()
            &&& 0 <= c < table::cells_in(table::rows_in(t)[r]).len()
        }),
        marking::is_rows_range(src, line as int, range),
        table::rows_read(text::lines_of(marking::range_text(src, range))) == Some((cells, shape)),
    ensures
        ({
            let t = spots_of(content)[j].element;
            let key = table::cells_in(table::rows_in(t)[r])[c].key;
            let marks = all_marks(content, src);
            &&& is_open(marks, key, range.start, range.end)
            &&& is_marked(marks, key, "data-edit-shape"@, table::encoded(shape))
            &&& marking::are_columns_fixed(src, line as int) ==> is_marked(
                marks,
                key,
                "data-edit-fixed-columns"@,
                "true"@,
            )
        }),
{
    let spot = spots_of(content)[j];
    let t = spot.element;
    let key = table::cells_in(table::rows_in(t)[r])[c].key;
    let fixed = marking::are_columns_fixed(src, line as int);
    let found = rows_at(src, line as int)->0;
    source::lemma_table_unique(
        src,
        line as int,
        range.start - 1,
        range.end + 1,
        found.start - 1,
        found.end + 1,
    );
    assert(rows_at(src, line as int) == Some(range));
    assert(all_passes()[10] == Pass::Tables);
    let here = marks_at(Pass::Tables, spot, Seq::empty(), src);
    assert(here == rows_marks(table::rows_in(t), range, table::encoded(shape), fixed));
    lemma_rows_marked(table::rows_in(t), range, table::encoded(shape), fixed, r, c);
    lemma_open_in_the_end(content, src, 10, j, key, range);
    lemma_marked_in_the_end(
        content,
        src,
        10,
        13,
        j,
        key,
        "data-edit-shape"@,
        table::encoded(shape),
    );
    if fixed {
        lemma_marked_in_the_end(
            content,
            src,
            10,
            13,
            j,
            key,
            "data-edit-fixed-columns"@,
            "true"@,
        );
    }
}

/// The attribution of a quote or a verse is editable on its line, whatever the
/// renderer put in front of it, which is recorded: the first child of the class
/// `attribution`, by a line that does nothing but attribute.
#[verifier::spinoff_prover]
pub proof fn law_every_attribution_is_judged(
    content: ElementModel,
    src: Seq<char>,
    j: int,
    line: usize,
    i: int,
    attribution: ElementModel,
    prefix: Seq<char>,
    author: Seq<char>,
)
    requires
        0 <= j < spots_of(content).len(),
        0 <= i < 2,
        author.len() > 0,
        !text::is_space(author[0]),
        !text::is_space(author.last()),
        forall|k: int| 0 <= k < author.len() ==> crate::laws::is_plain(#[trigger] author[k]),
        ({
            let e = spots_of(content)[j].element;
            &&& text::uppercased(e.tag) == "DIV"@
            &&& e.classes.contains("quoteblock"@) || e.classes.contains("verseblock"@)
            &&& e.line is Some && number::numeral(e.line->0) == Some(line)
            &&& child_classed(e.children, "attribution"@) == Some(attribution)
        }),
        marking::whole_text(attribution) == prefix + author,
        source::line_at(src, line as int) == seq!['['] + source::ATTRIBUTED[i]@ + seq![','] + author
            + seq![']'],
    ensures
        ({
            let marks = all_marks(content, src);
            &&& is_open(marks, attribution.key, line, line)
            &&& is_marked(
                marks,
                attribution.key,
                "data-edit-attribution"@,
                source::ATTRIBUTED[i]@,
            )
            &&& prefix.len() > 0 ==> is_marked(
                marks,
                attribution.key,
                "data-edit-prefix"@,
                prefix,
            )
        }),
{
    let spot = spots_of(content)[j];
    let key = attribution.key;
    let style = source::ATTRIBUTED[i]@;
    let found = source::line_at(src, line as int);
    let range = LineRange { start: line, end: line };
    crate::laws::law_attributions_by_their_form(i, author, Seq::empty());
    assert(found + Seq::<char>::empty() == found);
    assert(text::free_of(author, '\n')) by {
        assert forall|k: int| 0 <= k < author.len() implies #[trigger] author[k] != '\n' by {
            assert(crate::laws::is_plain(author[k]));
        }
    }
    marking::law_lines_written_as_they_say(author, prefix, 0, i);
    assert(source::attribution_in(found) == Some((style, author)));
    assert(marking::generated(marking::whole_text(attribution), author) == prefix);
    assert(marking::attribution_outcome(
        marking::whole_text(attribution),
        found,
        style,
        author,
    ) == Outcome::Editable);
    lemma_outcome_opens(key, range, Kind::Body);
    let first = prefix_marks(key, prefix);
    let second = one(key, wysiwyg::ATTRIBUTION@, style);
    let third = outcome_marks(key, Outcome::Editable, range, Kind::Body);
    assert(second[0] == (MarkModel { key, name: "data-edit-attribution"@, value: style }));
    if prefix.len() > 0 {
        assert(first[0] == (MarkModel { key, name: "data-edit-prefix"@, value: prefix }));
    }
    assert(all_passes()[8] == Pass::Attributions);
    let here = marks_at(Pass::Attributions, spot, Seq::empty(), src);
    assert(is_block(spot.element, "quoteblock"@, "verseblock"@));
    assert(here == attribution_marks(spot.element, src));
    assert(attribution_marks(spot.element, src) == first + second + third);
    lemma_open_in_order(first + second, third, key, range);
    lemma_marked_in_order(first, second, key, "data-edit-attribution"@, style);
    lemma_marked_in_order(first + second, third, key, "data-edit-attribution"@, style);
    lemma_open_in_the_end(content, src, 8, j, key, range);
    lemma_marked_in_the_end(content, src, 8, 13, j, key, "data-edit-attribution"@, style);
    if prefix.len() > 0 {
        lemma_marked_in_order(first, second, key, "data-edit-prefix"@, prefix);
        lemma_marked_in_order(first + second, third, key, "data-edit-prefix"@, prefix);
        lemma_marked_in_the_end(content, src, 8, 13, j, key, "data-edit-prefix"@, prefix);
    }
}

/// An admonition that says what its lines say after the label is editable over
/// those lines, and records the label: by the first content cell in a `div` of
/// the class `admonitionblock` that names its line.
#[verifier::spinoff_prover]
pub proof fn law_every_admonition_is_judged(
    content: ElementModel,
    src: Seq<char>,
    j: int,
    line: usize,
    range: LineRange,
    i: int,
    cell: ElementModel,
    words: Seq<char>,
)
    requires
        0 <= j < spots_of(content).len(),
        0 <= i < 5,
        words.len() > 0,
        !text::is_space(words.last()),
        ({
            let spot = spots_of(content)[j];
            let e = spot.element;
            &&& text::uppercased(e.tag) == "DIV"@
            &&& e.classes.contains("admonitionblock"@)
            &&& e.line is Some && number::numeral(e.line->0) == Some(line)
            &&& first_sought(spots_below(spot), Sought::AdmonitionBody) is Some
            &&& first_sought(spots_below(spot), Sought::AdmonitionBody)->0.element == cell
        }),
        child_classed(cell.children, "title"@) is None,
        wysiwyg::inline_text(cell) == words,
        source::is_paragraph(src, line as int, range),
        marking::range_text(src, range) == source::lead_text(i) + words,
    ensures
        ({
            let marks = all_marks(content, src);
            &&& is_open(marks, cell.key, range.start, range.end)
            &&& is_marked(marks, cell.key, "data-edit-lead"@, source::lead_text(i))
        }),
{
    let spot = spots_of(content)[j];
    let key = cell.key;
    let lead = source::lead_text(i);
    let said = lead + words;
    let found = paragraph_at(src, line as int);
    marking::lemma_paragraph_unique(src, line as int, range, found);
    assert(said.take(lead.len() as int) == lead);
    assert(lead.is_prefix_of(said)) by {
        assert(said.subrange(0, lead.len() as int) == lead);
    }
    assert(marking::is_lead(said, lead));
    let got = lead_of(said)->0;
    lemma_lead_unique(said, lead, got);
    assert(lead_of(said) == Some(lead));
    assert(said.skip(lead.len() as int) == words);
    marking::law_reproduced_or_refused(words, Seq::empty(), words);
    assert(words + Seq::<char>::empty() == words);
    assert(said.last() == words.last());
    marking::law_reproduced_or_refused(said, Seq::empty(), said);
    assert(said + Seq::<char>::empty() == said);
    lemma_outcome_opens(key, range, Kind::Body);
    let first = one(key, wysiwyg::LEAD@, lead);
    let then = outcome_marks(key, Outcome::Editable, range, Kind::Body);
    assert(first[0] == (MarkModel { key, name: "data-edit-lead"@, value: lead }));
    assert(all_passes()[11] == Pass::Admonitions);
    let here = marks_at(Pass::Admonitions, spot, Seq::empty(), src);
    assert(here == first + then);
    lemma_open_in_order(first, then, key, range);
    lemma_marked_in_order(first, then, key, "data-edit-lead"@, lead);
    lemma_open_in_the_end(content, src, 11, j, key, range);
    lemma_marked_in_the_end(content, src, 11, 13, j, key, "data-edit-lead"@, lead);
}

/// An admonition that holds the title on the line above its content is editable
/// from that line on, if both say what their lines say.
#[verifier::spinoff_prover]
pub proof fn law_every_titled_admonition_is_judged(
    content: ElementModel,
    src: Seq<char>,
    j: int,
    line: usize,
    range: LineRange,
    i: int,
    cell: ElementModel,
    title: ElementModel,
    words: Seq<char>,
    heading: Seq<char>,
)
    requires
        0 <= j < spots_of(content).len(),
        0 <= i < 5,
        words.len() > 0,
        !text::is_space(words.last()),
        text::trimmed(heading) == heading,
        text::free_of(heading, '\n'),
        ({
            let spot = spots_of(content)[j];
            let e = spot.element;
            &&& text::uppercased(e.tag) == "DIV"@
            &&& e.classes.contains("admonitionblock"@)
            &&& e.line is Some && number::numeral(e.line->0) == Some(line)
            &&& first_sought(spots_below(spot), Sought::AdmonitionBody) is Some
            &&& first_sought(spots_below(spot), Sought::AdmonitionBody)->0.element == cell
        }),
        child_classed(cell.children, "title"@) == Some(title),
        dom::text_among(title.children) == heading,
        wysiwyg::inline_text(cell) == words,
        source::is_paragraph(src, line as int, range),
        marking::range_text(src, range) == source::lead_text(i) + words,
        marking::is_title_at(src, line as int, range.start - 1),
        source::line_at(src, range.start - 1) == seq!['.'] + heading,
        marking::range_text(
            src,
            LineRange { start: (range.start - 1) as usize, end: range.end },
        ) == seq!['.'] + heading + seq!['\n'] + (source::lead_text(i) + words),
    ensures
        ({
            let marks = all_marks(content, src);
            &&& is_open(marks, cell.key, (range.start - 1) as usize, range.end)
            &&& is_marked(marks, cell.key, "data-edit-lead"@, source::lead_text(i))
        }),
{
    let spot = spots_of(content)[j];
    let key = cell.key;
    let lead = source::lead_text(i);
    let said = lead + words;
    let found = paragraph_at(src, line as int);
    let whole = LineRange { start: (range.start - 1) as usize, end: range.end };
    marking::lemma_paragraph_unique(src, line as int, range, found);
    assert(said.take(lead.len() as int) == lead);
    assert(lead.is_prefix_of(said)) by {
        assert(said.subrange(0, lead.len() as int) == lead);
    }
    assert(marking::is_lead(said, lead));
    let got = lead_of(said)->0;
    lemma_lead_unique(said, lead, got);
    assert(lead_of(said) == Some(lead));
    assert(said.skip(lead.len() as int) == words);
    marking::law_reproduced_or_refused(words, Seq::empty(), words);
    assert(words + Seq::<char>::empty() == words);
    let own = seq!['.'] + heading;
    assert(own.skip(1) == heading);
    assert(marking::title_words(own) == heading);
    assert(text::folded(heading) == heading);
    assert(source::title_of(heading) == own);
    let back = marking::admonition_text(lead, words, Some(heading));
    assert(back == own + seq!['\n'] + said);
    assert(back.last() == words.last());
    marking::law_reproduced_or_refused(back, Seq::empty(), back);
    assert(back + Seq::<char>::empty() == back);
    lemma_outcome_opens(key, whole, Kind::Body);
    let first = one(key, wysiwyg::LEAD@, lead);
    let then = outcome_marks(key, Outcome::Editable, whole, Kind::Body);
    assert(first[0] == (MarkModel { key, name: "data-edit-lead"@, value: lead }));
    assert(all_passes()[11] == Pass::Admonitions);
    let here = marks_at(Pass::Admonitions, spot, Seq::empty(), src);
    assert(held_words(Some(title)) == Some(heading));
    assert(here == first + then);
    lemma_open_in_order(first, then, key, whole);
    lemma_marked_in_order(first, then, key, "data-edit-lead"@, lead);
    lemma_open_in_the_end(content, src, 11, j, key, whole);
    lemma_marked_in_the_end(content, src, 11, 13, j, key, "data-edit-lead"@, lead);
}

/// The title of a block that says what its line says, after whatever the
/// renderer put in front of it, is editable on that line, and records what was
/// put there; unless it is in something that is editable already.
#[verifier::spinoff_prover]
pub proof fn law_every_title_is_judged(
    spot: SpotModel,
    before: Seq<MarkModel>,
    src: Seq<char>,
    line: usize,
    n: usize,
    title: SpotModel,
    prefix: Seq<char>,
    words: Seq<char>,
)
    requires
        words.len() > 0,
        !text::is_space(words[0]),
        !text::is_space(words.last()),
        text::free_of(words, '\n'),
        spot.element.line is Some && number::numeral(spot.element.line->0) == Some(line),
        first_sought(spots_below(spot), Sought::Title { depth: spot.above.len() as usize })
            == Some(title),
        marking::is_title_at(src, line as int, n as int),
        source::line_at(src, n as int) == seq!['.'] + words,
        marking::whole_text(title.element) == prefix + words,
    ensures
        ({
            let marks = marks_at(Pass::Titles, spot, before, src);
            let key = title.element.key;
            if is_hosted(title, before) {
                marks.len() == 0
            } else {
                &&& is_open(marks, key, n, n)
                &&& is_marked(marks, key, "data-edit-title"@, "true"@)
                &&& prefix.len() > 0 ==> is_marked(marks, key, "data-edit-prefix"@, prefix)
            }
        }),
{
    let key = title.element.key;
    let range = LineRange { start: n, end: n };
    marking::lemma_title_unique(src, line as int, n as int, title_at(src, line as int)->0);
    assert(title_at(src, line as int) == Some(n as int));
    marking::law_lines_written_as_they_say(words, prefix, 0, 2);
    lemma_outcome_opens(key, range, Kind::Title);
    let first = prefix_marks(key, prefix);
    let then = outcome_marks(key, Outcome::Editable, range, Kind::Title);
    assert(then[3] == (MarkModel { key, name: "data-edit-title"@, value: "true"@ }));
    if !is_hosted(title, before) {
        assert(marks_at(Pass::Titles, spot, before, src) == first + then);
        lemma_open_in_order(first, then, key, range);
        lemma_marked_in_order(first, then, key, "data-edit-title"@, "true"@);
        if prefix.len() > 0 {
            assert(first[0] == (MarkModel { key, name: "data-edit-prefix"@, value: prefix }));
            lemma_marked_in_order(first, then, key, "data-edit-prefix"@, prefix);
        }
    }
}

/// The title of the document is editable on the first line that is one, as a
/// heading of the first level.
pub proof fn law_document_title_is_judged(
    content: ElementModel,
    src: Seq<char>,
    title: SpotModel,
    line: usize,
    words: Seq<char>,
)
    requires
        words.len() > 0,
        !text::is_space(words[0]),
        !text::is_space(words.last()),
        text::free_of(words, '\n'),
        first_sought(spots_of(content), Sought::DocumentTitle) == Some(title),
        marking::is_title_line(src, line as int),
        source::line_at(src, line as int) == seq!['=', ' '] + words,
        wysiwyg::inline_text(title.element) == words,
    ensures
        ({
            let marks = all_marks(content, src);
            let key = title.element.key;
            &&& is_open(marks, key, line, line)
            &&& is_marked(marks, key, "data-edit-level"@, number::decimal(1))
        }),
{
    let key = title.element.key;
    let range = LineRange { start: line, end: line };
    let found = choose|n: int| marking::is_title_line(src, n);
    assert(marking::is_title_line(src, found));
    if found < line {
        assert(!source::is_heading(source::line_at(src, found), 1));
    } else if (line as int) < found {
        assert(!source::is_heading(source::line_at(src, line as int), 1));
    }
    assert(seq!['=', ' '] + words == text::repeated('=', 1) + seq![' '] + words);
    marking::law_lines_written_as_they_say(words, Seq::empty(), 1, 2);
    lemma_outcome_opens(key, range, Kind::Heading(1));
    let spots = spots_of(content);
    let before = passed_all(all_passes(), spots, src);
    let here = document_title_marks(spots, src);
    assert(here == outcome_marks(key, Outcome::Editable, range, Kind::Heading(1)));
    lemma_open_in_order(before, here, key, range);
    lemma_marked_in_order(before, here, key, "data-edit-level"@, number::decimal(1));
}

/// What is looked for is the first place that is what is looked for: a `td` of
/// the class `content`; something of the class `title` right in the block, or
/// in a content cell below it; an `h1` that names no line.
pub proof fn law_what_is_looked_for(spots: Seq<SpotModel>, sought: Sought, k: int)
    requires
        0 <= k < spots.len(),
    ensures
        is_sought(sought, spots[k]) && (forall|i: int|
            0 <= i < k ==> !is_sought(sought, #[trigger] spots[i])) ==> first_sought(
            spots,
            sought,
        ) == Some(spots[k]),
        first_sought(spots, sought) is None ==> !is_sought(sought, spots[k]),
        is_sought(Sought::AdmonitionBody, spots[k]) <==> text::uppercased(spots[k].element.tag)
            == "TD"@ && spots[k].element.classes.contains("content"@),
        is_sought(Sought::DocumentTitle, spots[k]) <==> text::uppercased(spots[k].element.tag)
            == "H1"@ && spots[k].element.line is None,
        forall|depth: usize|
            #![trigger is_sought(Sought::Title { depth }, spots[k])]
            is_sought(Sought::Title { depth }, spots[k]) <==> {
                let above = spots[k].above;
                &&& spots[k].element.classes.contains("title"@)
                &&& above.len() > depth
                &&& above.len() == depth + 1 || (text::uppercased(above.last().tag) == "TD"@
                    && above.last().classes.contains("content"@))
            },
    decreases spots.len(),
{
    let front = spots.drop_last();
    if k < front.len() {
        assert(front[k] == spots[k]);
        assert forall|i: int| 0 <= i < k implies front[i] == #[trigger] spots[i] by {}
        law_what_is_looked_for(front, sought, k);
    } else if is_sought(sought, spots[k]) && (forall|i: int|
        0 <= i < k ==> !is_sought(sought, #[trigger] spots[i])) {
        if first_sought(front, sought) is Some {
            lemma_first_sought(front, sought);
            let i = choose|i: int|
                0 <= i < front.len() && #[trigger] front[i] == first_sought(front, sought)->0;
            assert(!is_sought(sought, spots[i]));
        }
    }
}

proof fn lemma_first_sought(spots: Seq<SpotModel>, sought: Sought)
    requires
        first_sought(spots, sought) is Some,
    ensures
        exists|i: int|
            0 <= i < spots.len() && #[trigger] spots[i] == first_sought(spots, sought)->0,
        is_sought(sought, first_sought(spots, sought)->0),
    decreases spots.len(),
{
    let front = spots.drop_last();
    if first_sought(front, sought) is Some {
        lemma_first_sought(front, sought);
        let i = choose|i: int|
            0 <= i < front.len() && #[trigger] front[i] == first_sought(front, sought)->0;
        assert(spots[i] == front[i]);
    } else {
        assert(spots[spots.len() - 1] == spots.last());
    }
}

/// The child of a class is the first one that has it.
pub proof fn law_child_of_a_class(
    before: Seq<NodeModel>,
    child: ElementModel,
    after: Seq<NodeModel>,
    class: Seq<char>,
)
    requires
        child.classes.contains(class),
        forall|i: int|
            0 <= i < before.len() ==> (#[trigger] before[i] matches NodeModel::Element(e)
                ==> !e.classes.contains(class)),
    ensures
        child_classed(before.push(NodeModel::Element(child)) + after, class) == Some(child),
        child_classed(before, class) is None,
    decreases before.len() + after.len(),
{
    lemma_no_child(before, class);
    let node = NodeModel::Element(child);
    let all = before.push(node) + after;
    if after.len() == 0 {
        assert(all == before.push(node));
        assert(all.drop_last() == before);
        assert(all.last() == node);
    } else {
        law_child_of_a_class(before, child, after.drop_last(), class);
        assert(all.drop_last() == before.push(node) + after.drop_last());
    }
}

proof fn lemma_no_child(nodes: Seq<NodeModel>, class: Seq<char>)
    requires
        forall|i: int|
            0 <= i < nodes.len() ==> (#[trigger] nodes[i] matches NodeModel::Element(e)
                ==> !e.classes.contains(class)),
    ensures
        child_classed(nodes, class) is None,
    decreases nodes.len(),
{
    if nodes.len() > 0 {
        let front = nodes.drop_last();
        assert forall|i: int| 0 <= i < front.len() implies (
        #[trigger] front[i] matches NodeModel::Element(e) ==> !e.classes.contains(class)) by {
            assert(front[i] == nodes[i]);
        }
        lemma_no_child(front, class);
        assert(nodes[nodes.len() - 1] == nodes.last());
    }
}

/// A title is edited with something around it if that, or the title itself, is
/// editable: whichever of the elements it is in that is.
pub proof fn law_hosted_by_anything_around(spot: SpotModel, marks: Seq<MarkModel>, i: int)
    ensures
        is_marked(marks, spot.element.key, "contenteditable"@, "true"@) ==> is_hosted(spot, marks),
        0 <= i < spot.above.len() && is_marked(
            marks,
            spot.above[i].key,
            "contenteditable"@,
            "true"@,
        ) ==> is_hosted(spot, marks),
        !is_marked(marks, spot.element.key, "contenteditable"@, "true"@) && (forall|k: int|
            0 <= k < spot.above.len() ==> !is_marked(
                marks,
                (#[trigger] spot.above[k]).key,
                "contenteditable"@,
                "true"@,
            )) ==> !is_hosted(spot, marks),
{
    lemma_editable_is_marked(marks, spot.element.key);
    if 0 <= i < spot.above.len() {
        lemma_editable_is_marked(marks, spot.above[i].key);
    }
    assert forall|k: int| 0 <= k < spot.above.len() implies is_editable(
        marks,
        (#[trigger] spot.above[k]).key,
    ) == is_marked(marks, spot.above[k].key, "contenteditable"@, "true"@) by {
        lemma_editable_is_marked(marks, spot.above[k].key);
    }
}

proof fn lemma_editable_is_marked(marks: Seq<MarkModel>, key: Option<usize>)
    ensures
        is_editable(marks, key) <==> is_marked(marks, key, "contenteditable"@, "true"@),
{
    let m = MarkModel { key, name: "contenteditable"@, value: "true"@ };
    if is_editable(marks, key) {
        let i = choose|i: int|
            0 <= i < marks.len() && (#[trigger] marks[i]).key == key && marks[i].name
                == "contenteditable"@ && marks[i].value == "true"@;
        assert(marks[i] == m);
    }
    if is_marked(marks, key, "contenteditable"@, "true"@) {
        let i = choose|i: int| 0 <= i < marks.len() && #[trigger] marks[i] == m;
        assert(marks[i].key == key);
    }
}

/// The lines of a rendered document can be looked up if each element that names
/// one names it by a number that is at least one and leaves room for four more.
pub proof fn law_lines_can_be_looked_up(content: ElementModel)
    requires
        forall|j: int|
            0 <= j < spots_of(content).len() ==> {
                let spot = #[trigger] spots_of(content)[j];
                &&& spot.element.line is Some ==> (number::numeral(
                    spot.element.line->0,
                ) matches Some(line) ==> 1 <= line && line <= usize::MAX - 4)
                &&& spot.above.len() > 0 && spot.above.last().line is Some ==> (number::numeral(
                    spot.above.last().line->0,
                ) matches Some(line) ==> 1 <= line && line <= usize::MAX - 4)
            },
    ensures
        is_page_placed(content),
{
    assert forall|i: int| 0 <= i < spots_of(content).len() implies is_spot_placed(
        #[trigger] spots_of(content)[i],
    ) by {
        let spot = spots_of(content)[i];
        assert(is_placed(spot.element));
    }
}

} // verus!
