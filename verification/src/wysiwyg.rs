//! Editing the rendered document in place.
//!
//! # How this works
//!
//! The AsciiDoc source stays the single source of truth. A rendered block is
//! made editable, the browser handles typing, selection and input methods
//! natively, and on every input the block is written back to AsciiDoc and
//! spliced into the source over the lines it came from.
//!
//! While a block has focus it is *not* rendered again: that is what keeps the
//! caret alive without any position-restoration machinery. Instead, when a
//! block's line count changes, the recorded line numbers of the blocks below
//! it are shifted to match. A full rendering happens once focus leaves the
//! document, which is also what normalises newly typed markup.
use vstd::prelude::*;

use crate::dom;
use crate::dom::Element;
use crate::list;
use crate::number;
use crate::number::read_number;
use crate::source;
use crate::source::admonition_label;
use crate::table;
use crate::text;
use crate::text::{equal, strip_prefix, trim};

verus! {

/// The block the caret is currently in.
#[derive(Clone, Copy, Debug, PartialEq)]
pub struct Block {
    pub line: usize,
    /// Last line of the block's source.
    pub end: usize,
    pub kind: Kind,
    /// The line of the title attached to this block, when it has one. Also set
    /// on a title itself, which is its own.
    pub title_line: Option<usize>,
}

/// What a block is, as far as the toolbar is concerned.
#[derive(Clone, Copy, Debug, PartialEq)]
pub enum Kind {
    Body,
    Heading(usize),
    List { ordered: bool },
    /// The title attached to a block, such as `.Things that work`.
    Title,
    /// An inline admonition, such as `NOTE: mind the gap`, labelled with one
    /// of [`source::ADMONITIONS`].
    Admonition(&'static str),
    /// The attribution under a quote or a verse, which lives in the block's
    /// attribute line rather than in its body.
    Attribution(&'static str),
    /// An image block. It has no text to edit, so it is focused rather than
    /// typed into, and changed through the panel that made it.
    Image,
    /// A cell of a table. Every cell writes the whole table back.
    Table {
        /// Whether the column count is pinned by a `cols` attribute that is
        /// not rewritten.
        fixed_columns: bool,
    },
}

/// Start line of the source the block was rendered from.
pub const LINE: &'static str = "data-edit-line";

/// Last line of that source; absent for a block with no source yet.
pub const END: &'static str = "data-edit-end";

/// Heading level, or `0` for body text.
pub const LEVEL: &'static str = "data-edit-level";

/// The list marker the source uses, so that editing preserves its style.
pub const MARKER: &'static str = "data-edit-marker";

/// Marks a block title, whose source line carries a leading dot.
pub const TITLE: &'static str = "data-edit-title";

/// Marks an attribution, holding the style whose line it belongs to.
pub const ATTRIBUTION: &'static str = "data-edit-attribution";

/// Text the renderer generates in front of a title, such as a table's number.
pub const PREFIX: &'static str = "data-edit-prefix";

/// Text the source carries in front of the content but the rendering drops,
/// such as an admonition's `NOTE: ` label.
pub const LEAD: &'static str = "data-edit-lead";

/// How a table's rows were laid out in the source.
pub const SHAPE: &'static str = "data-edit-shape";

/// What an image block points at.
pub const IMAGE: &'static str = "data-edit-image";

/// How an image block is described.
pub const IMAGE_ALT: &'static str = "data-edit-image-alt";

/// Marks a table whose `cols` attribute cannot be kept in step, and whose
/// columns therefore cannot be changed.
pub const FIXED: &'static str = "data-edit-fixed-columns";

/// What the attributes of a rendered block say of it.
#[derive(Debug, PartialEq)]
pub struct Marks {
    pub line: Option<String>,
    pub end: Option<String>,
    pub level: Option<String>,
    pub marker: Option<String>,
    pub title: bool,
    pub attribution: Option<String>,
    pub prefix: Option<String>,
    pub lead: Option<String>,
    pub shape: Option<String>,
    pub image: Option<String>,
    pub image_alt: Option<String>,
    pub fixed: bool,
}

/// The number that an attribute holds, if it is there and holds one.
pub open spec fn number_in(attribute: Option<String>) -> Option<usize> {
    match attribute {
        Some(text) => number::numeral(text@),
        None => None,
    }
}

/// The number that an attribute holds, if it is there and holds one.
pub fn attr(attribute: &Option<String>) -> (r: Option<usize>)
    ensures
        r == number_in(*attribute),
{
    match attribute {
        Some(text) => read_number(text),
        None => None,
    }
}

/// What an attribute says, or nothing when it is not there.
pub open spec fn text_in(attribute: Option<String>) -> Seq<char> {
    match attribute {
        Some(text) => text@,
        None => Seq::empty(),
    }
}

/// What an attribute says, or nothing when it is not there.
pub fn attr_text(attribute: &Option<String>) -> (r: String)
    ensures
        r@ == text_in(*attribute),
{
    match attribute {
        Some(text) => text.clone(),
        None => String::new(),
    }
}

/// What is left of `written` without the prefix that the renderer generated.
/// If the caret wandered into it there is nothing to strip, and what the user
/// typed is used whole.
pub open spec fn without_prefix(written: Seq<char>, prefix: Seq<char>) -> Seq<char> {
    match text::after_prefix(written, prefix) {
        Some(rest) => rest,
        None => written,
    }
}

/// What is left of `written` without the prefix that the renderer generated.
pub fn strip_generated<'a>(written: &'a str, prefix: &str) -> (r: &'a str)
    ensures
        r@ == without_prefix(written@, prefix@),
{
    match strip_prefix(written, prefix) {
        Some(rest) => rest,
        None => written,
    }
}

// ---------------------------------------------------------------------
// What a block is
// ---------------------------------------------------------------------

/// Whether `style` is one of the styles that carry an attribution.
pub open spec fn is_attributed(style: Seq<char>) -> bool {
    exists|i: int| 0 <= i < 2 && (#[trigger] source::ATTRIBUTED[i])@ == style
}

/// Whether `text` starts with the label of an admonition.
pub open spec fn is_labelled(text: Seq<char>) -> bool {
    exists|i: int| 0 <= i < 5 && (#[trigger] source::ADMONITIONS[i])@.is_prefix_of(text)
}

/// Whether `label` is the label of an admonition that `text` starts with.
pub open spec fn is_label(text: Seq<char>, label: Seq<char>) -> bool {
    exists|i: int|
        source::starts_with_label(text, i) && label == (#[trigger] source::ADMONITIONS[i])@
}

/// Whether the element is a list, whose items the browser manages itself.
pub open spec fn is_list_tag(tag: Seq<char>) -> bool {
    text::uppercased(tag) == "UL"@ || text::uppercased(tag) == "OL"@
}

/// Whether a block called `tag` that carries `marks` is of the given kind.
pub open spec fn is_kind(tag: Seq<char>, marks: Marks, kind: Kind) -> bool {
    if marks.title {
        kind == Kind::Title
    } else if marks.attribution is Some && is_attributed(marks.attribution->0@) {
        kind matches Kind::Attribution(style) && style@ == marks.attribution->0@
    } else if marks.image is Some {
        kind == Kind::Image
    } else if marks.shape is Some {
        kind == (Kind::Table { fixed_columns: marks.fixed })
    } else if marks.lead is Some && is_labelled(marks.lead->0@) {
        kind matches Kind::Admonition(label) && is_label(marks.lead->0@, label@)
    } else if is_list_tag(tag) {
        kind == (Kind::List { ordered: text::uppercased(tag) == "OL"@ })
    } else {
        match number_in(marks.level) {
            None => kind == Kind::Body,
            Some(level) => if level == 0 {
                kind == Kind::Body
            } else {
                kind == Kind::Heading(level)
            },
        }
    }
}

/// Whether the block is a list, whose items the browser manages itself.
pub fn is_list(tag: &str) -> (r: bool)
    ensures
        r == is_list_tag(tag@),
{
    let name = text::uppercase(tag);
    equal(&name, "UL") || equal(&name, "OL")
}

/// Which of the styles that carry an attribution is called `name`.
fn attributed_style(name: &str) -> (r: Option<&'static str>)
    ensures
        r is Some <==> is_attributed(name@),
        r matches Some(style) ==> style@ == name@,
{
    let mut i: usize = 0;
    while i < 2
        invariant
            i <= 2,
            forall|j: int| 0 <= j < i ==> (#[trigger] source::ATTRIBUTED[j])@ != name@,
        decreases 2 - i,
    {
        if equal(source::ATTRIBUTED[i], name) {
            return Some(source::ATTRIBUTED[i]);
        }
        i += 1;
    }
    None
}

/// What a block called `tag` is.
pub fn kind_of(tag: &str, marks: &Marks) -> (r: Kind)
    ensures
        is_kind(tag@, *marks, r),
{
    if marks.title {
        return Kind::Title;
    }
    if let Some(name) = &marks.attribution {
        if let Some(style) = attributed_style(name) {
            return Kind::Attribution(style);
        }
    }
    if marks.image.is_some() {
        return Kind::Image;
    }
    if marks.shape.is_some() {
        return Kind::Table { fixed_columns: marks.fixed };
    }
    if let Some(lead) = &marks.lead {
        if let Some(label) = admonition_label(lead) {
            proof {
                let i = choose|i: int|
                    source::starts_with_label(lead@, i) && label@ == (
                    #[trigger] source::ADMONITIONS[i])@;
                assert(source::ADMONITIONS[i]@.is_prefix_of(lead@));
                assert(is_labelled(lead@));
            }
            return Kind::Admonition(label);
        }
        assert(!is_labelled(lead@));
    }
    if is_list(tag) {
        return Kind::List { ordered: equal(&text::uppercase(tag), "OL") };
    }
    match attr(&marks.level) {
        Some(level) => if level == 0 {
            Kind::Body
        } else {
            Kind::Heading(level)
        },
        None => Kind::Body,
    }
}

/// What the attributes of a rendered title say of it.
pub struct TitleMarks {
    /// Whether the title is marked in its own right.
    pub marked: bool,
    pub line: Option<String>,
}

/// What stands around a block that may be its title.
pub struct Surroundings {
    /// The title that the block holds, as an admonition does.
    pub held: Option<TitleMarks>,
    /// The line that the caption of the table is marked with, for a cell.
    pub caption: Option<String>,
    /// The line that a marked title beside the block is marked with.
    pub beside: Option<TitleMarks>,
    /// The line that a marked title in the block is marked with.
    pub inside: Option<TitleMarks>,
}

/// The line of the title that belongs to a block.
pub open spec fn title_line_in(marks: Marks, around: Surroundings) -> Option<usize> {
    if marks.title {
        number_in(marks.line)
    } else {
        match around.held {
            // A title marked in its own right knows which line it came from;
            // one the block holds instead of marking is the block's first.
            Some(held) => if held.marked {
                number_in(held.line)
            } else {
                number_in(marks.line)
            },
            None => if marks.shape is Some {
                // A cell's own line is a row; the table's title is its caption.
                number_in(around.caption)
            } else {
                match around.beside {
                    Some(beside) => number_in(beside.line),
                    None => match around.inside {
                        Some(inside) => number_in(inside.line),
                        None => None,
                    },
                }
            },
        }
    }
}

/// The line of the block's title, whether the block *is* the title or merely
/// carries one.
pub fn title_line_of(marks: &Marks, around: &Surroundings) -> (r: Option<usize>)
    ensures
        r == title_line_in(*marks, *around),
{
    if marks.title {
        return attr(&marks.line);
    }
    if let Some(held) = &around.held {
        if held.marked {
            return attr(&held.line);
        }
        return attr(&marks.line);
    }
    if marks.shape.is_some() {
        return attr(&around.caption);
    }
    if let Some(beside) = &around.beside {
        return attr(&beside.line);
    }
    if let Some(inside) = &around.inside {
        return attr(&inside.line);
    }
    None
}

/// The block that has been focused, if it is one that can be edited.
pub fn focused_block(tag: &str, marks: &Marks, around: &Surroundings) -> (r: Option<Block>)
    ensures
        match number_in(marks.line) {
            Some(line) => match r {
                Some(block) => {
                    &&& block.line == line
                    &&& block.end == match number_in(marks.end) {
                        Some(end) => end,
                        None => line,
                    }
                    &&& is_kind(tag@, *marks, block.kind)
                    &&& block.title_line == title_line_in(*marks, *around)
                },
                None => false,
            },
            None => r is None,
        },
{
    let line = match attr(&marks.line) {
        Some(line) => line,
        None => return None,
    };
    let end = match attr(&marks.end) {
        Some(end) => end,
        None => line,
    };
    Some(
        Block {
            line,
            end,
            kind: kind_of(tag, marks),
            title_line: title_line_of(marks, around),
        },
    )
}

/// What an image block points at, and how it is described.
pub fn image_of(marks: &Marks) -> (r: Option<(String, String)>)
    ensures
        match marks.image {
            Some(target) => r is Some && (r->0).0@ == target@ && (r->0).1@ == text_in(
                marks.image_alt,
            ),
            None => r is None,
        },
{
    match &marks.image {
        Some(target) => Some((target.clone(), attr_text(&marks.image_alt))),
        None => None,
    }
}

/// Whether a block of the given kind has words.
pub open spec fn has_words(kind: Kind) -> bool {
    kind != Kind::Image
}

/// Whether a link can be written into this kind of block.
///
/// Anything with text can hold one; an image has none.
pub fn takes_links(kind: Kind) -> (r: bool)
    ensures
        r == has_words(kind),
        r == (kind != Kind::Image),
{
    match kind {
        Kind::Image => false,
        _ => true,
    }
}

// ---------------------------------------------------------------------
// What a block says
// ---------------------------------------------------------------------

/// A rendered table as AsciiDoc, in the layout that `shape` records.
pub open spec fn table_text(t: dom::ElementModel, shape: Seq<char>) -> Seq<char> {
    let rows = table::rows_in(t);
    text::joined(
        table::table_lines(
            table::row_texts(rows),
            table::slots_of(text::pieces(shape, ',')),
            table::widest(rows) as usize,
            table::headed(t),
        ),
        source::newline(),
    )
}

/// The marker of a list: the one recorded, or a star.
pub open spec fn recorded_marker(marker: Option<String>) -> char {
    match marker {
        Some(text) => if text@.len() > 0 {
            text@[0]
        } else {
            '*'
        },
        None => '*',
    }
}

/// The content of a rendered element as inline AsciiDoc.
pub open spec fn inline_text(element: dom::ElementModel) -> Seq<char> {
    text::trimmed(crate::inline::written(crate::inline::nodes_read(element.children)))
}

/// The content of a rendered list as AsciiDoc, with the marker `c`, or that of
/// another element as inline AsciiDoc.
pub open spec fn list_or_inline_text(element: dom::ElementModel, c: char) -> Seq<char> {
    match list::element_list(element) {
        Some(items) => list::list_text(items, c),
        None => inline_text(element),
    }
}

/// A block's content as AsciiDoc: the whole table for a cell of one.
pub open spec fn block_text(
    element: dom::ElementModel,
    marks: Marks,
    table: Option<dom::ElementModel>,
) -> Seq<char> {
    if marks.shape is Some && table is Some {
        table_text(table->0, marks.shape->0@)
    } else {
        list_or_inline_text(element, recorded_marker(marks.marker))
    }
}

/// What a table that may be missing stands for.
pub open spec fn maybe_element(element: Option<&Element>) -> Option<dom::ElementModel> {
    match element {
        Some(e) => Some(dom::element_model(*e)),
        None => None,
    }
}

/// The whole table a cell belongs to, written out as rows.
pub fn table_of(table: &Element, shape: &str) -> (r: String)
    ensures
        r@ == table_text(dom::element_model(*table), shape@),
{
    table::to_asciidoc(
        &table::cells_from_dom(table),
        &table::decode(shape),
        table::columns(table),
        table::has_header(table),
    )
}

/// The content of a rendered element as inline AsciiDoc.
pub fn inline_of(element: &Element) -> (r: String)
    ensures
        r@ == inline_text(dom::element_model(*element)),
{
    let words = crate::inline::to_asciidoc(&crate::inline::from_node(element));
    trim(&words).to_string()
}

/// The content of a rendered list as AsciiDoc, with the recorded marker, or
/// that of another element as inline AsciiDoc.
pub fn list_or_inline(element: &Element, marker: &Option<String>) -> (r: String)
    ensures
        r@ == list_or_inline_text(dom::element_model(*element), recorded_marker(*marker)),
{
    match list::from_element(element) {
        Some(items) => {
            let c = match marker {
                Some(text) => if text.as_str().is_empty() {
                    '*'
                } else {
                    text.as_str().get_char(0)
                },
                None => '*',
            };
            list::to_asciidoc(&items, c)
        },
        None => inline_of(element),
    }
}

/// The block's content as AsciiDoc. A cell stands for the table it is in.
pub fn serialize(element: &Element, marks: &Marks, table: Option<&Element>) -> (r: String)
    ensures
        r@ == block_text(dom::element_model(*element), *marks, maybe_element(table)),
{
    if let Some(shape) = &marks.shape {
        if let Some(t) = table {
            return table_of(t, shape);
        }
    }
    list_or_inline(element, &marks.marker)
}

// ---------------------------------------------------------------------
// What marks say
// ---------------------------------------------------------------------

/// A block is what its marks say, the first of them that says anything: a title,
/// an attribution of a quote or a verse, an image, a cell of a table, an
/// admonition by its label, a list by its name, a heading by its level, and else
/// body text.
pub proof fn law_kind_by_the_first_mark(tag: Seq<char>, marks: Marks, kind: Kind, i: int)
    requires
        is_kind(tag, marks, kind),
    ensures
        ({
            let attributed = marks.attribution is Some && (marks.attribution->0@ == "quote"@
                || marks.attribution->0@ == "verse"@);
            let lead = text_in(marks.lead);
            let name = text::uppercased(tag);
            &&& marks.title <==> kind is Title
            &&& !marks.title ==> {
                &&& attributed <==> kind is Attribution
                &&& attributed ==> kind->Attribution_0@ == marks.attribution->0@
                &&& !attributed ==> {
                    &&& marks.image is Some <==> kind is Image
                    &&& marks.image is None ==> {
                        &&& marks.shape is Some <==> kind is Table
                        &&& marks.shape is Some ==> kind->fixed_columns == marks.fixed
                        &&& marks.shape is None ==> {
                            &&& marks.lead is Some && 0 <= i < 5
                                && source::ADMONITIONS[i]@.is_prefix_of(lead) ==> kind is Admonition
                                && kind->Admonition_0@ == source::ADMONITIONS[i]@
                            &&& kind is Admonition ==> marks.lead is Some
                                && kind->Admonition_0@.is_prefix_of(lead)
                            &&& !(kind is Admonition) ==> {
                                &&& kind is List <==> name == "UL"@ || name == "OL"@
                                &&& kind is List ==> (kind->ordered <==> name == "OL"@)
                                &&& !(kind is List) ==> match number_in(marks.level) {
                                    Some(level) => if level > 0 {
                                        kind == Kind::Heading(level)
                                    } else {
                                        kind is Body
                                    },
                                    None => kind is Body,
                                }
                            }
                        }
                    }
                }
            }
        }),
{
    assert(source::ATTRIBUTED[0]@ == "quote"@ && source::ATTRIBUTED[1]@ == "verse"@);
    let lead = text_in(marks.lead);
    if marks.lead is Some {
        if 0 <= i < 5 && source::ADMONITIONS[i]@.is_prefix_of(lead) {
            assert(is_labelled(lead));
            assert forall|j: int| source::starts_with_label(lead, j) implies j == i by {
                crate::laws::lemma_labels_differ(i, j, lead);
            }
        }
    }
}

/// A number is read from an attribute that was written with it; an attribute
/// that is not there has none, and says nothing.
pub proof fn law_attributes_read_back(n: usize, attribute: Option<String>)
    ensures
        attribute is None ==> number_in(attribute) is None && text_in(attribute).len() == 0
            && recorded_marker(attribute) == '*',
        attribute is Some && attribute->0@ == number::decimal(n as nat) ==> number_in(attribute)
            == Some(n),
        attribute is Some ==> text_in(attribute) == attribute->0@,
        attribute is Some && attribute->0@.len() > 0 ==> recorded_marker(attribute)
            == attribute->0@[0],
        attribute is Some && attribute->0@.len() == 0 ==> recorded_marker(attribute) == '*',
{
    number::law_number_read_back(n);
}

/// The title of a block is, in this order, itself, the title that it holds, the
/// caption of its table, a title beside it, and a title in it.
pub proof fn law_title_line_in_order(marks: Marks, around: Surroundings)
    ensures
        ({
            let found = title_line_in(marks, around);
            &&& marks.title ==> found == number_in(marks.line)
            &&& !marks.title && around.held is Some && around.held->0.marked ==> found
                == number_in(around.held->0.line)
            &&& !marks.title && around.held is Some && !around.held->0.marked ==> found
                == number_in(marks.line)
            &&& !marks.title && around.held is None && marks.shape is Some ==> found
                == number_in(around.caption)
            &&& !marks.title && around.held is None && marks.shape is None ==> {
                &&& around.beside is Some ==> found == number_in(around.beside->0.line)
                &&& around.beside is None && around.inside is Some ==> found == number_in(
                    around.inside->0.line,
                )
                &&& around.beside is None && around.inside is None ==> found is None
            }
        }),
{
}

/// A block says what it was rendered from: words without white space around
/// them, or a list by its items with the marker that is recorded. A cell says
/// what its whole table does, and so says it in the recorded layout.
pub proof fn law_block_says_what_is_rendered(
    element: dom::ElementModel,
    spans: Seq<crate::inline::Span>,
    browser: bool,
    items: list::Outline,
    wrapped: bool,
    marks: Marks,
    t: dom::ElementModel,
)
    requires
        element.children == crate::inline::rendered_all(spans, browser),
        text::uppercased(element.tag) != "UL"@,
        text::uppercased(element.tag) != "OL"@,
    ensures
        ({
            let words = text::trimmed(crate::inline::written(spans));
            let marker = match marks.marker {
                Some(text) => if text@.len() > 0 {
                    text@[0]
                } else {
                    '*'
                },
                None => '*',
            };
            &&& inline_text(element) == words
            &&& marks.shape is None ==> block_text(element, marks, None) == words
            &&& marks.shape is None ==> block_text(element, marks, Some(t)) == words
            &&& block_text(element, marks, None) == words
            &&& marks.shape is None ==> block_text(
                list::list_rendered(items, wrapped),
                marks,
                None,
            ) == list::list_text(items, marker)
            &&& marks.shape is Some ==> block_text(element, marks, Some(t)) == table_text(
                t,
                marks.shape->0@,
            )
        }),
{
    crate::inline::law_rendering_read_back(spans, browser);
    list::law_rendered_list_read_back(items, wrapped);
}

/// A rendered table says what its cells do, one row after another, in the layout
/// that is recorded if that has room for each of them, and else by its widest
/// row.
pub proof fn law_table_says_its_cells(t: dom::ElementModel, shape: Seq<table::Slot>)
    ensures
        ({
            let cells = table::row_texts(table::rows_in(t));
            let said = table_text(t, table::encoded(shape));
            &&& table::accounted(shape) == cells.len() ==> said == text::joined(
                table::poured(cells, shape),
                seq!['\n'],
            )
            &&& table::accounted(shape) != cells.len() && table::widest(table::rows_in(t))
                <= usize::MAX ==> said == text::joined(
                table::reflowed(
                    cells,
                    if table::widest(table::rows_in(t)) == 0 {
                        1
                    } else {
                        table::widest(table::rows_in(t))
                    },
                    table::headed(t),
                ),
                seq!['\n'],
            )
        }),
{
    table::law_shape_read_back(shape);
}

/// Every block has words but an image.
pub proof fn law_all_but_images_have_words(kind: Kind)
    ensures
        match kind {
            Kind::Image => !has_words(kind),
            Kind::Body => has_words(kind),
            Kind::Heading(_) => has_words(kind),
            Kind::List { .. } => has_words(kind),
            Kind::Title => has_words(kind),
            Kind::Admonition(_) => has_words(kind),
            Kind::Attribution(_) => has_words(kind),
            Kind::Table { .. } => has_words(kind),
        },
{
}

} // verus!
