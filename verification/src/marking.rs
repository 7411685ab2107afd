//! Which rendered blocks can be edited.
//!
//! A block is editable only if writing its rendering back out reproduces its
//! source *exactly*. That check is the whole safety story: a table with cell
//! specifiers, an attribute reference (`{version}` renders as its value), or a
//! character substitution (`--` renders as a dash) cannot survive the round
//! trip, so those blocks are left alone rather than silently rewritten.
//! Editing them stays a job for source mode.
use vstd::prelude::*;

use crate::dom;
use crate::dom::Element;
use crate::number;
use crate::number::write_number;
use crate::source;
use crate::source::{
    admonition_label, admonition_lead, as_block, as_title, block_title_line, block_title_text,
    columns_attribute, heading_level, heading_text, image_parts, list_marker, list_range,
    paragraph_range, table_range, text_of, with_attribution, Columns, LineRange,
};
use crate::table;
use crate::text;
use crate::text::{equal, lines, strip_suffix, trim_end};
use crate::wysiwyg;
use crate::wysiwyg::{inline_of, list_or_inline, strip_generated, table_of, Kind};

verus! {

/// What becomes of a rendered block.
#[derive(Clone, Copy, Debug, PartialEq, Eq, Structural)]
pub enum Outcome {
    /// It is left as it is.
    Skipped,
    /// It looks editable but is not, and says so.
    Refused,
    /// It can be edited.
    Editable,
}

/// Explains why a block that looks editable is not.
pub const REFUSED: &'static str = "This block can only be edited in source mode";

/// What is to be recorded on a rendered block. The attributes are recorded
/// whatever becomes of the block.
#[derive(Debug, PartialEq)]
pub struct Offer {
    pub outcome: Outcome,
    /// The lines that the block came from.
    pub range: LineRange,
    pub kind: Kind,
    /// The marker of a list.
    pub marker: Option<String>,
    /// What the renderer generated in front of the text.
    pub prefix: Option<String>,
    /// What the source carries in front of the text.
    pub lead: Option<String>,
}

/// What becomes of a block that says `written` and should say `expected`:
/// whether writing it back out reproduces its source exactly.
pub open spec fn outcome_of(written: Seq<char>, expected: Seq<char>) -> Outcome {
    if written == text::trimmed_end(expected) {
        Outcome::Editable
    } else {
        Outcome::Refused
    }
}

/// What becomes of a block that says `written` and should say `expected`, and
/// that would be written back as `back` over lines that say `own`.
pub open spec fn judged(
    written: Seq<char>,
    expected: Seq<char>,
    back: Seq<char>,
    own: Seq<char>,
) -> Outcome {
    if outcome_of(written, expected) == Outcome::Editable {
        outcome_of(back, own)
    } else {
        Outcome::Refused
    }
}

/// The text of the lines in a range.
pub open spec fn range_text(src: Seq<char>, range: LineRange) -> Seq<char> {
    text::joined(
        source::span(text::lines_of(src), range.start as int, range.end as int),
        source::newline(),
    )
}

/// Whether writing a block back out reproduces its source exactly.
pub fn round_trips(written: &str, expected: &str) -> (r: bool)
    ensures
        r == (outcome_of(written@, expected@) == Outcome::Editable),
{
    equal(written, trim_end(expected))
}

fn outcome(written: &str, expected: &str) -> (r: Outcome)
    ensures
        r == outcome_of(written@, expected@),
{
    if round_trips(written, expected) {
        Outcome::Editable
    } else {
        Outcome::Refused
    }
}

fn judge(written: &str, expected: &str, back: &str, own: &str) -> (r: Outcome)
    ensures
        r == judged(written@, expected@, back@, own@),
{
    if round_trips(written, expected) {
        outcome(back, own)
    } else {
        Outcome::Refused
    }
}

/// An offer with nothing to record.
fn plain(outcome: Outcome, range: LineRange, kind: Kind) -> (r: Offer)
    ensures
        r.outcome == outcome,
        r.range == range,
        r.kind == kind,
        r.marker is None,
        r.prefix is None,
        r.lead is None,
{
    Offer { outcome, range, kind, marker: None, prefix: None, lead: None }
}

/// One line, as the text of a range.
pub proof fn lemma_single(src: Seq<char>, line: usize)
    ensures
        1 <= line ==> range_text(src, (LineRange { start: line, end: line })) == source::line_at(
            src,
            line as int,
        ),
{
    let all = text::lines_of(src);
    if 1 <= line <= all.len() {
        assert(source::span(all, line as int, line as int) == seq![all[line - 1]]);
    } else if 1 <= line {
        assert(source::span(all, line as int, line as int).len() == 0);
    }
}

// ---------------------------------------------------------------------
// Paragraphs and headings
// ---------------------------------------------------------------------

/// Offers the paragraph rendered from the block starting at `line`.
pub fn offer_paragraph(src: &str, line: usize, paragraph: &Element) -> (r: Offer)
    requires
        1 <= line < usize::MAX,
    ensures
        source::is_paragraph(src@, line as int, r.range),
        r.kind == Kind::Body,
        r.outcome == outcome_of(
            wysiwyg::inline_text(dom::element_model(*paragraph)),
            range_text(src@, r.range),
        ),
        r.marker is None,
        r.prefix is None,
        r.lead is None,
{
    let range = paragraph_range(src, line);
    let written = inline_of(paragraph);
    plain(outcome(&written, &text_of(src, range)), range, Kind::Body)
}

/// What becomes of a heading of level `level` that says `written`, by the line
/// that the source has for it.
pub open spec fn heading_outcome(written: Seq<char>, line: Seq<char>, level: usize) -> Outcome {
    judged(written, source::heading_title(line), source::headed(written, Some(level)), line)
}

/// Offers the heading of level `level` rendered from `line`, if the source
/// has such a heading there.
pub fn offer_heading(src: &str, line: usize, level: usize, heading: &Element) -> (r: Offer)
    requires
        1 <= line < usize::MAX,
    ensures
        r.range == (LineRange { start: line, end: line }),
        r.kind == Kind::Heading(level),
        source::is_heading(source::line_at(src@, line as int), level as int) ==> r.outcome
            == heading_outcome(
            wysiwyg::inline_text(dom::element_model(*heading)),
            source::line_at(src@, line as int),
            level,
        ),
        !source::is_heading(source::line_at(src@, line as int), level as int) ==> r.outcome
            == Outcome::Skipped,
        r.marker is None,
        r.prefix is None,
        r.lead is None,
{
    let range = LineRange::single(line);
    let title = text_of(src, range);
    proof {
        lemma_single(src@, line);
    }
    let found = match heading_level(&title) {
        Some(n) => {
            proof {
                source::lemma_heading_title(title@, n as int);
            }
            n == level
        },
        None => false,
    };
    if !found {
        return plain(Outcome::Skipped, range, Kind::Heading(level));
    }
    let written = inline_of(heading);
    let back = as_block(&written, Some(level));
    plain(judge(&written, heading_text(&title), &back, &title), range, Kind::Heading(level))
}

/// Whether line `line` is the first level-1 heading of the source.
pub open spec fn is_title_line(src: Seq<char>, line: int) -> bool {
    &&& 1 <= line <= text::lines_of(src).len()
    &&& source::is_heading(source::line_at(src, line), 1)
    &&& forall|k: int| 1 <= k < line ==> !source::is_heading(#[trigger] source::line_at(src, k), 1)
}

/// The line holding the document title.
pub fn title_line(src: &str) -> (r: Option<usize>)
    ensures
        r matches Some(line) ==> is_title_line(src@, line as int) && line < usize::MAX,
        r is None ==> forall|line: int| !is_title_line(src@, line),
{
    let all = lines(src);
    let mut i: usize = 0;
    while i < all.len()
        invariant
            i <= all@.len(),
            4 * all@.len() <= isize::MAX,
            text::texts(all@) == text::lines_of(src@),
            forall|k: int|
                1 <= k <= i ==> !source::is_heading(#[trigger] source::line_at(src@, k), 1),
        decreases all.len() - i,
    {
        let line = all[i].as_str();
        assert(line@ == source::line_at(src@, i + 1));
        let first = match heading_level(line) {
            Some(n) => {
                proof {
                    source::lemma_heading_title(line@, n as int);
                }
                n == 1
            },
            None => false,
        };
        if first {
            return Some(i + 1);
        }
        i += 1;
    }
    None
}

/// Offers the document title. It is rendered from the header rather than from
/// a block, so it carries no line of its own, but it is always the first
/// level-1 heading in the source.
pub fn offer_document_title(src: &str, title: &Element) -> (r: Offer)
    ensures
        r.kind == Kind::Heading(1),
        r.range.start == r.range.end,
        r.outcome == Outcome::Skipped <==> forall|line: int| !is_title_line(src@, line),
        r.outcome != Outcome::Skipped ==> is_title_line(src@, r.range.start as int) && r.outcome
            == heading_outcome(
            wysiwyg::inline_text(dom::element_model(*title)),
            source::line_at(src@, r.range.start as int),
            1,
        ),
        r.marker is None,
        r.prefix is None,
        r.lead is None,
{
    match title_line(src) {
        Some(line) => {
            let range = LineRange::single(line);
            let found = text_of(src, range);
            proof {
                lemma_single(src@, line);
                assert(is_title_line(src@, line as int));
            }
            let written = inline_of(title);
            let back = as_block(&written, Some(1));
            plain(judge(&written, heading_text(&found), &back, &found), range, Kind::Heading(1))
        },
        None => plain(Outcome::Skipped, LineRange::single(0), Kind::Heading(1)),
    }
}

// ---------------------------------------------------------------------
// Lists
// ---------------------------------------------------------------------

/// Whether `items` are the lines of the list rendered from the block starting
/// at `start`.
pub open spec fn is_list_range(src: Seq<char>, start: int, items: LineRange) -> bool {
    exists|block: LineRange| #[trigger]
        source::is_paragraph(src, start, block) && {
            &&& block.start <= items.start <= items.end
            &&& items.end == block.end
            &&& source::marker_of(source::line_at(src, items.start as int)) is Some
            &&& forall|k: int|
                block.start <= k < items.start ==> source::marker_of(
                    #[trigger] source::line_at(src, k),
                ) is None
        }
}

/// Offers the list rendered from the block starting at `line`.
///
/// A nested list is edited through the list that contains it: on its own it
/// has no idea how deep it sits, so it could not write its items back with the
/// right number of markers.
pub fn offer_list(src: &str, line: usize, items: &Element, nested: bool) -> (r: Offer)
    requires
        1 <= line < usize::MAX,
    ensures
        r.kind == Kind::Body,
        r.prefix is None,
        r.lead is None,
        r.outcome == Outcome::Skipped <==> nested || forall|range: LineRange|
            !is_list_range(src@, line as int, range),
        r.outcome == Outcome::Skipped ==> r.marker is None,
        r.outcome != Outcome::Skipped ==> {
            &&& is_list_range(src@, line as int, r.range)
            &&& text::maybe_string(r.marker) == source::marker_of(
                source::line_at(src@, r.range.start as int),
            )
            &&& r.outcome == outcome_of(
                wysiwyg::list_or_inline_text(
                    dom::element_model(*items),
                    wysiwyg::recorded_marker(r.marker),
                ),
                range_text(src@, r.range),
            )
        },
{
    if nested {
        return plain(Outcome::Skipped, LineRange::single(0), Kind::Body);
    }
    let range = match list_range(src, line) {
        Some(range) => range,
        None => {
            proof {
                lemma_no_list(src@, line as int);
            }
            return plain(Outcome::Skipped, LineRange::single(0), Kind::Body);
        },
    };
    assert(is_list_range(src@, line as int, range));
    let first = text_of(src, LineRange::single(range.start));
    proof {
        lemma_single(src@, range.start);
    }
    // Recorded before the round trip is judged, because writing the list back
    // out reads the marker from here.
    let marker = match list_marker(&first) {
        Some(found) => Some(found.to_string()),
        None => None,
    };
    let written = wysiwyg::list_or_inline(items, &marker);
    Offer {
        outcome: outcome(&written, &text_of(src, range)),
        range,
        kind: Kind::Body,
        marker,
        prefix: None,
        lead: None,
    }
}

/// Where no line of the block is an item, there is no list.
proof fn lemma_no_list(src: Seq<char>, start: int)
    requires
        exists|block: LineRange| #[trigger]
            source::is_paragraph(src, start, block) && forall|k: int|
                block.start <= k <= block.end ==> source::marker_of(
                    #[trigger] source::line_at(src, k),
                ) is None,
    ensures
        forall|range: LineRange| !is_list_range(src, start, range),
{
    let block = choose|block: LineRange| #[trigger]
        source::is_paragraph(src, start, block) && forall|k: int|
            block.start <= k <= block.end ==> source::marker_of(
                #[trigger] source::line_at(src, k),
            ) is None;
    assert forall|range: LineRange| !is_list_range(src, start, range) by {
        if is_list_range(src, start, range) {
            let other = choose|b: LineRange| #[trigger]
                source::is_paragraph(src, start, b) && {
                    &&& b.start <= range.start <= range.end
                    &&& range.end == b.end
                    &&& source::marker_of(source::line_at(src, range.start as int)) is Some
                    &&& forall|k: int|
                        b.start <= k < range.start ==> source::marker_of(
                            #[trigger] source::line_at(src, k),
                        ) is None
                };
            lemma_paragraph_unique(src, start, block, other);
            assert(source::marker_of(source::line_at(src, range.start as int)) is Some);
        }
    }
}

/// There is one place at most for a list.
pub proof fn lemma_list_range_unique(src: Seq<char>, start: int, a: LineRange, b: LineRange)
    requires
        is_list_range(src, start, a),
        is_list_range(src, start, b),
    ensures
        a == b,
{
    let block = choose|block: LineRange| #[trigger]
        source::is_paragraph(src, start, block) && {
            &&& block.start <= a.start <= a.end
            &&& a.end == block.end
            &&& source::marker_of(source::line_at(src, a.start as int)) is Some
            &&& forall|k: int|
                block.start <= k < a.start ==> source::marker_of(
                    #[trigger] source::line_at(src, k),
                ) is None
        };
    let other = choose|block: LineRange| #[trigger]
        source::is_paragraph(src, start, block) && {
            &&& block.start <= b.start <= b.end
            &&& b.end == block.end
            &&& source::marker_of(source::line_at(src, b.start as int)) is Some
            &&& forall|k: int|
                block.start <= k < b.start ==> source::marker_of(
                    #[trigger] source::line_at(src, k),
                ) is None
        };
    lemma_paragraph_unique(src, start, block, other);
    if a.start < b.start {
        assert(source::marker_of(source::line_at(src, a.start as int)) is None);
    } else if b.start < a.start {
        assert(source::marker_of(source::line_at(src, b.start as int)) is None);
    }
}

/// There is one place at most for a block's content.
pub proof fn lemma_paragraph_unique(src: Seq<char>, start: int, a: LineRange, b: LineRange)
    requires
        source::is_paragraph(src, start, a),
        source::is_paragraph(src, start, b),
    ensures
        a == b,
{
    if a.start < b.start {
        assert(source::attached(source::line_at(src, a.start as int)));
    } else if b.start < a.start {
        assert(source::attached(source::line_at(src, b.start as int)));
    }
    if a.end < b.end {
        assert(!text::is_blank(source::line_at(src, a.end + 1)));
    } else if b.end < a.end {
        assert(!text::is_blank(source::line_at(src, b.end + 1)));
    }
}

// ---------------------------------------------------------------------
// Titles and attributions
// ---------------------------------------------------------------------

/// What an element says that has no marker recorded.
pub open spec fn whole_text(element: dom::ElementModel) -> Seq<char> {
    wysiwyg::list_or_inline_text(element, '*')
}

/// What the renderer put in front of `text`, going by the whole that it
/// rendered: nothing, when the whole does not end with the text.
pub open spec fn generated(whole: Seq<char>, text: Seq<char>) -> Seq<char> {
    match text::before_suffix(whole, text::trimmed_end(text)) {
        Some(prefix) => prefix,
        None => Seq::empty(),
    }
}

fn generated_prefix(whole: &str, text: &str) -> (r: String)
    ensures
        r@ == generated(whole@, text@),
{
    match strip_suffix(whole, trim_end(text)) {
        Some(prefix) => prefix.to_string(),
        None => String::new(),
    }
}

/// Whether `prefix` is what is recorded of what the renderer generated: an
/// empty one is not.
pub open spec fn is_recorded(prefix: Option<String>, text: Seq<char>) -> bool {
    if text.len() == 0 {
        prefix is None
    } else {
        prefix is Some && prefix->0@ == text
    }
}

/// Whether the source writes the title of the block starting at `start` on
/// line `n`, with nothing but attribute lists above it.
pub open spec fn is_title_at(src: Seq<char>, start: int, n: int) -> bool {
    &&& start <= n < start + 4
    &&& source::is_title(source::line_at(src, n))
    &&& forall|k: int|
        start <= k < n ==> source::is_attribute_list(#[trigger] source::line_at(src, k))
}

/// The text of a title line.
pub open spec fn title_words(line: Seq<char>) -> Seq<char> {
    if text::begins(line, '.') {
        line.skip(1)
    } else {
        line
    }
}

/// What is recorded of what the renderer generated.
fn recorded_prefix(prefix: String) -> (r: Option<String>)
    ensures
        is_recorded(r, prefix@),
{
    if prefix.as_str().is_empty() {
        None
    } else {
        Some(prefix)
    }
}

/// What an element says that says `text` after what the renderer generated.
fn prefixed(prefix: &str, text: &str) -> (r: String)
    ensures
        r@ == prefix@ + text@,
{
    let mut out = prefix.to_string();
    out.append(text);
    out
}

/// What becomes of a title that says `whole`, by the line that the source has
/// for it.
pub open spec fn title_outcome(whole: Seq<char>, line: Seq<char>) -> Outcome {
    let words = title_words(line);
    let prefix = generated(whole, words);
    judged(
        whole,
        prefix + words,
        source::title_of(wysiwyg::without_prefix(whole, prefix)),
        line,
    )
}

/// Offers the title of the block starting at `line`.
///
/// A title inside an editing host is edited through that host. Only a title
/// the source actually writes can be edited: a label or a caption the renderer
/// invents has no line to write back to. A table numbers its caption, so what
/// is rendered may carry a prefix that is not in the source and must not be
/// written back into it.
pub fn offer_title(src: &str, line: usize, title: &Element, hosted: bool) -> (r: Offer)
    requires
        1 <= line <= usize::MAX - 4,
    ensures
        r.kind == Kind::Title,
        r.range.start == r.range.end,
        r.marker is None,
        r.lead is None,
        r.outcome == Outcome::Skipped <==> hosted || forall|n: int|
            !is_title_at(src@, line as int, n),
        r.outcome == Outcome::Skipped ==> r.prefix is None,
        r.outcome != Outcome::Skipped ==> is_title_at(src@, line as int, r.range.start as int) && {
            let found = source::line_at(src@, r.range.start as int);
            let whole = whole_text(dom::element_model(*title));
            &&& is_recorded(r.prefix, generated(whole, title_words(found)))
            &&& r.outcome == title_outcome(whole, found)
        },
{
    if hosted {
        return plain(Outcome::Skipped, LineRange::single(0), Kind::Title);
    }
    match block_title_line(src, line) {
        Some(n) => {
            let range = LineRange::single(n);
            let found = text_of(src, range);
            proof {
                lemma_single(src@, n);
                assert(is_title_at(src@, line as int, n as int));
            }
            let words = block_title_text(&found);
            let whole = list_or_inline(title, &None);
            let prefix = generated_prefix(&whole, words);
            let expected = prefixed(&prefix, words);
            let back = as_title(strip_generated(&whole, &prefix));
            Offer {
                outcome: judge(&whole, &expected, &back, &found),
                range,
                kind: Kind::Title,
                marker: None,
                prefix: recorded_prefix(prefix),
                lead: None,
            }
        },
        None => {
            proof {
                assert forall|n: int| !is_title_at(src@, line as int, n) by {}
            }
            plain(Outcome::Skipped, LineRange::single(0), Kind::Title)
        },
    }
}

/// What becomes of an attribution that says `whole`, by the line that the
/// source has for it, which attributes a block of the given style to `author`.
pub open spec fn attribution_outcome(
    whole: Seq<char>,
    line: Seq<char>,
    style: Seq<char>,
    author: Seq<char>,
) -> Outcome {
    let prefix = generated(whole, author);
    judged(
        whole,
        prefix + author,
        source::attributed(style, wysiwyg::without_prefix(whole, prefix)),
        line,
    )
}

/// Offers the attribution on `line`. The dash in front is the renderer's, not
/// the document's. Where the line is more than an attribution, or none, there
/// is no offer, and the attribution is refused.
pub fn offer_attribution(src: &str, line: usize, attribution: &Element) -> (r: Option<Offer>)
    requires
        1 <= line < usize::MAX,
    ensures
        ({
            let found = source::line_at(src@, line as int);
            match source::attribution_in(found) {
                Some((style, author)) => r is Some && {
                    let offer = r->0;
                    let whole = whole_text(dom::element_model(*attribution));
                    &&& offer.range == (LineRange { start: line, end: line })
                    &&& offer.kind matches Kind::Attribution(name) && name@ == style
                    &&& offer.marker is None
                    &&& offer.lead is None
                    &&& is_recorded(offer.prefix, generated(whole, author))
                    &&& offer.outcome == attribution_outcome(whole, found, style, author)
                },
                None => r is None,
            }
        }),
{
    let range = LineRange::single(line);
    let found = text_of(src, range);
    proof {
        lemma_single(src@, line);
    }
    match source::attribution(&found) {
        Some((style, author)) => {
            let whole = list_or_inline(attribution, &None);
            let prefix = generated_prefix(&whole, author);
            let expected = prefixed(&prefix, author);
            let back = with_attribution(style, strip_generated(&whole, &prefix));
            Some(
                Offer {
                    outcome: judge(&whole, &expected, &back, &found),
                    range,
                    kind: Kind::Attribution(style),
                    marker: None,
                    prefix: recorded_prefix(prefix),
                    lead: None,
                },
            )
        },
        None => None,
    }
}

// ---------------------------------------------------------------------
// Admonitions
// ---------------------------------------------------------------------

/// Whether `lead` is what the inline admonition `text` starts with.
pub open spec fn is_lead(text: Seq<char>, lead: Seq<char>) -> bool {
    exists|i: int|
        0 <= i < 5 && lead == #[trigger] source::lead_text(i) && lead.is_prefix_of(text)
}

/// What an admonition is written back as that says `written`, with the title
/// that its cell holds, if it holds one.
pub open spec fn admonition_text(lead: Seq<char>, written: Seq<char>, title: Option<Seq<char>>) -> Seq<
    char,
> {
    match title {
        Some(words) => source::title_of(words) + source::newline() + (lead + written),
        None => lead + written,
    }
}

/// Offers the admonition rendered from the block starting at `line`, with the
/// text of the title that its cell holds, if it holds one.
///
/// Only the inline form carries its label on the same line; the delimited form
/// is a block of its own and is left to source mode. A title sits in the same
/// cell as the text, and the browser treats that cell as one editing host, so
/// the cell owns the title's line as well, and writes both back together.
pub fn offer_admonition(src: &str, line: usize, body: &Element, title: Option<&str>) -> (r: Offer)
    requires
        1 <= line <= usize::MAX - 4,
    ensures
        r.marker is None,
        r.prefix is None,
        exists|content: LineRange| #[trigger]
            source::is_paragraph(src@, line as int, content) && {
                let text = range_text(src@, content);
                let above = content.start - 1;
                let titled = title is Some && is_title_at(src@, line as int, above);
                if r.lead is None {
                    r.outcome == Outcome::Skipped && forall|lead: Seq<char>| !is_lead(text, lead)
                } else {
                    let lead = r.lead->0@;
                    &&& is_lead(text, lead)
                    &&& r.kind matches Kind::Admonition(label) && wysiwyg::is_label(lead, label@)
                    &&& if titled && title->0@ != title_words(source::line_at(src@, above)) {
                        r.outcome == Outcome::Skipped
                    } else {
                        &&& r.range.start == (if titled {
                            above
                        } else {
                            content.start as int
                        })
                        &&& r.range.end == content.end
                        &&& r.outcome == judged(
                            wysiwyg::inline_text(dom::element_model(*body)),
                            text.skip(lead.len() as int),
                            admonition_text(
                                lead,
                                wysiwyg::inline_text(dom::element_model(*body)),
                                text::maybe_text(title),
                            ),
                            range_text(src@, r.range),
                        )
                    }
                }
            },
{
    let content = paragraph_range(src, line);
    let text = text_of(src, content);
    let lead = match admonition_lead(&text) {
        Some(lead) => lead,
        None => {
            assert(source::is_paragraph(src@, line as int, content));
            assert forall|lead: Seq<char>| !is_lead(text@, lead) by {}
            return plain(Outcome::Skipped, content, Kind::Body);
        },
    };
    assert(is_lead(text@, lead@));
    let label = match admonition_label(lead) {
        Some(label) => label,
        None => {
            proof {
                let i = choose|i: int|
                    0 <= i < 5 && lead@ == #[trigger] source::lead_text(i) && lead@.is_prefix_of(
                        text@,
                    );
                assert(source::ADMONITIONS[i]@ =~= lead@.take(
                    source::ADMONITIONS[i]@.len() as int,
                ));
                assert(source::ADMONITIONS[i]@.is_prefix_of(lead@));
            }
            return plain(Outcome::Skipped, content, Kind::Body);
        },
    };
    assert(wysiwyg::is_label(lead@, label@));
    let ghost above = content.start - 1;
    let mut range = content;
    let mut agrees = true;
    if let Some(words) = title {
        if let Some(n) = block_title_line(src, line) {
            assert(is_title_at(src@, line as int, n as int));
            if n == content.start - 1 {
                let found = text_of(src, LineRange::single(n));
                proof {
                    lemma_single(src@, n);
                }
                if equal(words, block_title_text(&found)) {
                    range = LineRange { start: n, end: content.end };
                } else {
                    agrees = false;
                }
            } else {
                proof {
                    if is_title_at(src@, line as int, above) {
                        lemma_title_unique(src@, line as int, n as int, above);
                    }
                }
            }
        } else {
            assert(!is_title_at(src@, line as int, above));
        }
    }
    let result = if agrees {
        let rest = text.as_str().substring_char(lead.unicode_len(), text.as_str().unicode_len());
        assert(rest@ == text@.skip(lead@.len() as int));
        let written = inline_of(body);
        let mut back = String::new();
        if let Some(words) = title {
            back.append(&as_title(words));
            back.push('\n');
        }
        back.append(lead);
        back.append(&written);
        assert(back@ == admonition_text(lead@, written@, text::maybe_text(title)));
        judge(&written, rest, &back, &text_of(src, range))
    } else {
        Outcome::Skipped
    };
    assert(source::is_paragraph(src@, line as int, content));
    Offer {
        outcome: result,
        range,
        kind: Kind::Admonition(label),
        marker: None,
        prefix: None,
        lead: Some(lead.to_string()),
    }
}

/// There is one place at most for a block's title.
pub proof fn lemma_title_unique(src: Seq<char>, start: int, a: int, b: int)
    requires
        is_title_at(src, start, a),
        is_title_at(src, start, b),
    ensures
        a == b,
{
    if a < b {
        assert(source::is_attribute_list(source::line_at(src, a)));
    } else if b < a {
        assert(source::is_attribute_list(source::line_at(src, b)));
    }
}

// ---------------------------------------------------------------------
// Images and tables
// ---------------------------------------------------------------------

/// What is to be recorded on an image block.
#[derive(Debug, PartialEq)]
pub struct ImageOffer {
    pub range: LineRange,
    pub target: String,
    pub alt: String,
}

/// Offers the image rendered from the block starting at `line`. Where the
/// source has more than an image there, or none, there is no offer, and the
/// image is refused.
///
/// Nothing here is typed into, so the block is focusable rather than editable:
/// the panel that made it is where it changes.
pub fn offer_image(src: &str, line: usize) -> (r: Option<ImageOffer>)
    requires
        1 <= line < usize::MAX,
    ensures
        exists|range: LineRange| #[trigger]
            source::is_paragraph(src@, line as int, range) && match source::image_in(
                range_text(src@, range),
            ) {
                Some((target, alt)) => {
                    &&& r is Some
                    &&& r->0.range == range
                    &&& r->0.target@ == target
                    &&& r->0.alt@ == alt
                },
                None => r is None,
            },
{
    let range = paragraph_range(src, line);
    let text = text_of(src, range);
    assert(source::is_paragraph(src@, line as int, range));
    match image_parts(&text) {
        Some((target, alt)) => {
            proof {
                source::lemma_image_in(text@, target@, alt@);
            }
            Some(ImageOffer { range, target, alt })
        },
        None => None,
    }
}

/// What is to be recorded on each cell of a table.
#[derive(Debug, PartialEq)]
pub struct TableOffer {
    /// The lines of the rows. A cell has no line of its own, so each carries
    /// the range of the rows as a whole and writes all of them back.
    pub range: LineRange,
    pub shape: String,
    /// Whether the columns are pinned by the table's `cols` attribute.
    pub fixed: bool,
}

/// Whether `range` are the lines between the delimiters of the table rendered
/// from the block starting at `start`.
pub open spec fn is_rows_range(src: Seq<char>, start: int, range: LineRange) -> bool {
    range.start <= range.end && source::is_table(src, start, range.start - 1, range.end + 1)
}

/// There is one place at most for a table's rows.
pub proof fn lemma_rows_range_unique(src: Seq<char>, start: int, range: LineRange)
    requires
        is_rows_range(src, start, range),
    ensures
        forall|other: LineRange| is_rows_range(src, start, other) ==> other == range,
{
    assert forall|other: LineRange| is_rows_range(src, start, other) implies other == range by {
        source::lemma_table_unique(
            src,
            start,
            range.start - 1,
            range.end + 1,
            other.start - 1,
            other.end + 1,
        );
    }
}

/// Whether the columns of the table starting at `start` are pinned by a `cols`
/// attribute that is not rewritten.
pub open spec fn are_columns_fixed(src: Seq<char>, start: int) -> bool {
    exists|n: int| #[trigger]
        source::cols_settled(src, start, n) && source::attached(source::line_at(src, n))
            && source::widths_of(source::line_at(src, n)) is None && source::mentions_cols(
            source::line_at(src, n),
        )
}

/// Whether two lists of texts say the same.
fn same_texts(a: &[String], b: &[String]) -> (r: bool)
    ensures
        r == (text::texts(a@) == text::texts(b@)),
{
    if a.len() != b.len() {
        assert(text::texts(a@).len() != text::texts(b@).len());
        return false;
    }
    let mut i: usize = 0;
    while i < a.len()
        invariant
            a@.len() == b@.len(),
            i <= a@.len(),
            forall|j: int| 0 <= j < i ==> (#[trigger] a@[j])@ == b@[j]@,
        decreases a.len() - i,
    {
        if !equal(&a[i], &b[i]) {
            proof {
                assert(text::texts(a@)[i as int] != text::texts(b@)[i as int]);
            }
            return false;
        }
        i += 1;
    }
    assert(text::texts(a@) == text::texts(b@));
    true
}

/// Offers the cells of the table rendered from the block starting at `line`.
///
/// The cells must read back exactly as the source wrote them, and the rows must
/// be written as they are: a specifier the source carries, or a cell that it
/// sets tight, would be lost by rewriting.
pub fn offer_table(src: &str, line: usize, rendered: &Element) -> (r: Option<TableOffer>)
    requires
        1 <= line < usize::MAX,
    ensures
        ({
            let cells = table::row_texts(table::rows_in(dom::element_model(*rendered)));
            match r {
                Some(offer) => {
                    let read = table::rows_read(
                        text::lines_of(range_text(src@, offer.range)),
                    );
                    &&& is_rows_range(src@, line as int, offer.range)
                    &&& read is Some
                    &&& (read->0).0 == cells
                    &&& offer.shape@ == table::encoded((read->0).1)
                    &&& outcome_of(
                        wysiwyg::table_text(dom::element_model(*rendered), offer.shape@),
                        range_text(src@, offer.range),
                    ) == Outcome::Editable
                    &&& offer.fixed == are_columns_fixed(src@, line as int)
                },
                None => forall|range: LineRange|
                    is_rows_range(src@, line as int, range) ==> match table::rows_read(
                        text::lines_of(#[trigger] range_text(src@, range)),
                    ) {
                        Some(read) => read.0 == cells ==> outcome_of(
                            wysiwyg::table_text(
                                dom::element_model(*rendered),
                                table::encoded(read.1),
                            ),
                            range_text(src@, range),
                        ) != Outcome::Editable,
                        None => true,
                    },
            }
        }),
{
    let cells = table::cells_from_dom(rendered);
    let range = match table_range(src, line) {
        Some(range) => range,
        None => {
            return None;
        },
    };
    proof {
        lemma_rows_range_unique(src@, line as int, range);
    }
    let own = text_of(src, range);
    let (written, shape) = match table::parse(&own) {
        Some(found) => found,
        None => {
            return None;
        },
    };
    if !same_texts(&cells, &written) {
        return None;
    }
    let encoded = table::encode(&shape);
    if !round_trips(&table_of(rendered, &encoded), &own) {
        return None;
    }
    let columns = columns_attribute(src, line);
    let fixed = match columns {
        Columns::Opaque => true,
        _ => false,
    };
    proof {
        let n = choose|n: int| #[trigger]
            source::cols_settled(src@, line as int, n) && match columns {
                Columns::Implicit => !source::attached(source::line_at(src@, n)),
                Columns::Widths { line, values } => {
                    &&& source::attached(source::line_at(src@, n))
                    &&& line == n
                    &&& source::widths_of(source::line_at(src@, n)) == Some(text::texts(values@))
                },
                Columns::Opaque => {
                    &&& source::attached(source::line_at(src@, n))
                    &&& source::widths_of(source::line_at(src@, n)) is None
                    &&& source::mentions_cols(source::line_at(src@, n))
                },
            };
        if !fixed && are_columns_fixed(src@, line as int) {
            let m = choose|m: int| #[trigger]
                source::cols_settled(src@, line as int, m) && source::attached(
                    source::line_at(src@, m),
                ) && source::widths_of(source::line_at(src@, m)) is None && source::mentions_cols(
                    source::line_at(src@, m),
                );
            if m < n {
                assert(!source::mentions_cols(source::line_at(src@, m)));
            } else if n < m {
                assert(source::attached(source::line_at(src@, n)));
                assert(source::widths_of(source::line_at(src@, n)) is None);
            }
        }
    }
    Some(TableOffer { range, shape: encoded, fixed })
}

// ---------------------------------------------------------------------
// What is recorded
// ---------------------------------------------------------------------

/// An attribute to be set on a rendered element.
#[derive(Debug, PartialEq)]
pub struct Attribute {
    pub name: &'static str,
    pub value: String,
}

/// What attributes say.
pub open spec fn attribute_texts(attributes: Seq<Attribute>) -> Seq<(Seq<char>, Seq<char>)> {
    attributes.map_values(|a: Attribute| (a.name@, a.value@))
}

/// What a block that can be edited is marked with.
pub open spec fn editable_marks(range: LineRange, kind: Kind) -> Seq<(Seq<char>, Seq<char>)> {
    let common = seq![
        ("contenteditable"@, "true"@),
        (wysiwyg::LINE@, number::decimal(range.start as nat)),
        (wysiwyg::END@, number::decimal(range.end as nat)),
    ];
    match kind {
        Kind::Heading(level) => common.push((wysiwyg::LEVEL@, number::decimal(level as nat))),
        Kind::Title => common.push((wysiwyg::TITLE@, "true"@)),
        _ => common,
    }
}

/// The attributes that make a block editable.
pub fn make_editable(range: LineRange, kind: Kind) -> (r: Vec<Attribute>)
    ensures
        attribute_texts(r@) == editable_marks(range, kind),
{
    let mut out: Vec<Attribute> = Vec::new();
    out.push(Attribute { name: "contenteditable", value: "true".to_string() });
    out.push(Attribute { name: wysiwyg::LINE, value: write_number(range.start) });
    out.push(Attribute { name: wysiwyg::END, value: write_number(range.end) });
    match kind {
        Kind::Heading(level) => {
            out.push(Attribute { name: wysiwyg::LEVEL, value: write_number(level) });
        },
        Kind::Title => {
            out.push(Attribute { name: wysiwyg::TITLE, value: "true".to_string() });
        },
        _ => {},
    }
    assert(attribute_texts(out@) == editable_marks(range, kind));
    out
}

// ---------------------------------------------------------------------
// What is reproduced can be edited
// ---------------------------------------------------------------------

/// A block comes to be editable just when what it says is what is expected, but
/// for white space at the end of that; and refused just when it is not.
pub proof fn law_reproduced_or_refused(said: Seq<char>, after: Seq<char>, expected: Seq<char>)
    requires
        text::is_blank(after),
        said.len() > 0 ==> !text::is_space(said.last()),
    ensures
        outcome_of(said, said + after) == Outcome::Editable,
        outcome_of(said, expected) != Outcome::Skipped,
        outcome_of(said, expected) == Outcome::Editable ==> said.len() <= expected.len()
            && expected.take(said.len() as int) == said && text::is_blank(
            expected.skip(said.len() as int),
        ),
{
    let whole = said + after;
    let n = said.len() as int;
    assert(whole.skip(n) == after);
    text::lemma_spaces_after_is(whole, n);
    assert(whole.take(n) == said);
    text::lemma_spaces_after(expected);
}

/// A heading that is written as it says is editable, and so are a title and an
/// attribution, whatever the renderer put in front of them.
#[verifier::rlimit(30)]
#[verifier::spinoff_prover]
pub proof fn law_lines_written_as_they_say(words: Seq<char>, prefix: Seq<char>, level: usize, i: int)
    requires
        words.len() > 0,
        !text::is_space(words[0]),
        !text::is_space(words.last()),
        text::free_of(words, '\n'),
    ensures
        1 <= level <= 6 ==> heading_outcome(
            words,
            text::repeated('=', level as nat) + seq![' '] + words,
            level,
        ) == Outcome::Editable,
        title_outcome(prefix + words, seq!['.'] + words) == Outcome::Editable,
        generated(prefix + words, words) == prefix,
        title_words(seq!['.'] + words) == words,
        0 <= i < 2 ==> attribution_outcome(
            prefix + words,
            seq!['['] + source::ATTRIBUTED[i]@ + seq![','] + words + seq![']'],
            source::ATTRIBUTED[i]@,
            words,
        ) == Outcome::Editable,
{
    text::lemma_trimmed_keeps(words);
    assert(text::folded(words) == words);
    if 1 <= level <= 6 {
        let line = text::repeated('=', level as nat) + seq![' '] + words;
        assert(source::headed(words, Some(level)) == line);
        crate::laws::law_heading_read_back(words, level);
        lemma_ends_solid(line);
    }
    let whole = prefix + words;
    assert(whole.last() == words.last());
    lemma_ends_solid(whole);
    lemma_ends_solid(words);
    assert(whole.subrange(whole.len() - words.len(), whole.len() as int) == words);
    assert(words.is_suffix_of(whole));
    assert(whole.take(whole.len() - words.len()) == prefix);
    let title = seq!['.'] + words;
    assert(title.skip(1) == words);
    crate::edits::law_generated_prefix_is_dropped(prefix, words);
    assert(source::title_of(words) == title);
    lemma_ends_solid(title);
    if 0 <= i < 2 {
        let line = seq!['['] + source::ATTRIBUTED[i]@ + seq![','] + words + seq![']'];
        assert(source::attributed(source::ATTRIBUTED[i]@, words) == line);
        lemma_ends_solid(line);
    }
}

proof fn lemma_ends_solid(s: Seq<char>)
    requires
        s.len() > 0,
        !text::is_space(s.last()),
    ensures
        text::trimmed_end(s) == s,
{
    assert(s.skip(s.len() as int).len() == 0);
    text::lemma_spaces_after_is(s, s.len() as int);
    assert(s.take(s.len() as int) == s);
}

/// An admonition is written back as its label and what it says, below its title
/// if it has one.
pub proof fn law_admonition_is_put_together(lead: Seq<char>, said: Seq<char>, title: Seq<char>)
    ensures
        admonition_text(lead, said, None).take(lead.len() as int) == lead,
        admonition_text(lead, said, None).skip(lead.len() as int) == said,
        ({
            let made = admonition_text(lead, said, Some(title));
            let words = text::trimmed(text::folded(title));
            let n = words.len() as int;
            &&& made[0] == '.'
            &&& made.subrange(1, n + 1) == words
            &&& made[n + 1] == '\n'
            &&& made.skip(n + 2) == lead + said
        }),
{
    let none = admonition_text(lead, said, None);
    assert(none.take(lead.len() as int) == lead);
    assert(none.skip(lead.len() as int) == said);
    let made = admonition_text(lead, said, Some(title));
    let words = text::trimmed(text::folded(title));
    let n = words.len() as int;
    assert(made.subrange(1, n + 1) == words);
    assert(made.skip(n + 2) == lead + said);
}

/// What makes a block editable says so, and records its first line and its last
/// one, so that both are read back; a heading records its level, and a title
/// that it is one.
pub proof fn law_marks_record_the_lines(range: LineRange, kind: Kind)
    ensures
        ({
            let marks = editable_marks(range, kind);
            &&& marks.len() >= 3
            &&& marks[0] == ("contenteditable"@, "true"@)
            &&& marks[1].0 == "data-edit-line"@
            &&& number::numeral(marks[1].1) == Some(range.start)
            &&& marks[2].0 == "data-edit-end"@
            &&& number::numeral(marks[2].1) == Some(range.end)
            &&& match kind {
                Kind::Heading(level) => marks.len() == 4 && marks[3].0 == "data-edit-level"@
                    && number::numeral(marks[3].1) == Some(level),
                Kind::Title => marks.len() == 4 && marks[3] == ("data-edit-title"@, "true"@),
                _ => marks.len() == 3,
            }
        }),
{
    number::law_number_read_back(range.start);
    number::law_number_read_back(range.end);
    if let Kind::Heading(level) = kind {
        number::law_number_read_back(level);
    }
}

/// The title of a document is the first line of its source that starts with one
/// equals sign and a space.
pub proof fn law_document_title_is_the_first(src: Seq<char>, line: int, k: int)
    requires
        is_title_line(src, line),
    ensures
        ({
            let all = text::lines_of(src);
            &&& 1 <= line <= all.len()
            &&& all[line - 1].len() > 1 && all[line - 1][0] == '=' && all[line - 1][1] == ' '
            &&& 1 <= k < line ==> !(all[k - 1].len() > 1 && all[k - 1][0] == '=' && all[k - 1][1]
                == ' ')
        }),
{
    let all = text::lines_of(src);
    if 1 <= k < line {
        assert(source::line_at(src, k) == all[k - 1]);
        assert(!source::is_heading(source::line_at(src, k), 1));
    }
}

/// The title of a block is a title line with nothing but attribute lists above
/// it, not further down than the fourth line of the block.
pub proof fn law_block_title_is_near_the_top(src: Seq<char>, start: int, n: int, k: int)
    requires
        1 <= start,
        is_title_at(src, start, n),
    ensures
        ({
            let all = text::lines_of(src);
            &&& start <= n <= start + 3
            &&& n <= all.len() && source::is_title(all[n - 1])
            &&& start <= k < n ==> source::is_attribute_list(all[k - 1])
        }),
{
    if start <= k < n {
        assert(source::is_attribute_list(source::line_at(src, k)));
    }
}

/// The columns of a table are pinned if the first line above it with a `cols`
/// attribute does not give plain widths, and they are not if it does, or if
/// there is no such line among those attached to the table.
pub proof fn law_columns_are_pinned_by_the_first(src: Seq<char>, start: int, n: int)
    requires
        start <= n,
        forall|k: int|
            start <= k < n ==> {
                let line = #[trigger] source::line_at(src, k);
                &&& source::is_title(line) || source::is_attribute_list(line)
                &&& source::widths_of(line) is None
                &&& forall|i: int| !text::occurs_at(line, "cols="@, i)
            },
    ensures
        ({
            let line = source::line_at(src, n);
            let above = source::is_title(line) || source::is_attribute_list(line);
            &&& above && source::widths_of(line) is None && (exists|i: int|
                text::occurs_at(line, "cols="@, i)) ==> are_columns_fixed(src, start)
            &&& above && source::widths_of(line) is Some ==> !are_columns_fixed(src, start)
            &&& !above ==> !are_columns_fixed(src, start)
        }),
{
    let line = source::line_at(src, n);
    let above = source::is_title(line) || source::is_attribute_list(line);
    assert(source::cols_settled(src, start, n)) by {
        assert forall|k: int| start <= k < n implies source::attached(
            #[trigger] source::line_at(src, k),
        ) && source::widths_of(source::line_at(src, k)) is None && !source::mentions_cols(
            source::line_at(src, k),
        ) by {}
    }
    if (!above || source::widths_of(line) is Some) && are_columns_fixed(src, start) {
        let m = choose|m: int| #[trigger]
            source::cols_settled(src, start, m) && source::attached(source::line_at(src, m))
                && source::widths_of(source::line_at(src, m)) is None && source::mentions_cols(
                source::line_at(src, m),
            );
        if m < n {
            assert(!source::mentions_cols(source::line_at(src, m)));
        } else if n < m {
            assert(source::attached(line) && source::widths_of(line) is None);
        }
    }
}

/// A list starts at the first item of its block and goes on to the end of that.
pub proof fn law_list_starts_at_its_first_item(
    src: Seq<char>,
    start: int,
    block: LineRange,
    first: usize,
)
    requires
        source::is_paragraph(src, start, block),
        block.start <= first <= block.end,
        source::marker_of(source::line_at(src, first as int)) is Some,
        forall|k: int|
            block.start <= k < first ==> source::marker_of(#[trigger] source::line_at(src, k)) is None,
    ensures
        is_list_range(src, start, LineRange { start: first, end: block.end }),
        forall|items: LineRange| #[trigger]
            is_list_range(src, start, items) ==> items.start == first && items.end == block.end,
{
    let own = LineRange { start: first, end: block.end };
    assert(is_list_range(src, start, own));
    assert forall|items: LineRange| #[trigger] is_list_range(src, start, items) implies items.start
        == first && items.end == block.end by {
        lemma_list_range_unique(src, start, own, items);
    }
}

/// An inline admonition starts with one of the five labels, a colon and a space.
pub proof fn law_leads_are_labels(said: Seq<char>, lead: Seq<char>, rest: Seq<char>)
    ensures
        is_lead(said, lead) ==> lead.is_prefix_of(said) && (lead == "NOTE"@ + seq![':', ' '] || lead
            == "TIP"@ + seq![':', ' '] || lead == "IMPORTANT"@ + seq![':', ' '] || lead
            == "WARNING"@ + seq![':', ' '] || lead == "CAUTION"@ + seq![':', ' ']),
        lead == "NOTE"@ + seq![':', ' '] || lead == "TIP"@ + seq![':', ' '] || lead
            == "IMPORTANT"@ + seq![':', ' '] || lead == "WARNING"@ + seq![':', ' '] || lead
            == "CAUTION"@ + seq![':', ' '] ==> is_lead(lead + rest, lead),
{
    let all = lead + rest;
    assert(all.subrange(0, lead.len() as int) == lead);
    assert(lead.is_prefix_of(all));
    assert(source::lead_text(0) == "NOTE"@ + seq![':', ' ']);
    assert(source::lead_text(1) == "TIP"@ + seq![':', ' ']);
    assert(source::lead_text(2) == "IMPORTANT"@ + seq![':', ' ']);
    assert(source::lead_text(3) == "WARNING"@ + seq![':', ' ']);
    assert(source::lead_text(4) == "CAUTION"@ + seq![':', ' ']);
}

/// The rows of a table are the lines between its delimiters.
pub proof fn law_rows_lie_between_the_delimiters(src: Seq<char>, start: int, o: int, c: int)
    requires
        1 <= start,
        source::is_table(src, start, o, c),
        o + 1 < c <= usize::MAX,
    ensures
        is_rows_range(
            src,
            start,
            LineRange { start: (o + 1) as usize, end: (c - 1) as usize },
        ),
        forall|range: LineRange| #[trigger]
            is_rows_range(src, start, range) ==> range.start == o + 1 && range.end == c - 1,
{
    assert forall|range: LineRange| #[trigger] is_rows_range(src, start, range) implies range.start
        == o + 1 && range.end == c - 1 by {
        source::lemma_table_unique(src, start, o, c, range.start - 1, range.end + 1);
    }
}

} // verus!
