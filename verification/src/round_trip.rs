//! What makes it safe to edit a block in place.
//!
//! A block is made editable only if writing its rendering back reproduces its
//! source. Here is what follows: a block that is written back as it was
//! rendered leaves the document as it was.
use vstd::prelude::*;

use crate::dom;
use crate::edits;
use crate::laws;
use crate::marking;
use crate::marking::Outcome;
use crate::safety;
use crate::source;
use crate::source::LineRange;
use crate::text;
use crate::wysiwyg;
use crate::wysiwyg::{Kind, Marks};

verus! {

/// Trimming the end of lines trims the end of the last one, unless that is
/// blank.
proof fn lemma_joined_trimmed(part: Seq<Seq<char>>)
    requires
        part.len() > 0,
        !text::is_blank(part.last()),
    ensures
        text::trimmed_end(text::joined(part, source::newline())) == text::joined(
            part.update(part.len() - 1, text::trimmed_end(part.last())),
            source::newline(),
        ),
        text::trimmed_end(part.last()).len() > 0,
{
    let line = part.last();
    let whole = text::joined(part, source::newline());
    let short = part.update(part.len() - 1, text::trimmed_end(line));
    text::lemma_spaces_after(line);
    let k = line.len() - text::spaces_after(line);
    assert(k > 0) by {
        if k == 0 {
            assert(line.skip(0) == line);
        }
    }
    let front = if part.len() == 1 {
        Seq::empty()
    } else {
        text::joined(part.drop_last(), source::newline()) + source::newline()
    };
    assert(whole == front + line);
    assert(short.drop_last() == part.drop_last());
    assert(text::joined(short, source::newline()) == front + text::trimmed_end(line));
    let at = front.len() + k;
    assert(whole.skip(at) == line.skip(k));
    assert(whole[at - 1] == line[k - 1]);
    text::lemma_spaces_after_is(whole, at);
    assert(whole.take(at) == front + text::trimmed_end(line));
}

/// Whether `range` are lines of a document. A block of several lines does not
/// end in a blank one.
pub open spec fn is_block_of(src: Seq<char>, range: LineRange) -> bool {
    &&& 1 <= range.start <= range.end <= text::lines_of(src).len()
    &&& range.start < range.end ==> !text::is_blank(source::line_at(src, range.end as int))
}

/// Whether a block that is written back as `back` over the lines in `range`
/// leaves the document as it was: in a document of any kind the lines stay as
/// they were, if they can be read back, but for white space at the end of the
/// block; a tidy document with none there stays as it was; and the block takes
/// as many lines as it took, so that no block below it moves.
pub open spec fn is_left(src: Seq<char>, range: LineRange, back: Seq<char>) -> bool {
    let line = source::line_at(src, range.end as int);
    let edited = edits::range_replaced(src, range.start as int, range.end as int, back);
    let now = text::lines_of(src).update(range.end - 1, text::trimmed_end(line));
    &&& edited == source::document(now, src)
    &&& source::reads_back(now, src) ==> text::lines_of(edited) == now
    &&& source::is_tidy(src) && text::trimmed_end(line) == line ==> edited == src
    &&& text::pieces(back, '\n').len() == range.end + 1 - range.start
}

/// A block of plain text that is editable, and is written back as it was
/// rendered, leaves the document as it was.
pub proof fn law_editable_block_unchanged(src: Seq<char>, range: LineRange, written: Seq<char>)
    requires
        is_block_of(src, range),
        marking::outcome_of(written, marking::range_text(src, range)) == Outcome::Editable,
    ensures
        is_left(src, range, written),
{
    let all = text::lines_of(src);
    let start = range.start as int;
    let end = range.end as int;
    let part = source::span(all, start, end);
    let short = part.update(part.len() - 1, text::trimmed_end(part.last()));
    assert(part.last() == all[end - 1]);
    text::lemma_lines_fit(src);
    if start < end {
        lemma_joined_trimmed(part);
    } else {
        assert(part == seq![all[end - 1]]);
        assert(short == seq![text::trimmed_end(all[end - 1])]);
    }
    assert(written == text::joined(short, source::newline()));
    assert forall|i: int| 0 <= i < short.len() implies text::free_of(#[trigger] short[i], '\n') by {
        assert(text::free_of(all[start - 1 + i], '\n'));
        if i == short.len() - 1 {
            text::lemma_spaces_after(part.last());
        } else {
            assert(short[i] == all[start - 1 + i]);
        }
    }
    text::law_joined_splits(short, '\n');
    let now = all.update(end - 1, text::trimmed_end(all[end - 1]));
    assert(source::lines_replaced(all, start, end, written) == now);
    laws::law_document_read_back(now, src);
    if text::trimmed_end(all[end - 1]) == all[end - 1] {
        assert(now == all);
        if source::is_tidy(src) {
            laws::lemma_document_is(src);
        }
    }
}

/// Whatever is made editable in a rendered document leaves the document as it
/// was, when it is written back as it was rendered.
pub proof fn law_editable_element_unchanged(
    key: Option<usize>,
    nodes: Seq<dom::NodeModel>,
    element: dom::ElementModel,
    origin: safety::Origin,
    range: LineRange,
    src: Seq<char>,
)
    requires
        safety::is_backed(key, nodes, element, origin, range, src),
        is_block_of(src, range),
    ensures
        is_left(src, range, safety::written_back(origin, element)),
{
    law_editable_block_unchanged(src, range, safety::written_back(origin, element));
}

/// A heading that is editable, and is written back as it was rendered, leaves
/// the document as it was.
pub proof fn law_editable_heading_unchanged(
    src: Seq<char>,
    line: usize,
    level: usize,
    marks: Marks,
    written: Seq<char>,
)
    requires
        1 <= line <= text::lines_of(src).len(),
        marking::heading_outcome(written, source::line_at(src, line as int), level)
            == Outcome::Editable,
    ensures
        is_left(
            src,
            LineRange { start: line, end: line },
            edits::source_text(Kind::Heading(level), marks, written, None),
        ),
{
    marking::lemma_single(src, line);
    law_editable_block_unchanged(
        src,
        LineRange { start: line, end: line },
        source::headed(written, Some(level)),
    );
}

/// What is recorded of what the renderer generated is what it generated.
proof fn lemma_recorded(marks: Marks, prefix: Seq<char>)
    requires
        marking::is_recorded(marks.prefix, prefix),
    ensures
        wysiwyg::text_in(marks.prefix) == prefix,
{
    assert(prefix.len() == 0 ==> prefix == Seq::<char>::empty());
}

/// A title that is editable, and is written back as it was rendered, leaves the
/// document as it was, whatever the renderer put in front of its words.
pub proof fn law_editable_title_unchanged(
    src: Seq<char>,
    line: usize,
    marks: Marks,
    whole: Seq<char>,
)
    requires
        1 <= line <= text::lines_of(src).len(),
        marking::is_recorded(
            marks.prefix,
            marking::generated(
                whole,
                marking::title_words(source::line_at(src, line as int)),
            ),
        ),
        marking::title_outcome(whole, source::line_at(src, line as int)) == Outcome::Editable,
    ensures
        is_left(
            src,
            LineRange { start: line, end: line },
            edits::source_text(Kind::Title, marks, whole, None),
        ),
{
    let words = marking::title_words(source::line_at(src, line as int));
    lemma_recorded(marks, marking::generated(whole, words));
    marking::lemma_single(src, line);
    law_editable_block_unchanged(
        src,
        LineRange { start: line, end: line },
        edits::source_text(Kind::Title, marks, whole, None),
    );
}

/// An attribution that is editable, and is written back as it was rendered,
/// leaves the document as it was, whatever the renderer put in front of its
/// author.
pub proof fn law_editable_attribution_unchanged(
    src: Seq<char>,
    line: usize,
    marks: Marks,
    style: &'static str,
    author: Seq<char>,
    whole: Seq<char>,
)
    requires
        1 <= line <= text::lines_of(src).len(),
        marking::is_recorded(marks.prefix, marking::generated(whole, author)),
        marking::attribution_outcome(whole, source::line_at(src, line as int), style@, author)
            == Outcome::Editable,
    ensures
        is_left(
            src,
            LineRange { start: line, end: line },
            edits::source_text(Kind::Attribution(style), marks, whole, None),
        ),
{
    lemma_recorded(marks, marking::generated(whole, author));
    marking::lemma_single(src, line);
    law_editable_block_unchanged(
        src,
        LineRange { start: line, end: line },
        edits::source_text(Kind::Attribution(style), marks, whole, None),
    );
}

/// An admonition that is editable, and is written back as it was rendered,
/// leaves the document as it was, with the title that its cell holds, if it
/// holds one.
pub proof fn law_editable_admonition_unchanged(
    src: Seq<char>,
    range: LineRange,
    marks: Marks,
    label: &'static str,
    written: Seq<char>,
    title: Option<Seq<char>>,
)
    requires
        is_block_of(src, range),
        marking::outcome_of(
            marking::admonition_text(wysiwyg::text_in(marks.lead), written, title),
            marking::range_text(src, range),
        ) == Outcome::Editable,
    ensures
        is_left(
            src,
            range,
            edits::source_text(Kind::Admonition(label), marks, written, title),
        ),
{
    law_editable_block_unchanged(
        src,
        range,
        edits::source_text(Kind::Admonition(label), marks, written, title),
    );
}

/// A table that is editable, and whose cells are written back as they were
/// rendered, leaves the document as it was, unless its rows end in a blank
/// line.
pub proof fn law_editable_table_unchanged(
    src: Seq<char>,
    range: LineRange,
    t: dom::ElementModel,
    shape: Seq<char>,
)
    requires
        is_block_of(src, range),
        marking::outcome_of(wysiwyg::table_text(t, shape), marking::range_text(src, range))
            == Outcome::Editable,
    ensures
        is_left(src, range, wysiwyg::table_text(t, shape)),
{
    law_editable_block_unchanged(src, range, wysiwyg::table_text(t, shape));
}

/// A block that is written back and leaves the document as it was leaves what is
/// recorded of the other blocks as it was, too.
pub proof fn law_synced_block_unchanged(
    src: Seq<char>,
    range: LineRange,
    marks: Marks,
    text: Seq<char>,
    blocks: Seq<edits::Recorded>,
)
    requires
        wysiwyg::number_in(marks.line) == Some(range.start),
        wysiwyg::number_in(marks.end) == Some(range.end),
        is_left(src, range, text),
    ensures
        edits::block_written(src, marks, range.start, text) == edits::range_replaced(
            src,
            range.start as int,
            range.end as int,
            text,
        ),
        ({
            let added = edits::lines_added(marks, text);
            let removed = edits::lines_removed(marks, range.start);
            &&& edits::are_moved_in_bounds(blocks, range.start, added, removed)
            &&& blocks.map_values(
                |block: edits::Recorded|
                    edits::shifted(block, range.start, added as usize, removed as usize),
            ) == blocks
        }),
{
}

/// The blocks below an edited one are recorded where their lines now are, from
/// the line that they start at to the line that they end at: what they were
/// recorded to span before the edit is what they are recorded to span after.
pub proof fn law_shifted_blocks_keep_their_lines(
    src: Seq<char>,
    range: LineRange,
    text: Seq<char>,
    block: edits::Recorded,
)
    requires
        1 <= range.start <= range.end <= text::lines_of(src).len(),
        range.end < block.line,
        source::reads_back(
            source::lines_replaced(
                text::lines_of(src),
                range.start as int,
                range.end as int,
                text,
            ),
            src,
        ),
        text::pieces(text, '\n').len() <= usize::MAX,
        edits::can_shift(
            block.line,
            text::pieces(text, '\n').len() as usize,
            (range.end + 1 - range.start) as usize,
        ),
    ensures
        ({
            let moved = edits::shifted(
                block,
                range.start,
                text::pieces(text, '\n').len() as usize,
                (range.end + 1 - range.start) as usize,
            );
            let edited = edits::range_replaced(
                src,
                range.start as int,
                range.end as int,
                text,
            );
            &&& source::line_at(edited, moved.line as int) == source::line_at(
                src,
                block.line as int,
            )
            &&& moved.end is Some <==> block.end is Some
            &&& block.end matches Some(end) ==> block.line <= end && edits::can_shift(
                end,
                text::pieces(text, '\n').len() as usize,
                (range.end + 1 - range.start) as usize,
            ) ==> {
                &&& moved.end->0 - moved.line == end - block.line
                &&& forall|k: int|
                    block.line <= k <= end ==> source::line_at(
                        edited,
                        moved.line + (k - block.line),
                    ) == #[trigger] source::line_at(src, k)
                &&& source::line_at(edited, moved.end->0 as int) == source::line_at(
                    src,
                    end as int,
                )
            }
        }),
{
    laws::law_replace_shifts_lines_below(src, range.start as int, range.end as int, text);
}

/// The blocks below a block that has just got its source are recorded where
/// their lines now are.
pub proof fn law_blocks_below_a_new_one_keep_their_lines(
    src: Seq<char>,
    start: usize,
    text: Seq<char>,
    block: edits::Recorded,
)
    requires
        1 <= start <= text::lines_of(src).len(),
        start < block.line,
        source::reads_back(
            source::block_inserted(text::lines_of(src), start as int, text),
            src,
        ),
        block.line + text::pieces(text, '\n').len() + 1 <= usize::MAX,
    ensures
        ({
            let moved = edits::shifted(
                block,
                start,
                (text::pieces(text, '\n').len() + 1) as usize,
                0,
            );
            let edited = source::document(
                source::block_inserted(text::lines_of(src), start as int, text),
                src,
            );
            &&& source::line_at(edited, moved.line as int) == source::line_at(
                src,
                block.line as int,
            )
            &&& moved.end is Some <==> block.end is Some
            &&& block.end matches Some(end) ==> block.line <= end && end + text::pieces(
                text,
                '\n',
            ).len() + 1 <= usize::MAX ==> {
                &&& moved.end->0 - moved.line == end - block.line
                &&& source::line_at(edited, moved.end->0 as int) == source::line_at(
                    src,
                    end as int,
                )
            }
        }),
{
    laws::law_insert_block_shifts_lines_below(src, start as int, text);
}

/// A block that is written back changes how many lines the document has by as
/// many as it is said to add and to remove, and it stands on the lines it is
/// said to stand on.
pub proof fn law_written_block_is_counted(
    src: Seq<char>,
    marks: Marks,
    start: usize,
    text: Seq<char>,
)
    requires
        1 <= start <= text::lines_of(src).len(),
        wysiwyg::number_in(marks.end) matches Some(end) ==> start <= end <= text::lines_of(
            src,
        ).len() && source::reads_back(
            source::lines_replaced(text::lines_of(src), start as int, end as int, text),
            src,
        ),
        wysiwyg::number_in(marks.end) is None ==> source::reads_back(
            source::block_inserted(text::lines_of(src), start as int, text),
            src,
        ),
    ensures
        ({
            let edited = edits::block_written(src, marks, start, text);
            let added = edits::lines_added(marks, text);
            let removed = edits::lines_removed(marks, start);
            let parts = text::pieces(text, '\n');
            &&& text::lines_of(edited).len() - text::lines_of(src).len() == added - removed
            &&& forall|k: int|
                k < start ==> #[trigger] source::line_at(edited, k) == source::line_at(src, k)
            &&& forall|k: int|
                0 <= k < parts.len() ==> source::line_at(edited, start + k) == #[trigger] parts[k]
            &&& forall|k: int|
                start + removed <= k ==> #[trigger] source::line_at(src, k) == source::line_at(
                    edited,
                    k + added - removed,
                )
        }),
{
    match wysiwyg::number_in(marks.end) {
        Some(end) => {
            laws::law_replace_shifts_lines_below(src, start as int, end as int, text);
        },
        None => {
            laws::law_insert_block_shifts_lines_below(src, start as int, text);
        },
    }
}

} // verus!
