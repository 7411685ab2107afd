//! The edits that the rendered document asks of the source.
//!
//! Each takes the source and what the rendering says of the block at hand, and
//! gives the source as it is to be.
use vstd::prelude::*;

use crate::dom;
use crate::dom::{Element, Node};
use crate::source;
use crate::source::{
    as_block, as_list, as_title, columns_attribute, image_macro, insert_block, insert_line,
    remove_line, remove_lines, replace, table_block_range, text_of, with_attribution, with_columns,
    Columns, LineRange,
};
use crate::table;
use crate::text;
use crate::text::{blank, boundary, byte_count, split, trim_end, trim_start};
use crate::wysiwyg;
use crate::wysiwyg::{attr, attr_text, strip_generated, Block, Kind, Marks};

verus! {

/// The source after an edit, and the line whose block the caret goes to.
#[derive(Debug, PartialEq)]
pub struct Edit {
    pub source: String,
    pub line: Option<usize>,
}

/// The source with the lines of a range replaced.
pub open spec fn range_replaced(src: Seq<char>, start: int, end: int, text: Seq<char>) -> Seq<
    char,
> {
    source::document(source::lines_replaced(text::lines_of(src), start, end, text), src)
}

/// What an edit comes to, if there is one: the source, and the line whose block
/// the caret goes to.
pub open spec fn edit_made(r: Option<Edit>) -> Option<(Seq<char>, Option<usize>)> {
    match r {
        Some(edit) => Some((edit.source@, edit.line)),
        None => None,
    }
}

/// The last line of a block: a block with no source yet has but its first.
pub open spec fn last_line(marks: Marks, start: usize) -> usize {
    match wysiwyg::number_in(marks.end) {
        Some(end) => end,
        None => start,
    }
}

fn end_of(marks: &Marks, start: usize) -> (r: usize)
    ensures
        r == last_line(*marks, start),
{
    match attr(&marks.end) {
        Some(end) => end,
        None => start,
    }
}

// ---------------------------------------------------------------------
// Writing a block back
// ---------------------------------------------------------------------

/// The source of a block that says `written`, in whatever shape its kind
/// takes: a title's leading dot, a heading's `=`, an admonition's label, the
/// attribute line of an attribution.
pub open spec fn source_text(
    kind: Kind,
    marks: Marks,
    written: Seq<char>,
    title: Option<Seq<char>>,
) -> Seq<char> {
    match kind {
        Kind::Title => source::title_of(
            wysiwyg::without_prefix(written, wysiwyg::text_in(marks.prefix)),
        ),
        Kind::Heading(level) => source::headed(written, Some(level)),
        Kind::Attribution(style) => source::attributed(
            style@,
            wysiwyg::without_prefix(written, wysiwyg::text_in(marks.prefix)),
        ),
        Kind::Admonition(_) => {
            let text = wysiwyg::text_in(marks.lead) + written;
            match title {
                Some(words) => source::title_of(words) + source::newline() + text,
                None => text,
            }
        },
        _ => written,
    }
}

/// The source of a block that says `written`, with the text of the title that
/// the block holds, if it holds one.
pub fn block_source(kind: Kind, marks: &Marks, written: &str, title: Option<&str>) -> (r: String)
    ensures
        r@ == source_text(kind, *marks, written@, text::maybe_text(title)),
{
    match kind {
        Kind::Title => {
            let prefix = attr_text(&marks.prefix);
            as_title(strip_generated(written, &prefix))
        },
        Kind::Heading(level) => as_block(written, Some(level)),
        Kind::Attribution(style) => {
            let prefix = attr_text(&marks.prefix);
            with_attribution(style, strip_generated(written, &prefix))
        },
        Kind::Admonition(_) => {
            // The label is part of the source line but not of what is
            // rendered, and a title of its own occupies the line above.
            let mut text = attr_text(&marks.lead);
            text.append(written);
            match title {
                Some(words) => {
                    let mut out = as_title(words);
                    out.push('\n');
                    out.append(&text);
                    assert(out@ == source::title_of(words@) + source::newline() + text@);
                    out
                },
                None => text,
            }
        },
        _ => written.to_string(),
    }
}

/// A block written back into the source.
#[derive(Debug, PartialEq)]
pub struct Written {
    pub source: String,
    /// Where the block starts.
    pub start: usize,
    /// Where the block now ends.
    pub end: usize,
    /// How many lines it takes, with the blank one that sets off a new block.
    pub added: usize,
    /// How many lines it took.
    pub removed: usize,
}

/// How many lines a block with source `text` takes, with the blank one that
/// sets off a new block.
pub open spec fn lines_added(marks: Marks, text: Seq<char>) -> int {
    text::pieces(text, '\n').len() + (if wysiwyg::number_in(marks.end) is Some {
        0int
    } else {
        1
    })
}

/// How many lines a block takes that starts at `start`: none, if it has no
/// source yet.
pub open spec fn lines_removed(marks: Marks, start: usize) -> int {
    match wysiwyg::number_in(marks.end) {
        Some(end) => end + 1 - start,
        None => 0,
    }
}

/// The source after a block that starts at `start` has been written back as
/// `text`.
pub open spec fn block_written(src: Seq<char>, marks: Marks, start: usize, text: Seq<char>) -> Seq<
    char,
> {
    match wysiwyg::number_in(marks.end) {
        Some(end) => range_replaced(src, start as int, end as int, text),
        None => source::document(
            source::block_inserted(text::lines_of(src), start as int, text),
            src,
        ),
    }
}

/// Whether the lines of a block can be counted after it has been written back
/// as `text`.
pub open spec fn is_written_in_bounds(marks: Marks, start: usize, text: Seq<char>) -> bool {
    &&& start + text::pieces(text, '\n').len() <= usize::MAX
    &&& wysiwyg::number_in(marks.end) matches Some(end) ==> start <= end + 1 && end < usize::MAX
}

/// Writes `text` back as the block's source.
///
/// A block created by pressing Enter has no source of its own until now; it
/// takes one, plus the blank line that separates it.
pub fn write_block(src: &str, marks: &Marks, text: &str) -> (r: Option<Written>)
    requires
        wysiwyg::number_in(marks.line) matches Some(start) ==> is_written_in_bounds(
            *marks,
            start,
            text@,
        ),
    ensures
        match wysiwyg::number_in(marks.line) {
            Some(start) => {
                &&& r is Some
                &&& r->0.source@ == block_written(src@, *marks, start, text@)
                &&& r->0.start == start
                &&& r->0.end == start + text::pieces(text@, '\n').len() - 1
                &&& r->0.added == lines_added(*marks, text@)
                &&& r->0.removed == lines_removed(*marks, start)
            },
            None => r is None,
        },
{
    let start = match attr(&marks.line) {
        Some(start) => start,
        None => return None,
    };
    let parts = split(text, '\n');
    let added = parts.len();
    assert(text::texts(parts@).len() == added);
    match attr(&marks.end) {
        Some(end) => {
            let range = LineRange { start, end };
            Some(
                Written {
                    source: replace(src, range, text),
                    start,
                    end: start + (added - 1),
                    added,
                    removed: range.line_count(),
                },
            )
        },
        None => Some(
            Written {
                source: insert_block(src, start, text),
                start,
                end: start + (added - 1),
                added: added + 1,
                removed: 0,
            },
        ),
    }
}

/// The lines that a rendered block is recorded to have come from.
#[derive(Clone, Copy, Debug, PartialEq, Eq, Structural)]
pub struct Recorded {
    pub line: usize,
    pub end: Option<usize>,
}

/// Whether a line can be moved by what was added and removed.
pub open spec fn can_shift(line: usize, added: usize, removed: usize) -> bool {
    removed <= line + added <= usize::MAX
}

/// What is recorded of a block after an edit of the block at `start`.
pub open spec fn shifted(block: Recorded, start: usize, added: usize, removed: usize) -> Recorded {
    if added == removed || block.line <= start {
        block
    } else {
        Recorded {
            line: (block.line + added - removed) as usize,
            end: match block.end {
                Some(end) => Some((end + added - removed) as usize),
                None => None,
            },
        }
    }
}

/// Adjusts the recorded line numbers of the blocks after `start`.
///
/// Blocks below an edited one move when the edit changes how many lines it
/// occupies, so their recorded numbers are shifted to keep them addressable
/// without another rendering.
pub fn shift_lines_below(
    blocks: &[Recorded],
    start: usize,
    added: usize,
    removed: usize,
) -> (r: Vec<Recorded>)
    requires
        forall|i: int|
            0 <= i < blocks@.len() && added != removed && (#[trigger] blocks@[i]).line > start
                ==> can_shift(blocks@[i].line, added, removed) && (blocks@[i].end matches Some(end)
                ==> can_shift(end, added, removed)),
    ensures
        r@ == blocks@.map_values(|block: Recorded| shifted(block, start, added, removed)),
{
    let ghost goal = blocks@.map_values(|block: Recorded| shifted(block, start, added, removed));
    let mut out: Vec<Recorded> = Vec::new();
    let mut i: usize = 0;
    while i < blocks.len()
        invariant
            forall|i: int|
                0 <= i < blocks@.len() && added != removed && (#[trigger] blocks@[i]).line > start
                    ==> can_shift(blocks@[i].line, added, removed) && (
                blocks@[i].end matches Some(end) ==> can_shift(end, added, removed)),
            goal == blocks@.map_values(
                |block: Recorded| shifted(block, start, added, removed),
            ),
            i <= blocks@.len(),
            out@ == goal.take(i as int),
        decreases blocks.len() - i,
    {
        let block = blocks[i];
        let moved = if added == removed || block.line <= start {
            block
        } else {
            Recorded {
                line: block.line + added - removed,
                end: match block.end {
                    Some(end) => Some(end + added - removed),
                    None => None,
                },
            }
        };
        assert(moved == goal[i as int]);
        out.push(moved);
        assert(out@ == goal.take(i + 1));
        i += 1;
    }
    assert(goal.take(i as int) == goal);
    out
}

/// A block written back into the source, and what is recorded of the blocks
/// after that.
#[derive(Debug, PartialEq)]
pub struct Synced {
    pub written: Written,
    pub blocks: Vec<Recorded>,
}

/// Whether the lines of the other blocks can be counted after the block at
/// `start` has been written back.
pub open spec fn are_moved_in_bounds(
    blocks: Seq<Recorded>,
    start: usize,
    added: int,
    removed: int,
) -> bool {
    forall|i: int|
        0 <= i < blocks.len() && added != removed && (#[trigger] blocks[i]).line > start ==> {
            &&& removed <= blocks[i].line + added <= usize::MAX
            &&& blocks[i].end matches Some(end) ==> removed <= end + added <= usize::MAX
        }
}

/// Whether every block can be moved by what was added and removed.
fn can_move(blocks: &[Recorded], start: usize, added: usize, removed: usize) -> (r: bool)
    ensures
        r == are_moved_in_bounds(blocks@, start, added as int, removed as int),
{
    if added == removed {
        return true;
    }
    let fits = |line: usize| -> (fit: bool)
        ensures
            fit == (removed <= line + added <= usize::MAX),
        { line <= usize::MAX - added && removed <= line + added };
    let mut i: usize = 0;
    while i < blocks.len()
        invariant
            added != removed,
            i <= blocks@.len(),
            forall|line: usize| #[trigger] fits.requires((line,)),
            forall|line: usize, fit: bool| #[trigger]
                fits.ensures((line,), fit) ==> fit == (removed <= line + added <= usize::MAX),
            forall|j: int|
                0 <= j < i && (#[trigger] blocks@[j]).line > start ==> {
                    &&& removed <= blocks@[j].line + added <= usize::MAX
                    &&& blocks@[j].end matches Some(end) ==> removed <= end + added <= usize::MAX
                },
        decreases blocks.len() - i,
    {
        let block = blocks[i];
        if block.line > start {
            if !fits(block.line) {
                assert(blocks@[i as int].line > start);
                return false;
            }
            if let Some(end) = block.end {
                if !fits(end) {
                    assert(blocks@[i as int].line > start);
                    return false;
                }
            }
        }
        i += 1;
    }
    true
}

/// Writes an edited block that says `written` back into the source, and moves
/// the recorded lines of `blocks`. There is nothing to write for a block that
/// names no line, nor where lines could not be counted any more.
pub fn sync_block(
    src: &str,
    kind: Kind,
    marks: &Marks,
    written: &str,
    title: Option<&str>,
    blocks: &[Recorded],
) -> (r: Option<Synced>)
    ensures
        ({
            let text = source_text(kind, *marks, written@, text::maybe_text(title));
            let added = lines_added(*marks, text);
            match wysiwyg::number_in(marks.line) {
                Some(start) => {
                    let removed = lines_removed(*marks, start);
                    &&& r is Some <==> is_written_in_bounds(*marks, start, text)
                        && are_moved_in_bounds(blocks@, start, added, removed)
                    &&& r matches Some(synced) ==> {
                        &&& synced.written.source@ == block_written(src@, *marks, start, text)
                        &&& synced.written.start == start
                        &&& synced.written.end == start + text::pieces(text, '\n').len() - 1
                        &&& synced.written.added == added
                        &&& synced.written.removed == removed
                        &&& synced.blocks@ == blocks@.map_values(
                            |block: Recorded|
                                shifted(block, start, added as usize, removed as usize),
                        )
                    }
                },
                None => r is None,
            }
        }),
{
    let start = match attr(&marks.line) {
        Some(start) => start,
        None => return None,
    };
    let text = block_source(kind, marks, written, title);
    let parts = split(&text, '\n');
    assert(text::texts(parts@).len() == parts.len());
    if parts.len() > usize::MAX - start {
        return None;
    }
    if let Some(end) = attr(&marks.end) {
        if end == usize::MAX || start > end + 1 {
            return None;
        }
    }
    let done = match write_block(src, marks, &text) {
        Some(done) => done,
        None => return None,
    };
    if !can_move(blocks, start, done.added, done.removed) {
        return None;
    }
    let moved = shift_lines_below(blocks, start, done.added, done.removed);
    Some(Synced { written: done, blocks: moved })
}

// ---------------------------------------------------------------------
// Re-casting a block
// ---------------------------------------------------------------------

/// What comes of writing `made` over a block, with the caret in it.
pub open spec fn written_over(src: Seq<char>, marks: Marks, made: Seq<char>) -> Option<
    (Seq<char>, Option<usize>),
> {
    match wysiwyg::number_in(marks.line) {
        Some(start) => Some(
            (
                range_replaced(src, start as int, last_line(marks, start) as int, made),
                Some(start),
            ),
        ),
        None => None,
    }
}

/// Whether a block can be turned into a list, or out of one, by its marks.
pub open spec fn can_be_listed(marks: Marks) -> bool {
    !marks.title && marks.lead is None
}

/// Whether a block of the given kind can be labelled as an admonition, or lose
/// its label.
pub open spec fn can_be_labelled(kind: Kind) -> bool {
    kind is Body || kind is Admonition
}

/// Re-casts a block that says `text` as a heading of `level`, or as body text.
pub fn set_level(src: &str, marks: &Marks, text: &str, level: Option<usize>) -> (r: Option<Edit>)
    ensures
        edit_made(r) == written_over(src@, *marks, source::headed(text@, level)),
        match wysiwyg::number_in(marks.line) {
            Some(start) => r is Some && r->0.line == Some(start) && r->0.source@ == range_replaced(
                src@,
                start as int,
                last_line(*marks, start) as int,
                source::headed(text@, level),
            ),
            None => r is None,
        },
{
    let start = match attr(&marks.line) {
        Some(start) => start,
        None => return None,
    };
    let end = end_of(marks, start);
    let block = as_block(text, level);
    Some(Edit { source: replace(src, LineRange { start, end }, &block), line: Some(start) })
}

/// Re-casts a block that says `text` as a list of `marker`, or back into body
/// text. A title or an admonition is left as it is.
pub fn set_list(src: &str, marks: &Marks, text: &str, marker: Option<char>) -> (r: Option<Edit>)
    ensures
        edit_made(r) == if can_be_listed(*marks) {
            written_over(src@, *marks, source::listed(text@, marker))
        } else {
            None
        },
        r is Some <==> !marks.title && marks.lead is None && wysiwyg::number_in(marks.line) is Some,
        r matches Some(edit) ==> {
            let start = wysiwyg::number_in(marks.line)->0;
            &&& edit.line == Some(start)
            &&& edit.source@ == range_replaced(
                src@,
                start as int,
                last_line(*marks, start) as int,
                source::listed(text@, marker),
            )
        },
{
    if marks.title || marks.lead.is_some() {
        return None;
    }
    let start = match attr(&marks.line) {
        Some(start) => start,
        None => return None,
    };
    let end = end_of(marks, start);
    let block = as_list(text, marker);
    Some(Edit { source: replace(src, LineRange { start, end }, &block), line: Some(start) })
}

/// `text` under an admonition's label, or under none.
pub open spec fn labelled(text: Seq<char>, label: Option<Seq<char>>) -> Seq<char> {
    match label {
        Some(words) => words + seq![':', ' '] + text,
        None => text,
    }
}

/// Labels a block that says `text` as an admonition, or takes the label away.
///
/// Only body text can take a label, and only an admonition can lose one. What
/// is rendered never contains the label, so the block's text can simply be
/// written back out under a different one, or under none.
pub fn set_admonition(
    src: &str,
    kind: Kind,
    marks: &Marks,
    text: &str,
    label: Option<&str>,
) -> (r: Option<Edit>)
    ensures
        edit_made(r) == if can_be_labelled(kind) {
            written_over(src@, *marks, labelled(text@, text::maybe_text(label)))
        } else {
            None
        },
        r is Some <==> (kind is Body || kind is Admonition) && wysiwyg::number_in(
            marks.line,
        ) is Some,
        r matches Some(edit) ==> {
            let start = wysiwyg::number_in(marks.line)->0;
            &&& edit.line == Some(start)
            &&& edit.source@ == range_replaced(
                src@,
                start as int,
                last_line(*marks, start) as int,
                labelled(text@, text::maybe_text(label)),
            )
        },
{
    match kind {
        Kind::Body => {},
        Kind::Admonition(_) => {},
        _ => {
            return None;
        },
    }
    let start = match attr(&marks.line) {
        Some(start) => start,
        None => return None,
    };
    let end = end_of(marks, start);
    let block = match label {
        Some(words) => {
            let mut out = words.to_string();
            out.push(':');
            out.push(' ');
            out.append(text);
            assert(out@ == labelled(text@, Some(words@)));
            out
        },
        None => text.to_string(),
    };
    Some(Edit { source: replace(src, LineRange { start, end }, &block), line: Some(start) })
}

/// Placeholder for a title that has just been added, selected so that the
/// first keystroke replaces it.
pub const NEW_TITLE: &'static str = "Title";

/// What comes of giving a block a title, with the caret in it.
pub open spec fn title_given(src: Seq<char>, marks: Marks) -> Option<(Seq<char>, Option<usize>)> {
    match wysiwyg::number_in(marks.line) {
        Some(line) => Some(
            (
                source::document(
                    source::line_inserted(
                        text::lines_of(src),
                        line as int,
                        source::title_of(NEW_TITLE@),
                    ),
                    src,
                ),
                Some(line),
            ),
        ),
        None => None,
    }
}

/// What comes of taking lines away, with the caret left in the block at `line`.
pub open spec fn taken_away(src: Seq<char>, start: int, end: int, line: Option<usize>) -> (
    Seq<char>,
    Option<usize>,
) {
    (source::document(source::lines_removed(text::lines_of(src), start, end), src), line)
}

/// Gives a block a title, and puts the caret in it.
pub fn add_title(src: &str, marks: &Marks) -> (r: Option<Edit>)
    ensures
        edit_made(r) == title_given(src@, *marks),
        match wysiwyg::number_in(marks.line) {
            Some(line) => r is Some && r->0.line == Some(line) && r->0.source@ == source::document(
                source::line_inserted(
                    text::lines_of(src@),
                    line as int,
                    source::title_of(NEW_TITLE@),
                ),
                src@,
            ),
            None => r is None,
        },
{
    match attr(&marks.line) {
        Some(line) => Some(
            Edit { source: insert_line(src, line, &as_title(NEW_TITLE)), line: Some(line) },
        ),
        None => None,
    }
}

/// Takes the title on `title_line` away from its block. The block itself has
/// then moved up into the line the title occupied.
pub fn remove_title(src: &str, title_line: Option<usize>) -> (r: Option<Edit>)
    ensures
        edit_made(r) == match title_line {
            Some(line) => Some(taken_away(src@, line as int, line as int, Some(line))),
            None => None,
        },
        match title_line {
            Some(line) => r is Some && r->0.line == Some(line) && r->0.source@ == source::document(
                source::lines_removed(text::lines_of(src@), line as int, line as int),
                src@,
            ),
            None => r is None,
        },
{
    match title_line {
        Some(line) => Some(Edit { source: remove_line(src, line), line: Some(line) }),
        None => None,
    }
}

// ---------------------------------------------------------------------
// Blocks put in and taken out
// ---------------------------------------------------------------------

/// Points an image block at something else, or describes it differently.
pub fn update_image(src: &str, block: Block, target: &str, alt: &str) -> (r: Edit)
    ensures
        r.line == Some(block.line),
        r.source@ == range_replaced(
            src@,
            block.line as int,
            block.end as int,
            source::image_of(target@, alt@),
        ),
{
    let text = image_macro(target, alt);
    Edit {
        source: replace(src, LineRange { start: block.line, end: block.end }, &text),
        line: Some(block.line),
    }
}

/// Removes an image, and any title that came with it: from the block's own
/// first line, which is `start`.
pub fn remove_image(src: &str, start: Option<usize>, marks: &Marks) -> (r: Option<Edit>)
    ensures
        r is Some <==> marks.image is Some && start is Some && wysiwyg::number_in(
            marks.end,
        ) is Some,
        r matches Some(edit) ==> edit.line is None && edit.source@ == source::document(
            source::lines_removed(
                text::lines_of(src@),
                start->0 as int,
                wysiwyg::number_in(marks.end)->0 as int,
            ),
            src@,
        ),
{
    if marks.image.is_none() {
        return None;
    }
    match (start, attr(&marks.end)) {
        (Some(start), Some(end)) => Some(
            Edit { source: remove_lines(src, LineRange { start, end }), line: None },
        ),
        _ => None,
    }
}

/// The source with a block of its own below the block ending at `after`, past
/// the blank line that closes that, or at the end when there is none.
pub open spec fn put_below(src: Seq<char>, after: Option<usize>, text: Seq<char>) -> Seq<char> {
    let line = match after {
        Some(end) => end + 2,
        None => usize::MAX as int,
    };
    source::document(source::block_inserted(text::lines_of(src), line, text), src)
}

/// Adds a block of its own below the block ending at `after`, or at the end of
/// the document when there is none.
pub fn insert_block_below(src: &str, after: Option<usize>, text: &str) -> (r: Edit)
    requires
        after matches Some(end) ==> end <= usize::MAX - 2,
    ensures
        r.source@ == put_below(src@, after, text@),
        r.line is None,
        r.source@ == source::document(
            source::block_inserted(
                text::lines_of(src@),
                match after {
                    // Past the block and the blank line that closes it.
                    Some(end) => end + 2,
                    None => usize::MAX as int,
                },
                text@,
            ),
            src@,
        ),
{
    let below = match after {
        Some(end) => end + 2,
        None => usize::MAX,
    };
    Edit { source: insert_block(src, below, text), line: None }
}

/// Removes the table starting at `start` outright.
pub fn remove_table(src: &str, start: usize) -> (r: Option<Edit>)
    requires
        1 <= start < usize::MAX,
    ensures
        r is None ==> forall|opening: int, closing: int|
            !source::is_table(src@, start as int, opening, closing),
        r matches Some(edit) ==> edit.line is None && exists|opening: int, closing: int| #[trigger]
            source::is_table(src@, start as int, opening, closing) && edit.source@
                == source::document(
                source::lines_removed(text::lines_of(src@), start as int, closing),
                src@,
            ),
{
    match table_block_range(src, start) {
        Some(range) => {
            let edit = Edit { source: remove_lines(src, range), line: None };
            proof {
                let opening = choose|opening: int| #[trigger]
                    source::is_table(src@, start as int, opening, range.end as int);
                assert(source::is_table(src@, start as int, opening, range.end as int)
                    && edit.source@ == source::document(
                    source::lines_removed(text::lines_of(src@), start as int, range.end as int),
                    src@,
                ));
            }
            Some(edit)
        },
        None => None,
    }
}

// ---------------------------------------------------------------------
// Rows and columns
// ---------------------------------------------------------------------

/// `n` empty cells.
pub open spec fn empties(n: nat) -> Seq<Seq<char>> {
    Seq::new(n, |i: int| Seq::empty())
}

/// The smaller of two places.
pub open spec fn at_most(x: int, n: int) -> int {
    if x < n {
        x
    } else {
        n
    }
}

/// The cells with an empty row of `width` below the one that starts at
/// `start`.
pub open spec fn row_added(cells: Seq<Seq<char>>, start: int, width: nat) -> Seq<Seq<char>> {
    let after = at_most(start + width, cells.len() as int);
    cells.take(after) + empties(width) + cells.skip(after)
}

/// The cells without the row of `width` that starts at `start`.
pub open spec fn row_removed(cells: Seq<Seq<char>>, start: int, width: nat) -> Seq<Seq<char>> {
    cells.take(start) + cells.skip(at_most(start + width, cells.len() as int))
}

/// The cells with an empty one after the one in place `column` of each row of
/// `width`, or at the end of a row that is not as long.
pub open spec fn column_added(cells: Seq<Seq<char>>, width: nat, column: int) -> Seq<Seq<char>>
    decreases cells.len(),
{
    if cells.len() == 0 || width == 0 {
        cells
    } else {
        let after = at_most(column + 1, cells.len() as int);
        if cells.len() <= width {
            cells.take(after) + seq![Seq::empty()] + cells.skip(after)
        } else {
            cells.take(after) + seq![Seq::empty()] + cells.subrange(after, width as int)
                + column_added(cells.skip(width as int), width, column)
        }
    }
}

/// The cells without the one in place `column` of each row of `width`.
pub open spec fn column_removed(cells: Seq<Seq<char>>, width: nat, column: int) -> Seq<Seq<char>>
    decreases cells.len(),
{
    if cells.len() == 0 || width == 0 {
        cells
    } else if cells.len() <= width {
        if column < cells.len() {
            cells.take(column) + cells.skip(column + 1)
        } else {
            cells
        }
    } else {
        cells.take(column) + cells.subrange(column + 1, width as int) + column_removed(
            cells.skip(width as int),
            width,
            column,
        )
    }
}

/// How many columns a rendered table has: one at least.
pub open spec fn width_of(t: dom::ElementModel) -> nat {
    let n = table::widest(table::rows_in(t));
    if n == 0 {
        1
    } else {
        n
    }
}

/// What the cells of a rendered table say.
pub open spec fn cells_of(t: dom::ElementModel) -> Seq<Seq<char>> {
    table::row_texts(table::rows_in(t))
}

/// The rows of a table that holds `cells`, in the layout that `shape` records
/// if it still fits.
pub open spec fn rows_text(
    cells: Seq<Seq<char>>,
    shape: Seq<char>,
    columns: usize,
    header: bool,
) -> Seq<char> {
    text::joined(
        table::table_lines(cells, table::slots_of(text::pieces(shape, ',')), columns, header),
        source::newline(),
    )
}

fn table_width(t: &Element) -> (n: usize)
    ensures
        n == width_of(dom::element_model(*t)),
        n >= 1,
{
    let n = table::columns(t);
    if n == 0 {
        1
    } else {
        n
    }
}

/// Copies the cells from `from` to `to` to the end of `out`.
fn copy_cells(out: &mut Vec<String>, cells: &[String], from: usize, to: usize)
    requires
        from <= to <= cells@.len(),
    ensures
        text::texts(final(out)@) == text::texts(old(out)@) + text::texts(cells@).subrange(
            from as int,
            to as int,
        ),
{
    let ghost before = text::texts(out@);
    let ghost all = text::texts(cells@);
    let mut i: usize = from;
    while i < to
        invariant
            from <= i <= to <= cells@.len(),
            all == text::texts(cells@),
            text::texts(out@) == before + all.subrange(from as int, i as int),
        decreases to - i,
    {
        let ghost now = text::texts(out@);
        out.push(cells[i].clone());
        proof {
            assert(text::texts(out@) == now.push(all[i as int]));
            assert(all.subrange(from as int, i + 1) == all.subrange(from as int, i as int).push(
                all[i as int],
            ));
        }
        i += 1;
    }
}

/// Puts `n` empty cells at the end of `out`.
fn add_empties(out: &mut Vec<String>, n: usize)
    ensures
        text::texts(final(out)@) == text::texts(old(out)@) + empties(n as nat),
{
    let ghost before = text::texts(out@);
    let mut i: usize = 0;
    while i < n
        invariant
            i <= n,
            text::texts(out@) == before + empties(i as nat),
        decreases n - i,
    {
        let ghost now = text::texts(out@);
        out.push(String::new());
        proof {
            assert(text::texts(out@) == now.push(Seq::empty()));
            assert(empties((i + 1) as nat) == empties(i as nat).push(Seq::empty()));
        }
        i += 1;
    }
}

/// The cells of a table with a row added under the row numbered `row`, or with
/// that row taken away, unless it is the last.
pub open spec fn row_changed(cells: Seq<Seq<char>>, width: nat, row: usize, add: bool) -> Option<
    Seq<Seq<char>>,
> {
    if add {
        Some(row_added(cells, row * width, width))
    } else if cells.len() <= width {
        None
    } else {
        Some(row_removed(cells, row * width, width))
    }
}

/// Adds a row under the row numbered `row` of the rendered table, or takes
/// that row away. Its cells came from the lines `first` to `last`.
///
/// Either way the row count changes, so the recorded layout no longer fits and
/// the table is written out afresh. A table needs a row; removing the last one
/// would leave delimiters around nothing, which is no longer a table that can
/// be found.
pub fn table_row(
    src: &str,
    t: &Element,
    row: usize,
    shape: &str,
    first: usize,
    last: usize,
    add: bool,
) -> (r: Option<Edit>)
    requires
        ({
            let width = width_of(dom::element_model(*t));
            let count = cells_of(dom::element_model(*t)).len();
            &&& row * width + width <= usize::MAX
            &&& !add && count > width ==> row * width <= count
        }),
    ensures
        edit_made(r) == match row_changed(
            cells_of(dom::element_model(*t)),
            width_of(dom::element_model(*t)),
            row,
            add,
        ) {
            Some(now) => Some(
                (
                    range_replaced(
                        src@,
                        first as int,
                        last as int,
                        rows_text(
                            now,
                            shape@,
                            width_of(dom::element_model(*t)) as usize,
                            table::headed(dom::element_model(*t)),
                        ),
                    ),
                    Some(first),
                ),
            ),
            None => None,
        },
        ({
            let cells = cells_of(dom::element_model(*t));
            let width = width_of(dom::element_model(*t));
            let start = row * width;
            let now = if add {
                row_added(cells, start, width)
            } else {
                row_removed(cells, start, width)
            };
            if !add && cells.len() <= width {
                r is None
            } else {
                r is Some && r->0.line == Some(first) && r->0.source@ == range_replaced(
                    src@,
                    first as int,
                    last as int,
                    rows_text(
                        now,
                        shape@,
                        width as usize,
                        table::headed(dom::element_model(*t)),
                    ),
                )
            }
        }),
{
    let width = table_width(t);
    let cells = table::cells_from_dom(t);
    let n = cells.len();
    let ghost all = text::texts(cells@);
    assert(all.len() == n);
    proof {
        assert(0 <= row * width) by (nonlinear_arith);
    }
    if !add && n <= width {
        return None;
    }
    let start = row * width;
    let after = if start + width < n {
        start + width
    } else {
        n
    };
    let mut now: Vec<String> = Vec::new();
    if add {
        copy_cells(&mut now, &cells, 0, after);
        add_empties(&mut now, width);
        copy_cells(&mut now, &cells, after, n);
        proof {
            assert(all.subrange(0, after as int) == all.take(after as int));
            assert(all.subrange(after as int, n as int) == all.skip(after as int));
            assert(text::texts(now@) == row_added(all, start as int, width as nat));
        }
    } else {
        copy_cells(&mut now, &cells, 0, start);
        copy_cells(&mut now, &cells, after, n);
        proof {
            assert(all.subrange(0, start as int) == all.take(start as int));
            assert(all.subrange(after as int, n as int) == all.skip(after as int));
            assert(text::texts(now@) == row_removed(all, start as int, width as nat));
        }
    }
    let rows = table::to_asciidoc(&now, &table::decode(shape), width, table::has_header(t));
    Some(
        Edit {
            source: replace(src, LineRange { start: first, end: last }, &rows),
            line: Some(first),
        },
    )
}

/// Adds an empty cell after the one in place `column` of each row.
fn add_column(cells: &[String], width: usize, column: usize) -> (r: Vec<String>)
    requires
        column < width,
    ensures
        text::texts(r@) == column_added(text::texts(cells@), width as nat, column as int),
{
    let ghost all = text::texts(cells@);
    let n = cells.len();
    let mut out: Vec<String> = Vec::new();
    let mut at: usize = 0;
    assert(all.skip(0) == all);
    while at < n
        invariant
            n == cells@.len(),
            all == text::texts(cells@),
            column < width,
            at <= n,
            column_added(all, width as nat, column as int) == text::texts(out@) + column_added(
                all.skip(at as int),
                width as nat,
                column as int,
            ),
        decreases n - at,
    {
        let ghost rest = all.skip(at as int);
        let ghost before = text::texts(out@);
        let left = n - at;
        let to = if width < left {
            at + width
        } else {
            n
        };
        let after = if column + 1 < left {
            at + (column + 1)
        } else {
            n
        };
        copy_cells(&mut out, cells, at, after);
        add_empties(&mut out, 1);
        copy_cells(&mut out, cells, after, to);
        proof {
            let k = after - at;
            assert(empties(1) == seq![Seq::<char>::empty()]);
            assert(all.subrange(at as int, after as int) == rest.take(k));
            assert(all.subrange(after as int, to as int) == rest.subrange(k, to - at));
            if left <= width {
                assert(rest.subrange(k, to - at) == rest.skip(k));
                assert(all.skip(to as int).len() == 0);
                assert(column_added(all.skip(to as int), width as nat, column as int) == Seq::<
                    Seq<char>,
                >::empty());
            } else {
                assert(rest.skip(width as int) == all.skip(to as int));
            }
            assert(text::texts(out@) + column_added(
                all.skip(to as int),
                width as nat,
                column as int,
            ) == before + column_added(rest, width as nat, column as int));
        }
        at = to;
    }
    proof {
        assert(all.skip(at as int).len() == 0);
        assert(text::texts(out@) + all.skip(at as int) == text::texts(out@));
    }
    out
}

/// Takes the cell in place `column` of each row away.
fn drop_column(cells: &[String], width: usize, column: usize) -> (r: Vec<String>)
    requires
        column < width,
    ensures
        text::texts(r@) == column_removed(text::texts(cells@), width as nat, column as int),
{
    let ghost all = text::texts(cells@);
    let n = cells.len();
    let mut out: Vec<String> = Vec::new();
    let mut at: usize = 0;
    assert(all.skip(0) == all);
    while at < n
        invariant
            n == cells@.len(),
            all == text::texts(cells@),
            column < width,
            at <= n,
            column_removed(all, width as nat, column as int) == text::texts(out@)
                + column_removed(all.skip(at as int), width as nat, column as int),
        decreases n - at,
    {
        let ghost rest = all.skip(at as int);
        let ghost before = text::texts(out@);
        let left = n - at;
        let to = if width < left {
            at + width
        } else {
            n
        };
        if column < left {
            copy_cells(&mut out, cells, at, at + column);
            copy_cells(&mut out, cells, at + column + 1, to);
        } else {
            copy_cells(&mut out, cells, at, to);
        }
        proof {
            if column < left {
                assert(all.subrange(at as int, at + column) == rest.take(column as int));
                assert(all.subrange(at + column + 1, to as int) == rest.subrange(
                    column + 1,
                    to - at,
                ));
            } else {
                assert(all.subrange(at as int, to as int) == rest);
            }
            if left <= width {
                if column < left {
                    assert(rest.subrange(column + 1, to - at) == rest.skip(column + 1));
                }
                assert(all.skip(to as int).len() == 0);
                assert(column_removed(all.skip(to as int), width as nat, column as int) == Seq::<
                    Seq<char>,
                >::empty());
            } else {
                assert(rest.skip(width as int) == all.skip(to as int));
            }
            assert(text::texts(out@) + column_removed(
                all.skip(to as int),
                width as nat,
                column as int,
            ) == before + column_removed(rest, width as nat, column as int));
        }
        at = to;
    }
    proof {
        assert(all.skip(at as int).len() == 0);
        assert(text::texts(out@) + all.skip(at as int) == text::texts(out@));
    }
    out
}

/// The widths of the columns, with one put in after the place `column`, or the
/// one in that place taken away.
pub open spec fn widths_changed(values: Seq<Seq<char>>, column: int, add: bool) -> Seq<Seq<char>> {
    if add {
        values.insert(column + 1, seq!['1'])
    } else {
        values.remove(column)
    }
}

/// The source with the `cols` attribute of the table starting at `start` kept
/// in step, if it lists the widths of `width` columns. `src` is the source
/// before the rows changed, `edited` the source after.
pub open spec fn is_in_step(
    src: Seq<char>,
    edited: Seq<char>,
    start: int,
    width: nat,
    column: int,
    add: bool,
    result: Seq<char>,
) -> bool {
    exists|n: int| #[trigger]
        source::cols_settled(src, start, n) && {
            let line = source::line_at(src, n);
            let settled = source::attached(line) && source::widths_of(line) is Some;
            &&& !source::attached(line) || source::widths_of(line) is Some || source::mentions_cols(
                line,
            )
            &&& if settled && source::widths_of(line)->0.len() == width {
                let values = widths_changed(source::widths_of(line)->0, column, add);
                result == range_replaced(
                    edited,
                    n,
                    n,
                    source::columns_set(source::line_at(edited, n), values),
                )
            } else {
                result == edited
            }
        }
}

/// Keeps the `cols` attribute of the table starting at `start` in step. The
/// attribute sits above the rows, so its line is unmoved by the rewrite.
fn keep_in_step(
    src: &str,
    edited: String,
    start: usize,
    width: usize,
    column: usize,
    add: bool,
) -> (r: String)
    requires
        1 <= start < usize::MAX,
        column < width,
    ensures
        is_in_step(src@, edited@, start as int, width as nat, column as int, add, r@),
{
    let columns = columns_attribute(src, start);
    let ghost n = choose|n: int| #[trigger]
        source::cols_settled(src@, start as int, n) && match columns {
            Columns::Implicit => !source::attached(source::line_at(src@, n)),
            Columns::Widths { line, values } => {
                &&& source::attached(source::line_at(src@, n))
                &&& line == n
                &&& source::widths_of(source::line_at(src@, n)) == Some(text::texts(values@))
            },
            Columns::Opaque => {
                &&& source::attached(source::line_at(src@, n))
                &&& source::widths_of(source::line_at(src@, n)) is None
                &&& source::mentions_cols(source::line_at(src@, n))
            },
        };
    assert(source::cols_settled(src@, start as int, n));
    match columns {
        Columns::Widths { line, values } => {
            let ghost before = text::texts(values@);
            if values.len() == width {
                let mut values = values;
                if add {
                    proof {
                        reveal_strlit("1");
                        assert("1"@ == seq!['1']);
                    }
                    values.insert(column + 1, "1".to_string());
                    assert(text::texts(values@) == before.insert(column + 1, seq!['1']));
                } else {
                    values.remove(column);
                    assert(text::texts(values@) == before.remove(column as int));
                }
                assert(line == n);
                let range = LineRange::single(line);
                let attribute = text_of(&edited, range);
                proof {
                    crate::marking::lemma_single(edited@, line);
                }
                replace(&edited, range, &with_columns(&attribute, &values))
            } else {
                edited
            }
        },
        _ => edited,
    }
}

/// Adds a column beside the column numbered `column` of the rendered table, or
/// takes that column away. Its cells came from the lines `first` to `last`,
/// and its block starts at `start`.
///
/// A `cols` attribute describes the columns, so it has to change with them.
/// The last column is the table, and stays.
pub fn table_column(
    src: &str,
    t: &Element,
    column: usize,
    shape: &str,
    first: usize,
    last: usize,
    start: usize,
    add: bool,
) -> (r: Option<Edit>)
    requires
        1 <= start < usize::MAX,
        column < width_of(dom::element_model(*t)) < usize::MAX,
    ensures
        ({
            let cells = cells_of(dom::element_model(*t));
            let width = width_of(dom::element_model(*t));
            if !add && width <= 1 {
                r is None
            } else {
                let now = if add {
                    column_added(cells, width, column as int)
                } else {
                    column_removed(cells, width, column as int)
                };
                let widened = if add {
                    width as int + 1
                } else {
                    width as int - 1
                };
                let edited = range_replaced(
                    src@,
                    first as int,
                    last as int,
                    rows_text(
                        now,
                        shape@,
                        widened as usize,
                        table::headed(dom::element_model(*t)),
                    ),
                );
                &&& r is Some
                &&& r->0.line == Some(first)
                &&& is_in_step(
                    src@,
                    edited,
                    start as int,
                    width,
                    column as int,
                    add,
                    r->0.source@,
                )
            }
        }),
{
    let width = table_width(t);
    if !add && width <= 1 {
        return None;
    }
    let cells = table::cells_from_dom(t);
    let now = if add {
        add_column(&cells, width, column)
    } else {
        drop_column(&cells, width, column)
    };
    let widened = if add {
        width + 1
    } else {
        width - 1
    };
    let rows = table::to_asciidoc(&now, &table::decode(shape), widened, table::has_header(t));
    let edited = replace(src, LineRange { start: first, end: last }, &rows);
    Some(
        Edit {
            source: keep_in_step(src, edited, start, width, column, add),
            line: Some(first),
        },
    )
}

// ---------------------------------------------------------------------
// Splitting a block
// ---------------------------------------------------------------------

/// What pressing Enter in a block comes to.
#[derive(Debug, PartialEq)]
pub enum Split {
    /// There is nothing to split.
    Nothing,
    /// There is nothing to carry down, so there is no block to render yet: the
    /// caret gets an empty block, whose source will start at `line`.
    Pending { line: usize },
    /// The block has been split, and the caret goes to the block at `line`.
    Rewritten { source: String, line: usize },
}

/// The byte at which a block that says `text` is split. Splitting a heading
/// would produce a second heading; a new paragraph under it is what pressing
/// Enter there is actually asking for.
pub open spec fn split_offset(text: Seq<char>, level: Option<usize>, caret: Option<usize>) -> int {
    let size = text::utf8_size(text) as int;
    if level is Some && level->0 > 0 {
        size
    } else {
        match caret {
            Some(offset) => at_most(offset as int, size),
            None => size,
        }
    }
}

/// Whether a block can be split.
pub open spec fn can_be_split(kind: Kind) -> bool {
    !(kind is Title || kind is Table)
}

/// The source of a block that says `text`, split after the first `k` characters
/// into two paragraphs.
pub open spec fn halves(text: Seq<char>, k: int) -> Seq<char> {
    text::trimmed_end(text.take(k)) + seq!['\n', '\n'] + text::trimmed_start(text.skip(k))
}

/// Where the second half starts, of a block that starts at `start`: past the
/// first half and the blank line after it.
pub open spec fn second_half(text: Seq<char>, k: int, start: usize) -> int {
    start + text::pieces(text::trimmed_end(text.take(k)), '\n').len() + 1
}

/// Splits a paragraph at the caret, or starts a new paragraph after a heading.
/// The block says `text`, and `caret` is how many bytes of that stand before
/// the caret.
///
/// A title belongs to the block below it; splitting it would put a stray
/// paragraph between the two. A table cell has no line to split at all.
pub fn split_block(
    src: &str,
    kind: Kind,
    marks: &Marks,
    text: &str,
    caret: Option<usize>,
) -> (r: Split)
    requires
        wysiwyg::number_in(marks.line) matches Some(start) ==> {
            &&& last_line(*marks, start) <= usize::MAX - 2
            &&& start + text@.len() <= usize::MAX - 2
        },
    ensures
        !can_be_split(kind) ==> r is Nothing,
        r matches Split::Rewritten { source, line } ==> exists|k: int| #[trigger]
            text::is_boundary(
                text@,
                split_offset(text@, wysiwyg::number_in(marks.level), caret),
                k,
            ) && wysiwyg::number_in(marks.line) is Some && edit_made(
                Some(Edit { source, line: Some(line) }),
            ) == Some(
                (
                    range_replaced(
                        src@,
                        wysiwyg::number_in(marks.line)->0 as int,
                        last_line(*marks, wysiwyg::number_in(marks.line)->0) as int,
                        halves(text@, k),
                    ),
                    Some(second_half(text@, k, wysiwyg::number_in(marks.line)->0) as usize),
                ),
            ),
        if kind is Title || kind is Table || wysiwyg::number_in(marks.line) is None {
            r is Nothing
        } else {
            let start = wysiwyg::number_in(marks.line)->0;
            let end = last_line(*marks, start);
            let offset = split_offset(text@, wysiwyg::number_in(marks.level), caret);
            match r {
                Split::Nothing => forall|k: int| !text::is_boundary(text@, offset, k),
                Split::Pending { line } => line == end + 2 && exists|k: int| #[trigger]
                    text::is_boundary(text@, offset, k) && text::is_blank(text@.skip(k)),
                Split::Rewritten { source, line } => exists|k: int| #[trigger]
                    text::is_boundary(text@, offset, k) && {
                        let before = text::trimmed_end(text@.take(k));
                        let after = text@.skip(k);
                        &&& !text::is_blank(after)
                        &&& source@ == range_replaced(
                            src@,
                            start as int,
                            end as int,
                            before + seq!['\n', '\n'] + text::trimmed_start(after),
                        )
                        &&& line == start + text::pieces(before, '\n').len() + 1
                    },
            }
        },
{
    let start = match attr(&marks.line) {
        Some(start) => start,
        None => return Split::Nothing,
    };
    let end = end_of(marks, start);
    match kind {
        Kind::Title => {
            return Split::Nothing;
        },
        Kind::Table { .. } => {
            return Split::Nothing;
        },
        _ => {},
    }
    let size = byte_count(text);
    let heading = match attr(&marks.level) {
        Some(level) => level > 0,
        None => false,
    };
    let offset = if heading {
        size
    } else {
        match caret {
            Some(offset) => if offset < size {
                offset
            } else {
                size
            },
            None => size,
        }
    };
    assert(offset == split_offset(text@, wysiwyg::number_in(marks.level), caret));
    let k = match boundary(text, offset) {
        Some(k) => k,
        None => return Split::Nothing,
    };
    assert(text::is_boundary(text@, offset as int, k as int));
    let n = text.unicode_len();
    let before = trim_end(text.substring_char(0, k));
    let after = text.substring_char(k, n);
    proof {
        assert(text@.subrange(0, k as int) == text@.take(k as int));
        assert(after@ == text@.skip(k as int));
        text::lemma_spaces_after(text@.take(k as int));
    }
    if blank(after) {
        return Split::Pending { line: end + 2 };
    }
    let mut replacement = before.to_string();
    replacement.push('\n');
    replacement.push('\n');
    replacement.append(trim_start(after));
    assert(replacement@ == before@ + seq!['\n', '\n'] + text::trimmed_start(after@));
    let parts = split(before, '\n');
    proof {
        text::lemma_pieces_count(before@, '\n');
        assert(text::texts(parts@).len() == parts@.len());
        assert(before@.len() <= k);
    }
    Split::Rewritten {
        source: replace(src, LineRange { start, end }, &replacement),
        line: start + parts.len() + 1,
    }
}

/// How far into the block's AsciiDoc text a point sits, in bytes, given what
/// is rendered before it.
///
/// Writing out the content *before* a point gives its offset directly: the
/// same function that writes the block out defines the mapping, so the two can
/// never disagree.
pub fn offset_within(before: &[Node]) -> (r: usize)
    ensures
        r == text::utf8_size(
            text::trimmed_start(
                crate::inline::written(crate::inline::nodes_read(dom::nodes_model(before@))),
            ),
        ),
{
    let words = crate::inline::to_asciidoc(&crate::inline::from_nodes(before));
    byte_count(trim_start(&words))
}

/// A caret in the text of a block, outside of any formatting, splits what the
/// block says where it stands: the offset that is measured for it is where what
/// is written before it ends, or the end of what the block says, if that comes
/// first. The caret stands between `x` and `y`, with `a` before that text and
/// `b` after it.
pub proof fn law_caret_splits_the_text(
    a: Seq<dom::NodeModel>,
    x: Seq<char>,
    y: Seq<char>,
    b: Seq<dom::NodeModel>,
)
    ensures
        ({
            let before = text::trimmed_start(
                crate::inline::written(
                    crate::inline::nodes_read(a.push(dom::NodeModel::Text(x))),
                ),
            );
            let said = text::trimmed(
                crate::inline::written(
                    crate::inline::nodes_read(a.push(dom::NodeModel::Text(x + y)) + b),
                ),
            );
            let k = at_most(before.len() as int, said.len() as int);
            &&& said.take(k) == before.take(k)
            &&& text::is_boundary(
                said,
                at_most(text::utf8_size(before) as int, text::utf8_size(said) as int),
                k,
            )
        }),
{
    let first = crate::inline::written(crate::inline::nodes_read(a)) + x;
    let rest = y + crate::inline::written(crate::inline::nodes_read(b));
    let whole = crate::inline::written(
        crate::inline::nodes_read(a.push(dom::NodeModel::Text(x + y)) + b),
    );
    lemma_written_push(a, x);
    lemma_written_push(a, x + y);
    crate::inline::lemma_read_in_order(a.push(dom::NodeModel::Text(x + y)), b);
    crate::inline::law_written_in_order(
        crate::inline::nodes_read(a.push(dom::NodeModel::Text(x + y))),
        crate::inline::nodes_read(b),
    );
    assert(whole == first + rest);
    let before = text::trimmed_start(first);
    let after = text::trimmed_start(whole);
    let said = text::trimmed(whole);
    let k = at_most(before.len() as int, said.len() as int);
    text::lemma_spaces_before(first);
    text::lemma_spaces_after(after);
    if before.len() > 0 {
        let n = text::spaces_before(first) as int;
        assert(whole.take(n) == first.take(n));
        assert(whole[n] == first[n]);
        text::lemma_spaces_before_is(whole, n);
        assert(after.take(k) == before.take(k));
    }
    assert(said.take(k) == before.take(k));
    if k < said.len() {
        text::lemma_utf8_grows(said, k, said.len() as int);
    }
    if k < before.len() {
        text::lemma_utf8_grows(before, k, before.len() as int);
    }
    assert(said.take(said.len() as int) == said);
    assert(before.take(before.len() as int) == before);
}

/// What is written of a run of nodes, with a text after it.
proof fn lemma_written_push(a: Seq<dom::NodeModel>, x: Seq<char>)
    ensures
        crate::inline::written(crate::inline::nodes_read(a.push(dom::NodeModel::Text(x))))
            == crate::inline::written(crate::inline::nodes_read(a)) + x,
{
    let node = dom::NodeModel::Text(x);
    let span = crate::inline::Span::Text(x);
    assert(a.push(node).drop_last() == a);
    assert(crate::inline::node_read(node) == seq![span]);
    crate::inline::law_written_in_order(crate::inline::nodes_read(a), seq![span]);
    assert(seq![span].drop_last() == Seq::<crate::inline::Span>::empty());
    assert(crate::inline::written_one(span) == x);
    assert(crate::inline::written(Seq::empty()) == Seq::<char>::empty());
    assert(crate::inline::written(seq![span]) == crate::inline::written(
        seq![span].drop_last(),
    ) + crate::inline::written_one(seq![span].last()));
    assert(Seq::<char>::empty() + x == x);
}

// ---------------------------------------------------------------------
// What one edit undoes of another
// ---------------------------------------------------------------------

/// A row that is put in below a full row and taken out again leaves the cells
/// as they were.
pub proof fn law_row_added_then_removed(cells: Seq<Seq<char>>, start: int, width: nat)
    requires
        0 <= start,
        start + width <= cells.len(),
    ensures
        row_removed(row_added(cells, start, width), start + width, width) == cells,
{
    let more = row_added(cells, start, width);
    let at = start + width;
    assert(more.take(at) == cells.take(at));
    assert(more.skip(at + width) == cells.skip(at));
    assert(cells.take(at) + cells.skip(at) == cells);
}

/// A column that is put in and taken out again leaves the cells as they were,
/// if the rows are full.
pub proof fn law_column_added_then_removed(cells: Seq<Seq<char>>, width: nat, column: int)
    requires
        0 <= column < width,
        cells.len() % width == 0,
    ensures
        column_removed(column_added(cells, width, column), width + 1, column + 1) == cells,
    decreases cells.len(),
{
    let more = column_added(cells, width, column);
    if cells.len() > 0 {
        let after = column + 1;
        assert(cells.len() >= width) by (nonlinear_arith)
            requires
                cells.len() % width == 0,
                cells.len() > 0,
                width > 0,
        ;
        if cells.len() <= width {
            assert(more.len() == width + 1);
            assert(more.take(after) == cells.take(after));
            assert(more.skip(after + 1) == cells.skip(after));
            assert(cells.take(after) + cells.skip(after) == cells);
        } else {
            let rest = cells.skip(width as int);
            assert(rest.len() % width == 0) by (nonlinear_arith)
                requires
                    cells.len() % width == 0,
                    rest.len() == cells.len() - width,
                    width > 0,
            ;
            law_column_added_then_removed(rest, width, column);
            let then = column_added(rest, width, column);
            let row = cells.take(after) + seq![Seq::<char>::empty()] + cells.subrange(
                after,
                width as int,
            );
            assert(more == row + then);
            lemma_column_added_longer(rest, width, column);
            assert(more.len() > width + 1);
            assert(more.skip((width + 1) as int) == then);
            assert(more.take(after) == cells.take(after));
            assert(more.subrange(after + 1, (width + 1) as int) == cells.subrange(
                after,
                width as int,
            ));
            assert(cells.take(after) + cells.subrange(after, width as int) + rest == cells);
        }
    }
}

proof fn lemma_column_added_longer(cells: Seq<Seq<char>>, width: nat, column: int)
    requires
        cells.len() > 0,
        0 <= column < width,
    ensures
        column_added(cells, width, column).len() > cells.len(),
    decreases cells.len(),
{
    if cells.len() > width {
        lemma_column_added_longer(cells.skip(width as int), width, column);
    }
}

// ---------------------------------------------------------------------
// What the edits come to, piece by piece
// ---------------------------------------------------------------------

/// A block below an edit moves by as many lines as there are now more, or
/// fewer, and is as long as it was: its end moves with its start. A block that
/// starts no later than the edited one stays.
pub proof fn law_moved_block_keeps_its_length(
    block: Recorded,
    start: usize,
    added: usize,
    removed: usize,
)
    requires
        can_shift(block.line, added, removed),
        block.end matches Some(end) ==> can_shift(end, added, removed),
    ensures
        ({
            let moved = shifted(block, start, added, removed);
            &&& block.line <= start ==> moved == block
            &&& block.line > start ==> moved.line - block.line == added - removed
            &&& moved.end is Some <==> block.end is Some
            &&& block.end matches Some(end) ==> moved.end->0 - moved.line == end - block.line
        }),
{
}

/// A row that is put in has as many empty cells as the table has columns, all
/// of them below the row it was put in under; every other cell keeps its place
/// among the others.
pub proof fn law_row_added_cell_by_cell(cells: Seq<Seq<char>>, start: int, width: nat, i: int)
    requires
        0 <= start,
        0 <= i < cells.len(),
    ensures
        ({
            let now = row_added(cells, start, width);
            let after = if start + width < cells.len() {
                start + width
            } else {
                cells.len() as int
            };
            &&& now.len() == cells.len() + width
            &&& i < after ==> now[i] == cells[i]
            &&& i >= after ==> now[i + width] == cells[i]
            &&& forall|k: int| after <= k < after + width ==> (#[trigger] now[k]).len() == 0
        }),
{
}

/// A row that is taken out takes the cells in it along, and no others.
pub proof fn law_row_removed_cell_by_cell(cells: Seq<Seq<char>>, start: int, width: nat, i: int)
    requires
        0 <= start <= cells.len(),
        0 <= i < cells.len(),
    ensures
        ({
            let now = row_removed(cells, start, width);
            &&& start + width <= cells.len() ==> now.len() == cells.len() - width
            &&& start + width > cells.len() ==> now.len() == start
            &&& i < start ==> now[i] == cells[i]
            &&& i >= start + width ==> now[i - width] == cells[i]
        }),
{
}

/// A column that is put in gives each row one empty cell, right after the one
/// beside it, or at the end of a last row that does not reach so far; the rows
/// stay in order.
pub proof fn law_column_added_row_by_row(cells: Seq<Seq<char>>, width: nat, column: int)
    requires
        0 <= column < width,
    ensures
        cells.len() == 0 ==> column_added(cells, width, column).len() == 0,
        cells.len() > 0 ==> {
            let n = if cells.len() < width {
                cells.len() as int
            } else {
                width as int
            };
            let place = if column < n {
                column + 1
            } else {
                n
            };
            let now = column_added(cells, width, column);
            let row = now.take(n + 1);
            &&& now.len() >= n + 1
            &&& row.remove(place) == cells.take(n)
            &&& row[place].len() == 0
            &&& now.skip(n + 1) == column_added(cells.skip(n), width, column)
        },
{
    if cells.len() > 0 {
        let n = if cells.len() < width {
            cells.len() as int
        } else {
            width as int
        };
        let place = if column < n {
            column + 1
        } else {
            n
        };
        let now = column_added(cells, width, column);
        let rest = column_added(cells.skip(n), width, column);
        let row = cells.take(place) + seq![Seq::<char>::empty()] + cells.subrange(place, n);
        if cells.len() <= width {
            assert(cells.skip(n).len() == 0);
            assert(cells.skip(place) == cells.subrange(place, n));
            assert(now == row + rest);
        } else {
            assert(now == row + rest);
        }
        assert(now.take(n + 1) == row);
        assert(row.remove(place) == cells.take(n));
        assert(now.skip(n + 1) == rest);
    }
}

/// A column that is taken out takes one cell of each row along, the one in its
/// place, and none of a last row that does not reach so far; the rows stay in
/// order.
pub proof fn law_column_removed_row_by_row(cells: Seq<Seq<char>>, width: nat, column: int)
    requires
        0 <= column < width,
    ensures
        cells.len() == 0 ==> column_removed(cells, width, column).len() == 0,
        cells.len() > 0 ==> {
            let n = if cells.len() < width {
                cells.len() as int
            } else {
                width as int
            };
            let row = cells.take(n);
            let left = if column < n {
                row.remove(column)
            } else {
                row
            };
            let now = column_removed(cells, width, column);
            &&& now.len() >= left.len()
            &&& now.take(left.len() as int) == left
            &&& now.skip(left.len() as int) == column_removed(cells.skip(n), width, column)
        },
{
    if cells.len() > 0 {
        let n = if cells.len() < width {
            cells.len() as int
        } else {
            width as int
        };
        let row = cells.take(n);
        let left = if column < n {
            row.remove(column)
        } else {
            row
        };
        let now = column_removed(cells, width, column);
        let rest = column_removed(cells.skip(n), width, column);
        if cells.len() <= width {
            assert(cells.skip(n).len() == 0);
        }
        assert(now == left + rest);
        assert(now.take(left.len() as int) == left);
        assert(now.skip(left.len() as int) == rest);
    }
}

/// In a table of full rows, a column that is put in leaves each cell in its row
/// and moves those beyond it by one place; the cells of the new column are
/// empty.
#[verifier::rlimit(40)]
#[verifier::spinoff_prover]
pub proof fn law_column_added_cell_by_cell(
    cells: Seq<Seq<char>>,
    rows: nat,
    width: nat,
    column: int,
    r: int,
    c: int,
)
    requires
        0 <= column < width,
        cells.len() == rows * width,
        0 <= r < rows,
        0 <= c < width,
    ensures
        ({
            let now = column_added(cells, width, column);
            let wide = width + 1;
            &&& now.len() == rows * wide
            &&& c <= column ==> now[r * wide + c] == cells[r * width + c]
            &&& c > column ==> now[r * wide + c + 1] == cells[r * width + c]
            &&& now[r * wide + column + 1].len() == 0
        }),
    decreases rows,
{
    let now = column_added(cells, width, column);
    let wide = width + 1;
    let w = width as int;
    law_column_added_row_by_row(cells, width, column);
    assert(rows * width >= width) by (nonlinear_arith)
        requires
            rows >= 1,
    ;
    let rest = cells.skip(w);
    assert(rest.len() == (rows - 1) * width) by (nonlinear_arith)
        requires
            rest.len() == rows * width - width,
    ;
    assert(rows * wide == (rows - 1) * wide + wide) by (nonlinear_arith);
    let row = now.take(w + 1);
    let then = column_added(rest, width, column);
    assert(now.skip(w + 1) == then);
    assert(row.remove(column + 1) == cells.take(w));
    if rows == 1 {
        assert(rest.len() == 0) by (nonlinear_arith)
            requires
                rest.len() == (rows - 1) * width,
                rows == 1,
        ;
        law_column_added_row_by_row(rest, width, column);
    } else {
        let q = if r > 0 {
            r - 1
        } else {
            0
        };
        law_column_added_cell_by_cell(rest, (rows - 1) as nat, width, column, q, c);
    }
    if r == 0 {
        assert(0 * wide == 0 && 0 * width == 0);
        if c <= column {
            assert(row.remove(column + 1)[c] == row[c]);
        } else {
            assert(row.remove(column + 1)[c] == row[c + 1]);
        }
        assert(now[c] == row[c]);
        assert(now[c + 1] == row[c + 1]);
        assert(now[column + 1] == row[column + 1]);
    } else {
        assert(r * wide == (r - 1) * wide + wide) by (nonlinear_arith);
        assert(r * width == (r - 1) * width + width) by (nonlinear_arith);
        assert((r - 1) * wide + wide <= (rows - 1) * wide) by (nonlinear_arith)
            requires
                r <= rows - 1,
                wide >= 0,
        ;
        assert(0 <= (r - 1) * wide) by (nonlinear_arith)
            requires
                r >= 1,
                wide >= 0,
        ;
        assert(0 <= (r - 1) * width) by (nonlinear_arith)
            requires
                r >= 1,
        ;
        assert((r - 1) * width + width <= (rows - 1) * width) by (nonlinear_arith)
            requires
                r <= rows - 1,
        ;
        let at = (r - 1) * wide;
        assert(then[at + c] == now[w + 1 + at + c]);
        assert(then[at + c + 1] == now[w + 1 + at + c + 1]);
        assert(then[at + column + 1] == now[w + 1 + at + column + 1]);
        assert(rest[(r - 1) * width + c] == cells[r * width + c]);
    }
}

/// The widths of the columns change in one place: a new column is as wide as
/// one, and every other keeps its width.
pub proof fn law_widths_change_in_one_place(values: Seq<Seq<char>>, column: int, i: int)
    requires
        0 <= column < values.len(),
        0 <= i < values.len(),
    ensures
        ({
            let more = widths_changed(values, column, true);
            let less = widths_changed(values, column, false);
            &&& more.len() == values.len() + 1
            &&& more[column + 1] == seq!['1']
            &&& i <= column ==> more[i] == values[i]
            &&& i > column ==> more[i + 1] == values[i]
            &&& less.len() == values.len() - 1
            &&& i < column ==> less[i] == values[i]
            &&& i > column ==> less[i - 1] == values[i]
        }),
{
}

/// A `cols` attribute that lists the widths of all the columns lists those of
/// the changed columns after a column was put in or taken out: they are read
/// from the line it stands on, which is otherwise as it was. Any other is left
/// alone, and so is the rest of the document.
#[verifier::rlimit(60)]
#[verifier::spinoff_prover]
pub proof fn law_widths_stay_in_step(
    src: Seq<char>,
    edited: Seq<char>,
    start: int,
    n: int,
    column: int,
    add: bool,
    result: Seq<char>,
)
    requires
        1 <= start,
        source::cols_settled(src, start, n),
        source::attached(source::line_at(src, n)),
        source::widths_of(source::line_at(src, n)) is Some,
        source::line_at(edited, n) == source::line_at(src, n),
        n <= text::lines_of(edited).len(),
        0 <= column < source::widths_of(source::line_at(src, n))->0.len(),
        add || source::widths_of(source::line_at(src, n))->0.len() > 1,
        source::is_tidy(edited),
        is_in_step(
            src,
            edited,
            start,
            source::widths_of(source::line_at(src, n))->0.len(),
            column,
            add,
            result,
        ),
    ensures
        ({
            let before = source::widths_of(source::line_at(src, n))->0;
            source::widths_of(source::line_at(result, n)) == Some(
                if add {
                    before.take(column + 1).push(seq!['1']) + before.skip(column + 1)
                } else {
                    before.take(column) + before.skip(column + 1)
                },
            )
        }),
        forall|k: int|
            k != n ==> #[trigger] source::line_at(result, k) == source::line_at(edited, k),
{
    let line = source::line_at(src, n);
    let before = source::widths_of(line)->0;
    let width = before.len();
    let m = choose|m: int| #[trigger]
        source::cols_settled(src, start, m) && {
            let line = source::line_at(src, m);
            let settled = source::attached(line) && source::widths_of(line) is Some;
            &&& !source::attached(line) || source::widths_of(line) is Some || source::mentions_cols(
                line,
            )
            &&& if settled && source::widths_of(line)->0.len() == width {
                let values = widths_changed(source::widths_of(line)->0, column, add);
                result == range_replaced(
                    edited,
                    m,
                    m,
                    source::columns_set(source::line_at(edited, m), values),
                )
            } else {
                result == edited
            }
        };
    if m < n {
        assert(source::attached(source::line_at(src, m)));
        assert(source::widths_of(source::line_at(src, m)) is None);
        assert(!source::mentions_cols(source::line_at(src, m)));
    } else if n < m {
        assert(source::widths_of(line) is None);
    }
    let values = widths_changed(before, column, add);
    let made = source::columns_set(line, values);
    assert(values == if add {
        before.take(column + 1).push(seq!['1']) + before.skip(column + 1)
    } else {
        before.take(column) + before.skip(column + 1)
    });
    assert forall|i: int| 0 <= i < values.len() implies source::is_number(#[trigger] values[i]) by {
        if add {
            if i <= column {
                assert(values[i] == before[i]);
            } else if i > column + 1 {
                assert(values[i] == before[i - 1]);
            }
        } else if i < column {
            assert(values[i] == before[i]);
        } else {
            assert(values[i] == before[i + 1]);
        }
    }
    crate::laws::law_columns_read_back(line, values);
    lemma_columns_line(line, values, edited, n);
    crate::laws::lemma_tidy_reads_back(edited);
    crate::laws::law_replace_shifts_lines_below(edited, n, n, made);
    text::lemma_pieces_plain(made, '\n');
    assert(text::pieces(made, '\n')[0] == made);
    assert(source::line_at(result, n) == made);
    assert forall|k: int| k != n implies #[trigger] source::line_at(result, k)
        == source::line_at(edited, k) by {
        if k > n {
            assert(source::line_at(edited, k) == source::line_at(result, k + 1 - 1));
        }
    }
}

/// A line that widths are written into is still one line, and can be read back
/// from where the line was.
proof fn lemma_columns_line(
    line: Seq<char>,
    values: Seq<Seq<char>>,
    edited: Seq<char>,
    n: int,
)
    requires
        1 <= n <= text::lines_of(edited).len(),
        source::is_tidy(edited),
        line == source::line_at(edited, n),
        source::cols_parts(line) is Some,
        source::attached(line),
        forall|i: int| 0 <= i < values.len() ==> source::is_number(#[trigger] values[i]),
    ensures
        text::free_of(source::columns_set(line, values), '\n'),
        source::reads_back(
            source::lines_replaced(
                text::lines_of(edited),
                n,
                n,
                source::columns_set(line, values),
            ),
            edited,
        ),
{
    let all = text::lines_of(edited);
    let made = source::columns_set(line, values);
    let (before, value, after) = source::cols_parts(line)->0;
    let list = text::joined(values, seq![',']);
    let opening = "cols=\""@;
    let closing = "\""@;
    reveal_strlit("cols=\"");
    reveal_strlit("\"");
    text::lemma_lines_fit(edited);
    crate::laws::lemma_tidy_reads_back(edited);
    assert(all[n - 1] == line);
    assert(text::free_of(line, '\n'));
    crate::laws::lemma_numbers_free(values, '\n');
    let p = text::place_of(line, opening)->0;
    lemma_place(line, opening);
    let rest = line.skip((p + opening.len()) as int);
    let q = text::place_of(rest, closing)->0;
    lemma_place(rest, closing);
    assert forall|i: int| 0 <= i < made.len() implies #[trigger] made[i] != '\n' by {
        let a = before.len() as int;
        let b = a + opening.len();
        let c = b + list.len();
        let d = c + closing.len();
        if i < a {
            assert(made[i] == line[i]);
        } else if i < b {
            assert(made[i] == opening[i - a]);
        } else if i < c {
            assert(made[i] == list[i - b]);
        } else if i < d {
            assert(made[i] == closing[i - c]);
        } else {
            assert(made[i] == after[i - d]);
            assert(after[i - d] == line[(p + opening.len()) + (q + closing.len()) + (i - d)]);
        }
    }
    text::lemma_pieces_plain(made, '\n');
    let now = source::lines_replaced(all, n, n, made);
    assert(now == all.update(n - 1, made));
    assert(made.len() > 0);
    // What stands after the value is the end of the line.
    assert(text::ends(made, '\r') ==> text::ends(line, '\r')) by {
        if after.len() > 0 {
            assert(made.last() == after.last());
            assert(after.last() == line.last());
        } else {
            assert(made.last() == closing[0]);
        }
    }
    assert forall|i: int| 0 <= i < now.len() - 1 implies !text::ends(#[trigger] now[i], '\r') by {
        assert(!text::ends(all[i], '\r'));
    }
}

proof fn lemma_place(s: Seq<char>, pattern: Seq<char>)
    requires
        text::place_of(s, pattern) is Some,
    ensures
        text::occurs_at(s, pattern, text::place_of(s, pattern)->0),
{
    let i = choose|i: int| text::first_at(s, pattern, i);
    if !(exists|i: int| text::first_at(s, pattern, i)) {
        assert(text::place_of(s, pattern) is None);
    }
    assert(text::first_at(s, pattern, i));
}

/// A block is split where the caret stands, but a heading at its end, as is a
/// block that the caret has left.
pub proof fn law_split_at_the_caret(text: Seq<char>, level: Option<usize>, caret: Option<usize>)
    ensures
        ({
            let size = text::utf8_size(text);
            let offset = split_offset(text, level, caret);
            &&& offset <= size
            &&& (level matches Some(n) && n > 0) ==> offset == size
            &&& caret is None ==> offset == size
            &&& !(level matches Some(n) && n > 0) ==> match caret {
                Some(at) => offset == at || (at > size && offset == size),
                None => true,
            }
        }),
{
}

/// A block that is labelled as an admonition leads with the label, a colon and
/// a space, and says after that what it said; one that loses its label says
/// just that.
pub proof fn law_labelled_read_back(i: int, said: Seq<char>)
    requires
        0 <= i < 5,
    ensures
        ({
            let label = source::ADMONITIONS[i]@;
            let made = labelled(said, Some(label));
            let n = label.len() as int;
            &&& crate::marking::is_lead(made, made.take(n + 2))
            &&& made.take(n) == label
            &&& made[n] == ':'
            &&& made[n + 1] == ' '
            &&& made.skip(n + 2) == said
        }),
        labelled(said, None) == said,
{
    let label = source::ADMONITIONS[i]@;
    let made = labelled(said, Some(label));
    let n = label.len() as int;
    assert(made.take(n) == label);
    assert(made.take(n + 2) == source::lead_text(i));
    assert(made.skip(n + 2) == said);
    assert(source::lead_text(i).is_prefix_of(made));
}

/// What is written back for a block is read back as what the block said: a
/// heading at its level, a title after its dot, an attribution from its line,
/// an admonition after its label and below its title. Any other block is
/// written as it says.
pub proof fn law_block_source_read_back(
    kind: Kind,
    marks: Marks,
    words: Seq<char>,
    title: Option<Seq<char>>,
)
    ensures
        ({
            let prefix = wysiwyg::text_in(marks.prefix);
            let lead = wysiwyg::text_in(marks.lead);
            let flat = text::trimmed(text::folded(words));
            match kind {
                Kind::Heading(level) => 1 <= level <= 6 ==> {
                    let made = source_text(kind, marks, words, title);
                    source::is_heading(made, level as int) && source::heading_title(made) == flat
                },
                Kind::Title => {
                    let made = source_text(kind, marks, prefix + words, title);
                    made.len() > 0 && made[0] == '.' && made.skip(1) == flat
                },
                Kind::Attribution(style) => {
                    let made = source_text(kind, marks, prefix + words, title);
                    forall|i: int|
                        0 <= i < 2 && (#[trigger] source::ATTRIBUTED[i])@ == style@
                            && !text::is_blank(words) && source::is_plain_value(
                            text::folded(words),
                        ) ==> source::attribution_in(made) == Some((style@, flat))
                },
                Kind::Admonition(_) => {
                    let made = source_text(kind, marks, words, title);
                    let n = made.len() - words.len();
                    &&& n >= lead.len()
                    &&& made.skip(n) == words
                    &&& made.subrange(n - lead.len(), n) == lead
                    &&& match title {
                        Some(said) => {
                            let above = made.take(n - lead.len());
                            &&& above.len() > 1
                            &&& above[0] == '.'
                            &&& above.last() == '\n'
                            &&& above.subrange(1, above.len() - 1) == text::trimmed(
                                text::folded(said),
                            )
                        },
                        None => n == lead.len(),
                    }
                },
                _ => source_text(kind, marks, words, title) == words,
            }
        }),
{
    let prefix = wysiwyg::text_in(marks.prefix);
    let lead = wysiwyg::text_in(marks.lead);
    match kind {
        Kind::Heading(level) => if 1 <= level <= 6 {
            crate::laws::law_heading_read_back(words, level);
        },
        Kind::Title => {
            law_generated_prefix_is_dropped(prefix, words);
            crate::laws::law_title_read_back(words);
        },
        Kind::Attribution(style) => {
            law_generated_prefix_is_dropped(prefix, words);
            assert forall|i: int|
                0 <= i < 2 && (#[trigger] source::ATTRIBUTED[i])@ == style@ && !text::is_blank(
                    words,
                ) && source::is_plain_value(text::folded(words)) implies source::attribution_in(
                source_text(kind, marks, prefix + words, title),
            ) == Some((style@, text::trimmed(text::folded(words)))) by {
                crate::laws::law_attribution_read_back(i, words);
            }
        },
        Kind::Admonition(_) => {
            let made = source_text(kind, marks, words, title);
            let n = made.len() - words.len();
            assert(made.skip(n) == words);
            assert(made.subrange(n - lead.len(), n) == lead);
            if let Some(said) = title {
                let flat = text::trimmed(text::folded(said));
                let above = made.take(n - lead.len());
                assert(above == source::title_of(said) + source::newline());
                assert(above.subrange(1, above.len() - 1) == flat);
            }
        },
        _ => {},
    }
}

/// What the renderer put in front of a text is dropped again, and nothing else.
pub proof fn law_generated_prefix_is_dropped(prefix: Seq<char>, words: Seq<char>)
    ensures
        wysiwyg::without_prefix(prefix + words, prefix) == words,
        !prefix.is_prefix_of(words) ==> wysiwyg::without_prefix(words, prefix) == words,
{
    let whole = prefix + words;
    assert(whole.subrange(0, prefix.len() as int) == prefix);
    assert(prefix.is_prefix_of(whole));
    assert(whole.skip(prefix.len() as int) == words);
}

/// A table has as many columns as its widest row has cells, and one at least; a
/// block that names no last line ends where it starts.
pub proof fn law_columns_and_last_lines(t: dom::ElementModel, i: int, marks: Marks, start: usize)
    ensures
        width_of(t) >= 1,
        0 <= i < table::rows_in(t).len() ==> table::cells_in(table::rows_in(t)[i]).len()
            <= width_of(t),
        width_of(t) > 1 ==> exists|k: int|
            0 <= k < table::rows_in(t).len() && #[trigger] table::cells_in(
                table::rows_in(t)[k],
            ).len() == width_of(t),
        wysiwyg::number_in(marks.end) is None ==> last_line(marks, start) == start,
        wysiwyg::number_in(marks.end) is Some ==> last_line(marks, start) == wysiwyg::number_in(
            marks.end,
        )->0,
{
    let rows = table::rows_in(t);
    if 0 <= i < rows.len() {
        table::law_widest_row(rows, i);
    }
    if rows.len() > 0 {
        table::law_widest_row(rows, 0);
    }
}

// ---------------------------------------------------------------------
// Where the edits go
// ---------------------------------------------------------------------

/// Whether the lines of `made` stand in place of those from `start` to `end`,
/// with all the others where they were, in a document that is read back.
pub open spec fn stands(src: Seq<char>, now: Seq<char>, start: int, end: int, made: Seq<char>) -> bool {
    let all = text::lines_of(src);
    let expected = all.take(start - 1) + text::pieces(made, '\n') + all.skip(end);
    source::reads_back(expected, src) ==> text::lines_of(now) == expected
}

proof fn lemma_stands(src: Seq<char>, start: int, end: int, made: Seq<char>)
    requires
        1 <= start <= end <= text::lines_of(src).len(),
    ensures
        stands(src, range_replaced(src, start, end, made), start, end, made),
{
    let all = text::lines_of(src);
    let expected = all.take(start - 1) + text::pieces(made, '\n') + all.skip(end);
    assert(source::lines_replaced(all, start, end, made) == expected);
    if source::reads_back(expected, src) {
        crate::laws::law_document_read_back(expected, src);
    }
}

/// A block that is re-cast stands where it was, and the caret stays in it: as a
/// heading, by its equals signs and its words on one line, or as body text; as
/// a list, unless it is a title or an admonition; under a label, if it is body
/// text or an admonition. A block that names no line is left alone.
pub proof fn law_recast_where_it_was(
    src: Seq<char>,
    marks: Marks,
    start: usize,
    end: usize,
    said: Seq<char>,
    level: Option<usize>,
    kind: Kind,
    made: Seq<char>,
)
    requires
        wysiwyg::number_in(marks.line) == Some(start),
        wysiwyg::number_in(marks.end) == Some(end),
        1 <= start <= end <= text::lines_of(src).len(),
    ensures
        ({
            let heading = match level {
                Some(n) => text::repeated('=', n as nat) + seq![' '] + text::trimmed(
                    text::folded(said),
                ),
                None => said,
            };
            let recast = written_over(src, marks, source::headed(said, level));
            &&& recast is Some
            &&& (recast->0).1 == Some(start)
            &&& stands(src, (recast->0).0, start as int, end as int, heading)
        }),
        ({
            let over = written_over(src, marks, made);
            &&& over is Some
            &&& (over->0).1 == Some(start)
            &&& stands(src, (over->0).0, start as int, end as int, made)
        }),
        can_be_listed(marks) <==> !marks.title && !(marks.lead is Some),
        can_be_labelled(kind) <==> kind is Body || kind is Admonition,
        can_be_split(kind) <==> kind is Body || kind is Heading || kind is List
            || kind is Admonition || kind is Attribution || kind is Image,
{
    lemma_stands(src, start as int, end as int, source::headed(said, level));
    lemma_stands(src, start as int, end as int, made);
}

/// A title goes on a line of its own above its block, which moves down by one,
/// and comes away from it again: taking it away leaves the lines around.
pub proof fn law_title_comes_and_goes(src: Seq<char>, marks: Marks, line: usize)
    requires
        wysiwyg::number_in(marks.line) == Some(line),
        1 <= line <= text::lines_of(src).len(),
    ensures
        ({
            let all = text::lines_of(src);
            let given = title_given(src, marks);
            let longer = all.take(line - 1) + seq![seq!['.', 'T', 'i', 't', 'l', 'e']] + all.skip(
                line - 1,
            );
            let shorter = all.take(line - 1) + all.skip(line as int);
            let taken = taken_away(src, line as int, line as int, Some(line));
            &&& given is Some
            &&& (given->0).1 == Some(line)
            &&& source::reads_back(longer, src) ==> text::lines_of((given->0).0) == longer
            &&& source::is_title(seq!['.', 'T', 'i', 't', 'l', 'e'])
            &&& taken.1 == Some(line)
            &&& source::reads_back(shorter, src) ==> text::lines_of(taken.0) == shorter
        }),
{
    let all = text::lines_of(src);
    let words = seq!['T', 'i', 't', 'l', 'e'];
    let title = seq!['.', 'T', 'i', 't', 'l', 'e'];
    reveal_strlit("Title");
    assert("Title"@ == words);
    text::lemma_trimmed_keeps(words);
    assert(text::folded(words) == words);
    assert(source::title_of(NEW_TITLE@) == title);
    let longer = all.take(line - 1) + seq![title] + all.skip(line - 1);
    assert(source::line_inserted(all, line as int, title) == longer);
    if source::reads_back(longer, src) {
        crate::laws::law_document_read_back(longer, src);
    }
    let shorter = all.take(line - 1) + all.skip(line as int);
    assert(source::lines_removed(all, line as int, line as int) == shorter);
    if source::reads_back(shorter, src) {
        crate::laws::law_document_read_back(shorter, src);
    }
    crate::laws::law_title_lines(title);
}

/// A block that is put below another stands after the blank line that closes
/// that one, with a blank line after it; everything below moves down.
pub proof fn law_put_below_the_blank_line(src: Seq<char>, end: usize, made: Seq<char>)
    requires
        1 <= end,
        end + 2 <= text::lines_of(src).len(),
    ensures
        ({
            let all = text::lines_of(src);
            let now = put_below(src, Some(end), made);
            let expected = all.take(end + 1) + text::pieces(made, '\n') + seq![Seq::<char>::empty()]
                + all.skip(end + 1);
            source::reads_back(expected, src) ==> text::lines_of(now) == expected
        }),
{
    let all = text::lines_of(src);
    let expected = all.take(end + 1) + text::pieces(made, '\n') + seq![Seq::<char>::empty()]
        + all.skip(end + 1);
    assert(source::block_inserted(all, end + 2, made) == expected);
    if source::reads_back(expected, src) {
        crate::laws::law_document_read_back(expected, src);
    }
}

/// A row is added right under the row it is added to, and is all empty cells;
/// the row that is taken away is just that one, and the last is not. The cells
/// of all other rows stay in order.
pub proof fn law_row_changes_in_its_place(
    cells: Seq<Seq<char>>,
    width: nat,
    row: usize,
    from: int,
    i: int,
)
    requires
        from == row * width,
        0 <= from,
        from + width <= cells.len(),
    ensures
        ({
            let now = row_changed(cells, width, row, true)->0;
            &&& row_changed(cells, width, row, true) is Some
            &&& now.len() == cells.len() + width
            &&& 0 <= i < from + width ==> now[i] == cells[i]
            &&& from + width <= i < from + 2 * width ==> now[i].len() == 0
            &&& from + width <= i < cells.len() ==> now[i + width] == cells[i]
        }),
        row_changed(cells, width, row, false) is None <==> cells.len() <= width,
        cells.len() > width ==> {
            let now = row_changed(cells, width, row, false)->0;
            &&& now.len() == cells.len() - width
            &&& 0 <= i < from ==> now[i] == cells[i]
            &&& from + width <= i < cells.len() ==> now[i - width] == cells[i]
        },
{
}

/// A block that is split becomes two paragraphs with a blank line between: what
/// stood before the caret, without white space at its end, and what stood after
/// it, without any at its start. The caret goes to the first line of the second.
pub proof fn law_split_into_two(src: Seq<char>, said: Seq<char>, k: int, start: usize, end: usize)
    requires
        1 <= start <= end <= text::lines_of(src).len(),
        0 <= k <= said.len(),
    ensures
        ({
            let first = text::pieces(text::trimmed_end(said.take(k)), '\n');
            let second = text::pieces(text::trimmed_start(said.skip(k)), '\n');
            let all = text::lines_of(src);
            let expected = all.take(start - 1) + first + seq![Seq::<char>::empty()] + second
                + all.skip(end as int);
            let now = range_replaced(src, start as int, end as int, halves(said, k));
            let line = second_half(said, k, start);
            &&& source::reads_back(expected, src) ==> text::lines_of(now) == expected
            &&& expected[line - 1] == second[0]
            &&& expected[line - 2].len() == 0
        }),
{
    let a = text::trimmed_end(said.take(k));
    let b = text::trimmed_start(said.skip(k));
    let first = text::pieces(a, '\n');
    let second = text::pieces(b, '\n');
    let all = text::lines_of(src);
    let none = Seq::<char>::empty();
    text::lemma_pieces_count(a, '\n');
    text::lemma_pieces_count(b, '\n');
    text::lemma_pieces_split(a, seq!['\n'] + b, '\n');
    text::lemma_pieces_split(none, b, '\n');
    assert(none + seq!['\n'] + b == seq!['\n'] + b);
    assert(text::pieces(none, '\n') == seq![none]);
    assert(halves(said, k) == a + seq!['\n'] + (seq!['\n'] + b));
    let made = text::pieces(halves(said, k), '\n');
    assert(made == first + (seq![none] + second));
    let expected = all.take(start - 1) + first + seq![none] + second + all.skip(end as int);
    assert(all.take(start - 1) + made + all.skip(end as int) == expected);
    lemma_stands(src, start as int, end as int, halves(said, k));
}

/// An edited block is written back whenever its lines and those of the blocks
/// below it can be counted: nothing else stands in the way.
pub proof fn law_countable_blocks_are_written(
    marks: Marks,
    start: usize,
    made: Seq<char>,
    blocks: Seq<Recorded>,
    added: int,
    removed: int,
)
    requires
        start + text::pieces(made, '\n').len() <= usize::MAX,
        wysiwyg::number_in(marks.end) matches Some(end) ==> start <= end + 1 && end < usize::MAX,
        0 <= added,
        forall|i: int|
            0 <= i < blocks.len() && (#[trigger] blocks[i]).line > start ==> removed
                <= blocks[i].line + added && blocks[i].line + added <= usize::MAX && (
            blocks[i].end matches Some(end) ==> removed <= end + added && end + added
                <= usize::MAX),
    ensures
        is_written_in_bounds(marks, start, made),
        are_moved_in_bounds(blocks, start, added, removed),
{
}

} // verus!
