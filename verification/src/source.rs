//! Line-addressed edits on the AsciiDoc source.
//!
//! Every block in the rendered document carries the line it came from, so an
//! edit made through the rich-text surface is expressed as "replace these
//! source lines with this text". That translation is kept here, away from the
//! rendered document.
use vstd::prelude::*;

use crate::text;
use crate::text::{
    blank, chars_of, ends_with_char, equal, find, fold, join, lines, repeat, split, starts_with,
    starts_with_char, strip_prefix, strip_suffix, trim, trim_end, trim_start,
};

verus! {

// ---------------------------------------------------------------------
// Lines by number
// ---------------------------------------------------------------------

/// A 1-based, inclusive range of source lines.
#[derive(Clone, Copy, Debug, Eq, PartialEq)]
pub struct LineRange {
    pub start: usize,
    pub end: usize,
}

impl LineRange {
    /// Whether the range can be counted: it starts at a line, and ends no
    /// earlier than the line before that.
    pub open spec fn countable(self) -> bool {
        1 <= self.start <= self.end + 1 && self.end < usize::MAX
    }

    /// The range of one line.
    pub fn single(line: usize) -> (r: Self)
        ensures
            r.start == line,
            r.end == line,
    {
        Self { start: line, end: line }
    }

    /// How many lines the range holds.
    pub fn line_count(&self) -> (n: usize)
        requires
            self.start <= self.end + 1,
            self.end < usize::MAX,
        ensures
            n == self.end + 1 - self.start,
    {
        self.end + 1 - self.start
    }
}

/// The line numbered `n`, or nothing when there is no such line.
pub open spec fn nth(all: Seq<Seq<char>>, n: int) -> Seq<char> {
    if 1 <= n <= all.len() {
        all[n - 1]
    } else {
        Seq::empty()
    }
}

/// The line of `src` numbered `n`, or nothing when there is no such line.
pub open spec fn line_at(src: Seq<char>, n: int) -> Seq<char> {
    nth(text::lines_of(src), n)
}

/// `x` brought between 0 and `n`.
pub open spec fn clip(x: int, n: int) -> int {
    if x < 0 {
        0
    } else if x > n {
        n
    } else {
        x
    }
}

/// The lines numbered `start` to `end`, those of them that there are.
pub open spec fn span(all: Seq<Seq<char>>, start: int, end: int) -> Seq<Seq<char>> {
    all.subrange(clip(start - 1, all.len() as int), clip(end, all.len() as int))
}

/// A line feed.
pub open spec fn newline() -> Seq<char> {
    seq!['\n']
}

/// `text`, ended with a line feed if `src` ends with one.
pub open spec fn restored(text: Seq<char>, src: Seq<char>) -> Seq<char> {
    if text::ends(src, '\n') && !text::ends(text, '\n') {
        text.push('\n')
    } else {
        text
    }
}

/// The document that the lines in `all` make, in place of `src`.
pub open spec fn document(all: Seq<Seq<char>>, src: Seq<char>) -> Seq<char> {
    restored(text::joined(all, newline()), src)
}

/// Whether the lines in `all` are the lines of the document that they make in
/// place of `src`: none holds a line feed, none but an unended last one ends in
/// a carriage return, and the last one is not lost for being empty.
pub open spec fn reads_back(all: Seq<Seq<char>>, src: Seq<char>) -> bool {
    &&& text::all_free_of(all, '\n')
    &&& forall|i: int| 0 <= i < all.len() - 1 ==> !text::ends(#[trigger] all[i], '\r')
    &&& if text::ends(src, '\n') {
        all.len() > 0 && !text::ends(all.last(), '\r') && (all.len() == 1 || all.last().len() > 0)
    } else {
        all.len() > 0 ==> all.last().len() > 0
    }
}

/// Whether `src` is a document that its own lines make: its lines end in a line
/// feed alone, and it does not end in an empty line.
pub open spec fn is_tidy(src: Seq<char>) -> bool {
    &&& text::has_plain_ends(src)
    &&& !(src.len() > 1 && src[src.len() - 1] == '\n' && src[src.len() - 2] == '\n')
}

/// The line numbered `n` of `all`, or nothing when there is no such line.
fn line_or_empty<'a>(all: &'a Vec<String>, n: usize) -> (r: &'a str)
    ensures
        r@ == nth(text::texts(all@), n as int),
{
    if 1 <= n && n <= all.len() {
        all[n - 1].as_str()
    } else {
        proof {
            reveal_strlit("");
        }
        ""
    }
}

/// Appends copies of the lines of `all` from index `from` up to `to`.
fn copy_lines(out: &mut Vec<String>, all: &Vec<String>, from: usize, to: usize)
    requires
        from <= to <= all@.len(),
    ensures
        text::texts(final(out)@) == text::texts(old(out)@) + text::texts(all@).subrange(from as int, to as int),
{
    let ghost before = text::texts(out@);
    let mut i: usize = from;
    while i < to
        invariant
            from <= i <= to <= all@.len(),
            text::texts(out@) == before + text::texts(all@).subrange(from as int, i as int),
        decreases to - i,
    {
        let ghost now = text::texts(out@);
        out.push(all[i].clone());
        proof {
            assert(text::texts(out@) == now.push(text::texts(all@)[i as int]));
            assert(text::texts(all@).subrange(from as int, i + 1) == text::texts(all@).subrange(
                from as int,
                i as int,
            ).push(text::texts(all@)[i as int]));
        }
        i += 1;
    }
}

/// The document that the lines in `all` make, in place of `src`.
fn document_of(all: &Vec<String>, src: &str) -> (r: String)
    ensures
        r@ == document(text::texts(all@), src@),
{
    proof {
        reveal_strlit("\n");
        assert("\n"@ == newline());
    }
    restore_trailing_newline(join(all, "\n"), src)
}

fn restore_trailing_newline(text: String, src: &str) -> (r: String)
    ensures
        r@ == restored(text@, src@),
{
    let mut text = text;
    if ends_with_char(src, '\n') && !ends_with_char(&text, '\n') {
        text.push('\n');
    }
    text
}

/// The source text of `range`.
pub fn text_of(src: &str, range: LineRange) -> (r: String)
    requires
        range.countable(),
    ensures
        r@ == text::joined(span(text::lines_of(src@), range.start as int, range.end as int), newline()),
{
    let all = lines(src);
    let n = all.len();
    let from = if range.start - 1 < n {
        range.start - 1
    } else {
        n
    };
    let to = if range.end < n {
        range.end
    } else {
        n
    };
    let mut out: Vec<String> = Vec::new();
    copy_lines(&mut out, &all, from, to);
    proof {
        reveal_strlit("\n");
        assert("\n"@ == newline());
        assert(text::texts(out@) == span(text::lines_of(src@), range.start as int, range.end as int));
    }
    join(&out, "\n")
}

// ---------------------------------------------------------------------
// What a line is
// ---------------------------------------------------------------------

/// The characters a list marker is made of.
pub open spec fn is_marker_char(c: char) -> bool {
    c == '*' || c == '-' || c == '.'
}

/// Whether the first `n` characters of `t` are a list marker: one marker
/// character, repeated, with a space and something else after it.
pub open spec fn is_marker(t: Seq<char>, n: int) -> bool {
    &&& 0 < n < t.len()
    &&& is_marker_char(t[0])
    &&& forall|i: int| 0 <= i < n ==> #[trigger] t[i] == t[0]
    &&& t[n] == ' '
    &&& !text::is_blank(t.skip(n))
}

/// The list marker that `line` starts with, if it is a list item.
pub open spec fn marker_of(line: Seq<char>) -> Option<Seq<char>> {
    let t = text::trimmed_start(line);
    if exists|n: int| is_marker(t, n) {
        Some(t.take(choose|n: int| is_marker(t, n)))
    } else {
        None
    }
}

pub proof fn lemma_marker_of(line: Seq<char>, n: int)
    requires
        is_marker(text::trimmed_start(line), n),
    ensures
        marker_of(line) == Some(text::trimmed_start(line).take(n)),
{
    let t = text::trimmed_start(line);
    let m = choose|m: int| is_marker(t, m);
    assert(is_marker(t, m));
    if m < n {
        assert(t[m] == t[0]);
    } else if n < m {
        assert(t[n] == t[0]);
    }
}

/// The marker a list item line starts with, if it is one.
///
/// Repetition carries nesting depth in AsciiDoc (`**` is a second-level item),
/// so the whole run is returned. `1.`-style numbering is deliberately not
/// recognised: it cannot be written back without renumbering.
pub fn list_marker<'a>(line: &'a str) -> (r: Option<&'a str>)
    ensures
        r is Some <==> marker_of(line@) is Some,
        r matches Some(marker) ==> marker_of(line@) == Some(marker@),
{
    let body = trim_start(line);
    let chars = chars_of(body);
    let n = chars.len();
    let mut k: usize = 0;
    while k < n && (chars[k] == '*' || chars[k] == '-' || chars[k] == '.')
        invariant
            n == chars@.len(),
            k <= n,
            forall|i: int| 0 <= i < k ==> is_marker_char(#[trigger] chars@[i]),
        decreases n - k,
    {
        k += 1;
    }
    let mut same: usize = 0;
    while same < k && chars[same] == chars[0]
        invariant
            n == chars@.len(),
            same <= k <= n,
            forall|i: int| 0 <= i < same ==> #[trigger] chars@[i] == chars@[0],
        decreases k - same,
    {
        same += 1;
    }
    // A marker is only a marker when something follows it: `.Title` is a block
    // title and `----` is a delimiter.
    if 0 < k && same == k && k < n && chars[k] == ' ' && !blank(body.substring_char(k, n)) {
        proof {
            assert(chars@.skip(k as int) == chars@.subrange(k as int, n as int));
            assert(is_marker(body@, k as int));
            lemma_marker_of(line@, k as int);
            assert(body@.subrange(0, k as int) == body@.take(k as int));
        }
        Some(body.substring_char(0, k))
    } else {
        proof {
            assert forall|m: int| !is_marker(body@, m) by {
                if is_marker(body@, m) {
                    if m < k {
                        assert(is_marker_char(chars@[m]));
                    } else if k < m {
                        assert(chars@[k as int] == chars@[0]);
                    } else {
                        assert(chars@.skip(k as int) == chars@.subrange(k as int, n as int));
                        if same < k {
                            assert(chars@[same as int] == chars@[0]);
                        }
                    }
                }
            }
        }
        None
    }
}

/// Admonition labels, in the inline form `NOTE: text`.
pub const ADMONITIONS: [&'static str; 5] = ["NOTE", "TIP", "IMPORTANT", "WARNING", "CAUTION"];

/// What an inline admonition of the label numbered `i` starts with.
pub open spec fn lead_text(i: int) -> Seq<char> {
    ADMONITIONS[i]@ + seq![':', ' ']
}

/// Whether the label numbered `i` is the first that `text` starts with.
pub open spec fn starts_with_label(text: Seq<char>, i: int) -> bool {
    &&& 0 <= i < 5
    &&& ADMONITIONS[i]@.is_prefix_of(text)
    &&& forall|j: int| 0 <= j < i ==> !(#[trigger] ADMONITIONS[j])@.is_prefix_of(text)
}

/// The canonical label `text` begins with, whether that is a bare label or a
/// whole lead such as `NOTE: `.
pub fn admonition_label(text: &str) -> (r: Option<&'static str>)
    ensures
        r matches Some(label) ==> exists|i: int|
            starts_with_label(text@, i) && label@ == (#[trigger] ADMONITIONS[i])@,
        r is None ==> forall|i: int|
            0 <= i < 5 ==> !(#[trigger] ADMONITIONS[i])@.is_prefix_of(text@),
{
    let mut i: usize = 0;
    while i < 5
        invariant
            i <= 5,
            forall|j: int| 0 <= j < i ==> !(#[trigger] ADMONITIONS[j])@.is_prefix_of(text@),
        decreases 5 - i,
    {
        let label = ADMONITIONS[i];
        if starts_with(text, label) {
            assert(starts_with_label(text@, i as int) && label@ == ADMONITIONS[i as int]@);
            return Some(label);
        }
        i += 1;
    }
    None
}

/// The label an inline admonition starts with, including its separator.
///
/// The label lives in the source but not in the rendered content, so editing
/// an admonition has to put it back.
pub fn admonition_lead<'a>(line: &'a str) -> (r: Option<&'a str>)
    ensures
        r matches Some(lead) ==> exists|i: int|
            0 <= i < 5 && lead@ == #[trigger] lead_text(i) && lead@.is_prefix_of(line@),
        r is None ==> forall|i: int| 0 <= i < 5 ==> !(#[trigger] lead_text(i)).is_prefix_of(line@),
{
    let mut i: usize = 0;
    while i < 5
        invariant
            i <= 5,
            forall|j: int| 0 <= j < i ==> !(#[trigger] lead_text(j)).is_prefix_of(line@),
        decreases 5 - i,
    {
        let mut lead = ADMONITIONS[i].to_string();
        lead.push(':');
        lead.push(' ');
        assert(lead@ == lead_text(i as int));
        if starts_with(line, &lead) {
            let found = line.substring_char(0, lead.unicode_len());
            assert(found@ == lead_text(i as int));
            return Some(found);
        }
        i += 1;
    }
    None
}

/// Whether `line` is a block title: a dot, then a title that is neither
/// another dot nor the rest of a list item.
pub open spec fn is_title(line: Seq<char>) -> bool {
    line.len() > 1 && line[0] == '.' && line[1] != '.' && marker_of(line) is None
}

/// Whether `line` is an attribute list in brackets.
pub open spec fn is_attribute_list(line: Seq<char>) -> bool {
    text::begins(line, '[') && text::ends(text::trimmed_end(line), ']')
}

/// Whether the line belongs to the block below it rather than being content.
pub open spec fn attached(line: Seq<char>) -> bool {
    is_title(line) || is_attribute_list(line)
}

/// Whether the line is a block title (`.Title`).
pub fn is_block_title(line: &str) -> (r: bool)
    ensures
        r == is_title(line@),
{
    line.unicode_len() > 1 && line.get_char(0) == '.' && line.get_char(1) != '.' && list_marker(
        line,
    ).is_none()
}

fn is_bracketed(line: &str) -> (r: bool)
    ensures
        r == is_attribute_list(line@),
{
    starts_with_char(line, '[') && ends_with_char(trim_end(line), ']')
}

/// Whether the line belongs to the block below it rather than being content:
/// a block title or an attribute list.
pub fn is_attached(line: &str) -> (r: bool)
    ensures
        r == attached(line@),
{
    is_block_title(line) || is_bracketed(line)
}

/// The text of a block title line, without its leading dot.
pub fn block_title_text<'a>(line: &'a str) -> (r: &'a str)
    ensures
        r@ == (if text::begins(line@, '.') {
            line@.skip(1)
        } else {
            line@
        }),
{
    if starts_with_char(line, '.') {
        line.substring_char(1, line.unicode_len())
    } else {
        line
    }
}

/// A block title made of `text`, on one line.
pub open spec fn title_of(text: Seq<char>) -> Seq<char> {
    seq!['.'] + text::trimmed(text::folded(text))
}

/// Writes `text` back as a block title. Titles occupy a single line.
pub fn as_title(text: &str) -> (r: String)
    ensures
        r@ == title_of(text@),
{
    let mut out = String::new();
    out.push('.');
    let flat = fold(text);
    out.append(trim(&flat));
    assert(out@ == title_of(text@));
    out
}

/// Whether `line` is a section title of level `n`.
pub open spec fn is_heading(line: Seq<char>, n: int) -> bool {
    &&& 1 <= n <= 6
    &&& n < line.len()
    &&& forall|i: int| 0 <= i < n ==> #[trigger] line[i] == '='
    &&& line[n] == ' '
}

/// The heading level of a section title line, if it is one.
pub fn heading_level(line: &str) -> (r: Option<usize>)
    ensures
        r matches Some(n) ==> is_heading(line@, n as int),
        r is None ==> forall|n: int| !is_heading(line@, n),
{
    let chars = chars_of(line);
    let mut n: usize = 0;
    while n < chars.len() && chars[n] == '='
        invariant
            n <= chars@.len(),
            forall|i: int| 0 <= i < n ==> #[trigger] chars@[i] == '=',
        decreases chars.len() - n,
    {
        n += 1;
    }
    if 1 <= n && n <= 6 && n < chars.len() && chars[n] == ' ' {
        Some(n)
    } else {
        proof {
            assert forall|m: int| !is_heading(line@, m) by {
                if is_heading(line@, m) {
                    if m < n {
                        assert(chars@[m] == '=');
                    } else if n < m {
                        assert(chars@[n as int] == '=');
                    }
                }
            }
        }
        None
    }
}

/// The title in a section title line, or the line itself if it is not one.
pub open spec fn heading_title(line: Seq<char>) -> Seq<char> {
    if exists|n: int| is_heading(line, n) {
        text::trimmed_start(line.skip(choose|n: int| is_heading(line, n)))
    } else {
        line
    }
}

pub proof fn lemma_heading_title(line: Seq<char>, n: int)
    requires
        is_heading(line, n),
    ensures
        heading_title(line) == text::trimmed_start(line.skip(n)),
        forall|m: int| is_heading(line, m) ==> m == n,
{
    assert forall|m: int| is_heading(line, m) implies m == n by {
        if m < n {
            assert(line[m] == '=');
        } else if n < m {
            assert(line[n] == '=');
        }
    }
}

/// The title text of a section title line, without its `=` prefix.
pub fn heading_text<'a>(line: &'a str) -> (r: &'a str)
    ensures
        r@ == heading_title(line@),
{
    match heading_level(line) {
        Some(level) => {
            let n = line.unicode_len();
            proof {
                lemma_heading_title(line@, level as int);
                assert(line@.subrange(level as int, n as int) == line@.skip(level as int));
            }
            trim_start(line.substring_char(level, n))
        },
        None => line,
    }
}

// ---------------------------------------------------------------------
// Where a block is
// ---------------------------------------------------------------------

/// Whether `r` is the content of the block that `start` points at: the first
/// line from `start` on that is not attached to what follows, and the lines
/// below it up to a blank one.
pub open spec fn is_paragraph(src: Seq<char>, start: int, r: LineRange) -> bool {
    &&& start <= r.start
    &&& forall|k: int| start <= k < r.start ==> attached(#[trigger] line_at(src, k))
    &&& !attached(line_at(src, r.start as int))
    &&& r.start <= r.end
    &&& forall|k: int| r.start < k <= r.end ==> !text::is_blank(#[trigger] line_at(src, k))
    &&& text::is_blank(line_at(src, r.end + 1))
}

/// The first line of `all` from `start` on that is not attached to what
/// follows it.
fn content_line(all: &Vec<String>, start: usize) -> (r: usize)
    requires
        1 <= start < usize::MAX,
        4 * all@.len() <= isize::MAX,
    ensures
        start <= r < usize::MAX,
        r == start || r <= all@.len() + 1,
        forall|k: int| start <= k < r ==> attached(#[trigger] nth(text::texts(all@), k)),
        !attached(nth(text::texts(all@), r as int)),
{
    let mut line: usize = start;
    while is_attached(line_or_empty(all, line))
        invariant
            1 <= start <= line < usize::MAX,
            4 * all@.len() <= isize::MAX,
            line == start || line <= all@.len() + 1,
            forall|k: int| start <= k < line ==> attached(#[trigger] nth(text::texts(all@), k)),
        decreases usize::MAX - line,
    {
        line += 1;
    }
    line
}

/// The lines of the block's own content, beginning at or below `start`.
///
/// A block's recorded line points at the first line attached to it, which may
/// be a title or an attribute list rather than its content; those are skipped.
/// The content then runs to the next blank line or the end of the document,
/// which is the span the rich-text surface replaces when the block is edited.
pub fn paragraph_range(src: &str, start: usize) -> (r: LineRange)
    requires
        1 <= start < usize::MAX,
    ensures
        is_paragraph(src@, start as int, r),
        r.end < usize::MAX,
{
    let all = lines(src);
    let first = content_line(&all, start);
    let mut end: usize = first;
    while end < all.len() && !blank(&all[end])
        invariant
            first <= end < usize::MAX,
            4 * all@.len() <= isize::MAX,
            text::texts(all@) == text::lines_of(src@),
            forall|k: int| first < k <= end ==> !text::is_blank(#[trigger] line_at(src@, k)),
        decreases all.len() - end,
    {
        assert(text::texts(all@)[end as int] == line_at(src@, end + 1));
        end += 1;
    }
    proof {
        if end < all@.len() {
            assert(text::texts(all@)[end as int] == line_at(src@, end + 1));
        }
    }
    LineRange { start: first, end }
}

/// The line holding the title attached to the block starting at `start`.
///
/// A title sits with the block's attribute lines, above its content, and the
/// recorded line points at whichever of those comes first.
pub fn block_title_line(src: &str, start: usize) -> (r: Option<usize>)
    requires
        1 <= start <= usize::MAX - 4,
    ensures
        r matches Some(n) ==> start <= n < start + 4 && is_title(line_at(src@, n as int))
            && forall|k: int|
            start <= k < n ==> is_attribute_list(#[trigger] line_at(src@, k)),
        r is None ==> forall|n: int|
            start <= n < start + 4 && (forall|k: int|
                start <= k < n ==> is_attribute_list(#[trigger] line_at(src@, k)))
                ==> !is_title(#[trigger] line_at(src@, n)),
{
    let all = lines(src);
    let mut number: usize = start;
    while number < start + 4
        invariant
            1 <= start <= number <= start + 4 <= usize::MAX,
            text::texts(all@) == text::lines_of(src@),
            forall|k: int| start <= k < number ==> is_attribute_list(#[trigger] line_at(src@, k)),
        decreases start + 4 - number,
    {
        let line = line_or_empty(&all, number);
        assert(line@ == line_at(src@, number as int));
        if is_block_title(line) {
            return Some(number);
        }
        // Anything that is not an attribute list is the block's content, and
        // the title cannot be below that.
        if !is_bracketed(line) {
            proof {
                assert forall|n: int|
                    start <= n < start + 4 && (forall|k: int|
                        start <= k < n ==> is_attribute_list(
                            #[trigger] line_at(src@, k),
                        )) implies !is_title(#[trigger] line_at(src@, n)) by {
                    if n > number {
                        assert(is_attribute_list(line_at(src@, number as int)));
                    }
                }
            }
            return None;
        }
        number += 1;
    }
    None
}

/// The lines of the list rendered from the block starting at `start`.
///
/// The block's recorded line may point at a title or attribute line attached
/// to the list, neither of which is part of the list itself, so the range
/// starts at the first actual item.
pub fn list_range(src: &str, start: usize) -> (r: Option<LineRange>)
    requires
        1 <= start < usize::MAX,
    ensures
        exists|block: LineRange| #[trigger]
            is_paragraph(src@, start as int, block) && match r {
                Some(items) => {
                    &&& block.start <= items.start <= items.end
                    &&& items.end == block.end
                    &&& items.end < usize::MAX
                    &&& marker_of(line_at(src@, items.start as int)) is Some
                    &&& forall|k: int|
                        block.start <= k < items.start ==> marker_of(
                            #[trigger] line_at(src@, k),
                        ) is None
                },
                None => forall|k: int|
                    block.start <= k <= block.end ==> marker_of(
                        #[trigger] line_at(src@, k),
                    ) is None,
            },
{
    let block = paragraph_range(src, start);
    let all = lines(src);
    let mut line: usize = block.start;
    while line <= block.end
        invariant
            block.start <= line <= block.end + 1,
            block.end < usize::MAX,
            is_paragraph(src@, start as int, block),
            text::texts(all@) == text::lines_of(src@),
            forall|k: int|
                block.start <= k < line ==> marker_of(#[trigger] line_at(src@, k)) is None,
        decreases block.end + 1 - line,
    {
        let text = line_or_empty(&all, line);
        assert(text@ == line_at(src@, line as int));
        if list_marker(text).is_some() {
            return Some(LineRange { start: line, end: block.end });
        }
        line += 1;
    }
    None
}

// ---------------------------------------------------------------------
// Tables
// ---------------------------------------------------------------------

/// What a table's `cols` attribute says about its columns.
#[derive(Clone, Debug, PartialEq)]
pub enum Columns {
    /// No `cols` attribute: the columns follow the rows and need no upkeep.
    Implicit,
    /// A plain list of widths, which can be kept in step with the rows.
    Widths { line: usize, values: Vec<String> },
    /// A `cols` this module will not rewrite: a repeat (`3*`), an alignment
    /// or a per-column style. Changing the columns under it would describe a
    /// table that no longer exists.
    Opaque,
}

/// What stands before the value of a line's `cols` attribute, the value, and
/// what stands after it.
pub open spec fn cols_parts(line: Seq<char>) -> Option<(Seq<char>, Seq<char>, Seq<char>)> {
    match text::place_of(line, "cols=\""@) {
        Some(p) => {
            let rest = line.skip((p + "cols=\""@.len()) as int);
            match text::place_of(rest, "\""@) {
                Some(q) => Some((line.take(p), rest.take(q), rest.skip((q + "\""@.len()) as int))),
                None => None,
            }
        },
        None => None,
    }
}

/// Whether `s` is a number written in digits.
pub open spec fn is_number(s: Seq<char>) -> bool {
    s.len() > 0 && forall|i: int| 0 <= i < s.len() ==> '0' <= #[trigger] s[i] && s[i] <= '9'
}

/// The plain numeric widths that a line's `cols` attribute gives.
pub open spec fn widths_of(line: Seq<char>) -> Option<Seq<Seq<char>>> {
    match cols_parts(line) {
        Some((_, value, _)) => {
            let values = text::pieces(value, ',').map_values(|v: Seq<char>| text::trimmed(v));
            if forall|i: int| 0 <= i < values.len() ==> is_number(#[trigger] values[i]) {
                Some(values)
            } else {
                None
            }
        },
        None => None,
    }
}

/// Whether `line` has a `cols` attribute of any form.
pub open spec fn mentions_cols(line: Seq<char>) -> bool {
    exists|i: int| text::occurs_at(line, "cols="@, i)
}

fn split_cols<'a>(line: &'a str) -> (r: Option<(&'a str, &'a str, &'a str)>)
    ensures
        r is Some <==> cols_parts(line@) is Some,
        r matches Some(parts) ==> cols_parts(line@) == Some((parts.0@, parts.1@, parts.2@)),
{
    let opening = "cols=\"";
    let closing = "\"";
    let p = match find(line, opening) {
        Some(p) => p,
        None => return None,
    };
    let n = line.unicode_len();
    let from = p + opening.unicode_len();
    let rest = line.substring_char(from, n);
    assert(rest@ == line@.skip(from as int));
    let q = match find(rest, closing) {
        Some(q) => q,
        None => return None,
    };
    let before = line.substring_char(0, p);
    let value = rest.substring_char(0, q);
    let after = rest.substring_char(q + closing.unicode_len(), rest.unicode_len());
    proof {
        assert(before@ == line@.take(p as int));
        assert(value@ == rest@.take(q as int));
        assert(after@ == rest@.skip((q + closing@.len()) as int));
    }
    Some((before, value, after))
}

fn is_numeric(s: &str) -> (r: bool)
    ensures
        r == is_number(s@),
{
    let chars = chars_of(s);
    let mut i: usize = 0;
    while i < chars.len()
        invariant
            chars@ == s@,
            i <= chars@.len(),
            forall|j: int| 0 <= j < i ==> '0' <= #[trigger] chars@[j] && chars@[j] <= '9',
        decreases chars.len() - i,
    {
        let c = chars[i];
        if c < '0' || '9' < c {
            return false;
        }
        i += 1;
    }
    chars.len() > 0
}

/// The plain numeric widths of a `cols="1,2"` attribute.
pub fn column_widths(line: &str) -> (r: Option<Vec<String>>)
    ensures
        r is Some <==> widths_of(line@) is Some,
        r matches Some(values) ==> widths_of(line@) == Some(text::texts(values@)),
{
    let value = match split_cols(line) {
        Some((_, value, _)) => value,
        None => return None,
    };
    let parts = split(value, ',');
    let ghost all = text::pieces(value@, ',').map_values(|v: Seq<char>| text::trimmed(v));
    let mut out: Vec<String> = Vec::new();
    let mut i: usize = 0;
    while i < parts.len()
        invariant
            i <= parts@.len(),
            text::texts(parts@) == text::pieces(value@, ','),
            all == text::pieces(value@, ',').map_values(|v: Seq<char>| text::trimmed(v)),
            text::texts(out@) == all.take(i as int),
            forall|j: int| 0 <= j < i ==> is_number(#[trigger] all[j]),
            cols_parts(line@) matches Some(found) && found.1 == value@,
        decreases parts.len() - i,
    {
        let part = trim(&parts[i]);
        proof {
            assert(parts@[i as int]@ == text::pieces(value@, ',')[i as int]);
            assert(part@ == all[i as int]);
        }
        if !is_numeric(part) {
            return None;
        }
        out.push(part.to_string());
        proof {
            assert(all.take(i + 1) == all.take(i as int).push(all[i as int]));
            assert(text::texts(out@) == all.take(i + 1));
        }
        i += 1;
    }
    assert(all.take(i as int) == all);
    Some(out)
}

fn has_cols(line: &str) -> (r: bool)
    ensures
        r == mentions_cols(line@),
{
    match find(line, "cols=") {
        Some(i) => {
            assert(text::occurs_at(line@, "cols="@, i as int));
            true
        },
        None => false,
    }
}

/// Whether line `n` is where the search for a `cols` attribute from `start`
/// on ends: no line before it ends it.
pub open spec fn cols_settled(src: Seq<char>, start: int, n: int) -> bool {
    &&& start <= n
    &&& forall|k: int|
        start <= k < n ==> attached(#[trigger] line_at(src, k)) && widths_of(
            line_at(src, k),
        ) is None && !mentions_cols(line_at(src, k))
}

/// Reads the `cols` attribute attached to the table starting at `start`.
pub fn columns_attribute(src: &str, start: usize) -> (r: Columns)
    requires
        1 <= start < usize::MAX,
    ensures
        exists|n: int| #[trigger]
            cols_settled(src@, start as int, n) && match r {
                Columns::Implicit => !attached(line_at(src@, n)),
                Columns::Widths { line, values } => {
                    &&& attached(line_at(src@, n))
                    &&& line == n
                    &&& widths_of(line_at(src@, n)) == Some(text::texts(values@))
                },
                Columns::Opaque => {
                    &&& attached(line_at(src@, n))
                    &&& widths_of(line_at(src@, n)) is None
                    &&& mentions_cols(line_at(src@, n))
                },
            },
        r matches Columns::Widths { line, .. } ==> line < usize::MAX,
{
    let all = lines(src);
    let mut line: usize = start;
    loop
        invariant
            1 <= start <= line < usize::MAX,
            4 * all@.len() <= isize::MAX,
            line == start || line <= all@.len() + 1,
            text::texts(all@) == text::lines_of(src@),
            cols_settled(src@, start as int, line as int),
        decreases usize::MAX - line,
    {
        let found = line_or_empty(&all, line);
        assert(found@ == line_at(src@, line as int));
        if !is_attached(found) {
            return Columns::Implicit;
        }
        if let Some(values) = column_widths(found) {
            return Columns::Widths { line, values };
        }
        if has_cols(found) {
            return Columns::Opaque;
        }
        line += 1;
    }
}

/// An attribute line with its `cols` set to the given widths.
pub open spec fn columns_set(line: Seq<char>, values: Seq<Seq<char>>) -> Seq<char> {
    match cols_parts(line) {
        Some((before, _, after)) => before + "cols=\""@ + text::joined(values, seq![',']) + "\""@
            + after,
        None => line,
    }
}

/// Rewrites an attribute line's `cols` to the given widths.
pub fn with_columns(line: &str, values: &[String]) -> (r: String)
    ensures
        r@ == columns_set(line@, text::texts(values@)),
{
    match split_cols(line) {
        Some((before, _, after)) => {
            let mut out = before.to_string();
            out.append("cols=\"");
            proof {
                reveal_strlit(",");
                assert(","@ == seq![',']);
            }
            out.append(&join(values, ","));
            out.append("\"");
            out.append(after);
            out
        },
        None => line.to_string(),
    }
}

/// Whether `line` opens or closes a table.
pub open spec fn is_delimiter(line: Seq<char>) -> bool {
    text::trimmed(line) == "|==="@
}

/// Whether the table that `start` points at is opened on line `opening` and
/// closed on line `closing`.
pub open spec fn is_table(src: Seq<char>, start: int, opening: int, closing: int) -> bool {
    &&& start <= opening < closing
    &&& forall|k: int| start <= k < opening ==> attached(#[trigger] line_at(src, k))
    &&& is_delimiter(line_at(src, opening))
    &&& forall|k: int| opening < k < closing ==> !is_delimiter(#[trigger] line_at(src, k))
    &&& is_delimiter(line_at(src, closing))
    &&& closing <= text::lines_of(src).len()
}

/// There is one place at most for a table's delimiters.
pub proof fn lemma_table_unique(src: Seq<char>, start: int, o: int, c: int, o2: int, c2: int)
    requires
        is_table(src, start, o, c),
        is_table(src, start, o2, c2),
    ensures
        o == o2,
        c == c2,
{
    lemma_delimiter_not_attached(line_at(src, o));
    lemma_delimiter_not_attached(line_at(src, o2));
    if o < o2 {
        assert(attached(line_at(src, o)));
    }
    if o2 < o {
        assert(attached(line_at(src, o2)));
    }
    if c < c2 {
        assert(is_delimiter(line_at(src, c)));
    }
    if c2 < c {
        assert(is_delimiter(line_at(src, c2)));
    }
}

proof fn lemma_delimiter_not_attached(line: Seq<char>)
    requires
        is_delimiter(line),
    ensures
        !attached(line),
{
    reveal_strlit("|===");
    text::lemma_trimmed(line);
    let t = text::trimmed(line);
    assert(t.len() == 4 && t[0] == '|');
    assert(t[0] == line[text::spaces_before(line) as int]);
    if attached(line) {
        assert(!text::is_space(line[0]));
        text::lemma_spaces_before(line);
        if text::spaces_before(line) > 0 {
            assert(text::is_space(line.take(text::spaces_before(line) as int)[0]));
        }
    }
}

fn is_table_delimiter(line: &str) -> (r: bool)
    ensures
        r == is_delimiter(line@),
{
    equal(trim(line), "|===")
}

fn table_delimiters(src: &str, start: usize) -> (r: Option<(usize, usize)>)
    requires
        1 <= start < usize::MAX,
    ensures
        r matches Some((opening, closing)) ==> is_table(
            src@,
            start as int,
            opening as int,
            closing as int,
        ),
        r is None ==> forall|opening: int, closing: int|
            !is_table(src@, start as int, opening, closing),
{
    let all = lines(src);
    let opening = content_line(&all, start);
    let first = line_or_empty(&all, opening);
    assert(first@ == line_at(src@, opening as int));
    proof {
        assert forall|o: int, c: int| is_table(src@, start as int, o, c) implies o == opening by {
            lemma_delimiter_not_attached(line_at(src@, o));
            if o < opening {
                assert(attached(nth(text::texts(all@), o)));
            }
            if opening < o {
                assert(attached(line_at(src@, opening as int)));
            }
        }
    }
    if !is_table_delimiter(first) {
        return None;
    }
    let total = all.len();
    assert(opening <= total) by {
        if opening > total {
            reveal_strlit("|===");
            assert(first@.len() == 0);
            text::lemma_trimmed(first@);
        }
    }
    let mut closing: usize = opening + 1;
    while closing <= total
        invariant
            opening < closing <= total + 1,
            4 * all@.len() <= isize::MAX,
            total == all@.len(),
            text::texts(all@) == text::lines_of(src@),
            start <= opening,
            forall|k: int| start <= k < opening ==> attached(#[trigger] line_at(src@, k)),
            is_delimiter(line_at(src@, opening as int)),
            forall|k: int| opening < k < closing ==> !is_delimiter(#[trigger] line_at(src@, k)),
        decreases total + 1 - closing,
    {
        let line = line_or_empty(&all, closing);
        assert(line@ == line_at(src@, closing as int));
        if is_table_delimiter(line) {
            return Some((opening, closing));
        }
        closing += 1;
    }
    proof {
        assert forall|o: int, c: int| !is_table(src@, start as int, o, c) by {
            if is_table(src@, start as int, o, c) {
                assert(o == opening);
                assert(!is_delimiter(line_at(src@, c)));
            }
        }
    }
    None
}

/// Every line of the table starting at `start`, delimiters and attachments
/// included.
pub fn table_block_range(src: &str, start: usize) -> (r: Option<LineRange>)
    requires
        1 <= start < usize::MAX,
    ensures
        r is Some ==> r->0.start == start,
        r is Some ==> exists|opening: int| #[trigger]
            is_table(src@, start as int, opening, r->0.end as int),
        r is None ==> forall|opening: int, closing: int|
            !is_table(src@, start as int, opening, closing),
{
    match table_delimiters(src, start) {
        Some((opening, closing)) => {
            let found = Some(LineRange { start, end: closing });
            assert(is_table(src@, start as int, opening as int, found->0.end as int));
            found
        },
        None => None,
    }
}

/// The rows between the delimiters of the table starting at `start`.
///
/// The delimiters and anything attached above them stay where they are; only
/// the rows between are ever rewritten.
pub fn table_range(src: &str, start: usize) -> (r: Option<LineRange>)
    requires
        1 <= start < usize::MAX,
    ensures
        r matches Some(range) ==> range.countable() && range.start <= range.end && is_table(
            src@,
            start as int,
            range.start - 1,
            range.end + 1,
        ),
        // A table with no rows has nothing to address.
        r is None ==> forall|opening: int, closing: int|
            is_table(src@, start as int, opening, closing) ==> closing == opening + 1,
{
    match table_delimiters(src, start) {
        Some((opening, closing)) => {
            if closing > opening + 1 {
                Some(LineRange { start: opening + 1, end: closing - 1 })
            } else {
                proof {
                    assert forall|o: int, c: int|
                        is_table(src@, start as int, o, c) implies c == o + 1 by {
                        lemma_table_unique(
                            src@,
                            start as int,
                            o,
                            c,
                            opening as int,
                            closing as int,
                        );
                    }
                }
                None
            }
        },
        None => None,
    }
}

// ---------------------------------------------------------------------
// Edits
// ---------------------------------------------------------------------

/// `all` with `line` as a line of its own before the line numbered `n`, or
/// at the end when there is no such line.
pub open spec fn line_inserted(all: Seq<Seq<char>>, n: int, line: Seq<char>) -> Seq<Seq<char>> {
    let at = if 1 <= n <= all.len() {
        n - 1
    } else {
        all.len() as int
    };
    all.take(at) + seq![line] + all.skip(at)
}

/// Inserts `text` as a line of its own before `line`.
pub fn insert_line(src: &str, line: usize, text: &str) -> (r: String)
    ensures
        r@ == document(line_inserted(text::lines_of(src@), line as int, text@), src@),
{
    let all = lines(src);
    let n = all.len();
    let at = if 1 <= line && line <= n {
        line - 1
    } else {
        n
    };
    let mut out: Vec<String> = Vec::new();
    copy_lines(&mut out, &all, 0, at);
    let ghost before = text::texts(out@);
    out.push(text.to_string());
    assert(text::texts(out@) == before + seq![text@]);
    copy_lines(&mut out, &all, at, n);
    assert(text::texts(out@) == line_inserted(text::lines_of(src@), line as int, text@));
    document_of(&out, src)
}

/// `all` without the lines numbered `start` to `end`.
pub open spec fn lines_removed(all: Seq<Seq<char>>, start: int, end: int) -> Seq<Seq<char>> {
    if start <= end {
        all.take(clip(start - 1, all.len() as int)) + all.skip(clip(end, all.len() as int))
    } else {
        all
    }
}

/// Removes `line`.
pub fn remove_line(src: &str, line: usize) -> (r: String)
    ensures
        r@ == document(lines_removed(text::lines_of(src@), line as int, line as int), src@),
{
    remove_lines(src, LineRange { start: line, end: line })
}

/// Removes `range` outright, rather than leaving a blank line behind.
pub fn remove_lines(src: &str, range: LineRange) -> (r: String)
    ensures
        r@ == document(
            lines_removed(text::lines_of(src@), range.start as int, range.end as int),
            src@,
        ),
{
    let all = lines(src);
    let n = all.len();
    if range.start > range.end {
        return document_of(&all, src);
    }
    let from = if range.start == 0 {
        0
    } else if range.start - 1 < n {
        range.start - 1
    } else {
        n
    };
    let to = if range.end < n {
        range.end
    } else {
        n
    };
    let mut out: Vec<String> = Vec::new();
    copy_lines(&mut out, &all, 0, from);
    copy_lines(&mut out, &all, to, n);
    assert(text::texts(out@) == lines_removed(
        text::lines_of(src@),
        range.start as int,
        range.end as int,
    ));
    document_of(&out, src)
}

/// Whether one of the lines numbered `start` to `end` is one of `n` lines.
pub open spec fn hits(start: int, end: int, n: int) -> bool {
    start <= end && start <= n && 1 <= end
}

/// `all` with the lines of `replacement` in place of those numbered `start`
/// to `end`, or at the end when there are none of those.
pub open spec fn lines_replaced(
    all: Seq<Seq<char>>,
    start: int,
    end: int,
    replacement: Seq<char>,
) -> Seq<Seq<char>> {
    let n = all.len() as int;
    if hits(start, end, n) {
        all.take(clip(start - 1, n)) + text::pieces(replacement, '\n') + all.skip(clip(end, n))
    } else {
        all + text::pieces(replacement, '\n')
    }
}

/// Appends the lines of `text`.
fn append_lines(out: &mut Vec<String>, text: &str)
    ensures
        text::texts(final(out)@) == text::texts(old(out)@) + text::pieces(text@, '\n'),
{
    let parts = split(text, '\n');
    let n = parts.len();
    copy_lines(out, &parts, 0, n);
    assert(text::texts(parts@).subrange(0, n as int) == text::texts(parts@));
}

/// Replaces `range` with `replacement`, which may span several lines.
pub fn replace(src: &str, range: LineRange, replacement: &str) -> (r: String)
    ensures
        r@ == document(
            lines_replaced(
                text::lines_of(src@),
                range.start as int,
                range.end as int,
                replacement@,
            ),
            src@,
        ),
{
    let all = lines(src);
    let n = all.len();
    let mut out: Vec<String> = Vec::new();
    if range.start <= range.end && range.start <= n && 1 <= range.end {
        let from = if range.start == 0 {
            0
        } else {
            range.start - 1
        };
        let to = if range.end < n {
            range.end
        } else {
            n
        };
        copy_lines(&mut out, &all, 0, from);
        append_lines(&mut out, replacement);
        copy_lines(&mut out, &all, to, n);
    } else {
        copy_lines(&mut out, &all, 0, n);
        append_lines(&mut out, replacement);
    }
    assert(text::texts(out@) == lines_replaced(
        text::lines_of(src@),
        range.start as int,
        range.end as int,
        replacement@,
    ));
    document_of(&out, src)
}

/// `all` with the lines of `text` as a block before the line numbered `n`,
/// with a blank line after it, or at the end, with one before it if the last
/// line is not blank.
pub open spec fn block_inserted(all: Seq<Seq<char>>, n: int, text: Seq<char>) -> Seq<Seq<char>> {
    if 1 <= n <= all.len() {
        all.take(n - 1) + text::pieces(text, '\n') + seq![Seq::empty()] + all.skip(n - 1)
    } else if all.len() > 0 && !text::is_blank(all.last()) {
        all + seq![Seq::empty()] + text::pieces(text, '\n')
    } else {
        all + text::pieces(text, '\n')
    }
}

/// Inserts `text` as a new block starting at `line`, followed by a blank line.
///
/// Used when the rich-text surface creates a paragraph that has no source of
/// its own yet.
pub fn insert_block(src: &str, line: usize, text: &str) -> (r: String)
    ensures
        r@ == document(block_inserted(text::lines_of(src@), line as int, text@), src@),
{
    let all = lines(src);
    let n = all.len();
    let mut out: Vec<String> = Vec::new();
    if 1 <= line && line <= n {
        copy_lines(&mut out, &all, 0, line - 1);
        append_lines(&mut out, text);
        let ghost before = text::texts(out@);
        out.push(String::new());
        assert(text::texts(out@) == before + seq![Seq::<char>::empty()]);
        copy_lines(&mut out, &all, line - 1, n);
    } else {
        copy_lines(&mut out, &all, 0, n);
        // Past the end of the document: separate the new block from the last one.
        if n > 0 && !blank(&all[n - 1]) {
            let ghost before = text::texts(out@);
            out.push(String::new());
            assert(text::texts(out@) == before + seq![Seq::<char>::empty()]);
        }
        append_lines(&mut out, text);
    }
    assert(text::texts(out@) == block_inserted(text::lines_of(src@), line as int, text@));
    document_of(&out, src)
}

// ---------------------------------------------------------------------
// Images and attributions
// ---------------------------------------------------------------------

/// A block that shows the image at `target`, described as `alt`.
pub open spec fn image_of(target: Seq<char>, alt: Seq<char>) -> Seq<char> {
    "image::"@ + target + seq!['['] + alt + seq![']']
}

/// Writes a block that shows the image at `target`, described as `alt`.
pub fn image_macro(target: &str, alt: &str) -> (r: String)
    ensures
        r@ == image_of(target@, alt@),
{
    let mut out = "image::".to_string();
    out.append(target);
    out.push('[');
    out.append(alt);
    out.push(']');
    assert(out@ == image_of(target@, alt@));
    out
}

/// Whether `s` can be what an image points at: a path or a URL, with no white
/// space and no bracket in it.
pub open spec fn is_target(s: Seq<char>) -> bool {
    s.len() > 0 && forall|i: int|
        0 <= i < s.len() ==> !text::is_space(#[trigger] s[i]) && s[i] != '['
}

/// A character that has a meaning of its own in an attribute list, or ends the
/// line.
pub open spec fn is_list_char(c: char) -> bool {
    c == '[' || c == ']' || c == ',' || c == '=' || c == '"' || c == '\n'
}

/// Whether `s` stands in an attribute list for nothing but itself.
pub open spec fn is_plain_value(s: Seq<char>) -> bool {
    forall|i: int| 0 <= i < s.len() ==> !is_list_char(#[trigger] s[i])
}

/// Whether `text` is nothing but an image, which points at `target` and is
/// described as `alt`. An image with further attributes, such as a size, is
/// none: they would be lost.
pub open spec fn is_image(text: Seq<char>, target: Seq<char>, alt: Seq<char>) -> bool {
    is_target(target) && is_plain_value(alt) && text::trimmed_end(text) == image_of(target, alt)
}

/// What an image points at, and how it is described, if `text` is nothing but
/// an image.
pub open spec fn image_in(text: Seq<char>) -> Option<(Seq<char>, Seq<char>)> {
    if exists|target: Seq<char>, alt: Seq<char>| is_image(text, target, alt) {
        Some(choose|target: Seq<char>, alt: Seq<char>| is_image(text, target, alt))
    } else {
        None
    }
}

/// There is one way at most to read an image.
pub proof fn lemma_image_in(text: Seq<char>, target: Seq<char>, alt: Seq<char>)
    requires
        is_image(text, target, alt),
    ensures
        image_in(text) == Some((target, alt)),
{
    let (t, a) = choose|t: Seq<char>, a: Seq<char>| is_image(text, t, a);
    assert(is_image(text, t, a));
    let n = "image::"@.len() as int;
    let whole = text::trimmed_end(text);
    if t.len() < target.len() {
        assert(whole[n + t.len()] == '[');
        assert(whole[n + t.len()] == target[t.len() as int]);
    } else if target.len() < t.len() {
        assert(whole[n + target.len()] == '[');
        assert(whole[n + target.len()] == t[target.len() as int]);
    }
    assert(whole.subrange(n, n + t.len()) == t);
    assert(whole.subrange(n, n + t.len()) == target);
    assert(whole.subrange(n + t.len() + 1, whole.len() - 1) == a);
    assert(whole.subrange(n + t.len() + 1, whole.len() - 1) == alt);
}

fn target_like(s: &str) -> (r: bool)
    ensures
        r == is_target(s@),
{
    let chars = chars_of(s);
    let mut i: usize = 0;
    while i < chars.len()
        invariant
            chars@ == s@,
            i <= chars@.len(),
            forall|j: int| 0 <= j < i ==> !text::is_space(#[trigger] chars@[j]) && chars@[j] != '[',
        decreases chars.len() - i,
    {
        if text::is_whitespace(chars[i]) || chars[i] == '[' {
            return false;
        }
        i += 1;
    }
    chars.len() > 0
}

fn plain_value(s: &str) -> (r: bool)
    ensures
        r == is_plain_value(s@),
{
    let chars = chars_of(s);
    let mut i: usize = 0;
    while i < chars.len()
        invariant
            chars@ == s@,
            i <= chars@.len(),
            forall|j: int| 0 <= j < i ==> !is_list_char(#[trigger] chars@[j]),
        decreases chars.len() - i,
    {
        let c = chars[i];
        if c == '[' || c == ']' || c == ',' || c == '=' || c == '"' || c == '\n' {
            return false;
        }
        i += 1;
    }
    true
}

/// What an image points at, and how it is described, if `text` is nothing but
/// an image that can be written back as it is.
pub fn image_parts(text: &str) -> (r: Option<(String, String)>)
    ensures
        match r {
            Some((target, alt)) => is_image(text@, target@, alt@),
            None => forall|target: Seq<char>, alt: Seq<char>| !is_image(text@, target, alt),
        },
{
    let whole = trim_end(text);
    let opening = "image::";
    proof {
        reveal_strlit("image::");
        reveal_strlit("[");
        reveal_strlit("]");
    }
    let ghost n = opening@.len() as int;
    let rest = match strip_prefix(whole, opening) {
        Some(rest) => rest,
        None => {
            proof {
                assert forall|t: Seq<char>, a: Seq<char>| !is_image(text@, t, a) by {
                    if is_image(text@, t, a) {
                        assert(whole@.take(n) == opening@);
                    }
                }
            }
            return None;
        },
    };
    let inner = match strip_suffix(rest, "]") {
        Some(inner) => inner,
        None => {
            proof {
                assert forall|t: Seq<char>, a: Seq<char>| !is_image(text@, t, a) by {
                    if is_image(text@, t, a) {
                        assert(rest@.subrange(rest@.len() - 1, rest@.len() as int) == "]"@);
                    }
                }
            }
            return None;
        },
    };
    proof {
        assert(whole@.subrange(0, n) == opening@);
        assert(rest@.subrange(rest@.len() - 1, rest@.len() as int) == "]"@);
        assert("]"@ == seq![']']);
        assert(rest@ == inner@ + "]"@);
        assert(whole@ == opening@ + inner@ + seq![']']);
    }
    let at = match find(inner, "[") {
        Some(at) => at,
        None => {
            proof {
                assert forall|t: Seq<char>, a: Seq<char>| !is_image(text@, t, a) by {
                    if is_image(text@, t, a) {
                        assert(inner@ == whole@.subrange(n, whole@.len() - 1));
                        assert(inner@.subrange(t.len() as int, t.len() as int + 1) == "["@);
                        assert(text::occurs_at(inner@, "["@, t.len() as int));
                    }
                }
            }
            return None;
        },
    };
    assert(text::occurs_at(inner@, "["@, at as int));
    let size = inner.unicode_len();
    let target = inner.substring_char(0, at);
    let alt = inner.substring_char(at + 1, size);
    proof {
        assert(inner@.subrange(at as int, at + 1) == "["@);
        assert(inner@[at as int] == "["@[0]) by {
            assert(inner@.subrange(at as int, at + 1)[0] == "["@[0]);
        }
        assert(inner@ == target@ + seq!['['] + alt@);
        assert(whole@ == image_of(target@, alt@));
    }
    if target_like(target) && plain_value(alt) {
        Some((target.to_string(), alt.to_string()))
    } else {
        proof {
            assert forall|t: Seq<char>, a: Seq<char>| !is_image(text@, t, a) by {
                if is_image(text@, t, a) {
                    assert(inner@ == whole@.subrange(n, whole@.len() - 1));
                    assert(inner@ == t + seq!['['] + a);
                    assert(inner@.subrange(t.len() as int, t.len() as int + 1) == "["@);
                    assert(text::occurs_at(inner@, "["@, t.len() as int));
                    if at < t.len() {
                        assert(inner@[at as int] == t[at as int]);
                    }
                    assert(t.len() == at);
                    assert(inner@.subrange(0, at as int) == t);
                    assert(inner@.subrange(at + 1, inner@.len() as int) == a);
                }
            }
        }
        None
    }
}

/// The styles whose blocks carry an attribution.
pub const ATTRIBUTED: [&'static str; 2] = ["quote", "verse"];

/// The attribute line of a block of the given style that is attributed to
/// `author`.
pub open spec fn attribution_of(style: Seq<char>, author: Seq<char>) -> Seq<char> {
    seq!['['] + style + seq![','] + author + seq![']']
}

/// Whether `line` does nothing but attribute a block of the style numbered `i`
/// to `author`. A line with further attributes, such as a work, is none: they
/// would be lost.
pub open spec fn is_attribution(line: Seq<char>, i: int, author: Seq<char>) -> bool {
    &&& 0 <= i < 2
    &&& author.len() > 0
    &&& text::trimmed(author) == author
    &&& is_plain_value(author)
    &&& text::trimmed_end(line) == attribution_of(ATTRIBUTED[i]@, author)
}

/// The style of a block and whom it is attributed to, if `line` does nothing
/// but say so.
pub open spec fn attribution_in(line: Seq<char>) -> Option<(Seq<char>, Seq<char>)> {
    if exists|i: int, author: Seq<char>| is_attribution(line, i, author) {
        let (i, author) = choose|i: int, author: Seq<char>| is_attribution(line, i, author);
        Some((ATTRIBUTED[i]@, author))
    } else {
        None
    }
}

/// There is one way at most to read an attribution.
pub proof fn lemma_attribution_in(line: Seq<char>, i: int, author: Seq<char>)
    requires
        is_attribution(line, i, author),
    ensures
        attribution_in(line) == Some((ATTRIBUTED[i]@, author)),
{
    let (j, a) = choose|j: int, a: Seq<char>| is_attribution(line, j, a);
    assert(is_attribution(line, j, a));
    let whole = text::trimmed_end(line);
    reveal_strlit("quote");
    reveal_strlit("verse");
    assert(ATTRIBUTED[i]@[0] == whole[1]);
    assert(ATTRIBUTED[j]@[0] == whole[1]);
    assert(i == j);
    let n = ATTRIBUTED[i]@.len() + 2;
    assert(whole.subrange(n as int, whole.len() - 1) == author);
    assert(whole.subrange(n as int, whole.len() - 1) == a);
}

/// The style of a block and whom it is attributed to, if `line` does nothing
/// but say so.
pub fn attribution<'a>(line: &'a str) -> (r: Option<(&'static str, &'a str)>)
    ensures
        match r {
            Some((style, author)) => attribution_in(line@) == Some((style@, author@)) && exists|
                i: int,
            | #[trigger] is_attribution(line@, i, author@) && style@ == ATTRIBUTED[i]@,
            None => attribution_in(line@) is None,
        },
{
    let whole = trim_end(line);
    proof {
        reveal_strlit("]");
    }
    let mut i: usize = 0;
    while i < 2
        invariant
            whole@ == text::trimmed_end(line@),
            "]"@ == seq![']'],
            i <= 2,
            forall|j: int, author: Seq<char>| 0 <= j < i ==> !is_attribution(line@, j, author),
        decreases 2 - i,
    {
        let style = ATTRIBUTED[i];
        let mut opening = String::new();
        opening.push('[');
        opening.append(style);
        opening.push(',');
        assert(opening@ == seq!['['] + style@ + seq![',']);
        let ghost n = opening@.len() as int;
        let mut found: Option<&'a str> = None;
        if let Some(rest) = strip_prefix(whole, &opening) {
            if let Some(author) = strip_suffix(rest, "]") {
                if !author.is_empty() && equal(trim(author), author) && plain_value(author) {
                    found = Some(author);
                    assert(whole@ == attribution_of(style@, author@));
                }
                proof {
                    assert(whole@ == opening@ + author@ + seq![']']);
                    assert forall|a: Seq<char>| is_attribution(line@, i as int, a) implies a
                        == author@ by {
                        assert(whole@.subrange(n, whole@.len() - 1) == a);
                        assert(whole@.subrange(n, whole@.len() - 1) == author@);
                    }
                }
            } else {
                proof {
                    assert forall|a: Seq<char>| !is_attribution(line@, i as int, a) by {
                        if is_attribution(line@, i as int, a) {
                            assert(rest@.subrange(rest@.len() - 1, rest@.len() as int) == "]"@);
                        }
                    }
                }
            }
        } else {
            proof {
                assert forall|a: Seq<char>| !is_attribution(line@, i as int, a) by {
                    if is_attribution(line@, i as int, a) {
                        assert(whole@.subrange(0, n) == opening@);
                    }
                }
            }
        }
        if let Some(author) = found {
            proof {
                assert(is_attribution(line@, i as int, author@));
                lemma_attribution_in(line@, i as int, author@);
            }
            return Some((style, author));
        }
        i += 1;
    }
    proof {
        assert forall|j: int, author: Seq<char>| !is_attribution(line@, j, author) by {}
    }
    None
}

/// What an attribution line says of an author who is written as `author`: it
/// is one line.
pub open spec fn attributed(style: Seq<char>, author: Seq<char>) -> Seq<char> {
    attribution_of(style, text::trimmed(text::folded(author)))
}

/// Writes the attribute line of a block of the given style that is attributed
/// to `author`. Attribute lines occupy a single line.
pub fn with_attribution(style: &str, author: &str) -> (r: String)
    ensures
        r@ == attributed(style@, author@),
{
    let mut out = String::new();
    out.push('[');
    out.append(style);
    out.push(',');
    let flat = fold(author);
    out.append(trim(&flat));
    out.push(']');
    assert(out@ == attributed(style@, author@));
    out
}

// ---------------------------------------------------------------------
// Re-casting a block
// ---------------------------------------------------------------------

/// Whether a line of `text` is a list item.
pub open spec fn is_list_text(text: Seq<char>) -> bool {
    exists|i: int|
        0 <= i < text::lines_of(text).len() && marker_of(#[trigger] text::lines_of(text)[i]) is Some
}

/// What a line says, without the marker of a list item.
pub open spec fn item_text(line: Seq<char>) -> Seq<char> {
    match marker_of(line) {
        Some(marker) => text::trimmed(text::trimmed_start(line).skip(marker.len() as int)),
        None => text::trimmed(line),
    }
}

/// A line with its list marker made of `c`, at the depth it has.
pub open spec fn item_recast(line: Seq<char>, c: char) -> Seq<char> {
    match marker_of(line) {
        Some(marker) => text::repeated(c, marker.len()) + seq![' '] + item_text(line),
        None => text::trimmed(line),
    }
}

/// `text` as a list of marker `marker`, or as body text.
pub open spec fn listed(text: Seq<char>, marker: Option<char>) -> Seq<char> {
    match marker {
        None => if is_list_text(text) {
            text::joined(
                text::lines_of(text).map_values(|line: Seq<char>| item_text(line)),
                seq!['\n', '\n'],
            )
        } else {
            text
        },
        Some(c) => if is_list_text(text) {
            text::joined(
                text::lines_of(text).map_values(|line: Seq<char>| item_recast(line, c)),
                newline(),
            )
        } else {
            seq![c, ' '] + text::trimmed(text::folded(text))
        },
    }
}

fn holds_items(all: &Vec<String>) -> (r: bool)
    ensures
        r == exists|i: int|
            0 <= i < all@.len() && marker_of(#[trigger] text::texts(all@)[i]) is Some,
{
    let mut i: usize = 0;
    while i < all.len()
        invariant
            i <= all@.len(),
            forall|j: int|
                0 <= j < i ==> marker_of(#[trigger] text::texts(all@)[j]) is None,
        decreases all.len() - i,
    {
        assert(text::texts(all@)[i as int] == all@[i as int]@);
        if list_marker(&all[i]).is_some() {
            return true;
        }
        i += 1;
    }
    false
}

/// What a line says, without the marker of a list item.
fn content_of(line: &str) -> (r: String)
    ensures
        r@ == item_text(line@),
{
    match list_marker(line) {
        Some(found) => {
            let body = trim_start(line);
            let n = body.unicode_len();
            let m = found.unicode_len();
            proof {
                lemma_marker_size(line@);
            }
            let rest = body.substring_char(m, n);
            assert(rest@ == body@.skip(m as int));
            trim(rest).to_string()
        },
        None => trim(line).to_string(),
    }
}

pub proof fn lemma_marker_size(line: Seq<char>)
    ensures
        marker_of(line) matches Some(marker) ==> 0 < marker.len() < text::trimmed_start(line).len()
            && is_marker(text::trimmed_start(line), marker.len() as int)
            && marker == text::trimmed_start(line).take(marker.len() as int),
{
    if marker_of(line) is Some {
        let n = choose|n: int| is_marker(text::trimmed_start(line), n);
        lemma_marker_of(line, n);
    }
}

/// A line with its list marker made of `c`, at the depth it has.
fn recast_line(line: &str, c: char) -> (r: String)
    ensures
        r@ == item_recast(line@, c),
{
    match list_marker(line) {
        Some(found) => {
            let mut out = repeat(c, found.unicode_len());
            out.push(' ');
            out.append(&content_of(line));
            assert(out@ == item_recast(line@, c));
            out
        },
        None => trim(line).to_string(),
    }
}

/// Re-casts a block as a list of `marker`, or back into body text.
///
/// The text may already be a list, in which case its markers are swapped while
/// nesting depth is kept; otherwise the block becomes a single item. Turning a
/// list back into body text gives each item its own paragraph.
pub fn as_list(text: &str, marker: Option<char>) -> (r: String)
    ensures
        r@ == listed(text@, marker),
{
    let all = lines(text);
    let was_list = holds_items(&all);
    assert(was_list == is_list_text(text@));
    let c = match marker {
        Some(c) => c,
        None => {
            if !was_list {
                return text.to_string();
            }
            let mut out: Vec<String> = Vec::new();
            let ghost goal = text::lines_of(text@).map_values(|line: Seq<char>| item_text(line));
            let mut i: usize = 0;
            while i < all.len()
                invariant
                    i <= all@.len(),
                    text::texts(all@) == text::lines_of(text@),
                    goal == text::lines_of(text@).map_values(|line: Seq<char>| item_text(line)),
                    text::texts(out@) == goal.take(i as int),
                decreases all.len() - i,
            {
                let line = content_of(&all[i]);
                assert(all@[i as int]@ == text::lines_of(text@)[i as int]);
                out.push(line);
                assert(goal.take(i + 1) == goal.take(i as int).push(goal[i as int]));
                assert(text::texts(out@) == goal.take(i + 1));
                i += 1;
            }
            proof {
                assert(goal.take(i as int) == goal);
                reveal_strlit("\n\n");
                assert("\n\n"@ == seq!['\n', '\n']);
            }
            return join(&out, "\n\n");
        },
    };
    if !was_list {
        // A paragraph is one thought, so it becomes one item; its line breaks
        // are only wrapping and would otherwise split it.
        let mut out = String::new();
        out.push(c);
        out.push(' ');
        let flat = fold(text);
        out.append(trim(&flat));
        assert(out@ == seq![c, ' '] + text::trimmed(text::folded(text@)));
        return out;
    }
    let mut out: Vec<String> = Vec::new();
    let ghost goal = text::lines_of(text@).map_values(|line: Seq<char>| item_recast(line, c));
    let mut i: usize = 0;
    while i < all.len()
        invariant
            i <= all@.len(),
            text::texts(all@) == text::lines_of(text@),
            goal == text::lines_of(text@).map_values(|line: Seq<char>| item_recast(line, c)),
            text::texts(out@) == goal.take(i as int),
        decreases all.len() - i,
    {
        let line = recast_line(&all[i], c);
        assert(all@[i as int]@ == text::lines_of(text@)[i as int]);
        out.push(line);
        assert(goal.take(i + 1) == goal.take(i as int).push(goal[i as int]));
        assert(text::texts(out@) == goal.take(i + 1));
        i += 1;
    }
    proof {
        assert(goal.take(i as int) == goal);
        reveal_strlit("\n");
        assert("\n"@ == newline());
    }
    join(&out, "\n")
}

/// `text` as a heading of level `level`, or as body text.
pub open spec fn headed(text: Seq<char>, level: Option<usize>) -> Seq<char> {
    match level {
        Some(n) => text::repeated('=', n as nat) + seq![' '] + text::trimmed(text::folded(text)),
        None => text,
    }
}

/// Renders `text` as a heading of `level`, or as body text when `None`.
///
/// Headings occupy a single line, so any line breaks in the text are folded
/// into spaces.
pub fn as_block(text: &str, level: Option<usize>) -> (r: String)
    ensures
        r@ == headed(text@, level),
{
    match level {
        Some(n) => {
            let mut out = repeat('=', n);
            out.push(' ');
            let flat = fold(text);
            out.append(trim(&flat));
            assert(out@ == headed(text@, level));
            out
        },
        None => text.to_string(),
    }
}

} // verus!
