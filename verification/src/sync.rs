//! Two-way position mapping between the source and the preview.
//!
//! Text area offsets are UTF-16 code units (what the browser reports), not
//! bytes, so both conversions walk the source rather than indexing into it.
use vstd::prelude::*;

use crate::number;
use crate::number::read_number;
use crate::text::chars_of;

verus! {

/// How many UTF-16 code units a character takes.
pub open spec fn utf16_width(c: char) -> nat {
    if c <= '\u{ffff}' {
        1
    } else {
        2
    }
}

/// How many UTF-16 code units a text takes.
pub open spec fn units(s: Seq<char>) -> nat
    decreases s.len(),
{
    if s.len() == 0 {
        0
    } else {
        units(s.drop_last()) + utf16_width(s.last())
    }
}

/// How many line feeds a text holds.
pub open spec fn breaks(s: Seq<char>) -> nat
    decreases s.len(),
{
    if s.len() == 0 {
        0
    } else {
        breaks(s.drop_last()) + (if s.last() == '\n' {
            1nat
        } else {
            0
        })
    }
}

/// Whether the first `k` characters of `src` are those that begin before the
/// code unit at `offset`.
pub open spec fn begin_before(src: Seq<char>, offset: int, k: int) -> bool {
    &&& 0 <= k <= src.len()
    &&& forall|j: int| 0 <= j < k ==> units(#[trigger] src.take(j)) < offset
    &&& k == src.len() || units(src.take(k)) >= offset
}

/// Whether the first `k` characters of `src` are those before line `line`.
pub open spec fn lie_before(src: Seq<char>, line: int, k: int) -> bool {
    &&& 0 <= k <= src.len()
    &&& forall|j: int| 0 <= j < k ==> 1 + breaks(#[trigger] src.take(j)) < line
    &&& k == src.len() || 1 + breaks(src.take(k)) >= line
}

/// How many UTF-16 code units a character takes.
fn width(c: char) -> (n: usize)
    ensures
        n == utf16_width(c),
{
    if c <= '\u{ffff}' {
        1
    } else {
        2
    }
}

/// 1-based line containing the given UTF-16 offset.
pub fn line_of_offset(src: &str, offset: usize) -> (line: usize)
    ensures
        exists|k: int|
            begin_before(src@, offset as int, k) && line == 1 + breaks(#[trigger] src@.take(k)),
{
    let chars = chars_of(src);
    let mut line: usize = 1;
    let mut seen: usize = 0;
    let mut i: usize = 0;
    while i < chars.len() && seen < offset
        invariant
            chars@ == src@,
            4 * chars@.len() <= isize::MAX,
            i <= chars@.len(),
            line == 1 + breaks(chars@.take(i as int)),
            line <= 1 + i,
            seen == units(chars@.take(i as int)),
            seen <= 2 * i,
            forall|j: int| 0 <= j < i ==> units(#[trigger] chars@.take(j)) < offset,
        decreases chars.len() - i,
    {
        assert(chars@.take(i + 1).drop_last() == chars@.take(i as int));
        if chars[i] == '\n' {
            line += 1;
        }
        seen += width(chars[i]);
        i += 1;
    }
    assert(begin_before(src@, offset as int, i as int));
    line
}

/// UTF-16 offset of the start of a 1-based line.
pub fn offset_of_line(src: &str, line: usize) -> (offset: usize)
    ensures
        exists|k: int|
            lie_before(src@, line as int, k) && offset == units(#[trigger] src@.take(k)),
{
    let chars = chars_of(src);
    let mut current: usize = 1;
    let mut offset: usize = 0;
    let mut i: usize = 0;
    while i < chars.len() && current < line
        invariant
            chars@ == src@,
            4 * chars@.len() <= isize::MAX,
            i <= chars@.len(),
            current == 1 + breaks(chars@.take(i as int)),
            current <= 1 + i,
            offset == units(chars@.take(i as int)),
            offset <= 2 * i,
            forall|j: int| 0 <= j < i ==> 1 + breaks(#[trigger] chars@.take(j)) < line,
        decreases chars.len() - i,
    {
        assert(chars@.take(i + 1).drop_last() == chars@.take(i as int));
        if chars[i] == '\n' {
            current += 1;
        }
        offset += width(chars[i]);
        i += 1;
    }
    assert(lie_before(src@, line as int, i as int));
    offset
}

/// How many of the blocks, in source order, start at or before `line` before
/// one that does not. A block is known by the line it came from; one that has
/// none ends the count, as one further down does.
pub open spec fn leading_blocks(blocks: Seq<Option<usize>>, line: usize) -> nat
    decreases blocks.len(),
{
    if blocks.len() > 0 && blocks[0] is Some && blocks[0]->0 <= line {
        1 + leading_blocks(blocks.drop_first(), line)
    } else {
        0
    }
}

/// Which of the blocks, in source order, covers `line`: the last of those that
/// start at or before it.
pub fn block_at_or_before(blocks: &[Option<usize>], line: usize) -> (r: Option<usize>)
    ensures
        r is None <==> leading_blocks(blocks@, line) == 0,
        r is Some ==> r->0 + 1 == leading_blocks(blocks@, line) && r->0 < blocks@.len(),
{
    let mut best: Option<usize> = None;
    let mut i: usize = 0;
    assert(blocks@.skip(0) == blocks@);
    while i < blocks.len()
        invariant
            i <= blocks@.len(),
            leading_blocks(blocks@, line) == i + leading_blocks(blocks@.skip(i as int), line),
            best is None <==> i == 0,
            best is Some ==> best->0 + 1 == i,
        decreases blocks.len() - i,
    {
        let ghost rest = blocks@.skip(i as int);
        assert(rest[0] == blocks@[i as int]);
        match blocks[i] {
            Some(start) => {
                if start > line {
                    return best;
                }
            },
            None => {
                return best;
            },
        }
        best = Some(i);
        assert(rest.drop_first() == blocks@.skip(i + 1));
        i += 1;
    }
    best
}

/// The line a block came from, out of what its `data-source-line` says.
pub fn source_line(attribute: Option<&str>) -> (r: Option<usize>)
    ensures
        attribute is None ==> r is None,
        attribute is Some ==> r == number::numeral(attribute->0@),
{
    match attribute {
        Some(text) => read_number(text),
        None => None,
    }
}

/// The line a click in the preview came from: that of the nearest annotated
/// element, since clicks usually land on an inner node. `chain` holds what
/// `data-source-line` says on the element and on each one around it.
pub fn source_line_of_click(chain: &[Option<String>]) -> (r: Option<usize>)
    ensures
        (forall|i: int| 0 <= i < chain@.len() ==> #[trigger] chain@[i] is None) ==> r is None,
        forall|i: int|
            0 <= i < chain@.len() && #[trigger] chain@[i] is Some && (forall|j: int|
                0 <= j < i ==> #[trigger] chain@[j] is None) ==> r == number::numeral(chain@[i]->0@),
{
    let mut i: usize = 0;
    while i < chain.len()
        invariant
            i <= chain@.len(),
            forall|j: int| 0 <= j < i ==> #[trigger] chain@[j] is None,
        decreases chain.len() - i,
    {
        if let Some(text) = &chain[i] {
            return source_line(Some(text.as_str()));
        }
        i += 1;
    }
    None
}

/// Whether the preview follows the caret to `line`. Unless it is forced to, it
/// stays while the caret stays on one line: otherwise every keystroke would
/// scroll it.
pub fn follows(line: usize, last: usize, force: bool) -> (r: bool)
    ensures
        r == (line != last || force),
{
    line != last || force
}

/// Where the caret goes for a click in the preview: the line that the click
/// came from, and the offset at which it starts.
pub fn locate(src: &str, chain: &[Option<String>]) -> (r: Option<(usize, usize)>)
    ensures
        (forall|i: int| 0 <= i < chain@.len() ==> #[trigger] chain@[i] is None) ==> r is None,
        forall|i: int|
            0 <= i < chain@.len() && #[trigger] chain@[i] is Some && (forall|j: int|
                0 <= j < i ==> #[trigger] chain@[j] is None) ==> match number::numeral(
                chain@[i]->0@,
            ) {
                Some(line) => r is Some && (r->0).0 == line && exists|k: int|
                    lie_before(src@, line as int, k) && (r->0).1 == units(#[trigger] src@.take(k)),
                None => r is None,
            },
{
    match source_line_of_click(chain) {
        Some(line) => Some((line, offset_of_line(src, line))),
        None => None,
    }
}

/// More characters take more code units.
proof fn lemma_units_grow(src: Seq<char>, i: int, j: int)
    requires
        0 <= i < j <= src.len(),
    ensures
        units(src.take(i)) < units(src.take(j)),
    decreases j,
{
    assert(src.take(j).drop_last() == src.take(j - 1));
    if i < j - 1 {
        lemma_units_grow(src, i, j - 1);
    }
}

/// Where line `line` starts is in line `line`, if there is such a line: of
/// `k` characters before it, and `m` characters that begin before the code
/// unit at which it starts, there are as many.
pub proof fn law_line_round_trip(src: Seq<char>, line: int, k: int, m: int)
    requires
        1 <= line <= 1 + breaks(src),
        lie_before(src, line, k),
        begin_before(src, units(src.take(k)) as int, m),
    ensures
        m == k,
        1 + breaks(src.take(m)) == line,
{
    if k < m {
        assert(units(src.take(k)) < units(src.take(k)));
    } else if m < k {
        lemma_units_grow(src, m, k);
    }
    assert(src.take(src.len() as int) == src);
    if k > 0 {
        assert(src.take(k).drop_last() == src.take(k - 1));
    }
}

/// A line starts at or before each place in it: no `offset` lies before the
/// start of the line it is in.
pub proof fn law_line_starts_before(src: Seq<char>, offset: int, m: int, k: int)
    requires
        0 <= offset,
        begin_before(src, offset, m),
        lie_before(src, 1 + breaks(src.take(m)) as int, k),
    ensures
        units(src.take(k)) <= offset,
{
    if m < k {
        assert(1 + breaks(src.take(m)) < 1 + breaks(src.take(m)));
    } else if k == m && m > 0 {
        assert(src.take(m).drop_last() == src.take(m - 1));
        assert(units(src.take(m - 1)) < offset);
        assert(1 + breaks(src.take(m - 1)) < 1 + breaks(src.take(m)));
    }
}

/// The block that covers a line is the last of those that start no later, as
/// long as they come in order and say where they start: each up to it does, and
/// the one after it, if there is one, does not.
pub proof fn law_covering_block_is_the_last(blocks: Seq<Option<usize>>, line: usize, i: int)
    requires
        0 <= i < blocks.len(),
    ensures
        ({
            let n = leading_blocks(blocks, line);
            &&& n <= blocks.len()
            &&& i < n ==> blocks[i] is Some && blocks[i]->0 <= line
            &&& i == n ==> blocks[i] is None || blocks[i]->0 > line
        }),
    decreases blocks.len(),
{
    if blocks[0] is Some && blocks[0]->0 <= line && blocks.len() > 1 {
        let rest = blocks.drop_first();
        law_covering_block_is_the_last(
            rest,
            line,
            if i > 0 {
                i - 1
            } else {
                0
            },
        );
        if i > 0 {
            assert(rest[i - 1] == blocks[i]);
        }
    } else if blocks.len() == 1 {
        reveal_with_fuel(leading_blocks, 2);
        assert(blocks.drop_first().len() == 0);
    }
}

/// Code units and line feeds add up: those of two texts together are those of
/// each. A character of the first plane is one unit, any other two; only a line
/// feed counts as one.
pub proof fn law_units_add_up(a: Seq<char>, b: Seq<char>, c: char)
    ensures
        units(a + b) == units(a) + units(b),
        breaks(a + b) == breaks(a) + breaks(b),
        units(seq![c]) == (if (c as u32) < 0x1_0000 {
            1nat
        } else {
            2
        }),
        breaks(seq![c]) == (if c == '\n' {
            1nat
        } else {
            0
        }),
    decreases b.len(),
{
    assert(seq![c].drop_last() == Seq::<char>::empty());
    reveal_with_fuel(units, 2);
    reveal_with_fuel(breaks, 2);
    if b.len() == 0 {
        assert(a + b == a);
    } else {
        law_units_add_up(a, b.drop_last(), c);
        assert((a + b).drop_last() == a + b.drop_last());
        assert((a + b).last() == b.last());
    }
}

} // verus!
