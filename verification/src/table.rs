//! Reading and writing the rows of a delimited table.
//!
//! A table's cells have no source lines of their own (the whole `|===` block
//! is one block), so editing any cell rewrites every row. To keep that from
//! reflowing a table the moment a word changes, the source's own layout is
//! recorded as a [`Shape`] and the cells are poured back into it.
use vstd::prelude::*;

use crate::dom;
use crate::dom::{find_named, Element};
use crate::number;
use crate::number::{read_number, write_number};
use crate::source;
use crate::text;
use crate::text::{
    blank, chars_of, equal, fold, join, lines, replace_char, split, trim, trim_end,
};

verus! {

/// One line of a table's source: a row of so many cells, or a blank line
/// separating groups of rows.
#[derive(Clone, Copy, Debug, PartialEq, Eq, Structural)]
pub enum Slot {
    Blank,
    Row(usize),
}

/// How a table's rows were laid out in the source.
pub type Shape = Vec<Slot>;

// ---------------------------------------------------------------------
// Reading
// ---------------------------------------------------------------------

/// The cells in what is left of a row, after `current` of the cell at hand
/// and the character `previous`.
///
/// An escaped separator is part of its cell. A bare one always follows white
/// space; anything else in front of it is a cell specifier, and the row is
/// refused.
pub open spec fn cells_from(rest: Seq<char>, current: Seq<char>, previous: char) -> Option<
    Seq<Seq<char>>,
>
    decreases rest.len(),
{
    if rest.len() == 0 {
        Some(seq![text::trimmed(current)])
    } else if rest[0] == '\\' && rest.len() > 1 && rest[1] == '|' {
        cells_from(rest.skip(2), current.push('|'), '|')
    } else if rest[0] == '|' {
        if text::is_space(previous) {
            match cells_from(rest.skip(1), Seq::empty(), '|') {
                Some(cells) => Some(seq![text::trimmed(current)] + cells),
                None => None,
            }
        } else {
            None
        }
    } else {
        cells_from(rest.skip(1), current.push(rest[0]), rest[0])
    }
}

/// The cells of one row line, unless it is not a plain one.
pub open spec fn row_cells(line: Seq<char>) -> Option<Seq<Seq<char>>> {
    let t = text::trimmed(line);
    if text::begins(t, '|') {
        // The leading separator opens the first cell rather than closing one.
        cells_from(t.skip(1), Seq::empty(), ' ')
    } else {
        None
    }
}

/// The cells in a table's lines, with the layout they were written in.
pub open spec fn rows_read(all: Seq<Seq<char>>) -> Option<(Seq<Seq<char>>, Seq<Slot>)>
    decreases all.len(),
{
    if all.len() == 0 {
        Some((Seq::empty(), Seq::empty()))
    } else {
        match rows_read(all.drop_last()) {
            Some((cells, shape)) => if text::is_blank(all.last()) {
                Some((cells, shape.push(Slot::Blank)))
            } else {
                match row_cells(all.last()) {
                    Some(row) => Some((cells + row, shape.push(Slot::Row(row.len() as usize)))),
                    None => None,
                }
            },
            None => None,
        }
    }
}

/// Once a line has been refused, the lines after it do not help.
proof fn lemma_refused(all: Seq<Seq<char>>, n: int)
    requires
        0 <= n <= all.len(),
        rows_read(all.take(n)) is None,
    ensures
        rows_read(all) is None,
    decreases all.len() - n,
{
    if n < all.len() {
        assert(all.take(n + 1).drop_last() == all.take(n));
        lemma_refused(all, n + 1);
    } else {
        assert(all.take(n) == all);
    }
}

/// Reads the cells between a table's delimiters, with the layout they were
/// written in.
///
/// Returns `None` for anything this module cannot write back: a cell
/// specifier (`2+|`, `a|`, `^|`) changes what a cell *means*, and re-emitting
/// the text without it would quietly drop a span, an alignment or an embedded
/// block.
pub fn parse(rows: &str) -> (r: Option<(Vec<String>, Shape)>)
    ensures
        match r {
            Some((cells, shape)) => rows_read(text::lines_of(rows@)) == Some(
                (text::texts(cells@), shape@),
            ),
            None => rows_read(text::lines_of(rows@)) is None,
        },
{
    let all = lines(rows);
    let ghost goal = text::lines_of(rows@);
    let mut cells: Vec<String> = Vec::new();
    let mut shape: Shape = Vec::new();
    let mut i: usize = 0;
    while i < all.len()
        invariant
            text::texts(all@) == goal,
            goal == text::lines_of(rows@),
            i <= all@.len(),
            rows_read(goal.take(i as int)) == Some((text::texts(cells@), shape@)),
        decreases all.len() - i,
    {
        let line = all[i].as_str();
        proof {
            assert(goal.take(i + 1).drop_last() == goal.take(i as int));
            assert(goal[i as int] == line@);
        }
        if blank(line) {
            shape.push(Slot::Blank);
        } else {
            match split_cells(line) {
                Some(row) => {
                    let ghost before = text::texts(cells@);
                    shape.push(Slot::Row(row.len()));
                    let mut row = row;
                    let ghost added = text::texts(row@);
                    cells.append(&mut row);
                    assert(text::texts(cells@) == before + added);
                },
                None => {
                    proof {
                        lemma_refused(goal, i + 1);
                    }
                    return None;
                },
            }
        }
        i += 1;
    }
    assert(goal.take(i as int) == goal);
    Some((cells, shape))
}

/// What `found` and then `more` hold, if there is more.
spec fn after(found: Seq<Seq<char>>, more: Option<Seq<Seq<char>>>) -> Option<Seq<Seq<char>>> {
    match more {
        Some(cells) => Some(found + cells),
        None => None,
    }
}

/// Splits one row line into its cells.
fn split_cells(line: &str) -> (r: Option<Vec<String>>)
    ensures
        match r {
            Some(row) => row_cells(line@) == Some(text::texts(row@)),
            None => row_cells(line@) is None,
        },
{
    let chars = chars_of(trim(line));
    let ghost t = text::trimmed(line@);
    if chars.len() == 0 || chars[0] != '|' {
        return None;
    }
    let ghost goal = row_cells(line@);
    let mut cells: Vec<String> = Vec::new();
    let mut current = String::new();
    let mut previous = ' ';
    let mut i: usize = 1;
    assert(after(Seq::empty(), goal) == goal) by {
        if goal is Some {
            assert(Seq::<Seq<char>>::empty() + goal->0 == goal->0);
        }
    }
    while i < chars.len()
        invariant
            chars@ == t,
            1 <= i <= t.len(),
            goal == after(text::texts(cells@), cells_from(t.skip(i as int), current@, previous)),
            goal == row_cells(line@),
        decreases chars.len() - i,
    {
        let c = chars[i];
        let ghost rest = t.skip(i as int);
        let ghost before = text::texts(cells@);
        proof {
            assert(rest[0] == c);
            assert(rest.skip(1) == t.skip(i + 1));
            if i + 1 < t.len() {
                assert(rest[1] == t[i + 1]);
                assert(rest.skip(2) == t.skip(i + 2));
            }
        }
        if c == '\\' && i + 1 < chars.len() && chars[i + 1] == '|' {
            current.push('|');
            previous = '|';
            i += 2;
        } else if c == '|' {
            // A separator always follows white space. Anything else in front
            // of it is a cell specifier, which this module will not rewrite.
            if !text::is_whitespace(previous) {
                return None;
            }
            let ghost more = cells_from(t.skip(i + 1), Seq::empty(), '|');
            let cell = trim(&current).to_string();
            let ghost read = cell@;
            cells.push(cell);
            current = String::new();
            previous = '|';
            i += 1;
            proof {
                assert(text::texts(cells@) == before.push(read));
                if more is Some {
                    assert(before + (seq![read] + more->0) == before.push(read) + more->0);
                }
            }
        } else {
            current.push(c);
            previous = c;
            i += 1;
        }
    }
    let ghost before = text::texts(cells@);
    let cell = trim(&current).to_string();
    let ghost read = cell@;
    cells.push(cell);
    assert(text::texts(cells@) == before + seq![read]);
    Some(cells)
}

// ---------------------------------------------------------------------
// Writing
// ---------------------------------------------------------------------

/// How many cells the lines of a shape hold.
pub open spec fn accounted(shape: Seq<Slot>) -> nat
    decreases shape.len(),
{
    if shape.len() == 0 {
        0
    } else {
        accounted(shape.drop_last()) + (match shape.last() {
            Slot::Row(cells) => cells as nat,
            Slot::Blank => 0,
        })
    }
}

/// A cell as it is written: it is one line, and a bare `|` would start a new
/// one.
pub open spec fn escaped(cell: Seq<char>) -> Seq<char> {
    text::trimmed(text::folded(text::replaced(cell, '|', seq!['\\', '|'])))
}

/// A cell with the separator that opens it.
pub open spec fn opened(cell: Seq<char>) -> Seq<char> {
    seq!['|', ' '] + escaped(cell)
}

/// The row that holds the cells. An empty cell would leave its separator
/// trailing white space.
pub open spec fn row_text(cells: Seq<Seq<char>>) -> Seq<char> {
    text::trimmed_end(
        text::joined(cells.map_values(|cell: Seq<char>| opened(cell)), seq![' ']),
    )
}

/// The line that a slot makes, of the cells from `from` to `to`.
pub open spec fn slot_line(slot: Slot, cells: Seq<Seq<char>>, from: int, to: int) -> Seq<char> {
    match slot {
        Slot::Blank => Seq::empty(),
        Slot::Row(_) => row_text(cells.subrange(from, to)),
    }
}

/// The cells poured into a shape, line for line.
pub open spec fn poured(cells: Seq<Seq<char>>, shape: Seq<Slot>) -> Seq<Seq<char>> {
    Seq::new(
        shape.len(),
        |i: int|
            slot_line(
                shape[i],
                cells,
                accounted(shape.take(i)) as int,
                accounted(shape.take(i + 1)) as int,
            ),
    )
}

/// The cells as rows of `width`, the last of what is left.
pub open spec fn chunked(cells: Seq<Seq<char>>, width: nat) -> Seq<Seq<char>>
    decreases cells.len(),
{
    if cells.len() <= width || width == 0 {
        if cells.len() == 0 {
            Seq::empty()
        } else {
            seq![row_text(cells)]
        }
    } else {
        seq![row_text(cells.take(width as int))] + chunked(cells.skip(width as int), width)
    }
}

/// The cells one row per line. A blank line after the first row is what marks
/// it as the header.
pub open spec fn reflowed(cells: Seq<Seq<char>>, width: nat, header: bool) -> Seq<Seq<char>> {
    let rows = chunked(cells, width);
    if header && rows.len() > 0 {
        seq![rows[0], Seq::empty()] + rows.skip(1)
    } else {
        rows
    }
}

/// The cells as the lines of a table. The recorded shape is used when it
/// accounts for every cell.
pub open spec fn table_lines(
    cells: Seq<Seq<char>>,
    shape: Seq<Slot>,
    columns: usize,
    header: bool,
) -> Seq<Seq<char>> {
    if accounted(shape) == cells.len() {
        poured(cells, shape)
    } else {
        reflowed(
            cells,
            if columns == 0 {
                1
            } else {
                columns as nat
            },
            header,
        )
    }
}

/// The start of a shape holds no more cells than the whole.
proof fn lemma_accounted_grows(shape: Seq<Slot>, i: int)
    requires
        0 <= i <= shape.len(),
    ensures
        accounted(shape.take(i)) <= accounted(shape),
    decreases shape.len() - i,
{
    if i < shape.len() {
        assert(shape.take(i + 1).drop_last() == shape.take(i));
        lemma_accounted_grows(shape, i + 1);
    } else {
        assert(shape.take(i) == shape);
    }
}

/// Whether a shape accounts for `count` cells.
fn accounts_for(shape: &Shape, count: usize) -> (r: bool)
    ensures
        r == (accounted(shape@) == count),
{
    let mut total: usize = 0;
    let mut i: usize = 0;
    while i < shape.len()
        invariant
            i <= shape@.len(),
            total == accounted(shape@.take(i as int)),
            total <= count,
        decreases shape.len() - i,
    {
        assert(shape@.take(i + 1).drop_last() == shape@.take(i as int));
        if let Slot::Row(cells) = shape[i] {
            if cells > count - total {
                proof {
                    lemma_accounted_grows(shape@, i + 1);
                }
                return false;
            }
            total += cells;
        }
        i += 1;
    }
    assert(shape@.take(i as int) == shape@);
    total == count
}

/// Writes cells back as the rows of a table.
///
/// The recorded shape is used when it still accounts for every cell; once rows
/// or columns have been added or removed it cannot, and the table is written
/// out one row per line instead.
pub fn to_asciidoc(cells: &[String], shape: &Shape, columns: usize, header: bool) -> (r: String)
    ensures
        r@ == text::joined(
            table_lines(text::texts(cells@), shape@, columns, header),
            source::newline(),
        ),
{
    let written = if accounts_for(shape, cells.len()) {
        pour(cells, shape)
    } else {
        let width = if columns == 0 {
            1
        } else {
            columns
        };
        reflow(cells, width, header)
    };
    proof {
        reveal_strlit("\n");
        assert("\n"@ == source::newline());
    }
    join(&written, "\n")
}

/// Pours the cells into a shape that accounts for them.
fn pour(cells: &[String], shape: &Shape) -> (r: Vec<String>)
    requires
        accounted(shape@) == cells@.len(),
    ensures
        text::texts(r@) == poured(text::texts(cells@), shape@),
{
    let ghost goal = poured(text::texts(cells@), shape@);
    let count = cells.len();
    let mut out: Vec<String> = Vec::new();
    let mut at: usize = 0;
    let mut i: usize = 0;
    while i < shape.len()
        invariant
            goal == poured(text::texts(cells@), shape@),
            accounted(shape@) == count,
            count == cells@.len(),
            i <= shape@.len(),
            at == accounted(shape@.take(i as int)),
            at <= cells@.len(),
            text::texts(out@) == goal.take(i as int),
        decreases shape.len() - i,
    {
        proof {
            assert(shape@.take(i + 1).drop_last() == shape@.take(i as int));
            lemma_accounted_grows(shape@, i + 1);
            assert(goal.take(i + 1) == goal.take(i as int).push(goal[i as int]));
        }
        let line = match shape[i] {
            Slot::Blank => String::new(),
            Slot::Row(width) => {
                let from = at;
                assert(shape@.take(i + 1).last() == shape@[i as int]);
                at += width;
                row_line(cells, from, at)
            },
        };
        assert(line@ == goal[i as int]);
        out.push(line);
        assert(text::texts(out@) == goal.take(i + 1));
        i += 1;
    }
    assert(goal.take(i as int) == goal);
    out
}

/// Writes the cells one row per line.
fn reflow(cells: &[String], width: usize, header: bool) -> (r: Vec<String>)
    requires
        width > 0,
    ensures
        text::texts(r@) == reflowed(text::texts(cells@), width as nat, header),
{
    let ghost all = text::texts(cells@);
    let ghost rows = chunked(all, width as nat);
    let mut out: Vec<String> = Vec::new();
    let mut at: usize = 0;
    let ghost mut done: int = 0;
    proof {
        assert(all.skip(0) == all);
        assert(rows.skip(0) == rows);
    }
    while at < cells.len()
        invariant
            width > 0,
            all == text::texts(cells@),
            rows == chunked(all, width as nat),
            at <= all.len(),
            0 <= done <= rows.len(),
            done == 0 <==> at == 0,
            rows.skip(done) == chunked(all.skip(at as int), width as nat),
            text::texts(out@) == if done == 0 {
                Seq::empty()
            } else if header {
                seq![rows[0], Seq::empty()] + rows.subrange(1, done)
            } else {
                rows.take(done)
            },
        decreases cells.len() - at,
    {
        let ghost rest = all.skip(at as int);
        let ghost before = text::texts(out@);
        let to = if width < cells.len() - at {
            at + width
        } else {
            cells.len()
        };
        let line = row_line(cells, at, to);
        let ghost read = line@;
        proof {
            if rest.len() <= width {
                assert(rest == all.subrange(at as int, to as int));
                assert(chunked(all.skip(to as int), width as nat) == rows.skip(done).skip(1));
            } else {
                assert(rest.take(width as int) == all.subrange(at as int, to as int));
                assert(rest.skip(width as int) == all.skip(to as int));
                assert(chunked(all.skip(to as int), width as nat) == rows.skip(done).skip(1));
            }
            assert(rows.skip(done)[0] == rows[done]);
            assert(rows.skip(done).skip(1) == rows.skip(done + 1));
        }
        out.push(line);
        assert(text::texts(out@) == before.push(read));
        // A blank line after the first row is what marks it as the header.
        if header && at == 0 {
            out.push(String::new());
            assert(text::texts(out@) == before.push(read).push(Seq::empty()));
        }
        at = to;
        proof {
            done = done + 1;
            if header {
                assert(text::texts(out@) == seq![rows[0], Seq::empty()] + rows.subrange(1, done));
            } else {
                assert(text::texts(out@) == rows.take(done));
            }
        }
    }
    proof {
        assert(all.skip(at as int).len() == 0);
        assert(rows.skip(done).len() == 0);
        assert(rows.take(done) == rows);
        if done > 0 {
            assert(rows.subrange(1, done) == rows.skip(1));
        }
    }
    out
}

/// Writes the cells from `from` to `to` as one row.
fn row_line(cells: &[String], from: usize, to: usize) -> (r: String)
    requires
        from <= to <= cells@.len(),
    ensures
        r@ == row_text(text::texts(cells@).subrange(from as int, to as int)),
{
    let ghost row = text::texts(cells@).subrange(from as int, to as int);
    let ghost goal = row.map_values(|cell: Seq<char>| opened(cell));
    let mut parts: Vec<String> = Vec::new();
    let mut i: usize = from;
    while i < to
        invariant
            from <= i <= to <= cells@.len(),
            row == text::texts(cells@).subrange(from as int, to as int),
            goal == row.map_values(|cell: Seq<char>| opened(cell)),
            text::texts(parts@) == goal.take(i - from),
        decreases to - i,
    {
        let mut part = String::new();
        part.push('|');
        part.push(' ');
        part.append(&escape(&cells[i]));
        proof {
            assert(row[i - from] == cells@[i as int]@);
            assert(part@ == opened(cells@[i as int]@));
            assert(goal.take(i - from + 1) == goal.take(i - from).push(goal[i - from]));
        }
        parts.push(part);
        assert(text::texts(parts@) == goal.take(i - from + 1));
        i += 1;
    }
    proof {
        assert(goal.take(i - from) == goal);
        reveal_strlit(" ");
        assert(" "@ == seq![' ']);
    }
    let line = join(&parts, " ");
    // An empty cell would otherwise leave its separator trailing white space.
    trim_end(&line).to_string()
}

/// A cell is one line, and a bare `|` would start a new one.
fn escape(cell: &str) -> (r: String)
    ensures
        r@ == escaped(cell@),
{
    proof {
        reveal_strlit("\\|");
        assert("\\|"@ == seq!['\\', '|']);
    }
    trim(&fold(&replace_char(cell, '|', "\\|"))).to_string()
}

// ---------------------------------------------------------------------
// Shapes written down
// ---------------------------------------------------------------------

/// What stands for a slot in a shape that is written down.
pub open spec fn slot_text(slot: Slot) -> Seq<char> {
    match slot {
        Slot::Blank => seq!['b'],
        Slot::Row(cells) => number::decimal(cells as nat),
    }
}

/// The slot that an entry stands for, if it stands for one.
pub open spec fn slot_of(entry: Seq<char>) -> Option<Slot> {
    if entry == seq!['b'] {
        Some(Slot::Blank)
    } else {
        match number::numeral(entry) {
            Some(cells) => Some(Slot::Row(cells)),
            None => None,
        }
    }
}

/// The slots that the entries stand for, those of them that stand for one.
pub open spec fn slots_of(entries: Seq<Seq<char>>) -> Seq<Slot>
    decreases entries.len(),
{
    if entries.len() == 0 {
        Seq::empty()
    } else {
        let before = slots_of(entries.drop_last());
        match slot_of(entries.last()) {
            Some(slot) => before.push(slot),
            None => before,
        }
    }
}

/// A shape as it is written down.
pub open spec fn encoded(shape: Seq<Slot>) -> Seq<char> {
    text::joined(shape.map_values(|slot: Slot| slot_text(slot)), seq![','])
}

/// Records a shape so it can travel on the element it belongs to.
pub fn encode(shape: &Shape) -> (r: String)
    ensures
        r@ == encoded(shape@),
{
    let ghost goal = shape@.map_values(|slot: Slot| slot_text(slot));
    let mut parts: Vec<String> = Vec::new();
    let mut i: usize = 0;
    while i < shape.len()
        invariant
            goal == shape@.map_values(|slot: Slot| slot_text(slot)),
            i <= shape@.len(),
            text::texts(parts@) == goal.take(i as int),
        decreases shape.len() - i,
    {
        let part = match shape[i] {
            Slot::Blank => {
                proof {
                    reveal_strlit("b");
                    assert("b"@ == seq!['b']);
                }
                "b".to_string()
            },
            Slot::Row(cells) => write_number(cells),
        };
        proof {
            assert(goal.take(i + 1) == goal.take(i as int).push(goal[i as int]));
        }
        parts.push(part);
        assert(text::texts(parts@) == goal.take(i + 1));
        i += 1;
    }
    proof {
        assert(goal.take(i as int) == goal);
        reveal_strlit(",");
        assert(","@ == seq![',']);
    }
    join(&parts, ",")
}

/// Reads a shape that was written down.
pub fn decode(text: &str) -> (r: Shape)
    ensures
        r@ == slots_of(text::pieces(text@, ',')),
{
    let entries = split(text, ',');
    let ghost goal = text::pieces(text@, ',');
    let mut shape: Shape = Vec::new();
    let mut i: usize = 0;
    while i < entries.len()
        invariant
            goal == text::texts(entries@),
            i <= entries@.len(),
            shape@ == slots_of(goal.take(i as int)),
        decreases entries.len() - i,
    {
        proof {
            assert(goal.take(i + 1).drop_last() == goal.take(i as int));
            assert(goal.take(i + 1).last() == entries@[i as int]@);
            reveal_strlit("b");
            assert("b"@ == seq!['b']);
        }
        let entry = entries[i].as_str();
        if equal(entry, "b") {
            shape.push(Slot::Blank);
        } else if let Some(cells) = read_number(entry) {
            shape.push(Slot::Row(cells));
        }
        i += 1;
    }
    assert(goal.take(i as int) == goal);
    shape
}

// ---------------------------------------------------------------------
// A rendered table
// ---------------------------------------------------------------------

/// The rows of a rendered table, in order.
pub open spec fn rows_in(table: dom::ElementModel) -> Seq<dom::ElementModel> {
    dom::named(table.children, "TR"@, "TR"@)
}

/// The cells of a rendered row, in order.
pub open spec fn cells_in(row: dom::ElementModel) -> Seq<dom::ElementModel> {
    dom::named(row.children, "TH"@, "TD"@)
}

/// What a rendered cell says, as AsciiDoc.
pub open spec fn cell_text(cell: dom::ElementModel) -> Seq<char> {
    text::trimmed(crate::inline::written(crate::inline::nodes_read(cell.children)))
}

/// What rendered cells say.
pub open spec fn cell_texts(cells: Seq<dom::ElementModel>) -> Seq<Seq<char>> {
    cells.map_values(|cell: dom::ElementModel| cell_text(cell))
}

/// What the cells of rendered rows say, row after row.
pub open spec fn row_texts(rows: Seq<dom::ElementModel>) -> Seq<Seq<char>>
    decreases rows.len(),
{
    if rows.len() == 0 {
        Seq::empty()
    } else {
        row_texts(rows.drop_last()) + cell_texts(cells_in(rows.last()))
    }
}

/// The most cells that one of the rows has.
pub open spec fn widest(rows: Seq<dom::ElementModel>) -> nat
    decreases rows.len(),
{
    if rows.len() == 0 {
        0
    } else {
        let before = widest(rows.drop_last());
        let last = cells_in(rows.last()).len();
        if before < last {
            last
        } else {
            before
        }
    }
}

/// Whether a rendered table has a row in its head.
pub open spec fn headed(table: dom::ElementModel) -> bool {
    exists|i: int|
        0 <= i < dom::named(table.children, "THEAD"@, "THEAD"@).len() && rows_in(
            #[trigger] dom::named(table.children, "THEAD"@, "THEAD"@)[i],
        ).len() > 0
}

/// The rows of a rendered table, in order.
pub fn rows_of<'a>(table: &'a Element) -> (r: Vec<&'a Element>)
    ensures
        dom::models(r@) == rows_in(dom::element_model(*table)),
{
    let mut rows: Vec<&'a Element> = Vec::new();
    find_named(&table.children, "TR", "TR", &mut rows);
    assert(dom::models(rows@) == rows_in(dom::element_model(*table)));
    rows
}

/// The cells of a rendered row, in order.
pub fn cells_of<'a>(row: &'a Element) -> (r: Vec<&'a Element>)
    ensures
        dom::models(r@) == cells_in(dom::element_model(*row)),
{
    let mut cells: Vec<&'a Element> = Vec::new();
    find_named(&row.children, "TH", "TD", &mut cells);
    assert(dom::models(cells@) == cells_in(dom::element_model(*row)));
    cells
}

/// Reads the cells of a rendered table, in order.
pub fn cells_from_dom(table: &Element) -> (r: Vec<String>)
    ensures
        text::texts(r@) == row_texts(rows_in(dom::element_model(*table))),
{
    let rows = rows_of(table);
    let ghost goal = rows_in(dom::element_model(*table));
    let mut out: Vec<String> = Vec::new();
    let mut i: usize = 0;
    while i < rows.len()
        invariant
            dom::models(rows@) == goal,
            i <= rows@.len(),
            text::texts(out@) == row_texts(goal.take(i as int)),
        decreases rows.len() - i,
    {
        proof {
            assert(goal.take(i + 1).drop_last() == goal.take(i as int));
            assert(goal.take(i + 1).last() == dom::element_model(*rows@[i as int]));
        }
        read_cells(rows[i], &mut out);
        i += 1;
    }
    assert(goal.take(i as int) == goal);
    out
}

/// Reads the cells of a rendered row at the end of `out`.
fn read_cells(row: &Element, out: &mut Vec<String>)
    ensures
        text::texts(final(out)@) == text::texts(old(out)@) + cell_texts(
            cells_in(dom::element_model(*row)),
        ),
{
    let cells = cells_of(row);
    let ghost goal = cell_texts(cells_in(dom::element_model(*row)));
    let ghost before = text::texts(out@);
    let mut i: usize = 0;
    while i < cells.len()
        invariant
            dom::models(cells@) == cells_in(dom::element_model(*row)),
            goal == cell_texts(cells_in(dom::element_model(*row))),
            i <= cells@.len(),
            text::texts(out@) == before + goal.take(i as int),
        decreases cells.len() - i,
    {
        let words = crate::inline::to_asciidoc(&crate::inline::from_node(cells[i]));
        let cell = trim(&words).to_string();
        proof {
            assert(dom::models(cells@)[i as int] == dom::element_model(*cells@[i as int]));
            assert(cell@ == goal[i as int]);
            assert(goal.take(i + 1) == goal.take(i as int).push(goal[i as int]));
        }
        let ghost now = text::texts(out@);
        out.push(cell);
        assert(text::texts(out@) == now.push(goal[i as int]));
        assert(text::texts(out@) == before + goal.take(i + 1));
        i += 1;
    }
    assert(goal.take(i as int) == goal);
}

/// How many cells the table's widest row has.
pub fn columns(table: &Element) -> (n: usize)
    ensures
        n == widest(rows_in(dom::element_model(*table))),
{
    let rows = rows_of(table);
    let ghost goal = rows_in(dom::element_model(*table));
    let mut most: usize = 0;
    let mut i: usize = 0;
    while i < rows.len()
        invariant
            dom::models(rows@) == goal,
            i <= rows@.len(),
            most == widest(goal.take(i as int)),
        decreases rows.len() - i,
    {
        let cells = cells_of(rows[i]);
        proof {
            assert(goal.take(i + 1).drop_last() == goal.take(i as int));
            assert(goal.take(i + 1).last() == dom::element_model(*rows@[i as int]));
            assert(dom::models(cells@).len() == cells@.len());
        }
        if most < cells.len() {
            most = cells.len();
        }
        i += 1;
    }
    assert(goal.take(i as int) == goal);
    most
}

/// Whether the table's first row is a header.
pub fn has_header(table: &Element) -> (r: bool)
    ensures
        r == headed(dom::element_model(*table)),
{
    let mut heads: Vec<&Element> = Vec::new();
    find_named(&table.children, "THEAD", "THEAD", &mut heads);
    let ghost goal = dom::named(dom::element_model(*table).children, "THEAD"@, "THEAD"@);
    assert(dom::models(heads@) == goal);
    let mut i: usize = 0;
    while i < heads.len()
        invariant
            dom::models(heads@) == goal,
            i <= heads@.len(),
            goal == dom::named(dom::element_model(*table).children, "THEAD"@, "THEAD"@),
            forall|j: int| 0 <= j < i ==> rows_in(#[trigger] goal[j]).len() == 0,
        decreases heads.len() - i,
    {
        let rows = rows_of(heads[i]);
        proof {
            assert(goal[i as int] == dom::element_model(*heads@[i as int]));
            assert(dom::models(rows@).len() == rows@.len());
        }
        if rows.len() > 0 {
            return true;
        }
        i += 1;
    }
    false
}

/// Which of the elements is known by `key`: the first.
pub open spec fn place_in(elements: Seq<dom::ElementModel>, key: usize) -> Option<int>
    decreases elements.len(),
{
    if elements.len() == 0 {
        None
    } else {
        match place_in(elements.drop_last(), key) {
            Some(i) => Some(i),
            None => if elements.last().key == Some(key) {
                Some(elements.len() - 1)
            } else {
                None
            },
        }
    }
}

/// Which of the elements is known by `key`.
fn place(elements: &[&Element], key: usize) -> (r: Option<usize>)
    ensures
        match r {
            Some(i) => place_in(dom::models(elements@), key) == Some(i as int) && i < elements@.len(),
            None => place_in(dom::models(elements@), key) is None,
        },
{
    let ghost goal = dom::models(elements@);
    let mut i: usize = 0;
    while i < elements.len()
        invariant
            goal == dom::models(elements@),
            i <= elements@.len(),
            place_in(goal.take(i as int), key) is None,
        decreases elements.len() - i,
    {
        proof {
            assert(goal.take(i + 1).drop_last() == goal.take(i as int));
            assert(goal.take(i + 1).last() == dom::element_model(*elements@[i as int]));
        }
        if let Some(found) = elements[i].key {
            if found == key {
                proof {
                    lemma_place_stays(goal, key, i + 1);
                }
                return Some(i);
            }
        }
        i += 1;
    }
    assert(goal.take(i as int) == goal);
    None
}

proof fn lemma_place_stays(elements: Seq<dom::ElementModel>, key: usize, n: int)
    requires
        0 <= n <= elements.len(),
        place_in(elements.take(n), key) is Some,
    ensures
        place_in(elements, key) == place_in(elements.take(n), key),
    decreases elements.len() - n,
{
    if n < elements.len() {
        assert(elements.take(n + 1).drop_last() == elements.take(n));
        lemma_place_stays(elements, key, n + 1);
    } else {
        assert(elements.take(n) == elements);
    }
}

/// Where the cell known by `cell`, in the row known by `row`, sits in the
/// table.
pub fn position(table: &Element, row: usize, cell: usize) -> (r: Option<(usize, usize)>)
    ensures
        ({
            let rows = rows_in(dom::element_model(*table));
            match place_in(rows, row) {
                Some(i) => match place_in(cells_in(rows[i]), cell) {
                    Some(j) => r is Some && (r->0).0 == i && (r->0).1 == j,
                    None => r is None,
                },
                None => r is None,
            }
        }),
{
    let rows = rows_of(table);
    match place(&rows, row) {
        Some(index) => {
            let cells = cells_of(rows[index]);
            proof {
                assert(dom::models(rows@)[index as int] == dom::element_model(
                    *rows@[index as int],
                ));
            }
            match place(&cells, cell) {
                Some(column) => Some((index, column)),
                None => None,
            }
        },
        None => None,
    }
}

// ---------------------------------------------------------------------
// What is written is read back
// ---------------------------------------------------------------------

/// A shape survives being written down.
pub proof fn law_shape_read_back(shape: Seq<Slot>)
    ensures
        slots_of(text::pieces(encoded(shape), ',')) == shape,
{
    let parts = shape.map_values(|slot: Slot| slot_text(slot));
    if shape.len() == 0 {
        assert(text::joined(parts, seq![',']) == Seq::<char>::empty());
        let entries = text::pieces(encoded(shape), ',');
        assert(entries == seq![Seq::<char>::empty()]);
        assert(number::unsigned(Seq::empty()).len() == 0);
        assert(slot_of(entries.last()) is None);
        assert(slots_of(entries.drop_last()) == Seq::<Slot>::empty());
        assert(slots_of(entries) == shape);
    } else {
        assert forall|i: int| 0 <= i < parts.len() implies text::free_of(
            #[trigger] parts[i],
            ',',
        ) by {
            lemma_slot_read_back(shape[i]);
        }
        text::law_joined_splits(parts, ',');
        lemma_slots_read_back(shape);
    }
}

proof fn lemma_slot_read_back(slot: Slot)
    ensures
        slot_of(slot_text(slot)) == Some(slot),
        text::free_of(slot_text(slot), ','),
{
    if let Slot::Row(cells) = slot {
        number::lemma_decimal(cells as nat);
        number::law_number_read_back(cells);
        let s = slot_text(slot);
        assert('0' <= s[0] && s[0] <= '9');
        assert(s != seq!['b']) by {
            if s == seq!['b'] {
                assert(s[0] == 'b');
            }
        }
    }
}

proof fn lemma_slots_read_back(shape: Seq<Slot>)
    ensures
        slots_of(shape.map_values(|slot: Slot| slot_text(slot))) == shape,
    decreases shape.len(),
{
    let parts = shape.map_values(|slot: Slot| slot_text(slot));
    if shape.len() > 0 {
        lemma_slots_read_back(shape.drop_last());
        lemma_slot_read_back(shape.last());
        assert(parts.drop_last() == shape.drop_last().map_values(|slot: Slot| slot_text(slot)));
        assert(shape.drop_last().push(shape.last()) == shape);
    } else {
        assert(slots_of(parts) == shape);
    }
}

/// Whether a cell is one that a row can hold as it is: one line, with no white
/// space around it.
pub open spec fn is_cell(cell: Seq<char>) -> bool {
    text::free_of(cell, '\n') && text::trimmed(cell) == cell
}

/// Whether each of the cells is one that a row can hold as it is.
pub open spec fn are_cells(cells: Seq<Seq<char>>) -> bool {
    forall|i: int| 0 <= i < cells.len() ==> is_cell(#[trigger] cells[i])
}

/// A cell with its separators escaped.
spec fn shielded(cell: Seq<char>) -> Seq<char> {
    text::replaced(cell, '|', seq!['\\', '|'])
}

proof fn lemma_shielded(cell: Seq<char>)
    requires
        cell.len() > 0,
    ensures
        shielded(cell) == (if cell[0] == '|' {
            seq!['\\', '|']
        } else {
            seq![cell[0]]
        }) + shielded(cell.drop_first()),
        shielded(cell).len() >= cell.len(),
        shielded(cell)[0] == (if cell[0] == '|' {
            '\\'
        } else {
            cell[0]
        }),
        shielded(cell).last() == cell.last(),
        text::free_of(cell, '\n') ==> text::free_of(shielded(cell), '\n'),
    decreases cell.len(),
{
    let front = if cell[0] == '|' {
        seq!['\\', '|']
    } else {
        seq![cell[0]]
    };
    let back = if cell.last() == '|' {
        seq!['\\', '|']
    } else {
        seq![cell.last()]
    };
    if cell.len() == 1 {
        assert(shielded(cell.drop_last()) == Seq::<char>::empty());
        assert(shielded(cell.drop_first()) == Seq::<char>::empty());
        assert(shielded(cell) == front);
        assert(front + Seq::<char>::empty() == front);
    } else {
        let less = cell.drop_last();
        lemma_shielded(less);
        assert(less.drop_first() == cell.drop_first().drop_last());
        assert(shielded(cell.drop_first()) == shielded(cell.drop_first().drop_last()) + back);
        assert(shielded(cell) == shielded(less) + back);
        assert(shielded(cell) == front + shielded(cell.drop_first()));
        if text::free_of(cell, '\n') {
            assert(text::free_of(less, '\n'));
            assert(cell.last() != '\n');
        }
    }
}

/// A cell that a row can hold is written as it is, but for its separators.
proof fn lemma_escaped(cell: Seq<char>)
    requires
        is_cell(cell),
    ensures
        escaped(cell) == shielded(cell),
        cell.len() > 0 ==> !text::is_space(cell[0]) && !text::is_space(cell.last()),
        cell.len() == 0 <==> shielded(cell).len() == 0,
        text::free_of(shielded(cell), '\n'),
{
    text::lemma_trimmed(cell);
    let s = shielded(cell);
    if cell.len() > 0 {
        lemma_shielded(cell);
    }
    assert(text::folded(s) == s);
    text::lemma_trimmed_keeps(s);
}

/// Reading past an escaped cell.
proof fn lemma_scan(cell: Seq<char>, rest: Seq<char>, current: Seq<char>, previous: char)
    requires
        rest.len() > 0 ==> rest[0] != '|',
    ensures
        cells_from(shielded(cell) + rest, current, previous) == cells_from(
            rest,
            current + cell,
            if cell.len() == 0 {
                previous
            } else {
                cell.last()
            },
        ),
    decreases cell.len(),
{
    let whole = shielded(cell) + rest;
    if cell.len() == 0 {
        assert(whole == rest);
        assert(current + cell == current);
    } else {
        let less = cell.drop_first();
        let next = shielded(less) + rest;
        let then = current.push(cell[0]);
        lemma_shielded(cell);
        lemma_scan(less, rest, then, cell[0]);
        assert(then + less == current + cell);
        if less.len() > 0 {
            assert(less.last() == cell.last());
        } else {
            assert(cell[0] == cell.last());
        }
        if cell[0] == '|' {
            assert(whole.skip(2) == next);
            assert(whole[0] == '\\' && whole[1] == '|');
            lemma_step_escaped(whole, current, previous);
        } else {
            assert(whole.skip(1) == next);
            assert(whole[0] == cell[0]);
            assert(whole.len() > 1 ==> whole[1] != '|') by {
                if whole.len() > 1 {
                    assert(whole[1] == next[0]);
                    if less.len() > 0 {
                        lemma_shielded(less);
                    } else {
                        assert(next == rest);
                    }
                }
            }
            lemma_step_plain(whole, current, previous);
        }
    }
}

proof fn lemma_step_escaped(rest: Seq<char>, current: Seq<char>, previous: char)
    requires
        rest.len() > 1,
        rest[0] == '\\',
        rest[1] == '|',
    ensures
        cells_from(rest, current, previous) == cells_from(rest.skip(2), current.push('|'), '|'),
{
}

proof fn lemma_step_plain(rest: Seq<char>, current: Seq<char>, previous: char)
    requires
        rest.len() > 0,
        rest[0] != '|',
        rest.len() > 1 ==> rest[1] != '|',
    ensures
        cells_from(rest, current, previous) == cells_from(
            rest.skip(1),
            current.push(rest[0]),
            rest[0],
        ),
{
}

/// What follows the separator that opens a row.
spec fn row_body(cells: Seq<Seq<char>>) -> Seq<char>
    decreases cells.len(),
{
    if cells.len() == 0 {
        Seq::empty()
    } else if cells.len() == 1 {
        if cells[0].len() == 0 {
            Seq::empty()
        } else {
            seq![' '] + shielded(cells[0])
        }
    } else {
        seq![' '] + shielded(cells[0]) + seq![' ', '|'] + row_body(cells.drop_first())
    }
}

/// What a row holds is read back from it.
proof fn lemma_body_read(cells: Seq<Seq<char>>, previous: char)
    requires
        are_cells(cells),
        cells.len() > 0,
    ensures
        cells_from(row_body(cells), Seq::empty(), previous) == Some(cells),
    decreases cells.len(),
{
    let cell = cells[0];
    let body = row_body(cells);
    let none = Seq::<char>::empty();
    assert(is_cell(cell));
    lemma_escaped(cell);
    if cells.len() == 1 && cell.len() == 0 {
        assert(text::trimmed(none) == cell);
        assert(seq![cell] == cells);
    } else {
        let rest = if cells.len() == 1 {
            none
        } else {
            seq![' ', '|'] + row_body(cells.drop_first())
        };
        let last = if cell.len() == 0 {
            ' '
        } else {
            cell.last()
        };
        assert(body == seq![' '] + (shielded(cell) + rest));
        assert(body.skip(1) == shielded(cell) + rest);
        assert(none.push(' ') == seq![' ']);
        lemma_scan(cell, rest, seq![' '], ' ');
        let current = seq![' '] + cell;
        assert(cells_from(body, none, previous) == cells_from(rest, current, last));
        if cells.len() == 1 {
            text::lemma_trimmed_padded(seq![' '], cell, none);
            assert(current == seq![' '] + cell + none);
            assert(seq![cell] == cells);
        } else {
            let tail = cells.drop_first();
            assert forall|i: int| 0 <= i < tail.len() implies is_cell(#[trigger] tail[i]) by {
                assert(tail[i] == cells[i + 1]);
            }
            lemma_body_read(tail, '|');
            assert(rest[0] == ' ');
            let then = rest.skip(1);
            assert(then == seq!['|'] + row_body(tail));
            assert(then[0] == '|');
            assert(then.skip(1) == row_body(tail));
            text::lemma_trimmed_padded(seq![' '], cell, seq![' ']);
            assert(current.push(' ') == seq![' '] + cell + seq![' ']);
            assert(cells_from(rest, current, last) == cells_from(then, current.push(' '), ' '));
            assert(cells_from(then, current.push(' '), ' ') == Some(seq![cell] + tail));
            assert(seq![cell] + tail == cells);
        }
    }
}

/// The row that holds the cells, laid out.
proof fn lemma_row_text(cells: Seq<Seq<char>>)
    requires
        are_cells(cells),
        cells.len() > 0,
    ensures
        row_text(cells) == seq!['|'] + row_body(cells),
        !text::is_space(row_text(cells).last()),
        text::free_of(row_text(cells), '\n'),
{
    let all = text::joined(cells.map_values(|cell: Seq<char>| opened(cell)), seq![' ']);
    let b = seq!['|'] + row_body(cells);
    lemma_row_laid_out(cells);
    let left = all.skip(b.len() as int);
    assert forall|i: int| 0 <= i < left.len() implies text::is_space(#[trigger] left[i]) by {}
    assert(all[b.len() - 1] == b.last());
    text::lemma_spaces_after_is(all, b.len() as int);
    assert(all.take(b.len() as int) == b);
}

proof fn lemma_row_laid_out(cells: Seq<Seq<char>>)
    requires
        are_cells(cells),
        cells.len() > 0,
    ensures
        ({
            let all = text::joined(cells.map_values(|cell: Seq<char>| opened(cell)), seq![' ']);
            let b = seq!['|'] + row_body(cells);
            &&& cells.last().len() > 0 ==> all == b
            &&& cells.last().len() == 0 ==> all == b.push(' ')
            &&& !text::is_space(b.last())
            &&& text::free_of(b, '\n')
        }),
    decreases cells.len(),
{
    let parts = cells.map_values(|cell: Seq<char>| opened(cell));
    let all = text::joined(parts, seq![' ']);
    let b = seq!['|'] + row_body(cells);
    let cell = cells[0];
    assert(is_cell(cell));
    lemma_escaped(cell);
    if cell.len() > 0 {
        lemma_shielded(cell);
    }
    if cells.len() == 1 {
        assert(all == opened(cell));
        assert(all == seq!['|', ' '] + shielded(cell));
        if cell.len() > 0 {
            assert(b == seq!['|'] + (seq![' '] + shielded(cell)));
            assert(all == b);
        } else {
            assert(b == seq!['|']);
            assert(all == b.push(' '));
        }
    } else {
        let tail = cells.drop_first();
        assert forall|i: int| 0 <= i < tail.len() implies is_cell(#[trigger] tail[i]) by {
            assert(tail[i] == cells[i + 1]);
        }
        lemma_row_laid_out(tail);
        text::lemma_joined_front(parts, seq![' ']);
        assert(parts.drop_first() == tail.map_values(|cell: Seq<char>| opened(cell)));
        let c = seq!['|'] + row_body(tail);
        assert(b == opened(cell) + seq![' '] + c);
        assert(b.last() == c.last());
        assert(tail.last() == cells.last());
        assert(text::free_of(opened(cell), '\n'));
        if cells.last().len() > 0 {
            assert(all == b);
        } else {
            assert(all == b.push(' '));
        }
    }
}

/// Whether each row of a shape holds a cell.
pub open spec fn has_rows(shape: Seq<Slot>) -> bool {
    forall|i: int|
        0 <= i < shape.len() ==> match #[trigger] shape[i] {
            Slot::Row(cells) => cells > 0,
            Slot::Blank => true,
        }
}

/// The lines that cells are poured into are read back as those cells.
proof fn lemma_poured_read(cells: Seq<Seq<char>>, shape: Seq<Slot>, n: int)
    requires
        accounted(shape) == cells.len(),
        are_cells(cells),
        has_rows(shape),
        0 <= n <= shape.len(),
    ensures
        accounted(shape.take(n)) <= cells.len(),
        rows_read(poured(cells, shape).take(n)) == Some(
            (cells.take(accounted(shape.take(n)) as int), shape.take(n)),
        ),
        text::are_lines(poured(cells, shape).take(n)),
        n > 0 && shape[n - 1] is Row ==> poured(cells, shape)[n - 1].len() > 0,
    decreases n,
{
    let all = poured(cells, shape);
    lemma_accounted_grows(shape, n);
    if n == 0 {
        assert(cells.take(0) == Seq::<Seq<char>>::empty());
        assert(shape.take(0) == Seq::<Slot>::empty());
    } else {
        lemma_poured_read(cells, shape, n - 1);
        assert(shape.take(n).drop_last() == shape.take(n - 1));
        assert(all.take(n).drop_last() == all.take(n - 1));
        assert(shape.take(n) == shape.take(n - 1).push(shape[n - 1]));
        let from = accounted(shape.take(n - 1)) as int;
        let to = accounted(shape.take(n)) as int;
        let line = all[n - 1];
        assert(line == slot_line(shape[n - 1], cells, from, to));
        if let Slot::Row(k) = shape[n - 1] {
            let row = cells.subrange(from, to);
            assert(to == from + k);
            assert forall|i: int| 0 <= i < row.len() implies is_cell(#[trigger] row[i]) by {
                assert(row[i] == cells[from + i]);
            }
            lemma_row_text(row);
            lemma_body_read(row, ' ');
            assert(line[0] == '|');
            text::lemma_trimmed_keeps(line);
            assert(line.skip(1) == row_body(row));
            assert(!text::is_space(line[0]));
            assert(cells.take(from) + row == cells.take(to));
        }
        assert(text::is_line(line));
        assert forall|i: int| 0 <= i < n implies text::is_line(#[trigger] all.take(n)[i]) by {
            if i < n - 1 {
                assert(all.take(n)[i] == all.take(n - 1)[i]);
            }
        }
    }
}

/// Lines that are read are read one part after the other.
proof fn lemma_rows_read_in_order(a: Seq<Seq<char>>, b: Seq<Seq<char>>)
    requires
        rows_read(a) is Some,
        rows_read(b) is Some,
    ensures
        rows_read(a + b) == Some(
            (
                (rows_read(a)->0).0 + (rows_read(b)->0).0,
                (rows_read(a)->0).1 + (rows_read(b)->0).1,
            ),
        ),
    decreases b.len(),
{
    let (first, above) = rows_read(a)->0;
    if b.len() == 0 {
        assert(a + b == a);
        assert(first + Seq::<Seq<char>>::empty() == first);
        assert(above + Seq::<Slot>::empty() == above);
    } else {
        let less = b.drop_last();
        lemma_rows_read_in_order(a, less);
        let (cells, shape) = rows_read(less)->0;
        assert((a + b).drop_last() == a + less);
        assert((a + b).last() == b.last());
        if text::is_blank(b.last()) {
            assert((above + shape).push(Slot::Blank) == above + shape.push(Slot::Blank));
        } else {
            let row = row_cells(b.last())->0;
            let slot = Slot::Row(row.len() as usize);
            assert((above + shape).push(slot) == above + shape.push(slot));
            assert(first + cells + row == first + (cells + row));
        }
    }
}

/// A row is read back as the cells it holds.
proof fn lemma_row_read(row: Seq<Seq<char>>)
    requires
        are_cells(row),
        row.len() > 0,
    ensures
        rows_read(seq![row_text(row)]) is Some,
        (rows_read(seq![row_text(row)])->0).0 == row,
        text::is_line(row_text(row)),
        row_text(row).len() > 0,
        row_cells(row_text(row)) == Some(row),
        !text::is_blank(row_text(row)),
{
    reveal_with_fuel(rows_read, 2);
    let line = row_text(row);
    let all = seq![line];
    lemma_row_text(row);
    lemma_body_read(row, ' ');
    assert(line[0] == '|');
    assert(!text::is_space(line[0]));
    text::lemma_trimmed_keeps(line);
    assert(line.skip(1) == row_body(row));
    assert(all.drop_last() == Seq::<Seq<char>>::empty());
    assert(Seq::<Seq<char>>::empty() + row == row);
}

/// A line with nothing on it holds no cells.
proof fn lemma_empty_line_read()
    ensures
        rows_read(seq![Seq::<char>::empty()]) is Some,
        (rows_read(seq![Seq::<char>::empty()])->0).0.len() == 0,
        text::is_line(Seq::<char>::empty()),
{
    reveal_with_fuel(rows_read, 2);
    let all = seq![Seq::<char>::empty()];
    assert(all.drop_last() == Seq::<Seq<char>>::empty());
}

/// Whether lines can be written and are read as the cells.
spec fn are_rows_of(all: Seq<Seq<char>>, cells: Seq<Seq<char>>) -> bool {
    text::are_lines(all) && rows_read(all) is Some && (rows_read(all)->0).0 == cells
}

proof fn lemma_rows_in_order(
    a: Seq<Seq<char>>,
    b: Seq<Seq<char>>,
    first: Seq<Seq<char>>,
    then: Seq<Seq<char>>,
)
    requires
        are_rows_of(a, first),
        are_rows_of(b, then),
    ensures
        are_rows_of(a + b, first + then),
{
    lemma_rows_read_in_order(a, b);
    let all = a + b;
    assert forall|i: int| 0 <= i < all.len() implies text::is_line(#[trigger] all[i]) by {
        if i < a.len() {
            assert(all[i] == a[i]);
        } else {
            assert(all[i] == b[i - a.len()]);
        }
    }
}

/// Cells that are poured into any shape that accounts for them are read back.
proof fn lemma_poured_cells(cells: Seq<Seq<char>>, shape: Seq<Slot>, n: int)
    requires
        accounted(shape) == cells.len(),
        are_cells(cells),
        0 <= n <= shape.len(),
    ensures
        accounted(shape.take(n)) <= cells.len(),
        are_rows_of(
            poured(cells, shape).take(n),
            cells.take(accounted(shape.take(n)) as int),
        ),
    decreases n,
{
    let all = poured(cells, shape);
    lemma_accounted_grows(shape, n);
    if n == 0 {
        assert(cells.take(0) == Seq::<Seq<char>>::empty());
        assert(all.take(0) == Seq::<Seq<char>>::empty());
    } else {
        lemma_poured_cells(cells, shape, n - 1);
        assert(shape.take(n).drop_last() == shape.take(n - 1));
        let from = accounted(shape.take(n - 1)) as int;
        let to = accounted(shape.take(n)) as int;
        let line = all[n - 1];
        let row = cells.subrange(from, to);
        assert(line == slot_line(shape[n - 1], cells, from, to));
        assert(all.take(n) == all.take(n - 1) + seq![line]);
        assert(cells.take(from) + row == cells.take(to));
        if row.len() > 0 {
            assert(shape[n - 1] is Row);
            assert forall|i: int| 0 <= i < row.len() implies is_cell(#[trigger] row[i]) by {
                assert(row[i] == cells[from + i]);
            }
            lemma_row_read(row);
        } else {
            lemma_no_cells();
            assert(row == Seq::<Seq<char>>::empty());
            lemma_empty_line_read();
            assert(line == Seq::<char>::empty());
            assert((rows_read(seq![line])->0).0 == row);
        }
        assert(text::are_lines(seq![line]));
        lemma_rows_in_order(all.take(n - 1), seq![line], cells.take(from), row);
    }
}

/// A row with no cells is an empty line.
proof fn lemma_no_cells()
    ensures
        row_text(Seq::<Seq<char>>::empty()) == Seq::<char>::empty(),
{
    let none = Seq::<Seq<char>>::empty();
    assert(none.map_values(|cell: Seq<char>| opened(cell)) == none);
    assert(text::trimmed_end(Seq::<char>::empty()) == Seq::<char>::empty());
}

/// Cells that are written one row per line are read back.
proof fn lemma_chunked_cells(cells: Seq<Seq<char>>, width: nat)
    requires
        are_cells(cells),
        width > 0,
    ensures
        are_rows_of(chunked(cells, width), cells),
        chunked(cells, width).len() == 0 <==> cells.len() == 0,
        cells.len() > 0 ==> chunked(cells, width)[0] == row_text(
            if cells.len() <= width {
                cells
            } else {
                cells.take(width as int)
            },
        ),
    decreases cells.len(),
{
    if cells.len() == 0 {
        assert(cells == Seq::<Seq<char>>::empty());
    } else if cells.len() <= width {
        lemma_row_read(cells);
    } else {
        let row = cells.take(width as int);
        let rest = cells.skip(width as int);
        assert forall|i: int| 0 <= i < row.len() implies is_cell(#[trigger] row[i]) by {
            assert(row[i] == cells[i]);
        }
        assert forall|i: int| 0 <= i < rest.len() implies is_cell(#[trigger] rest[i]) by {
            assert(rest[i] == cells[width + i]);
        }
        lemma_row_read(row);
        lemma_chunked_cells(rest, width);
        lemma_rows_in_order(seq![row_text(row)], chunked(rest, width), row, rest);
        assert(row + rest == cells);
    }
}

/// Cells that are laid out anew are read back, with a header or without one.
proof fn lemma_reflowed_cells(cells: Seq<Seq<char>>, width: nat, header: bool)
    requires
        are_cells(cells),
        width > 0,
    ensures
        are_rows_of(reflowed(cells, width, header), cells),
{
    let rows = chunked(cells, width);
    lemma_chunked_cells(cells, width);
    if header && rows.len() > 0 {
        let none = Seq::<Seq<char>>::empty();
        let n = if cells.len() <= width {
            cells.len() as int
        } else {
            width as int
        };
        let row = cells.take(n);
        let rest = cells.skip(n);
        assert forall|i: int| 0 <= i < row.len() implies is_cell(#[trigger] row[i]) by {
            assert(row[i] == cells[i]);
        }
        assert forall|i: int| 0 <= i < rest.len() implies is_cell(#[trigger] rest[i]) by {
            assert(rest[i] == cells[n + i]);
        }
        assert(cells.len() <= width ==> row == cells);
        assert(rows[0] == row_text(row));
        lemma_row_read(row);
        lemma_chunked_cells(rest, width);
        assert(rows.skip(1) == chunked(rest, width));
        lemma_empty_line_read();
        let blank = seq![Seq::<char>::empty()];
        assert((rows_read(blank)->0).0 == none);
        lemma_rows_in_order(seq![rows[0]], blank, row, none);
        lemma_rows_in_order(seq![rows[0]] + blank, rows.skip(1), row + none, rest);
        assert(seq![rows[0]] + blank + rows.skip(1) == reflowed(cells, width, header));
        assert(row + none + rest == cells);
    }
}

/// A cell as it is read back: one line, with no white space around it.
pub open spec fn flat(cell: Seq<char>) -> Seq<char> {
    text::trimmed(text::folded(cell))
}

/// Cells as they are read back.
pub open spec fn flats(cells: Seq<Seq<char>>) -> Seq<Seq<char>> {
    cells.map_values(|cell: Seq<char>| flat(cell))
}

proof fn lemma_shielded_in_order(a: Seq<char>, b: Seq<char>)
    ensures
        shielded(a + b) == shielded(a) + shielded(b),
    decreases b.len(),
{
    if b.len() == 0 {
        assert(a + b == a);
        assert(shielded(a) + shielded(b) == shielded(a));
    } else {
        lemma_shielded_in_order(a, b.drop_last());
        assert((a + b).drop_last() == a + b.drop_last());
        assert((a + b).last() == b.last());
        assert(shielded(a + b) == shielded(a) + shielded(b));
    }
}

proof fn lemma_shielded_folded(cell: Seq<char>)
    ensures
        text::folded(shielded(cell)) == shielded(text::folded(cell)),
    decreases cell.len(),
{
    if cell.len() == 0 {
        assert(text::folded(cell) == cell);
    } else {
        let less = cell.drop_last();
        lemma_shielded_folded(less);
        assert(text::folded(cell).drop_last() == text::folded(less));
        assert(text::folded(shielded(cell)) == shielded(text::folded(cell)));
    }
}

proof fn lemma_shielded_blank(s: Seq<char>)
    requires
        text::is_blank(s),
    ensures
        shielded(s) == s,
    decreases s.len(),
{
    if s.len() > 0 {
        let less = s.drop_last();
        assert forall|i: int| 0 <= i < less.len() implies text::is_space(#[trigger] less[i]) by {
            assert(less[i] == s[i]);
        }
        lemma_shielded_blank(less);
        assert(text::is_space(s[s.len() - 1]));
        assert(shielded(s) == s);
    }
}

/// A cell is written as it is read back.
proof fn lemma_flat(cell: Seq<char>)
    ensures
        is_cell(flat(cell)),
        escaped(cell) == escaped(flat(cell)),
        is_cell(cell) ==> flat(cell) == cell,
{
    let f = text::folded(cell);
    let t = text::trimmed(f);
    text::lemma_trimmed(f);
    text::lemma_trimmed_twice(f);
    assert(text::free_of(f, '\n'));
    assert(text::free_of(t, '\n'));
    lemma_shielded_folded(cell);
    lemma_escaped(t);
    if text::is_blank(f) {
        lemma_shielded_blank(f);
    } else {
        let b = text::spaces_before(f) as int;
        let e = b + t.len();
        text::lemma_spaces_before(f);
        let before = f.take(b);
        let after = f.skip(e);
        assert(f == before + t + after);
        assert(text::is_blank(after)) by {
            let start = text::trimmed_start(f);
            text::lemma_spaces_after(start);
            assert(start.skip(t.len() as int) == after);
        }
        lemma_shielded_in_order(before + t, after);
        lemma_shielded_in_order(before, t);
        lemma_shielded_blank(before);
        lemma_shielded_blank(after);
        lemma_shielded(t);
        text::lemma_trimmed_padded(before, shielded(t), after);
    }
    if is_cell(cell) {
        assert(f == cell);
    }
}

proof fn lemma_row_flat(cells: Seq<Seq<char>>)
    ensures
        row_text(cells) == row_text(flats(cells)),
{
    let a = cells.map_values(|cell: Seq<char>| opened(cell));
    let b = flats(cells).map_values(|cell: Seq<char>| opened(cell));
    assert forall|i: int| 0 <= i < cells.len() implies #[trigger] a[i] == b[i] by {
        lemma_flat(cells[i]);
    }
    assert(a == b);
}

proof fn lemma_chunked_flat(cells: Seq<Seq<char>>, width: nat)
    ensures
        chunked(cells, width) == chunked(flats(cells), width),
    decreases cells.len(),
{
    lemma_row_flat(cells);
    if cells.len() > width && width > 0 {
        let w = width as int;
        lemma_row_flat(cells.take(w));
        lemma_chunked_flat(cells.skip(w), width);
        assert(flats(cells).take(w) == flats(cells.take(w)));
        assert(flats(cells).skip(w) == flats(cells.skip(w)));
    }
}

/// A table is written as it is read back.
proof fn lemma_table_flat(cells: Seq<Seq<char>>, shape: Seq<Slot>, columns: usize, header: bool)
    ensures
        table_lines(cells, shape, columns, header) == table_lines(
            flats(cells),
            shape,
            columns,
            header,
        ),
        are_cells(flats(cells)),
        are_cells(cells) ==> flats(cells) == cells,
{
    let now = flats(cells);
    assert forall|i: int| 0 <= i < cells.len() implies is_cell(#[trigger] now[i]) && (is_cell(
        cells[i],
    ) ==> now[i] == cells[i]) by {
        lemma_flat(cells[i]);
    }
    if are_cells(cells) {
        assert forall|i: int| 0 <= i < cells.len() implies now[i] == #[trigger] cells[i] by {
            assert(is_cell(cells[i]));
            assert(is_cell(now[i]));
        }
        assert(now == cells);
    }
    if accounted(shape) == cells.len() {
        let a = poured(cells, shape);
        let b = poured(now, shape);
        assert forall|i: int| 0 <= i < shape.len() implies #[trigger] a[i] == b[i] by {
            let from = accounted(shape.take(i)) as int;
            let to = accounted(shape.take(i + 1)) as int;
            lemma_accounted_grows(shape, i + 1);
            assert(shape.take(i + 1).drop_last() == shape.take(i));
            lemma_row_flat(cells.subrange(from, to));
            assert(now.subrange(from, to) == flats(cells.subrange(from, to)));
        }
        assert(a == b);
    } else {
        lemma_chunked_flat(
            cells,
            if columns == 0 {
                1
            } else {
                columns as nat
            },
        );
    }
}

/// Cells written back as the rows of a table are read back, each as one line
/// with no white space around it, whether they are poured into the shape or
/// laid out anew. The shape is read back too, if it accounts for the cells, each
/// of its rows holds one, and it does not end in a blank line.
pub proof fn law_table_read_back(
    cells: Seq<Seq<char>>,
    shape: Seq<Slot>,
    columns: usize,
    header: bool,
)
    ensures
        ({
            let read = rows_read(
                text::lines_of(
                    text::joined(table_lines(cells, shape, columns, header), source::newline()),
                ),
            );
            &&& read is Some
            &&& (read->0).0 == flats(cells)
            &&& accounted(shape) == cells.len() && has_rows(shape) && (shape.len() > 0
                ==> shape.last() is Row) ==> (read->0).1 == shape
        }),
{
    let now = flats(cells);
    let all = table_lines(now, shape, columns, header);
    lemma_table_flat(cells, shape, columns, header);
    assert(now.len() == cells.len());
    if accounted(shape) == now.len() {
        let n = shape.len() as int;
        lemma_poured_cells(now, shape, n);
        assert(all.take(n) == all);
        assert(shape.take(n) == shape);
        assert(now.take(now.len() as int) == now);
        if has_rows(shape) {
            lemma_poured_read(now, shape, n);
        }
    } else {
        lemma_reflowed_cells(
            now,
            if columns == 0 {
                1
            } else {
                columns as nat
            },
            header,
        );
    }
    assert forall|i: int| 0 <= i < all.len() implies text::free_of(#[trigger] all[i], '\n')
        && !text::ends(all[i], '\r') by {
        assert(text::is_line(all[i]));
    }
    text::law_lines_read_back(all);
    if all.len() > 0 && all.last().len() == 0 {
        assert(text::is_blank(all.last()));
        assert(rows_read(all.drop_last()) is Some);
    }
}

/// The cells of a row are ones that a row can hold.
proof fn lemma_cells_from(rest: Seq<char>, current: Seq<char>, previous: char)
    requires
        text::free_of(rest, '\n'),
        text::free_of(current, '\n'),
        cells_from(rest, current, previous) is Some,
    ensures
        are_cells(cells_from(rest, current, previous)->0),
        1 <= cells_from(rest, current, previous)->0.len() <= rest.len() + 1,
    decreases rest.len(),
{
    let cells = cells_from(rest, current, previous)->0;
    text::lemma_trimmed(current);
    text::lemma_trimmed_twice(current);
    assert(is_cell(text::trimmed(current)));
    if rest.len() == 0 {
    } else if rest[0] == '\\' && rest.len() > 1 && rest[1] == '|' {
        lemma_cells_from(rest.skip(2), current.push('|'), '|');
    } else if rest[0] == '|' {
        let more = cells_from(rest.skip(1), Seq::empty(), '|')->0;
        lemma_cells_from(rest.skip(1), Seq::empty(), '|');
        assert forall|i: int| 0 <= i < cells.len() implies is_cell(#[trigger] cells[i]) by {
            if i > 0 {
                assert(cells[i] == more[i - 1]);
            }
        }
    } else {
        assert(rest[0] != '\n');
        lemma_cells_from(rest.skip(1), current.push(rest[0]), rest[0]);
    }
}

/// What is read from a table can be written back: its cells are ones that a
/// row can hold, and its shape accounts for them.
pub proof fn law_read_can_be_written(all: Seq<Seq<char>>)
    requires
        text::all_free_of(all, '\n'),
        forall|i: int| 0 <= i < all.len() ==> #[trigger] all[i].len() < usize::MAX,
        rows_read(all) is Some,
    ensures
        are_cells((rows_read(all)->0).0),
        has_rows((rows_read(all)->0).1),
        accounted((rows_read(all)->0).1) == (rows_read(all)->0).0.len(),
        (rows_read(all)->0).1.len() == all.len(),
    decreases all.len(),
{
    if all.len() > 0 {
        let before = all.drop_last();
        assert forall|i: int| 0 <= i < before.len() implies text::free_of(
            #[trigger] before[i],
            '\n',
        ) && before[i].len() < usize::MAX by {
            assert(before[i] == all[i]);
        }
        law_read_can_be_written(before);
        let (cells, shape) = rows_read(before)->0;
        let now = rows_read(all)->0;
        assert(now.1.drop_last() == shape);
        if !text::is_blank(all.last()) {
            let line = all.last();
            let t = text::trimmed(line);
            let row = row_cells(line)->0;
            text::lemma_trimmed(line);
            assert(text::free_of(line, '\n'));
            assert(text::free_of(t, '\n'));
            assert(text::free_of(t.skip(1), '\n'));
            lemma_cells_from(t.skip(1), Seq::empty(), ' ');
            assert forall|i: int| 0 <= i < now.0.len() implies is_cell(#[trigger] now.0[i]) by {
                if i < cells.len() {
                    assert(now.0[i] == cells[i]);
                } else {
                    assert(now.0[i] == row[i - cells.len()]);
                }
            }
        }
        assert forall|i: int| 0 <= i < now.1.len() implies match #[trigger] now.1[i] {
            Slot::Row(k) => k > 0,
            Slot::Blank => true,
        } by {
            if i < shape.len() {
                assert(now.1[i] == shape[i]);
            }
        }
    }
}

/// A table that is read and written back unchanged, and does not end in a
/// blank line, says what it said.
pub proof fn law_table_unchanged(rows: Seq<char>, columns: usize, header: bool)
    requires
        rows.len() < usize::MAX,
        rows_read(text::lines_of(rows)) is Some,
        ({
            let shape = (rows_read(text::lines_of(rows))->0).1;
            shape.len() > 0 ==> shape.last() is Row
        }),
    ensures
        ({
            let (cells, shape) = rows_read(text::lines_of(rows))->0;
            rows_read(
                text::lines_of(
                    text::joined(table_lines(cells, shape, columns, header), source::newline()),
                ),
            ) == Some((cells, shape))
        }),
{
    let all = text::lines_of(rows);
    text::lemma_lines_fit(rows);
    law_read_can_be_written(all);
    let (cells, shape) = rows_read(all)->0;
    lemma_table_flat(cells, shape, columns, header);
    law_table_read_back(cells, shape, columns, header);
}

/// The layout that is read has one slot for each line: a row with as many cells
/// as are read from the line, or a blank.
pub proof fn law_layout_is_read_line_by_line(all: Seq<Seq<char>>, i: int)
    requires
        rows_read(all) is Some,
        0 <= i < all.len(),
    ensures
        ({
            let (cells, shape) = rows_read(all)->0;
            &&& shape.len() == all.len()
            &&& text::is_blank(all[i]) ==> shape[i] == Slot::Blank
            &&& !text::is_blank(all[i]) ==> row_cells(all[i]) is Some && shape[i] == Slot::Row(
                row_cells(all[i])->0.len() as usize,
            )
        }),
    decreases all.len(),
{
    reveal_with_fuel(rows_read, 2);
    let less = all.drop_last();
    if less.len() > 0 {
        law_layout_is_read_line_by_line(
            less,
            if i < less.len() {
                i
            } else {
                0
            },
        );
    }
    if i < less.len() {
        assert(less[i] == all[i]);
    }
}

/// How many cells a layout holds: each row holds as many as it says, and a
/// blank line none.
pub proof fn law_layout_counts_its_cells(shape: Seq<Slot>, n: usize)
    ensures
        accounted(Seq::empty()) == 0,
        accounted(shape.push(Slot::Row(n))) == accounted(shape) + n,
        accounted(shape.push(Slot::Blank)) == accounted(shape),
{
    assert(shape.push(Slot::Row(n)).drop_last() == shape);
    assert(shape.push(Slot::Blank).drop_last() == shape);
}

proof fn lemma_chunked_row(cells: Seq<Seq<char>>, width: nat, i: int)
    requires
        are_cells(cells),
        width > 0,
        0 <= i,
        i * width < cells.len(),
    ensures
        ({
            let rows = chunked(cells, width);
            let from = i * width;
            let to = if from + width < cells.len() {
                from + width
            } else {
                cells.len() as int
            };
            &&& i < rows.len()
            &&& !text::is_blank(rows[i])
            &&& row_cells(rows[i]) == Some(cells.subrange(from, to))
        }),
    decreases i,
{
    let w = width as int;
    let rest = cells.skip(w);
    if i == 0 {
        assert(0 * width == 0);
        let n = if cells.len() <= width {
            cells.len() as int
        } else {
            w
        };
        let row = cells.subrange(0, n);
        assert(row == cells.take(n));
        assert(cells.len() <= width ==> row == cells);
        assert forall|k: int| 0 <= k < row.len() implies is_cell(#[trigger] row[k]) by {
            assert(row[k] == cells[k]);
        }
        lemma_row_read(row);
        assert(chunked(cells, width)[0] == row_text(row));
    } else {
        assert(i * width == (i - 1) * width + width) by (nonlinear_arith);
        assert((i - 1) * width >= 0) by (nonlinear_arith)
            requires
                i >= 1,
        ;
        assert forall|k: int| 0 <= k < rest.len() implies is_cell(#[trigger] rest[k]) by {
            assert(rest[k] == cells[w + k]);
        }
        lemma_chunked_row(rest, width, i - 1);
        let from = i * width;
        let to = if from + width < cells.len() {
            from + width
        } else {
            cells.len() as int
        };
        assert(rest.subrange(from - w, to - w) == cells.subrange(from, to));
        assert(chunked(cells, width)[i] == chunked(rest, width)[i - 1]);
    }
}

proof fn lemma_chunked_count(cells: Seq<Seq<char>>, width: nat)
    requires
        width > 0,
    ensures
        ({
            let k = chunked(cells, width).len();
            &&& k == 0 <==> cells.len() == 0
            &&& k > 0 ==> (k - 1) * width < cells.len() <= k * width
        }),
    decreases cells.len(),
{
    if cells.len() > width {
        let rest = cells.skip(width as int);
        lemma_chunked_count(rest, width);
        let k = chunked(rest, width).len();
        assert(k * width == (k - 1) * width + width) by (nonlinear_arith);
        assert((k + 1) * width == k * width + width) by (nonlinear_arith);
    } else if cells.len() > 0 {
        assert((1 - 1) * width == 0) by (nonlinear_arith);
        assert(1 * width == width) by (nonlinear_arith);
    }
}

/// Cells that the layout does not account for are written one row per line,
/// each with as many cells as there are columns, but for a last one that holds
/// what is left; an empty line sets off the first row, if it is the header. The
/// row numbered `i` is read back as the cells it is due.
pub proof fn law_rows_are_as_wide_as_the_table(
    cells: Seq<Seq<char>>,
    shape: Seq<Slot>,
    columns: usize,
    header: bool,
    i: int,
)
    requires
        accounted(shape) != cells.len(),
        columns > 0,
        0 <= i,
        i * columns < cells.len(),
    ensures
        ({
            let all = table_lines(cells, shape, columns, header);
            let from = i * columns;
            let to = if from + columns < cells.len() {
                from + columns
            } else {
                cells.len() as int
            };
            let at = if header && i > 0 {
                i + 1
            } else {
                i
            };
            let rows = if header {
                all.len() - 1
            } else {
                all.len() as int
            };
            &&& at < all.len()
            &&& row_cells(all[at]) == Some(flats(cells).subrange(from, to))
            &&& header ==> all.len() > 1 && all[1].len() == 0
            &&& (rows - 1) * columns < cells.len() <= rows * columns
            &&& rows_read(all) is Some
            &&& (rows_read(all)->0).1[at] == Slot::Row((to - from) as usize)
            &&& header ==> (rows_read(all)->0).1[1] == Slot::Blank
        }),
{
    let now = flats(cells);
    let width = columns as nat;
    let rows = chunked(now, width);
    let all = table_lines(cells, shape, columns, header);
    lemma_table_flat(cells, shape, columns, header);
    lemma_chunked_row(now, width, i);
    lemma_chunked_count(now, width);
    lemma_reflowed_cells(now, width, header);
    assert(all == reflowed(now, width, header));
    let at = if header && i > 0 {
        i + 1
    } else {
        i
    };
    if header {
        assert(all == seq![rows[0], Seq::empty()] + rows.skip(1));
        if i > 0 {
            assert(all[i + 1] == rows.skip(1)[i - 1]);
            assert(rows.skip(1)[i - 1] == rows[i]);
        }
        law_layout_is_read_line_by_line(all, 1);
    }
    assert(all[at] == rows[i]);
    law_layout_is_read_line_by_line(all, at);
}

/// A table without columns has one cell to a row.
pub proof fn law_no_columns_are_one_column(
    cells: Seq<Seq<char>>,
    shape: Seq<Slot>,
    header: bool,
)
    ensures
        table_lines(cells, shape, 0, header) == table_lines(cells, shape, 1, header),
{
}

/// Cells that the layout accounts for are written into it line for line: each
/// row is read back as as many of them as it held, in order, and a blank line
/// stays empty.
pub proof fn law_layout_is_kept(
    cells: Seq<Seq<char>>,
    shape: Seq<Slot>,
    columns: usize,
    header: bool,
    i: int,
)
    requires
        accounted(shape) == cells.len(),
        0 <= i < shape.len(),
    ensures
        ({
            let all = table_lines(cells, shape, columns, header);
            let from = accounted(shape.take(i));
            &&& all.len() == shape.len()
            &&& match shape[i] {
                Slot::Row(n) => if n > 0 {
                    &&& from + n <= cells.len()
                    &&& row_cells(all[i]) == Some(flats(cells).subrange(from as int, from + n))
                } else {
                    all[i].len() == 0
                },
                Slot::Blank => all[i].len() == 0,
            }
        }),
{
    let now = flats(cells);
    let all = table_lines(cells, shape, columns, header);
    lemma_table_flat(cells, shape, columns, header);
    let from = accounted(shape.take(i)) as int;
    let to = accounted(shape.take(i + 1)) as int;
    lemma_accounted_grows(shape, i + 1);
    assert(shape.take(i + 1).drop_last() == shape.take(i));
    assert(all[i] == slot_line(shape[i], now, from, to));
    if let Slot::Row(n) = shape[i] {
        let row = now.subrange(from, to);
        if n > 0 {
            assert forall|k: int| 0 <= k < row.len() implies is_cell(#[trigger] row[k]) by {
                assert(row[k] == now[from + k]);
            }
            lemma_row_read(row);
        } else {
            lemma_no_cells();
            assert(row == Seq::<Seq<char>>::empty());
        }
    }
}

/// How a row looks: each cell comes after the one before it, a space, a
/// separator and another space. The space after the separator of an empty cell
/// is not written at the end of the row.
pub proof fn law_row_looks(cells: Seq<Seq<char>>, cell: Seq<char>)
    requires
        are_cells(cells),
        is_cell(cell),
        text::free_of(cell, '|'),
    ensures
        row_text(seq![cell]) == (if cell.len() == 0 {
            seq!['|']
        } else {
            seq!['|', ' '] + cell
        }),
        cells.len() > 0 ==> row_text(cells.push(cell)) == row_text(cells) + (
        if cells.last().len() == 0 {
            seq![' ', ' ', '|']
        } else {
            seq![' ', '|']
        }) + (if cell.len() == 0 {
            cell
        } else {
            seq![' '] + cell
        }),
{
    let one = seq![cell];
    lemma_escaped(cell);
    lemma_plain_shielded(cell);
    assert(are_cells(one));
    lemma_row_text(one);
    if cells.len() > 0 {
        let more = cells.push(cell);
        assert forall|i: int| 0 <= i < more.len() implies is_cell(#[trigger] more[i]) by {
            if i < cells.len() {
                assert(more[i] == cells[i]);
            }
        }
        lemma_row_text(cells);
        lemma_row_text(more);
        lemma_row_laid_out(cells);
        lemma_row_laid_out(more);
        let before = cells.map_values(|c: Seq<char>| opened(c));
        let after = more.map_values(|c: Seq<char>| opened(c));
        assert(after.drop_last() == before);
        assert(after.last() == opened(cell));
        assert(text::joined(after, seq![' ']) == text::joined(before, seq![' ']) + seq![' ']
            + opened(cell));
        let made = row_text(cells) + (if cells.last().len() == 0 {
            seq![' ', ' ', '|']
        } else {
            seq![' ', '|']
        }) + (if cell.len() == 0 {
            cell
        } else {
            seq![' '] + cell
        });
        if cell.len() > 0 {
            assert(text::joined(after, seq![' ']) == made);
        } else {
            assert(text::joined(after, seq![' ']) == made.push(' '));
            assert(row_text(more).push(' ').drop_last() == row_text(more));
            assert(made.push(' ').drop_last() == made);
        }
    }
}

/// A cell with no separator in it is written as it is.
proof fn lemma_plain_shielded(cell: Seq<char>)
    requires
        text::free_of(cell, '|'),
    ensures
        shielded(cell) == cell,
    decreases cell.len(),
{
    if cell.len() > 0 {
        let less = cell.drop_last();
        assert forall|i: int| 0 <= i < less.len() implies #[trigger] less[i] != '|' by {
            assert(less[i] == cell[i]);
        }
        lemma_plain_shielded(less);
        assert(cell[cell.len() - 1] != '|');
        assert(shielded(cell) == cell);
    }
}

/// A separator in a cell is written with a backslash before it, and nothing
/// else in a cell is changed.
pub proof fn law_separators_are_escaped(a: Seq<char>, b: Seq<char>)
    requires
        is_cell(a + seq!['|'] + b),
    ensures
        escaped(a + seq!['|'] + b) == text::replaced(a, '|', seq!['\\', '|']) + seq!['\\', '|']
            + text::replaced(b, '|', seq!['\\', '|']),
        text::free_of(a, '|') ==> text::replaced(a, '|', seq!['\\', '|']) == a,
        text::free_of(b, '|') ==> text::replaced(b, '|', seq!['\\', '|']) == b,
{
    lemma_escaped(a + seq!['|'] + b);
    lemma_shielded_in_order(a + seq!['|'], b);
    lemma_shielded_in_order(a, seq!['|']);
    assert(seq!['|'].drop_last() == Seq::<char>::empty());
    reveal_with_fuel(text::replaced, 2);
    assert(shielded(seq!['|']) == seq!['\\', '|']);
    if text::free_of(a, '|') {
        lemma_plain_shielded(a);
    }
    if text::free_of(b, '|') {
        lemma_plain_shielded(b);
    }
}

/// A row is refused that has a bare separator with something other than white
/// space before it: that is a cell specifier. A separator is bare if no
/// backslash stands before it.
pub proof fn law_specifiers_are_refused(line: Seq<char>, i: int)
    requires
        ({
            let t = text::trimmed(line);
            &&& 1 < i < t.len()
            &&& t[i] == '|'
            &&& !text::is_space(t[i - 1])
            &&& t[i - 1] != '\\'
            &&& t[i - 1] != '|'
        }),
    ensures
        row_cells(line) is None,
{
    let t = text::trimmed(line);
    if text::begins(t, '|') {
        assert(t.skip(1)[i - 1] == t[i]);
        assert(t.skip(1)[i - 2] == t[i - 1]);
        lemma_specifier_refused(t.skip(1), Seq::empty(), ' ', i - 1);
    }
}

proof fn lemma_specifier_refused(rest: Seq<char>, current: Seq<char>, previous: char, i: int)
    requires
        0 <= i < rest.len(),
        rest[i] == '|',
        i > 0 ==> !text::is_space(rest[i - 1]) && rest[i - 1] != '\\' && rest[i - 1] != '|',
        i == 0 ==> !text::is_space(previous),
    ensures
        cells_from(rest, current, previous) is None,
    decreases rest.len(),
{
    if i > 0 {
        if rest[0] == '\\' && rest.len() > 1 && rest[1] == '|' {
            assert(i != 1);
            assert(rest.skip(2)[i - 2] == rest[i]);
            if i > 2 {
                assert(rest.skip(2)[i - 3] == rest[i - 1]);
            }
            lemma_specifier_refused(rest.skip(2), current.push('|'), '|', i - 2);
        } else {
            assert(rest.skip(1)[i - 1] == rest[i]);
            if i > 1 {
                assert(rest.skip(1)[i - 2] == rest[i - 1]);
            }
            if rest[0] == '|' {
                lemma_specifier_refused(rest.skip(1), Seq::empty(), '|', i - 1);
            } else {
                lemma_specifier_refused(rest.skip(1), current.push(rest[0]), rest[0], i - 1);
            }
        }
    }
}

/// The widest row is one of the rows, and none is wider.
pub proof fn law_widest_row(rows: Seq<dom::ElementModel>, i: int)
    requires
        0 <= i < rows.len(),
    ensures
        cells_in(rows[i]).len() <= widest(rows),
        exists|k: int|
            0 <= k < rows.len() && #[trigger] cells_in(rows[k]).len() == widest(rows),
    decreases rows.len(),
{
    reveal_with_fuel(widest, 2);
    let less = rows.drop_last();
    if less.len() > 0 {
        law_widest_row(
            less,
            if i < less.len() {
                i
            } else {
                0
            },
        );
        let k = choose|k: int|
            0 <= k < less.len() && #[trigger] cells_in(less[k]).len() == widest(less);
        assert(rows[k] == less[k]);
        assert(cells_in(rows[k]).len() == widest(less));
        if i < less.len() {
            assert(rows[i] == less[i]);
        }
    }
    assert(cells_in(rows[rows.len() - 1]).len() == cells_in(rows.last()).len());
}

// ---------------------------------------------------------------------
// Rendering a table
// ---------------------------------------------------------------------

/// What a cell is rendered as.
pub open spec fn cell_rendered(spans: Seq<crate::inline::Span>, head: bool) -> dom::ElementModel {
    dom::ElementModel {
        key: None,
        tag: if head {
            "th"@
        } else {
            "td"@
        },
        classes: Seq::empty(),
        line: None,
        href: None,
        children: crate::inline::rendered_all(spans, false),
    }
}

/// What the cells of a row are rendered as.
pub open spec fn cells_rendered(cells: Seq<Seq<crate::inline::Span>>, head: bool) -> Seq<
    dom::NodeModel,
>
    decreases cells.len(),
{
    if cells.len() == 0 {
        Seq::empty()
    } else {
        cells_rendered(cells.drop_last(), head).push(
            dom::NodeModel::Element(cell_rendered(cells.last(), head)),
        )
    }
}

/// What a row is rendered as.
pub open spec fn row_rendered(cells: Seq<Seq<crate::inline::Span>>, head: bool) -> dom::ElementModel {
    dom::ElementModel {
        key: None,
        tag: "tr"@,
        classes: Seq::empty(),
        line: None,
        href: None,
        children: cells_rendered(cells, head),
    }
}

/// What rows are rendered as.
pub open spec fn rows_rendered(rows: Seq<Seq<Seq<crate::inline::Span>>>, head: bool) -> Seq<
    dom::NodeModel,
>
    decreases rows.len(),
{
    if rows.len() == 0 {
        Seq::empty()
    } else {
        rows_rendered(rows.drop_last(), head).push(
            dom::NodeModel::Element(row_rendered(rows.last(), head)),
        )
    }
}

/// What a table is rendered as, with `top` in its head, if there is a row for
/// it, and `rows` in its body.
pub open spec fn table_rendered(
    top: Option<Seq<Seq<crate::inline::Span>>>,
    rows: Seq<Seq<Seq<crate::inline::Span>>>,
) -> dom::ElementModel {
    let body = crate::inline::element_of("tbody"@, None, rows_rendered(rows, false));
    dom::ElementModel {
        key: None,
        tag: "table"@,
        classes: Seq::empty(),
        line: None,
        href: None,
        children: match top {
            Some(cells) => seq![
                crate::inline::element_of("thead"@, None, rows_rendered(seq![cells], true)),
                body,
            ],
            None => seq![body],
        },
    }
}

/// The row numbered `r` of a table, counted from its head.
pub open spec fn row_of_table(
    top: Option<Seq<Seq<crate::inline::Span>>>,
    rows: Seq<Seq<Seq<crate::inline::Span>>>,
    r: int,
) -> Seq<Seq<crate::inline::Span>> {
    match top {
        Some(cells) => if r == 0 {
            cells
        } else {
            rows[r - 1]
        },
        None => rows[r],
    }
}

/// A table that is rendered is read back from its rendering: as many rows, as
/// many cells in each, what each of them says, and whether there is a head.
pub proof fn law_rendered_table_read_back(
    top: Option<Seq<Seq<crate::inline::Span>>>,
    rows: Seq<Seq<Seq<crate::inline::Span>>>,
    r: int,
    c: int,
)
    ensures
        ({
            let t = table_rendered(top, rows);
            let count = rows.len() + (if top is Some {
                1int
            } else {
                0
            });
            &&& rows_in(t).len() == count
            &&& headed(t) <==> top is Some
            &&& 0 <= r < count ==> {
                let row = row_of_table(top, rows, r);
                let cells = cells_in(rows_in(t)[r]);
                &&& cells.len() == row.len()
                &&& 0 <= c < row.len() ==> cell_text(cells[c]) == text::trimmed(
                    crate::inline::written(row[c]),
                )
            }
        }),
{
    lemma_table_names();
    let t = table_rendered(top, rows);
    let below = rows_rendered(rows, false);
    let body = crate::inline::element_of("tbody"@, None, below);
    let none = Seq::<dom::NodeModel>::empty();
    let tr = "TR"@;
    let th = "THEAD"@;
    lemma_rows_named(rows, false);
    assert(dom::named(none, tr, tr) == Seq::<dom::ElementModel>::empty());
    assert(dom::named(none, th, th) == Seq::<dom::ElementModel>::empty());
    dom::law_named_in_order(none, none, body->Element_0, tr, tr);
    dom::law_named_in_order(none, none, body->Element_0, th, th);
    assert(dom::named(seq![body], tr, tr) == dom::named(below, tr, tr));
    assert(dom::named(seq![body], th, th).len() == 0);
    match top {
        Some(cells) => {
            let above = rows_rendered(seq![cells], true);
            let head = crate::inline::element_of("thead"@, None, above);
            lemma_rows_named(seq![cells], true);
            dom::law_named_in_order(seq![head], seq![body], head->Element_0, tr, tr);
            dom::law_named_in_order(seq![head], seq![body], head->Element_0, th, th);
            assert(t.children == seq![head] + seq![body]);
            assert(rows_in(t) == dom::named(above, tr, tr) + dom::named(below, tr, tr));
            assert(dom::named(t.children, th, th)[0] == head->Element_0);
            assert(rows_in(dom::named(t.children, th, th)[0]).len() == 1);
            if 0 <= r < rows.len() + 1 {
                if r == 0 {
                    assert(rows_in(t)[0] == row_rendered(seq![cells][0], true));
                    lemma_cells_named(cells, true, c);
                } else {
                    assert(rows_in(t)[r] == row_rendered(rows[r - 1], false));
                    lemma_cells_named(rows[r - 1], false, c);
                }
            }
        },
        None => {
            assert(t.children == seq![body]);
            if 0 <= r < rows.len() {
                assert(rows_in(t)[r] == row_rendered(rows[r], false));
                lemma_cells_named(rows[r], false, c);
            }
        },
    }
}

/// No construct is called anything that starts with a `T`.
proof fn lemma_none_named(spans: Seq<crate::inline::Span>, a: Seq<char>, b: Seq<char>)
    requires
        a.len() > 0 && a[0] == 'T',
        b.len() > 0 && b[0] == 'T',
    ensures
        dom::named(crate::inline::rendered_all(spans, false), a, b).len() == 0,
    decreases spans,
{
    if spans.len() > 0 {
        let all = crate::inline::rendered_all(spans, false);
        lemma_none_named(spans.drop_last(), a, b);
        assert(all.drop_last() == crate::inline::rendered_all(spans.drop_last(), false));
        assert(all.last() == crate::inline::rendered(spans.last(), false));
        lemma_none_named_at(spans.last(), a, b);
    }
}

proof fn lemma_none_named_at(span: crate::inline::Span, a: Seq<char>, b: Seq<char>)
    requires
        a.len() > 0 && a[0] == 'T',
        b.len() > 0 && b[0] == 'T',
    ensures
        dom::named_at(crate::inline::rendered(span, false), a, b).len() == 0,
    decreases span,
{
    crate::inline::lemma_names();
    reveal_strlit("STRONG");
    reveal_strlit("EM");
    reveal_strlit("CODE");
    reveal_strlit("A");
    reveal_strlit("BR");
    assert("STRONG"@[0] == 'S' && "EM"@[0] == 'E' && "CODE"@[0] == 'C' && "A"@[0] == 'A' && "BR"@[0]
        == 'B');
    match span {
        crate::inline::Span::Strong(children) => lemma_none_named(children, a, b),
        crate::inline::Span::Emphasis(children) => lemma_none_named(children, a, b),
        crate::inline::Span::Code(children) => lemma_none_named(children, a, b),
        crate::inline::Span::Link { href, children } => lemma_none_named(children, a, b),
        _ => {},
    }
}

proof fn lemma_table_names()
    ensures
        text::uppercased("tr"@) == "TR"@,
        text::uppercased("th"@) == "TH"@,
        text::uppercased("td"@) == "TD"@,
        text::uppercased("thead"@) == "THEAD"@,
        text::uppercased("tbody"@) == "TBODY"@,
        "TR"@.len() == 2 && "TH"@.len() == 2 && "TD"@.len() == 2 && "THEAD"@.len() == 5
            && "TBODY"@.len() == 5,
        "TR"@[0] == 'T' && "TH"@[0] == 'T' && "TD"@[0] == 'T' && "THEAD"@[0] == 'T',
        "TR"@[1] == 'R' && "TH"@[1] == 'H' && "TD"@[1] == 'D' && "THEAD"@[1] == 'H' && "TBODY"@[1]
            == 'B',
{
    reveal_strlit("tr");
    reveal_strlit("TR");
    reveal_strlit("th");
    reveal_strlit("TH");
    reveal_strlit("td");
    reveal_strlit("TD");
    reveal_strlit("thead");
    reveal_strlit("THEAD");
    reveal_strlit("tbody");
    reveal_strlit("TBODY");
    assert(text::uppercased("tr"@) =~= "TR"@);
    assert(text::uppercased("th"@) =~= "TH"@);
    assert(text::uppercased("td"@) =~= "TD"@);
    assert(text::uppercased("thead"@) =~= "THEAD"@);
    assert(text::uppercased("tbody"@) =~= "TBODY"@);
}

proof fn lemma_rows_named(rows: Seq<Seq<Seq<crate::inline::Span>>>, head: bool)
    ensures
        dom::named(rows_rendered(rows, head), "TR"@, "TR"@).len() == rows.len(),
        forall|i: int|
            0 <= i < rows.len() ==> #[trigger] dom::named(
                rows_rendered(rows, head),
                "TR"@,
                "TR"@,
            )[i] == row_rendered(rows[i], head),
        dom::named(rows_rendered(rows, head), "THEAD"@, "THEAD"@).len() == 0,
    decreases rows.len(),
{
    lemma_table_names();
    if rows.len() > 0 {
        let all = rows_rendered(rows, head);
        let row = row_rendered(rows.last(), head);
        lemma_rows_named(rows.drop_last(), head);
        assert(all.drop_last() == rows_rendered(rows.drop_last(), head));
        assert(all.last() == dom::NodeModel::Element(row));
        lemma_cells_unnamed(rows.last(), head, "TR"@);
        lemma_cells_unnamed(rows.last(), head, "THEAD"@);
        let got = dom::named_at(all.last(), "TR"@, "TR"@);
        assert(got == seq![row] + dom::named(row.children, "TR"@, "TR"@));
        assert(got.len() == 1 && got[0] == row);
        assert(dom::named_at(all.last(), "THEAD"@, "THEAD"@) == dom::named(
            row.children,
            "THEAD"@,
            "THEAD"@,
        ));
    }
}

proof fn lemma_cells_unnamed(cells: Seq<Seq<crate::inline::Span>>, head: bool, name: Seq<char>)
    requires
        name == "TR"@ || name == "THEAD"@,
    ensures
        dom::named(cells_rendered(cells, head), name, name).len() == 0,
    decreases cells.len(),
{
    lemma_table_names();
    if cells.len() > 0 {
        let all = cells_rendered(cells, head);
        lemma_cells_unnamed(cells.drop_last(), head, name);
        assert(all.drop_last() == cells_rendered(cells.drop_last(), head));
        let cell = cell_rendered(cells.last(), head);
        assert(all.last() == dom::NodeModel::Element(cell));
        lemma_none_named(cells.last(), name, name);
        let own = text::uppercased(cell.tag);
        assert(own.len() == 2 && own[1] != 'R');
        assert(dom::named_at(all.last(), name, name) == dom::named(cell.children, name, name));
    }
}

proof fn lemma_cells_named(cells: Seq<Seq<crate::inline::Span>>, head: bool, c: int)
    ensures
        cells_in(row_rendered(cells, head)).len() == cells.len(),
        0 <= c < cells.len() ==> cells_in(row_rendered(cells, head))[c] == cell_rendered(
            cells[c],
            head,
        ),
        0 <= c < cells.len() ==> cell_text(cell_rendered(cells[c], head)) == text::trimmed(
            crate::inline::written(cells[c]),
        ),
    decreases cells.len(),
{
    lemma_table_names();
    if cells.len() > 0 {
        let all = cells_rendered(cells, head);
        let cell = cell_rendered(cells.last(), head);
        lemma_cells_named(cells.drop_last(), head, c);
        assert(all.drop_last() == cells_rendered(cells.drop_last(), head));
        assert(all.last() == dom::NodeModel::Element(cell));
        lemma_none_named(cells.last(), "TH"@, "TD"@);
        let got = dom::named_at(all.last(), "TH"@, "TD"@);
        assert(got == seq![cell] + dom::named(cell.children, "TH"@, "TD"@));
        assert(got.len() == 1 && got[0] == cell);
        if 0 <= c < cells.len() {
            crate::inline::law_rendering_read_back(cells[c], false);
        }
    }
}

/// What the cells of rows say comes row after row, cell after cell.
pub proof fn law_cells_row_by_row(rows: Seq<dom::ElementModel>, row: dom::ElementModel, c: int)
    ensures
        ({
            let before = row_texts(rows);
            let now = row_texts(rows.push(row));
            &&& now.len() == before.len() + cells_in(row).len()
            &&& now.take(before.len() as int) == before
            &&& 0 <= c < cells_in(row).len() ==> now[before.len() + c] == cell_text(cells_in(row)[c])
        }),
        row_texts(Seq::empty()).len() == 0,
{
    assert(rows.push(row).drop_last() == rows);
    assert(rows.push(row).last() == row);
    assert(row_texts(rows.push(row)).take(row_texts(rows).len() as int) == row_texts(rows));
}

/// An element is found by what it is known by, at the first place it stands.
pub proof fn law_place_is_the_first(elements: Seq<dom::ElementModel>, key: usize, i: int)
    requires
        0 <= i < elements.len(),
        forall|k: int| 0 <= k < i ==> (#[trigger] elements[k]).key != Some(key),
    ensures
        elements[i].key == Some(key) ==> place_in(elements, key) == Some(i),
        place_in(elements, key) is None ==> elements[i].key != Some(key),
    decreases elements.len(),
{
    let less = elements.drop_last();
    if i < less.len() {
        assert(less[i] == elements[i]);
        assert forall|k: int| 0 <= k < i implies (#[trigger] less[k]).key != Some(key) by {
            assert(less[k] == elements[k]);
        }
        law_place_is_the_first(less, key, i);
    } else {
        lemma_nowhere(less, key);
    }
}

proof fn lemma_nowhere(elements: Seq<dom::ElementModel>, key: usize)
    requires
        forall|k: int| 0 <= k < elements.len() ==> (#[trigger] elements[k]).key != Some(key),
    ensures
        place_in(elements, key) is None,
    decreases elements.len(),
{
    if elements.len() > 0 {
        let less = elements.drop_last();
        assert forall|k: int| 0 <= k < less.len() implies (#[trigger] less[k]).key != Some(key) by {
            assert(less[k] == elements[k]);
        }
        lemma_nowhere(less, key);
        assert(elements[elements.len() - 1].key != Some(key));
    }
}

} // verus!
