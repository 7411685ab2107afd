//! What the edits promise, one after another.
use vstd::prelude::*;

use crate::source;
use crate::text;

verus! {

// ---------------------------------------------------------------------
// Documents and their lines
// ---------------------------------------------------------------------

/// A document that ends with a line feed still does after an edit, and one
/// that does not still does not, unless the last line is now an empty one.
pub proof fn law_trailing_newline_kept(all: Seq<Seq<char>>, src: Seq<char>)
    requires
        text::all_free_of(all, '\n'),
    ensures
        text::ends(src, '\n') ==> text::ends(source::document(all, src), '\n'),
        !text::ends(src, '\n') && all.len() > 0 && all.last().len() > 0 ==> !text::ends(
            source::document(all, src),
            '\n',
        ),
{
    if all.len() > 0 {
        lemma_joined_ends(all);
    }
}

/// Lines joined end in a line feed only if the last of several is empty.
proof fn lemma_joined_ends(all: Seq<Seq<char>>)
    requires
        all.len() > 0,
        text::all_free_of(all, '\n'),
    ensures
        text::ends(text::joined(all, source::newline()), '\n') <==> all.len() > 1
            && all.last().len() == 0,
{
    let text = text::joined(all, source::newline());
    let line = all.last();
    assert(text::free_of(line, '\n'));
    if all.len() > 1 {
        let front = text::joined(all.drop_last(), source::newline()) + source::newline();
        assert(text == front + line);
        if line.len() > 0 {
            assert(text.last() == line[line.len() - 1]);
        } else {
            assert(text.last() == '\n');
        }
    } else {
        assert(text == line);
        if line.len() > 0 {
            assert(text.last() == line[line.len() - 1]);
        }
    }
}

/// The lines that a document was made of are the lines it has, exactly if they
/// can be read back.
pub proof fn law_document_read_back(all: Seq<Seq<char>>, src: Seq<char>)
    ensures
        text::lines_of(source::document(all, src)) == all <==> source::reads_back(all, src),
{
    let made = source::document(all, src);
    if source::reads_back(all, src) {
        text::law_lines_read_back(all);
        if all.len() > 0 {
            lemma_joined_ends(all);
        }
    } else if text::lines_of(made) == all {
        text::lemma_lines_fit(made);
        assert(text::all_free_of(all, '\n'));
        if all.len() > 0 {
            lemma_joined_ends(all);
            text::law_joined_splits(all, '\n');
            lemma_no_returns(all, made);
        } else {
            assert(made == seq!['\n']);
            assert(made.drop_last() == Seq::<char>::empty());
            assert(text::pieces(Seq::empty(), '\n') == seq![Seq::<char>::empty()]);
            assert(text::pieces(made, '\n') == seq![Seq::<char>::empty(), Seq::empty()]);
            assert(text::lines_of(made).len() == 1);
        }
    }
}

/// Lines that are read back from what they make have no carriage return at the
/// end, but for an unended last one.
proof fn lemma_no_returns(all: Seq<Seq<char>>, made: Seq<char>)
    requires
        all.len() > 0,
        text::pieces(text::joined(all, source::newline()), '\n') == all,
        text::lines_of(made) == all,
        made == text::joined(all, source::newline()) || made == text::joined(
            all,
            source::newline(),
        ).push('\n'),
    ensures
        forall|i: int| 0 <= i < all.len() - 1 ==> !text::ends(#[trigger] all[i], '\r'),
        made == text::joined(all, source::newline()) ==> all.last().len() > 0,
        made == text::joined(all, source::newline()).push('\n') ==> !text::ends(all.last(), '\r'),
{
    let whole = text::joined(all, source::newline());
    let parts = text::pieces(made, '\n');
    if made == whole {
        assert forall|i: int| 0 <= i < all.len() - 1 implies !text::ends(#[trigger] all[i], '\r') by {
            assert(text::lines_of(made)[i] == text::without_cr(parts[i]));
        }
    } else {
        assert(made.drop_last() == whole);
        assert(parts.drop_last() == all);
        assert forall|i: int| 0 <= i < all.len() implies !text::ends(#[trigger] all[i], '\r') by {
            assert(text::lines_of(made)[i] == text::without_cr(parts[i]));
            assert(parts[i] == parts.drop_last()[i]);
        }
    }
}

/// The lines of a document that was made of `all`: those, each without the
/// carriage return that ends it, but for an unended last one; an empty last one
/// is lost, unless it is the only one.
proof fn lemma_document_lines(all: Seq<Seq<char>>, src: Seq<char>)
    requires
        all.len() > 0,
        text::all_free_of(all, '\n'),
    ensures
        ({
            let now = text::lines_of(source::document(all, src));
            let last = all.last();
            let ended = text::ends(src, '\n');
            &&& now.len() == (if last.len() == 0 && !(ended && all.len() == 1) {
                all.len() - 1
            } else {
                all.len() as int
            })
            &&& forall|i: int|
                0 <= i < all.len() - 1 ==> #[trigger] now[i] == text::without_cr(all[i])
            &&& last.len() > 0 ==> now.last() == (if ended {
                text::without_cr(last)
            } else {
                last
            })
            &&& now.len() == all.len() && last.len() == 0 ==> now.last() == last
        }),
{
    let whole = text::joined(all, source::newline());
    let made = source::document(all, src);
    let parts = text::pieces(made, '\n');
    let cut = |line: Seq<char>| text::without_cr(line);
    text::law_joined_splits(all, '\n');
    lemma_joined_ends(all);
    if made == whole {
        assert(parts == all);
        let ended = all.drop_last().map_values(cut);
        assert forall|i: int| 0 <= i < all.len() - 1 implies #[trigger] text::lines_of(made)[i]
            == text::without_cr(all[i]) by {
            assert(ended[i] == text::without_cr(all[i]));
        }
    } else {
        assert(made == whole.push('\n'));
        assert(made.drop_last() == whole);
        assert(parts == all.push(Seq::empty()));
        assert(parts.drop_last() == all);
        assert(text::lines_of(made) == all.map_values(cut));
    }
}

/// The place that a replacement of the lines from `start` goes to, in a
/// document of `n` lines: how many lines stand above it.
pub open spec fn place(start: int, n: int) -> int {
    if start <= n {
        start - 1
    } else {
        n
    }
}

/// How many of the lines from `start` to `end` a document of `n` lines has.
pub open spec fn lines_hit(start: int, end: int, n: int) -> int {
    if start <= n {
        source::clip(end, n) + 1 - start
    } else {
        0
    }
}

/// Lines that are written are read back, line by line: each is what was
/// written, without the carriage return that ends it, but for one that ends the
/// document. Lines that the document does not have are written at its end.
pub proof fn law_written_lines_read_back(
    src: Seq<char>,
    start: int,
    end: int,
    replacement: Seq<char>,
    k: int,
)
    requires
        1 <= start <= end,
        0 <= k < text::pieces(replacement, '\n').len(),
    ensures
        ({
            let all = text::lines_of(src);
            let edited = source::document(
                source::lines_replaced(all, start, end, replacement),
                src,
            );
            let piece = text::pieces(replacement, '\n')[k];
            let line = source::line_at(edited, place(start, all.len() as int) + 1 + k);
            ||| line == text::without_cr(piece)
            ||| line == piece && k == text::pieces(replacement, '\n').len() - 1 && all.len()
                <= end && !text::ends(src, '\n')
        }),
{
    let all = text::lines_of(src);
    let n = all.len() as int;
    let parts = text::pieces(replacement, '\n');
    let more = source::lines_replaced(all, start, end, replacement);
    let at = place(start, n);
    lemma_replaced_free(src, start, end, replacement);
    lemma_document_lines(more, src);
    assert(more[at + k] == parts[k]);
    assert(parts[k].len() == 0 ==> text::without_cr(parts[k]) == parts[k]);
    let now = text::lines_of(source::document(more, src));
    if at + k < more.len() - 1 {
        assert(now[at + k] == text::without_cr(more[at + k]));
    } else if at + k < now.len() {
        assert(now.last() == now[at + k]);
    }
}

/// What a replacement leaves holds no line feeds.
proof fn lemma_replaced_free(src: Seq<char>, start: int, end: int, replacement: Seq<char>)
    requires
        1 <= start <= end,
    ensures
        ({
            let all = text::lines_of(src);
            let n = all.len() as int;
            let more = source::lines_replaced(all, start, end, replacement);
            let parts = text::pieces(replacement, '\n');
            &&& parts.len() > 0
            &&& text::all_free_of(more, '\n')
            &&& more == all.take(place(start, n)) + parts + all.skip(
                place(start, n) + lines_hit(start, end, n),
            )
        }),
{
    let all = text::lines_of(src);
    let n = all.len() as int;
    let more = source::lines_replaced(all, start, end, replacement);
    let parts = text::pieces(replacement, '\n');
    let at = place(start, n);
    text::lemma_lines_fit(src);
    text::lemma_pieces_free(replacement, '\n');
    text::lemma_pieces_count(replacement, '\n');
    assert(more == all.take(at) + parts + all.skip(at + lines_hit(start, end, n)));
    assert forall|i: int| 0 <= i < more.len() implies text::free_of(#[trigger] more[i], '\n') by {
        if i < at {
            assert(more[i] == all[i]);
        } else if i < at + parts.len() {
            assert(more[i] == parts[i - at]);
        } else {
            assert(more[i] == all[i - parts.len() + lines_hit(start, end, n)]);
        }
    }
}

/// A text that is written over lines is the text of the lines it is then on, if
/// none of its lines ends in a carriage return, and it does not end the document
/// with an empty line of several.
pub proof fn law_written_text_read_back(
    src: Seq<char>,
    start: int,
    end: int,
    replacement: Seq<char>,
)
    requires
        1 <= start <= end,
        forall|i: int|
            0 <= i < text::pieces(replacement, '\n').len() ==> !text::ends(
                #[trigger] text::pieces(replacement, '\n')[i],
                '\r',
            ),
        text::lines_of(src).len() <= end ==> !text::ends(replacement, '\n'),
    ensures
        ({
            let all = text::lines_of(src);
            let edited = source::document(
                source::lines_replaced(all, start, end, replacement),
                src,
            );
            let at = place(start, all.len() as int);
            text::joined(
                source::span(
                    text::lines_of(edited),
                    at + 1,
                    at + text::pieces(replacement, '\n').len(),
                ),
                source::newline(),
            ) == replacement
        }),
{
    let all = text::lines_of(src);
    let n = all.len() as int;
    let parts = text::pieces(replacement, '\n');
    let more = source::lines_replaced(all, start, end, replacement);
    let now = text::lines_of(source::document(more, src));
    let at = place(start, n);
    let m = parts.len() as int;
    lemma_replaced_free(src, start, end, replacement);
    lemma_document_lines(more, src);
    text::law_pieces_join(replacement, '\n');
    let part = source::span(now, at + 1, at + m);
    assert forall|k: int| 0 <= k < m && at + k < now.len() implies #[trigger] now[at + k]
        == parts[k] by {
        assert(more[at + k] == parts[k]);
        if at + k == more.len() - 1 {
            assert(now.last() == now[at + k]);
        }
    }
    if at + m <= now.len() {
        assert(part == parts);
    } else {
        // The last line is empty, and lost.
        assert(more.last() == parts.last());
        assert(n <= end);
        lemma_pieces_last(replacement);
        assert(m == 1);
        assert(part.len() == 0);
        assert(parts == seq![Seq::<char>::empty()]);
    }
}

/// A text of several lines whose last is empty ends in a line feed.
proof fn lemma_pieces_last(s: Seq<char>)
    ensures
        text::pieces(s, '\n').last().len() == 0 && text::pieces(s, '\n').len() > 1 ==> text::ends(
            s,
            '\n',
        ),
{
    if s.len() > 0 && s.last() != '\n' {
        text::lemma_pieces_count(s.drop_last(), '\n');
    }
}

/// Replacing lines leaves those above alone, puts the replacement in their
/// place, and moves those below by as many as there are now more or fewer, in
/// a document that is read back. Lines that the document does not have are
/// written at its end.
pub proof fn law_replace_shifts_lines_below(
    src: Seq<char>,
    start: int,
    end: int,
    replacement: Seq<char>,
)
    requires
        1 <= start <= end,
        source::reads_back(
            source::lines_replaced(text::lines_of(src), start, end, replacement),
            src,
        ),
    ensures
        ({
            let n = text::lines_of(src).len() as int;
            let all = source::lines_replaced(text::lines_of(src), start, end, replacement);
            let edited = source::document(all, src);
            let added = text::pieces(replacement, '\n').len();
            let removed = lines_hit(start, end, n);
            &&& text::lines_of(edited).len() == n + added - removed
            &&& forall|k: int|
                k <= place(start, n) ==> #[trigger] source::line_at(edited, k) == source::line_at(
                    src,
                    k,
                )
            &&& forall|k: int|
                0 <= k < added ==> source::line_at(edited, place(start, n) + 1 + k)
                    == #[trigger] text::pieces(replacement, '\n')[k]
            &&& forall|k: int|
                end < k ==> #[trigger] source::line_at(src, k) == source::line_at(
                    edited,
                    k + added - removed,
                )
        }),
{
    text::lemma_pieces_count(replacement, '\n');
    lemma_replaced_free(src, start, end, replacement);
    law_document_read_back(
        source::lines_replaced(text::lines_of(src), start, end, replacement),
        src,
    );
}

/// A tidy document is made of the lines it has.
pub proof fn lemma_document_is(src: Seq<char>)
    requires
        source::is_tidy(src),
    ensures
        source::document(text::lines_of(src), src) == src,
{
    let parts = text::pieces(src, '\n');
    let all = text::lines_of(src);
    let cut = |line: Seq<char>| text::without_cr(line);
    text::law_pieces_join(src, '\n');
    text::lemma_pieces_count(src, '\n');
    text::lemma_plain_ends(src);
    text::lemma_lines_fit(src);
    assert(parts.drop_last().map_values(cut) == parts.drop_last());
    if parts.last().len() == 0 {
        assert(all == parts.drop_last());
        let front = text::joined(all, source::newline());
        if all.len() > 0 {
            assert(src == front + source::newline() + Seq::<char>::empty());
            assert(src == front.push('\n'));
            lemma_joined_ends(all);
            if all.len() > 1 && all.last().len() == 0 {
                assert(src[src.len() - 2] == front.last());
            }
            assert(source::document(all, src) == src);
        }
    } else {
        assert(all == parts);
        lemma_joined_ends(all);
    }
}

/// Writing a range of lines back as it is changes nothing, in a tidy document.
pub proof fn law_replace_with_own_text(src: Seq<char>, start: int, end: int)
    requires
        1 <= start <= end <= text::lines_of(src).len(),
        source::is_tidy(src),
    ensures
        ({
            let own = text::joined(
                source::span(text::lines_of(src), start, end),
                source::newline(),
            );
            source::document(source::lines_replaced(text::lines_of(src), start, end, own), src)
                == src
        }),
{
    let all = text::lines_of(src);
    let part = source::span(all, start, end);
    let own = text::joined(part, source::newline());
    lemma_document_is(src);
    text::lemma_lines_fit(src);
    assert forall|i: int| 0 <= i < part.len() implies text::free_of(#[trigger] part[i], '\n') by {
        assert(part[i] == all[start - 1 + i]);
    }
    text::law_joined_splits(part, '\n');
    assert(source::lines_replaced(all, start, end, own) == all);
}

/// A line that is put in and taken out again leaves a tidy document as it was.
pub proof fn law_insert_then_remove(src: Seq<char>, n: int, line: Seq<char>)
    requires
        1 <= n <= text::lines_of(src).len(),
        source::is_tidy(src),
        text::free_of(line, '\n'),
    ensures
        ({
            let longer = source::document(
                source::line_inserted(text::lines_of(src), n, line),
                src,
            );
            source::document(source::lines_removed(text::lines_of(longer), n, n), longer) == src
        }),
{
    let all = text::lines_of(src);
    let more = source::line_inserted(all, n, line);
    let longer = source::document(more, src);
    lemma_document_is(src);
    lemma_tidy_reads_back(src);
    text::lemma_lines_fit(src);
    assert forall|i: int| 0 <= i < more.len() implies text::free_of(#[trigger] more[i], '\n') by {
        if i < n - 1 {
            assert(more[i] == all[i]);
        } else if i > n - 1 {
            assert(more[i] == all[i - 1]);
        }
    }
    assert(more.last() == all.last());
    law_trailing_newline_kept(more, src);
    lemma_document_lines(more, src);
    let now = text::lines_of(longer);
    if all.last().len() > 0 {
        let less = source::lines_removed(now, n, n);
        assert(less.len() == all.len());
        assert forall|i: int| 0 <= i < all.len() implies #[trigger] less[i] == all[i] by {
            if i < n - 1 {
                assert(less[i] == now[i]);
                assert(more[i] == all[i]);
            } else {
                assert(less[i] == now[i + 1]);
                assert(more[i + 1] == all[i]);
                if i == all.len() - 1 {
                    assert(now.last() == now[i + 1]);
                }
            }
        }
        assert(less == all);
    } else {
        // The document is a single line feed.
        assert(all.len() == 1);
        assert(source::lines_removed(now, 1, 1).len() == 0);
        assert(source::document(Seq::empty(), longer) == source::newline());
        assert(source::document(all, src) == source::newline());
    }
}

/// Putting in a line leaves the lines above alone, and moves the line it is put
/// before and those below it by one, in a document that is read back; a line
/// that is put before none is put at the end.
pub proof fn law_insert_shifts_lines_below(src: Seq<char>, n: int, line: Seq<char>)
    requires
        1 <= n,
        source::reads_back(source::line_inserted(text::lines_of(src), n, line), src),
    ensures
        ({
            let count = text::lines_of(src).len() as int;
            let edited = source::document(
                source::line_inserted(text::lines_of(src), n, line),
                src,
            );
            let at = if n <= count {
                n
            } else {
                count + 1
            };
            &&& text::lines_of(edited).len() == count + 1
            &&& source::line_at(edited, at) == line
            &&& forall|k: int|
                k < at ==> #[trigger] source::line_at(edited, k) == source::line_at(src, k)
            &&& forall|k: int|
                at <= k ==> #[trigger] source::line_at(src, k) == source::line_at(edited, k + 1)
        }),
{
    law_document_read_back(source::line_inserted(text::lines_of(src), n, line), src);
}

/// A block that is put in past the end comes after all that is there, with an
/// empty line between, unless the document is empty or ends in a blank line.
pub proof fn law_block_past_the_end(src: Seq<char>, n: int, text: Seq<char>)
    requires
        text::lines_of(src).len() < n,
        source::reads_back(source::block_inserted(text::lines_of(src), n, text), src),
    ensures
        ({
            let count = text::lines_of(src).len() as int;
            let apart = count > 0 && !text::is_blank(source::line_at(src, count));
            let first = if apart {
                count + 2
            } else {
                count + 1
            };
            let edited = source::document(
                source::block_inserted(text::lines_of(src), n, text),
                src,
            );
            let parts = text::pieces(text, '\n');
            &&& text::lines_of(edited).len() == first - 1 + parts.len()
            &&& forall|k: int|
                k <= count ==> #[trigger] source::line_at(edited, k) == source::line_at(src, k)
            &&& apart ==> source::line_at(edited, count + 1).len() == 0
            &&& forall|k: int|
                0 <= k < parts.len() ==> source::line_at(edited, first + k) == #[trigger] parts[k]
        }),
{
    text::lemma_pieces_count(text, '\n');
    law_document_read_back(source::block_inserted(text::lines_of(src), n, text), src);
}

/// The lines of a tidy document are read back from it.
pub proof fn lemma_tidy_reads_back(src: Seq<char>)
    requires
        source::is_tidy(src),
    ensures
        source::reads_back(text::lines_of(src), src),
{
    lemma_document_is(src);
    law_document_read_back(text::lines_of(src), src);
}

/// Putting in a block before a line leaves the lines above alone, and moves
/// that line and those below it by as many as the block has, and one more for
/// the blank line after it, in a document that is read back.
pub proof fn law_insert_block_shifts_lines_below(src: Seq<char>, n: int, text: Seq<char>)
    requires
        1 <= n <= text::lines_of(src).len(),
        source::reads_back(source::block_inserted(text::lines_of(src), n, text), src),
    ensures
        ({
            let edited = source::document(
                source::block_inserted(text::lines_of(src), n, text),
                src,
            );
            let added = text::pieces(text, '\n').len();
            &&& text::lines_of(edited).len() == text::lines_of(src).len() + added + 1
            &&& forall|k: int|
                k < n ==> #[trigger] source::line_at(edited, k) == source::line_at(src, k)
            &&& forall|k: int|
                0 <= k < added ==> source::line_at(edited, n + k) == #[trigger] text::pieces(
                    text,
                    '\n',
                )[k]
            &&& source::line_at(edited, n + added).len() == 0
            &&& forall|k: int|
                n <= k ==> #[trigger] source::line_at(src, k) == source::line_at(
                    edited,
                    k + added + 1,
                )
        }),
{
    text::lemma_pieces_count(text, '\n');
    law_document_read_back(source::block_inserted(text::lines_of(src), n, text), src);
}

/// Taking lines out leaves those above alone, and moves those below up by as
/// many as there were, in a document that is read back.
pub proof fn law_remove_shifts_lines_below(src: Seq<char>, start: int, end: int)
    requires
        1 <= start <= end <= text::lines_of(src).len(),
        source::reads_back(source::lines_removed(text::lines_of(src), start, end), src),
    ensures
        ({
            let edited = source::document(
                source::lines_removed(text::lines_of(src), start, end),
                src,
            );
            let removed = end + 1 - start;
            &&& text::lines_of(edited).len() == text::lines_of(src).len() - removed
            &&& forall|k: int|
                k < start ==> #[trigger] source::line_at(edited, k) == source::line_at(src, k)
            &&& forall|k: int|
                end < k ==> #[trigger] source::line_at(src, k) == source::line_at(
                    edited,
                    k - removed,
                )
        }),
{
    law_document_read_back(source::lines_removed(text::lines_of(src), start, end), src);
}

// ---------------------------------------------------------------------
// What a block is re-cast as
// ---------------------------------------------------------------------

/// A block re-cast as a heading is read as a heading of that level, and says
/// what it said, on one line.
pub proof fn law_heading_read_back(text: Seq<char>, level: usize)
    requires
        1 <= level <= 6,
    ensures
        source::is_heading(source::headed(text, Some(level)), level as int),
        source::heading_title(source::headed(text, Some(level))) == text::trimmed(
            text::folded(text),
        ),
{
    let line = source::headed(text, Some(level));
    let t = text::trimmed(text::folded(text));
    let rest = line.skip(level as int);
    assert(source::is_heading(line, level as int));
    source::lemma_heading_title(line, level as int);
    text::lemma_trimmed(text::folded(text));
    assert(rest == seq![' '] + t);
    lemma_after_space(t);
}

proof fn lemma_after_space(t: Seq<char>)
    requires
        t.len() > 0 ==> !text::is_space(t[0]),
    ensures
        text::trimmed_start(seq![' '] + t) == t,
{
    let s = seq![' '] + t;
    assert(s.take(1) == seq![' ']);
    assert(text::is_blank(s.take(1)));
    text::lemma_spaces_before_is(s, 1);
    assert(s.skip(1) == t);
}

/// A title that is written is read as a title that says what it said, on one
/// line, if that is something that does not start with a dot.
pub proof fn law_title_read_back(text: Seq<char>)
    ensures
        text::begins(source::title_of(text), '.'),
        source::title_of(text).skip(1) == text::trimmed(text::folded(text)),
        source::is_title(source::title_of(text)) <==> {
            let t = text::trimmed(text::folded(text));
            t.len() > 0 && t[0] != '.'
        },
{
    let t = text::trimmed(text::folded(text));
    let line = source::title_of(text);
    text::lemma_trimmed(text::folded(text));
    assert(line.skip(1) == t);
    if t.len() > 0 && t[0] != '.' {
        assert(!text::is_space(line[0]));
        assert(text::spaces_before(line) == 0);
        assert(text::trimmed_start(line) == line);
        assert(line[1] == t[0]);
        assert forall|n: int| !source::is_marker(line, n) by {
            if source::is_marker(line, n) {
                if n > 1 {
                    assert(line[1] == line[0]);
                }
            }
        }
    }
}

/// An item with its marker swapped is an item at the same depth that says the
/// same.
pub proof fn law_item_recast(line: Seq<char>, c: char)
    requires
        source::marker_of(line) is Some,
        source::is_marker_char(c),
    ensures
        source::marker_of(source::item_recast(line, c)) == Some(
            text::repeated(c, source::marker_of(line)->0.len()),
        ),
        source::item_text(source::item_recast(line, c)) == source::item_text(line),
{
    let t = text::trimmed_start(line);
    let n = choose|n: int| source::is_marker(t, n);
    source::lemma_marker_of(line, n);
    let marker = source::marker_of(line)->0;
    assert(marker.len() == n);
    let words = source::item_text(line);
    text::lemma_trimmed(t.skip(n));
    let made = source::item_recast(line, c);
    assert(made == text::repeated(c, n as nat) + seq![' '] + words);
    assert(!text::is_space(made[0]));
    assert(text::spaces_before(made) == 0);
    assert(text::trimmed_start(made) == made);
    let rest = made.skip(n);
    assert(rest == seq![' '] + words);
    assert(!text::is_blank(rest)) by {
        assert(rest[1] == words[0]);
    }
    assert(source::is_marker(made, n));
    source::lemma_marker_of(made, n);
    assert(made.take(n) == text::repeated(c, n as nat));
    text::lemma_trimmed_padded(seq![' '], words, Seq::empty());
    assert(rest == seq![' '] + words + Seq::<char>::empty());
}

/// A list with its markers swapped is a list of as many lines, each of which
/// says what it said at the depth it had, unless its last line is blank.
pub proof fn law_list_recast(text: Seq<char>, c: char)
    requires
        source::is_list_text(text),
        !text::is_blank(text::lines_of(text).last()),
        c != '\n',
    ensures
        text::lines_of(source::listed(text, Some(c))) == text::lines_of(text).map_values(
            |line: Seq<char>| source::item_recast(line, c),
        ),
{
    let all = text::lines_of(text);
    let made = all.map_values(|line: Seq<char>| source::item_recast(line, c));
    text::lemma_lines_fit(text);
    assert forall|i: int| 0 <= i < made.len() implies text::is_line(#[trigger] made[i]) by {
        assert(text::free_of(all[i], '\n'));
        lemma_recast_is_line(all[i], c);
    }
    lemma_recast_is_line(all.last(), c);
    text::law_lines_read_back(made);
}

proof fn lemma_recast_is_line(line: Seq<char>, c: char)
    requires
        text::free_of(line, '\n'),
        c != '\n',
    ensures
        text::is_line(source::item_recast(line, c)),
        !text::is_blank(line) ==> source::item_recast(line, c).len() > 0,
{
    let t = text::trimmed_start(line);
    let made = source::item_recast(line, c);
    assert(text::free_of(t, '\n')) by {
        text::lemma_spaces_before(line);
    }
    match source::marker_of(line) {
        Some(marker) => {
            let n = choose|n: int| source::is_marker(t, n);
            source::lemma_marker_of(line, n);
            let rest = t.skip(n);
            text::lemma_trimmed(rest);
            assert(text::free_of(rest, '\n'));
            assert(text::free_of(source::item_text(line), '\n'));
            assert(made.last() == source::item_text(line).last());
        },
        None => {
            text::lemma_trimmed(line);
        },
    }
}

/// A line made of white space, a run of one marker character, a space, and
/// words with white space around them is an item: its marker is that run, and
/// it says those words.
pub proof fn law_item_read(
    indent: Seq<char>,
    c: char,
    depth: nat,
    gap: Seq<char>,
    words: Seq<char>,
    tail: Seq<char>,
)
    requires
        c == '*' || c == '-' || c == '.',
        depth > 0,
        text::is_blank(indent),
        text::is_blank(gap),
        text::is_blank(tail),
        words.len() > 0,
        !text::is_space(words[0]),
        !text::is_space(words.last()),
    ensures
        ({
            let line = indent + text::repeated(c, depth) + seq![' '] + gap + words + tail;
            &&& source::marker_of(line) == Some(text::repeated(c, depth))
            &&& source::item_text(line) == words
        }),
{
    let line = indent + text::repeated(c, depth) + seq![' '] + gap + words + tail;
    let n = depth as int;
    let k = indent.len() as int;
    assert(line.take(k) == indent);
    assert(line[k] == c);
    text::lemma_spaces_before_is(line, k);
    let t = text::trimmed_start(line);
    assert(t == line.skip(k));
    let rest = t.skip(n);
    assert(rest == (seq![' '] + gap) + words + tail);
    assert(rest[gap.len() as int + 1] == words[0]);
    assert(!text::is_blank(rest));
    assert(source::is_marker(t, n));
    source::lemma_marker_of(line, n);
    assert(t.take(n) == text::repeated(c, depth));
    assert(text::is_blank(seq![' '] + gap)) by {
        let blank = seq![' '] + gap;
        assert forall|i: int| 0 <= i < blank.len() implies text::is_space(#[trigger] blank[i]) by {
            if i > 0 {
                assert(blank[i] == gap[i - 1]);
            }
        }
    }
    text::lemma_trimmed_padded(seq![' '] + gap, words, tail);
}

/// What is read as the marker of an item is a run of one of the three marker
/// characters, with a space and something else after it. A line without one
/// says itself, without the white space around it.
pub proof fn law_marker_is_a_run(line: Seq<char>)
    ensures
        ({
            let t = text::trimmed_start(line);
            match source::marker_of(line) {
                Some(marker) => {
                    let n = marker.len() as int;
                    &&& 0 < n < t.len()
                    &&& t.take(n) == marker
                    &&& marker[0] == '*' || marker[0] == '-' || marker[0] == '.'
                    &&& forall|i: int| 0 <= i < n ==> #[trigger] marker[i] == marker[0]
                    &&& t[n] == ' '
                    &&& !text::is_blank(t.skip(n))
                },
                None => source::item_text(line) == text::trimmed(line),
            }
        }),
{
    source::lemma_marker_size(line);
    if let Some(marker) = source::marker_of(line) {
        let t = text::trimmed_start(line);
        assert forall|i: int| 0 <= i < marker.len() implies #[trigger] marker[i] == marker[0] by {
            assert(marker[i] == t[i]);
        }
    }
}

/// Lines with an empty one between each and the next.
spec fn spaced(parts: Seq<Seq<char>>) -> Seq<Seq<char>> {
    Seq::new(
        (2 * parts.len() - 1) as nat,
        |i: int|
            if i % 2 == 0 {
                parts[i / 2]
            } else {
                Seq::empty()
            },
    )
}

proof fn lemma_spaced(parts: Seq<Seq<char>>)
    requires
        parts.len() > 0,
    ensures
        text::joined(parts, seq!['\n', '\n']) == text::joined(spaced(parts), source::newline()),
    decreases parts.len(),
{
    let all = spaced(parts);
    if parts.len() == 1 {
        assert(all == seq![parts[0]]);
    } else {
        let less = parts.drop_last();
        lemma_spaced(less);
        let n = all.len() as int;
        assert(all.drop_last().drop_last() == spaced(less));
        assert(all.last() == parts.last());
        assert(all.drop_last().last() == Seq::<char>::empty());
        let front = text::joined(spaced(less), source::newline());
        assert(text::joined(all.drop_last(), source::newline()) == front + source::newline()
            + Seq::<char>::empty());
        assert(text::joined(all, source::newline()) == text::joined(
            all.drop_last(),
            source::newline(),
        ) + source::newline() + parts.last());
        assert(text::joined(all, source::newline()) == front + seq!['\n', '\n']
            + parts.last());
    }
}

/// A list that is turned into body text gives each of its lines a paragraph of
/// its own: what the lines say, without their markers, with one empty line
/// between each and the next, unless the last line is blank.
pub proof fn law_list_becomes_paragraphs(text: Seq<char>, i: int)
    requires
        exists|k: int|
            0 <= k < text::lines_of(text).len() && source::marker_of(
                #[trigger] text::lines_of(text)[k],
            ) is Some,
        !text::is_blank(text::lines_of(text).last()),
        0 <= i < text::lines_of(text).len(),
    ensures
        ({
            let all = text::lines_of(text);
            let made = text::lines_of(source::listed(text, None));
            &&& made.len() == 2 * all.len() - 1
            &&& made[2 * i] == source::item_text(all[i])
            &&& i + 1 < all.len() ==> made[2 * i + 1].len() == 0
        }),
{
    let all = text::lines_of(text);
    let parts = all.map_values(|line: Seq<char>| source::item_text(line));
    let lines = spaced(parts);
    assert(source::is_list_text(text));
    lemma_spaced(parts);
    text::lemma_lines_fit(text);
    assert forall|k: int| 0 <= k < lines.len() implies text::is_line(#[trigger] lines[k]) by {
        if k % 2 == 0 {
            assert(text::free_of(all[k / 2], '\n'));
            lemma_item_is_line(all[k / 2]);
        }
    }
    lemma_item_is_line(all.last());
    let n = lines.len() as int;
    assert((n - 1) % 2 == 0 && (n - 1) / 2 == all.len() - 1);
    assert(lines.last() == parts.last());
    assert(parts.last() == source::item_text(all.last()));
    text::law_lines_read_back(lines);
    assert((2 * i) % 2 == 0 && (2 * i) / 2 == i);
    assert((2 * i + 1) % 2 == 1);
    assert(lines[2 * i] == parts[i]);
}

proof fn lemma_item_is_line(line: Seq<char>)
    requires
        text::free_of(line, '\n'),
    ensures
        text::is_line(source::item_text(line)),
        !text::is_blank(line) ==> source::item_text(line).len() > 0,
{
    let t = text::trimmed_start(line);
    text::lemma_spaces_before(line);
    assert(text::free_of(t, '\n'));
    match source::marker_of(line) {
        Some(marker) => {
            source::lemma_marker_size(line);
            let rest = t.skip(marker.len() as int);
            text::lemma_trimmed(rest);
            assert(text::free_of(rest, '\n'));
        },
        None => {
            text::lemma_trimmed(line);
        },
    }
}

/// Body text that is made a list is one item that says all of it, on one line;
/// body text that is made body text stays as it is.
pub proof fn law_paragraph_becomes_an_item(text: Seq<char>, c: char)
    requires
        c == '*' || c == '-' || c == '.',
        forall|k: int|
            0 <= k < text::lines_of(text).len() ==> source::marker_of(
                #[trigger] text::lines_of(text)[k],
            ) is None,
        !text::is_blank(text),
    ensures
        source::listed(text, None) == text,
        source::marker_of(source::listed(text, Some(c))) == Some(seq![c]),
        source::item_text(source::listed(text, Some(c))) == text::trimmed(text::folded(text)),
        text::free_of(source::listed(text, Some(c)), '\n'),
{
    let flat = text::folded(text);
    let words = text::trimmed(flat);
    let none = Seq::<char>::empty();
    assert(!source::is_list_text(text));
    assert(!text::is_blank(flat)) by {
        let k = choose|k: int| 0 <= k < text.len() && !text::is_space(#[trigger] text[k]);
        assert(flat[k] == text[k]);
    }
    text::lemma_trimmed(flat);
    law_item_read(none, c, 1, none, words, none);
    let made = source::listed(text, Some(c));
    assert(text::repeated(c, 1) == seq![c]);
    assert(made == none + text::repeated(c, 1) + seq![' '] + none + words + none);
    assert forall|i: int| 0 <= i < made.len() implies #[trigger] made[i] != '\n' by {
        if i >= 2 {
            assert(made[i] == words[i - 2]);
            assert(words[i - 2] == flat[text::spaces_before(flat) + (i - 2)]);
        }
    }
}

/// A line of a list that is no item keeps what it says when the markers are
/// swapped.
pub proof fn law_other_lines_keep_their_words(line: Seq<char>, c: char)
    requires
        source::marker_of(line) is None,
    ensures
        source::item_recast(line, c) == text::trimmed(line),
{
}

/// A heading is one to six equals signs and a space; seven are none, nor is a
/// run with anything else after it.
pub proof fn law_heading_is_a_run(line: Seq<char>, n: int)
    ensures
        source::is_heading(line, n) <==> {
            &&& 1 <= n <= 6
            &&& n < line.len()
            &&& line.take(n) == text::repeated('=', n as nat)
            &&& line[n] == ' '
        },
        text::repeated('=', 7).is_prefix_of(line) ==> !source::is_heading(line, n),
{
    if 1 <= n <= 6 && n < line.len() {
        if source::is_heading(line, n) {
            assert(line.take(n) == text::repeated('=', n as nat));
        }
        if line.take(n) == text::repeated('=', n as nat) {
            assert forall|i: int| 0 <= i < n implies #[trigger] line[i] == '=' by {
                assert(line.take(n)[i] == line[i]);
            }
        }
    }
    if text::repeated('=', 7).is_prefix_of(line) && source::is_heading(line, n) {
        assert(line.subrange(0, 7)[n] == '=');
        assert(line[n] == '=');
    }
}

/// A heading says what comes after its equals signs and the white space after
/// them; body text is left as it is.
pub proof fn law_heading_says(level: nat, gap: Seq<char>, words: Seq<char>, body: Seq<char>)
    requires
        1 <= level <= 6,
        text::is_blank(gap),
        words.len() > 0 ==> !text::is_space(words[0]),
    ensures
        source::heading_title(text::repeated('=', level) + seq![' '] + gap + words) == words,
        source::headed(body, None) == body,
{
    let line = text::repeated('=', level) + seq![' '] + gap + words;
    let n = level as int;
    assert(source::is_heading(line, n));
    source::lemma_heading_title(line, n);
    let rest = line.skip(n);
    let k = gap.len() as int + 1;
    assert(rest == seq![' '] + gap + words);
    assert(rest.take(k) == seq![' '] + gap);
    assert forall|i: int| 0 <= i < k implies text::is_space(#[trigger] rest.take(k)[i]) by {
        if i > 0 {
            assert(rest.take(k)[i] == gap[i - 1]);
        }
    }
    text::lemma_spaces_before_is(rest, k);
    assert(rest.skip(k) == words);
}

/// The label of an admonition is read back from the line that it leads.
pub proof fn law_label_leads(i: int, j: int, text: Seq<char>)
    requires
        0 <= i < 5,
        source::starts_with_label(source::lead_text(i) + text, j),
    ensures
        i == j,
{
    let line = source::lead_text(i) + text;
    lemma_labels_differ(i, j, line);
    assert(source::ADMONITIONS[i]@.is_prefix_of(line)) by {
        assert(source::ADMONITIONS[i]@ =~= line.take(source::ADMONITIONS[i]@.len() as int));
    }
}

pub proof fn lemma_labels_differ(i: int, j: int, line: Seq<char>)
    requires
        0 <= i < 5,
        0 <= j < 5,
        source::ADMONITIONS[i]@.is_prefix_of(line),
        source::ADMONITIONS[j]@.is_prefix_of(line),
    ensures
        i == j,
{
    reveal_strlit("NOTE");
    reveal_strlit("TIP");
    reveal_strlit("IMPORTANT");
    reveal_strlit("WARNING");
    reveal_strlit("CAUTION");
    assert(source::ADMONITIONS[i]@[0] == line[0]);
    assert(source::ADMONITIONS[j]@[0] == line[0]);
}

// ---------------------------------------------------------------------
// Images and attributions
// ---------------------------------------------------------------------

/// What an image points at, and how it is described, are read back from the
/// block that is written for it.
pub proof fn law_image_read_back(target: Seq<char>, alt: Seq<char>)
    requires
        source::is_target(target),
        source::is_plain_value(alt),
    ensures
        source::image_in(source::image_of(target, alt)) == Some((target, alt)),
{
    let whole = source::image_of(target, alt);
    assert(whole.last() == ']');
    assert(whole.skip(whole.len() as int).len() == 0);
    text::lemma_spaces_after_is(whole, whole.len() as int);
    assert(text::trimmed_end(whole) == whole);
    source::lemma_image_in(whole, target, alt);
}

/// Whom a block is attributed to is read back from the line that is written for
/// it, without the white space around, and on one line.
pub proof fn law_attribution_read_back(i: int, author: Seq<char>)
    requires
        0 <= i < 2,
        !text::is_blank(author),
        source::is_plain_value(text::folded(author)),
    ensures
        source::attribution_in(source::attributed(source::ATTRIBUTED[i]@, author)) == Some(
            (source::ATTRIBUTED[i]@, text::trimmed(text::folded(author))),
        ),
{
    let flat = text::folded(author);
    let words = text::trimmed(flat);
    let whole = source::attributed(source::ATTRIBUTED[i]@, author);
    text::lemma_trimmed(flat);
    text::lemma_trimmed_twice(flat);
    assert(!text::is_blank(flat)) by {
        let k = choose|k: int| 0 <= k < author.len() && !text::is_space(#[trigger] author[k]);
        assert(flat[k] == author[k]);
    }
    let b = text::spaces_before(flat) as int;
    assert forall|k: int| 0 <= k < words.len() implies !source::is_list_char(
        #[trigger] words[k],
    ) by {
        assert(words[k] == flat[b + k]);
    }
    assert(whole.last() == ']');
    assert(whole.skip(whole.len() as int).len() == 0);
    text::lemma_spaces_after_is(whole, whole.len() as int);
    assert(text::trimmed_end(whole) == whole);
    source::lemma_attribution_in(whole, i, words);
}

// ---------------------------------------------------------------------
// Columns
// ---------------------------------------------------------------------

/// Widths that are written into a `cols` attribute are read back from it.
pub proof fn law_columns_read_back(line: Seq<char>, values: Seq<Seq<char>>)
    requires
        source::cols_parts(line) is Some,
        values.len() > 0,
        forall|i: int| 0 <= i < values.len() ==> source::is_number(#[trigger] values[i]),
    ensures
        source::widths_of(source::columns_set(line, values)) == Some(values),
{
    let opening = "cols=\""@;
    let closing = "\""@;
    reveal_strlit("cols=\"");
    reveal_strlit("\"");
    let p = text::place_of(line, opening)->0;
    let (before, _, after) = source::cols_parts(line)->0;
    let list = text::joined(values, seq![',']);
    let made = source::columns_set(line, values);
    assert(exists|i: int| text::first_at(line, opening, i)) by {
        if !(exists|i: int| text::first_at(line, opening, i)) {
            assert(text::place_of(line, opening) is None);
        }
    }
    assert(text::first_at(line, opening, p));
    assert(text::first_at(made, opening, p)) by {
        assert(made.subrange(p, p + opening.len()) == opening);
        assert(text::occurs_at(made, opening, p));
        assert forall|i: int| i < p implies !text::occurs_at(made, opening, i) by {
            if text::occurs_at(made, opening, i) {
                assert(made.take((p + opening.len()) as int) == line.take(
                    (p + opening.len()) as int,
                ));
                assert(line.subrange(i, i + opening.len()) == made.subrange(
                    i,
                    i + opening.len(),
                ));
                assert(text::occurs_at(line, opening, i));
            }
        }
    }
    text::lemma_place_of(made, opening, p);
    let rest = made.skip((p + opening.len()) as int);
    assert(rest == list + closing + after);
    lemma_numbers_plain(values);
    let q = list.len() as int;
    assert(text::first_at(rest, closing, q)) by {
        assert(rest.subrange(q, q + 1) == closing);
        assert forall|i: int| i < q implies !text::occurs_at(rest, closing, i) by {
            if text::occurs_at(rest, closing, i) {
                assert(rest.subrange(i, i + 1)[0] == '"');
                assert(list[i] == '"');
            }
        }
    }
    text::lemma_place_of(rest, closing, q);
    assert(rest.take(q) == list);
    text::law_joined_splits(values, ',');
    let read = text::pieces(list, ',').map_values(|v: Seq<char>| text::trimmed(v));
    assert forall|i: int| 0 <= i < values.len() implies #[trigger] read[i] == values[i] by {
        assert(source::is_number(values[i]));
        text::lemma_trimmed_keeps(values[i]);
    }
    assert(read == values);
}

/// Numbers, and the commas between them, hold digits and commas alone.
pub proof fn lemma_numbers_free(values: Seq<Seq<char>>, c: char)
    requires
        forall|i: int| 0 <= i < values.len() ==> source::is_number(#[trigger] values[i]),
        !('0' <= c && c <= '9'),
        c != ',',
    ensures
        text::free_of(text::joined(values, seq![',']), c),
    decreases values.len(),
{
    if values.len() > 0 {
        let front = values.drop_last();
        assert forall|i: int| 0 <= i < front.len() implies source::is_number(
            #[trigger] front[i],
        ) by {
            assert(front[i] == values[i]);
        }
        lemma_numbers_free(front, c);
        assert(source::is_number(values.last()));
        let all = text::joined(values, seq![',']);
        if values.len() == 1 {
            assert(all == values[0]);
        } else {
            assert(all == text::joined(front, seq![',']) + seq![','] + values.last());
        }
    }
}

/// Numbers, and the commas between them, hold no quotes, and the numbers no
/// commas.
proof fn lemma_numbers_plain(values: Seq<Seq<char>>)
    requires
        forall|i: int| 0 <= i < values.len() ==> source::is_number(#[trigger] values[i]),
    ensures
        text::free_of(text::joined(values, seq![',']), '"'),
        text::all_free_of(values, ','),
    decreases values.len(),
{
    if values.len() > 0 {
        let front = values.drop_last();
        assert forall|i: int| 0 <= i < front.len() implies source::is_number(
            #[trigger] front[i],
        ) by {
            assert(front[i] == values[i]);
        }
        lemma_numbers_plain(front);
        assert(source::is_number(values.last()));
        assert forall|i: int| 0 <= i < values.len() implies text::free_of(
            #[trigger] values[i],
            ',',
        ) by {
            assert(source::is_number(values[i]));
        }
        let all = text::joined(values, seq![',']);
        if values.len() == 1 {
            assert(all == values[0]);
        } else {
            assert(all == text::joined(front, seq![',']) + seq![','] + values.last());
        }
    }
}

// ---------------------------------------------------------------------
// What lines are, and where blocks are
// ---------------------------------------------------------------------

/// A line is a block title if it starts with a dot and goes on with anything
/// but another dot, or a space and words.
pub proof fn law_title_lines(line: Seq<char>)
    ensures
        source::is_title(line) <==> line.len() > 1 && line[0] == '.' && line[1] != '.' && (line[1]
            != ' ' || text::is_blank(line.skip(1))),
{
    if line.len() > 1 && line[0] == '.' && line[1] != '.' {
        assert(line.take(0).len() == 0);
        text::lemma_spaces_before_is(line, 0);
        assert(line.skip(0) == line);
        if line[1] == ' ' && !text::is_blank(line.skip(1)) {
            assert(source::is_marker(line, 1));
            source::lemma_marker_of(line, 1);
        } else {
            assert forall|n: int| !source::is_marker(line, n) by {
                if source::is_marker(line, n) {
                    if n > 1 {
                        assert(line[1] == line[0]);
                    }
                }
            }
            assert(source::marker_of(line) is None);
        }
    }
}

/// A line is an attribute list if it starts with a bracket and ends with one,
/// whatever is in between and however much white space follows.
pub proof fn law_attribute_lists(inner: Seq<char>, c: char, after: Seq<char>)
    requires
        text::is_blank(after),
        !text::is_space(c),
    ensures
        source::is_attribute_list(seq!['['] + inner + seq![c] + after) <==> c == ']',
        source::is_attribute_list(inner + seq![c] + after) ==> c == ']' && (inner + seq![c])[0]
            == '[',
        source::is_attribute_list(seq!['['] + inner + seq![']'] + after) ==> source::attached(
            seq!['['] + inner + seq![']'] + after,
        ),
{
    let line = seq!['['] + inner + seq![c] + after;
    let n = (inner.len() + 2) as int;
    assert(line.skip(n) == after);
    assert(line[n - 1] == c);
    text::lemma_spaces_after_is(line, n);
    assert(text::trimmed_end(line).last() == c);
    let other = inner + seq![c] + after;
    let m = (inner.len() + 1) as int;
    assert(other.skip(m) == after);
    assert(other[m - 1] == c);
    text::lemma_spaces_after_is(other, m);
    assert(text::trimmed_end(other).last() == c);
    assert(other[0] == (inner + seq![c])[0]);
}

/// A line opens or closes a table if all it says is a bar and three equals
/// signs, whatever white space is around that.
pub proof fn law_table_delimiters(before: Seq<char>, words: Seq<char>, after: Seq<char>)
    requires
        text::is_blank(before),
        text::is_blank(after),
        words.len() > 0 ==> !text::is_space(words[0]) && !text::is_space(words.last()),
    ensures
        source::is_delimiter(before + words + after) <==> words == seq!['|', '=', '=', '='],
{
    reveal_strlit("|===");
    assert("|==="@ == seq!['|', '=', '=', '=']);
    text::lemma_trimmed_padded(before, words, after);
}

/// The content of a block starts at the first line that is neither a title nor
/// an attribute list, and goes on to the line before the next blank one, or to
/// the end of the document.
pub proof fn law_block_runs_to_a_blank_line(src: Seq<char>, start: int, r: source::LineRange, k: int)
    requires
        1 <= start,
        source::is_paragraph(src, start, r),
    ensures
        ({
            let all = text::lines_of(src);
            &&& start <= r.start <= r.end
            &&& start <= k < r.start ==> k <= all.len() && (source::is_title(all[k - 1])
                || source::is_attribute_list(all[k - 1]))
            &&& r.start <= all.len() ==> !source::is_title(all[r.start - 1])
                && !source::is_attribute_list(all[r.start - 1])
            &&& r.start < k <= r.end ==> k <= all.len() && !text::is_blank(all[k - 1])
            &&& r.end < all.len() ==> text::is_blank(all[r.end as int])
        }),
        source::line_at(src, k) == (if 1 <= k <= text::lines_of(src).len() {
            text::lines_of(src)[k - 1]
        } else {
            Seq::empty()
        }),
{
    let all = text::lines_of(src);
    if start <= k < r.start {
        assert(source::attached(source::line_at(src, k)));
    }
    if r.start < k <= r.end {
        assert(!text::is_blank(source::line_at(src, k)));
    }
    if r.end < all.len() {
        assert(source::line_at(src, r.end + 1) == all[r.end as int]);
    }
}

/// A table lies between its delimiters: the first line that is neither a title
/// nor an attribute list opens it, and the next delimiter closes it.
pub proof fn law_table_runs_to_its_delimiter(src: Seq<char>, start: int, o: int, c: int, k: int)
    requires
        1 <= start,
        source::is_table(src, start, o, c),
    ensures
        ({
            let all = text::lines_of(src);
            &&& start <= o < c <= all.len()
            &&& start <= k < o ==> source::is_title(all[k - 1]) || source::is_attribute_list(
                all[k - 1],
            )
            &&& text::trimmed(all[o - 1]) == seq!['|', '=', '=', '=']
            &&& o < k < c ==> text::trimmed(all[k - 1]) != seq!['|', '=', '=', '=']
            &&& text::trimmed(all[c - 1]) == seq!['|', '=', '=', '=']
        }),
{
    reveal_strlit("|===");
    assert("|==="@ == seq!['|', '=', '=', '=']);
    if start <= k < o {
        assert(source::attached(source::line_at(src, k)));
    }
    if o < k < c {
        assert(!source::is_delimiter(source::line_at(src, k)));
    }
}

/// The text of a range is that of its lines: each of them, in order, and no
/// other.
pub proof fn law_range_is_its_lines(src: Seq<char>, start: int, end: int, i: int)
    requires
        1 <= start <= end <= text::lines_of(src).len(),
    ensures
        ({
            let all = text::lines_of(src);
            let said = text::joined(source::span(all, start, end), seq!['\n']);
            &&& text::pieces(said, '\n').len() == end - start + 1
            &&& start <= i <= end ==> text::pieces(said, '\n')[i - start] == all[i - 1]
        }),
{
    let all = text::lines_of(src);
    let part = source::span(all, start, end);
    text::lemma_lines_fit(src);
    assert(part == all.subrange(start - 1, end));
    assert forall|k: int| 0 <= k < part.len() implies text::free_of(#[trigger] part[k], '\n') by {
        assert(part[k] == all[start - 1 + k]);
    }
    text::law_joined_splits(part, '\n');
}

/// Whether `c` stands for itself in an attribute list.
pub open spec fn is_plain(c: char) -> bool {
    c != '[' && c != ']' && c != ',' && c != '=' && c != '"' && c != '\n'
}

/// A block of the form `image::target[alt]` is an image that points at the
/// target and is described by what is in the brackets, as long as there is a
/// target without white space and the description says nothing but itself; it
/// is none otherwise.
#[verifier::rlimit(30)]
#[verifier::spinoff_prover]
pub proof fn law_images_by_their_form(target: Seq<char>, alt: Seq<char>, after: Seq<char>)
    requires
        text::free_of(target, '['),
        text::is_blank(after),
    ensures
        ({
            let found = source::image_in("image::"@ + target + seq!['['] + alt + seq![']'] + after);
            &&& target.len() > 0 && (forall|i: int|
                0 <= i < target.len() ==> !text::is_space(#[trigger] target[i])) && (forall|i: int|
                0 <= i < alt.len() ==> is_plain(#[trigger] alt[i])) ==> found == Some((target, alt))
            &&& target.len() == 0 ==> found is None
            &&& (exists|i: int| 0 <= i < target.len() && text::is_space(#[trigger] target[i]))
                ==> found is None
            &&& (exists|i: int| 0 <= i < alt.len() && !is_plain(#[trigger] alt[i]))
                ==> found is None
        }),
        source::image_of(target, alt) == "image::"@ + target + seq!['['] + alt + seq![']'],
{
    let opening = "image::"@;
    let whole = opening + target + seq!['['] + alt + seq![']'];
    let line = whole + after;
    let n = whole.len() as int;
    assert(line == opening + target + seq!['['] + alt + seq![']'] + after);
    assert(line.skip(n) == after);
    assert(line[n - 1] == ']');
    text::lemma_spaces_after_is(line, n);
    assert(text::trimmed_end(line) == whole);
    if target.len() > 0 && (forall|i: int|
        0 <= i < target.len() ==> !text::is_space(#[trigger] target[i])) && (forall|i: int|
        0 <= i < alt.len() ==> is_plain(#[trigger] alt[i])) {
        assert(source::is_target(target));
        assert(source::is_plain_value(alt)) by {
            assert forall|i: int| 0 <= i < alt.len() implies !source::is_list_char(
                #[trigger] alt[i],
            ) by {
                assert(is_plain(alt[i]));
            }
        }
        assert(source::is_image(line, target, alt));
        source::lemma_image_in(line, target, alt);
    }
    let o = opening.len() as int;
    assert forall|t: Seq<char>, a: Seq<char>| source::is_image(line, t, a) implies t == target && a
        == alt by {
        assert(whole == opening + t + seq!['['] + a + seq![']']);
        if t.len() < target.len() {
            assert(whole[o + t.len()] == '[');
            assert(whole[o + t.len()] == target[t.len() as int]);
        } else if target.len() < t.len() {
            assert(whole[o + target.len()] == '[');
            assert(whole[o + target.len()] == t[target.len() as int]);
        }
        assert(whole.subrange(o, o + t.len()) == t);
        assert(whole.subrange(o, o + t.len()) == target);
        assert(whole.subrange(o + t.len() + 1, n - 1) == a);
        assert(whole.subrange(o + t.len() + 1, n - 1) == alt);
    }
    if exists|i: int| 0 <= i < alt.len() && !is_plain(#[trigger] alt[i]) {
        let i = choose|i: int| 0 <= i < alt.len() && !is_plain(#[trigger] alt[i]);
        assert(source::is_list_char(alt[i]));
        assert(!source::is_plain_value(alt));
    }
}

/// A line of the form `[quote,author]` or `[verse,author]` attributes a block to
/// the author, as long as there is one without white space around them who says
/// nothing but themselves; it does not otherwise.
#[verifier::rlimit(30)]
#[verifier::spinoff_prover]
pub proof fn law_attributions_by_their_form(i: int, author: Seq<char>, after: Seq<char>)
    requires
        0 <= i < 2,
        text::is_blank(after),
    ensures
        ({
            let style = if i == 0 {
                "quote"@
            } else {
                "verse"@
            };
            let found = source::attribution_in(
                seq!['['] + style + seq![','] + author + seq![']'] + after,
            );
            &&& author.len() > 0 && !text::is_space(author[0]) && !text::is_space(author.last())
                && (forall|k: int| 0 <= k < author.len() ==> is_plain(#[trigger] author[k]))
                ==> found == Some((style, author))
            &&& author.len() == 0 ==> found is None
            &&& author.len() > 0 && (text::is_space(author[0]) || text::is_space(author.last()))
                ==> found is None
            &&& (exists|k: int| 0 <= k < author.len() && !is_plain(#[trigger] author[k]))
                ==> found is None
        }),
{
    reveal_strlit("quote");
    reveal_strlit("verse");
    let style = source::ATTRIBUTED[i]@;
    let whole = source::attribution_of(style, author);
    let line = whole + after;
    let n = whole.len() as int;
    assert(line == seq!['['] + style + seq![','] + author + seq![']'] + after);
    assert(line.skip(n) == after);
    assert(line[n - 1] == ']');
    text::lemma_spaces_after_is(line, n);
    assert(text::trimmed_end(line) == whole);
    if author.len() > 0 && !text::is_space(author[0]) && !text::is_space(author.last()) && (forall|
        k: int,
    |
        0 <= k < author.len() ==> is_plain(#[trigger] author[k])) {
        text::lemma_trimmed_keeps(author);
        assert(source::is_plain_value(author)) by {
            assert forall|k: int| 0 <= k < author.len() implies !source::is_list_char(
                #[trigger] author[k],
            ) by {
                assert(is_plain(author[k]));
            }
        }
        assert(source::is_attribution(line, i, author));
        source::lemma_attribution_in(line, i, author);
    }
    assert forall|j: int, a: Seq<char>| source::is_attribution(line, j, a) implies a == author by {
        assert(source::ATTRIBUTED[i]@[0] == whole[1]);
        assert(source::ATTRIBUTED[j]@[0] == whole[1]);
        assert(i == j);
        let m = style.len() + 2;
        assert(whole.subrange(m as int, n - 1) == author);
        assert(whole.subrange(m as int, n - 1) == a);
    }
    if author.len() > 0 && (text::is_space(author[0]) || text::is_space(author.last())) {
        text::lemma_trimmed(author);
        assert(text::trimmed(author) != author);
    }
    if exists|k: int| 0 <= k < author.len() && !is_plain(#[trigger] author[k]) {
        let k = choose|k: int| 0 <= k < author.len() && !is_plain(#[trigger] author[k]);
        assert(source::is_list_char(author[k]));
        assert(!source::is_plain_value(author));
    }
}

/// The widths of a table are read from `cols` in quotes if each is a number,
/// without the white space around it; if one is not, there are none, but the
/// attribute is still there.
#[verifier::rlimit(40)]
#[verifier::spinoff_prover]
pub proof fn law_widths_by_their_form(
    before: Seq<char>,
    value: Seq<char>,
    after: Seq<char>,
    i: int,
)
    requires
        text::free_of(before, 'c'),
        text::free_of(value, '"'),
    ensures
        ({
            let line = before + "cols=\""@ + value + "\""@ + after;
            let parts = text::pieces(value, ',');
            &&& source::mentions_cols(line)
            &&& source::widths_of(line) matches Some(values) ==> values.len() == parts.len() && (0
                <= i < parts.len() ==> values[i] == text::trimmed(parts[i]) && values[i].len() > 0)
            &&& (forall|j: int|
                0 <= j < parts.len() ==> source::is_number(text::trimmed(#[trigger] parts[j])))
                ==> source::widths_of(line) is Some
            &&& 0 <= i < parts.len() && !source::is_number(text::trimmed(parts[i]))
                ==> source::widths_of(line) is None
        }),
        source::is_number(value) <==> value.len() > 0 && forall|j: int|
            0 <= j < value.len() ==> 48 <= #[trigger] value[j] as int && value[j] as int <= 57,
{
    let opening = "cols=\""@;
    let closing = "\""@;
    reveal_strlit("cols=\"");
    reveal_strlit("\"");
    reveal_strlit("cols=");
    let line = before + opening + value + closing + after;
    let p = before.len() as int;
    assert(line.subrange(p, p + opening.len()) == opening);
    assert(text::first_at(line, opening, p)) by {
        assert forall|j: int| j < p implies !text::occurs_at(line, opening, j) by {
            if text::occurs_at(line, opening, j) {
                assert(line.subrange(j, j + opening.len())[0] == 'c');
                assert(before[j] == 'c');
            }
        }
    }
    text::lemma_place_of(line, opening, p);
    let rest = line.skip((p + opening.len()) as int);
    assert(rest == value + closing + after);
    let q = value.len() as int;
    assert(rest.subrange(q, q + 1) == closing);
    assert(text::first_at(rest, closing, q)) by {
        assert forall|j: int| j < q implies !text::occurs_at(rest, closing, j) by {
            if text::occurs_at(rest, closing, j) {
                assert(rest.subrange(j, j + 1)[0] == '"');
                assert(value[j] == '"');
            }
        }
    }
    text::lemma_place_of(rest, closing, q);
    assert(rest.take(q) == value);
    assert(line.subrange(p, p + 5) == "cols="@);
    assert(text::occurs_at(line, "cols="@, p));
    let parts = text::pieces(value, ',');
    let values = parts.map_values(|v: Seq<char>| text::trimmed(v));
    if forall|j: int| 0 <= j < parts.len() ==> source::is_number(text::trimmed(#[trigger] parts[j])) {
        assert forall|j: int| 0 <= j < values.len() implies source::is_number(
            #[trigger] values[j],
        ) by {
            assert(source::is_number(text::trimmed(parts[j])));
        }
    }
    if 0 <= i < parts.len() {
        assert(values[i] == text::trimmed(parts[i]));
    }
    if source::is_number(value) {
        assert forall|j: int| 0 <= j < value.len() implies 48 <= #[trigger] value[j] as int
            && value[j] as int <= 57 by {
            assert('0' <= value[j] && value[j] <= '9');
        }
    }
    if value.len() > 0 && forall|j: int|
        0 <= j < value.len() ==> 48 <= #[trigger] value[j] as int && value[j] as int <= 57 {
        assert forall|j: int| 0 <= j < value.len() implies '0' <= #[trigger] value[j] && value[j]
            <= '9' by {
            assert(48 <= value[j] as int && value[j] as int <= 57);
        }
    }
}

/// A line that is written into a document stands where it is put, and those
/// that are taken out of one are gone; every other line stays.
pub proof fn law_other_lines_stay(all: Seq<Seq<char>>, n: int, line: Seq<char>, start: int, end: int, k: int)
    ensures
        1 <= n <= all.len() ==> {
            let now = source::line_inserted(all, n, line);
            &&& now.len() == all.len() + 1
            &&& 0 <= k < n - 1 ==> now[k] == all[k]
            &&& now[n - 1] == line
            &&& n - 1 <= k < all.len() ==> now[k + 1] == all[k]
        },
        !(1 <= n <= all.len()) ==> source::line_inserted(all, n, line) == all.push(line),
        1 <= start <= end <= all.len() ==> {
            let now = source::lines_removed(all, start, end);
            &&& now.len() == all.len() - (end - start + 1)
            &&& 0 <= k < start - 1 ==> now[k] == all[k]
            &&& end <= k < all.len() ==> now[k - (end - start + 1)] == all[k]
        },
        end < start || start > all.len() || end < 1 ==> source::lines_removed(all, start, end)
            == all,
{
}

/// A heading is its equals signs, a space, and the words on one line; a title
/// its dot and the words; a label leads what it labels.
pub proof fn law_lines_are_made_of_words(said: Seq<char>, level: usize, i: int)
    ensures
        ({
            let words = text::trimmed(text::folded(said));
            let heading = source::headed(said, Some(level));
            let title = source::title_of(said);
            &&& heading.len() == level + 1 + words.len()
            &&& 0 <= i < level ==> heading[i] == '='
            &&& heading[level as int] == ' '
            &&& heading.skip(level + 1) == words
            &&& title.len() == words.len() + 1
            &&& title[0] == '.'
            &&& title.skip(1) == words
        }),
        source::headed(said, None) == said,
        0 <= i < 5 ==> {
            let label = source::ADMONITIONS[i]@;
            let lead = source::lead_text(i);
            &&& lead.len() == label.len() + 2
            &&& lead.take(label.len() as int) == label
            &&& lead[label.len() as int] == ':'
            &&& lead[label.len() as int + 1] == ' '
        },
{
    let words = text::trimmed(text::folded(said));
    assert(source::headed(said, Some(level)).skip(level + 1) == words);
    assert(source::title_of(said).skip(1) == words);
    if 0 <= i < 5 {
        let label = source::ADMONITIONS[i]@;
        assert(source::lead_text(i).take(label.len() as int) == label);
    }
}

} // verus!
