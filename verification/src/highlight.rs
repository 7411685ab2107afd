//! Line-oriented AsciiDoc tokenizer feeding the editor's highlight overlay.
//!
//! This produces HTML that is laid *behind* a transparent text area, so the
//! only hard requirement is that the rendered text is character-for-character
//! identical to the source; the markup is purely decorative.
use vstd::prelude::*;

use crate::source;
use crate::source::heading_level;
use crate::text;
use crate::text::{
    chars_of, ends_with_char, equal, split, starts_with, starts_with_char, trim_end, trim_start,
};

verus! {

// ---------------------------------------------------------------------
// Escaping
// ---------------------------------------------------------------------

/// A character as it is written in HTML.
pub open spec fn escaped_char(c: char) -> Seq<char> {
    if c == '&' {
        "&amp;"@
    } else if c == '<' {
        "&lt;"@
    } else if c == '>' {
        "&gt;"@
    } else {
        seq![c]
    }
}

/// A text as it is written in HTML.
pub open spec fn escaped(s: Seq<char>) -> Seq<char>
    decreases s.len(),
{
    if s.len() == 0 {
        Seq::empty()
    } else {
        escaped(s.drop_last()) + escaped_char(s.last())
    }
}

/// Writes a text in HTML.
pub fn escape(s: &str) -> (r: String)
    ensures
        r@ == escaped(s@),
{
    let chars = chars_of(s);
    let mut out = String::new();
    let mut i: usize = 0;
    while i < chars.len()
        invariant
            i <= chars@.len(),
            out@ == escaped(chars@.take(i as int)),
        decreases chars.len() - i,
    {
        let c = chars[i];
        let ghost before = out@;
        proof {
            assert(chars@.take(i + 1).drop_last() == chars@.take(i as int));
        }
        if c == '&' {
            out.append("&amp;");
        } else if c == '<' {
            out.append("&lt;");
        } else if c == '>' {
            out.append("&gt;");
        } else {
            out.push(c);
        }
        assert(out@ == before + escaped_char(c));
        i += 1;
    }
    assert(chars@.take(i as int) == chars@);
    out
}

/// `inner` in a span of the class `class`.
pub open spec fn tagged(class: Seq<char>, inner: Seq<char>) -> Seq<char> {
    "<span class=\"ad-"@ + class + "\">"@ + inner + "</span>"@
}

/// A text in a span of the class `class`.
pub open spec fn spanned(class: Seq<char>, s: Seq<char>) -> Seq<char> {
    tagged(class, escaped(s))
}

fn push_tagged(out: &mut String, class: &str, inner: &str)
    ensures
        final(out)@ == old(out)@ + tagged(class@, inner@),
{
    let ghost before = out@;
    out.append("<span class=\"ad-");
    out.append(class);
    out.append("\">");
    out.append(inner);
    out.append("</span>");
    assert(out@ == before + tagged(class@, inner@));
}

fn push_span(out: &mut String, class: &str, s: &str)
    ensures
        final(out)@ == old(out)@ + spanned(class@, s@),
{
    push_tagged(out, class, &escape(s));
}

// ---------------------------------------------------------------------
// Patterns
// ---------------------------------------------------------------------

/// An admonition's label.
pub const ADMONITION: &'static str = r"^(NOTE|TIP|IMPORTANT|WARNING|CAUTION): ";

/// The marker of a list item.
pub const LIST_MARKER: &'static str = r"^(\s*)([*\-]+|\.+|\d+\.|[a-zA-Z]\.)(\s+)";

/// An attribute entry.
pub const ATTR_ENTRY: &'static str = r"^:!?[a-zA-Z0-9_][a-zA-Z0-9_-]*!?:";

/// The inline constructs: one group for each of the classes.
pub const INLINE: &'static str = r"(?P<code>`[^`\n]+`)|(?P<bold>\*[^*\s][^*\n]*\*)|(?P<italic>_[^_\s][^_\n]*_)|(?P<mac>\b(?:https?|link|xref|image|kbd|btn|footnote|mailto):[^\s\[]*\[[^\]\n]*\])|(?P<url>\bhttps?://[^\s\[\]]+)|(?P<attr>\{[a-zA-Z0-9_][a-zA-Z0-9_-]*\})";

/// The classes of the inline constructs, in the order of their groups.
pub const CLASSES: [&'static str; 6] = ["code", "bold", "italic", "mac", "url", "attr"];

/// Where the groups of the pattern's first match in the text stand, in
/// characters.
pub uninterp spec fn pattern_captured(pattern: Seq<char>, text: Seq<char>) -> Option<
    Seq<Option<(usize, usize)>>,
>;

/// Where the groups of each of the pattern's matches in the text stand, in
/// characters.
pub uninterp spec fn pattern_captured_all(pattern: Seq<char>, text: Seq<char>) -> Seq<
    Seq<Option<(usize, usize)>>,
>;

/// Whether a character can stand in the name of an attribute.
pub open spec fn is_word(c: char) -> bool {
    ('a' <= c && c <= 'z') || ('A' <= c && c <= 'Z') || ('0' <= c && c <= '9') || c == '_'
}

/// Whether the first `n` characters of `t`, and the colon after them, are an
/// attribute entry: a colon, and a name that may be negated in front or at the
/// end.
pub open spec fn is_entry(t: Seq<char>, n: int) -> bool {
    &&& 1 < n < t.len()
    &&& t[0] == ':'
    &&& t[n] == ':'
    &&& {
        let from = if t[1] == '!' {
            2int
        } else {
            1
        };
        let to = if t[n - 1] == '!' {
            n - 1
        } else {
            n
        };
        &&& from < to
        &&& is_word(t[from])
        &&& forall|i: int| from < i < to ==> is_word(#[trigger] t[i]) || t[i] == '-'
    }
}

/// Whether `line` starts with an attribute entry.
pub open spec fn is_attribute_entry(line: Seq<char>) -> bool {
    exists|n: int| is_entry(line, n)
}

/// Whether `label` is the label of an admonition, with its separator, that
/// `line` starts with.
pub open spec fn is_admonition(line: Seq<char>, i: int) -> bool {
    0 <= i < 5 && source::lead_text(i).is_prefix_of(line)
}

/// `Regex::is_match` of the crate `regex`, on a pattern compiled by
/// `Regex::new`: whether there is a match. Of the pattern for attribute entries
/// it is what the pattern spells out.
#[verifier::external_body]
fn is_match(pattern: &str, text: &str) -> (r: bool)
    requires
        pattern@ == ATTR_ENTRY@,
    ensures
        r == is_attribute_entry(text@),
{
    match regex::Regex::new(pattern) {
        Ok(compiled) => compiled.is_match(text),
        Err(_) => false,
    }
}

/// `Regex::find` of the crate `regex`, on a pattern compiled by `Regex::new`:
/// where the leftmost match stands, counted in characters. Of the pattern for
/// admonitions it is what the pattern spells out.
#[verifier::external_body]
fn find(pattern: &str, text: &str) -> (r: Option<(usize, usize)>)
    requires
        pattern@ == ADMONITION@,
    ensures
        match r {
            Some((from, to)) => from == 0 && exists|i: int| #[trigger]
                is_admonition(text@, i) && to == source::lead_text(i).len(),
            None => forall|i: int| !#[trigger] is_admonition(text@, i),
        },
{
    match regex::Regex::new(pattern) {
        Ok(compiled) => compiled.find(text).map(|found| {
            (text[..found.start()].chars().count(), text[..found.end()].chars().count())
        }),
        Err(_) => None,
    }
}

/// A character that a marker of digits can hold: one of `0` to `9`, or one
/// beyond ASCII, where other scripts have their digits, that is not white
/// space.
pub open spec fn may_be_digit(c: char) -> bool {
    ('0' <= c && c <= '9') || (c > '\u{7f}' && !text::is_space(c))
}

/// Whether `m` is a list marker, as far as can be said of digits of other
/// scripts: stars and dashes, dots, a number and a dot, or a letter and a dot.
pub open spec fn may_be_marker(m: Seq<char>) -> bool {
    ||| m.len() > 0 && forall|i: int| 0 <= i < m.len() ==> #[trigger] m[i] == '*' || m[i] == '-'
    ||| m.len() > 0 && forall|i: int| 0 <= i < m.len() ==> #[trigger] m[i] == '.'
    ||| m.len() > 1 && m.last() == '.' && forall|i: int|
        0 <= i < m.len() - 1 ==> may_be_digit(#[trigger] m[i])
    ||| m.len() == 2 && m[1] == '.' && (('a' <= m[0] && m[0] <= 'z') || ('A' <= m[0] && m[0]
        <= 'Z'))
}

/// Whether every character of `s` is an ASCII one.
pub open spec fn is_plain(s: Seq<char>) -> bool {
    forall|i: int| 0 <= i < s.len() ==> #[trigger] s[i] <= '\u{7f}'
}

/// Whether the marker of `line` stands between `a` and `b`, and the white
/// space after it ends at `e`.
pub open spec fn is_item(line: Seq<char>, a: int, b: int, e: int) -> bool {
    &&& a == text::spaces_before(line)
    &&& a < b < e <= line.len()
    &&& may_be_marker(line.subrange(a, b))
    &&& text::is_blank(line.subrange(b, e))
    &&& e < line.len() ==> !text::is_space(line[e])
}

/// `Regex::captures` of the crate `regex`, on a pattern compiled by
/// `Regex::new`: where the groups of the leftmost match stand, counted in
/// characters, the whole match first. A pattern that does not compile captures
/// nothing. The result depends on the pattern and the text alone. Of the
/// pattern for list markers it is what the pattern spells out: the three
/// groups stand one after another from the start of the text. Which characters
/// beyond ASCII are digits is left unsaid.
#[verifier::external_body]
fn captures(pattern: &str, text: &str) -> (r: Option<Vec<Option<(usize, usize)>>>)
    ensures
        match r {
            Some(groups) => pattern_captured(pattern@, text@) == Some(groups@),
            None => pattern_captured(pattern@, text@) is None,
        },
        pattern@ == LIST_MARKER@ ==> match r {
            Some(groups) => exists|a: usize, b: usize, e: usize| #[trigger]
                is_item(text@, a as int, b as int, e as int) && groups@ == seq![
                    Some((0usize, e)),
                    Some((0usize, a)),
                    Some((a, b)),
                    Some((b, e)),
                ],
            None => forall|a: int, b: int, e: int|
                #[trigger] is_item(text@, a, b, e) ==> !is_plain(text@.subrange(a, b)),
        },
{
    match regex::Regex::new(pattern) {
        Ok(compiled) => compiled.captures(text).map(|caps| {
            caps.iter().map(|group| group.map(|found| {
                (text[..found.start()].chars().count(), text[..found.end()].chars().count())
            })).collect()
        }),
        Err(_) => None,
    }
}

/// What lists of groups stand for.
pub open spec fn groups(found: Seq<Vec<Option<(usize, usize)>>>) -> Seq<
    Seq<Option<(usize, usize)>>,
> {
    found.map_values(|caps: Vec<Option<(usize, usize)>>| caps@)
}

/// Where a match ends: nowhere, before the first.
pub open spec fn ending(found: Seq<Seq<Option<(usize, usize)>>>) -> int {
    if found.len() == 0 {
        0
    } else {
        match found.last()[0] {
            Some((_, to)) => to as int,
            None => 0,
        }
    }
}

/// Whether a match is of one construct: one of the groups is the whole match,
/// and the others take no part in it.
pub open spec fn is_construct(caps: Seq<Option<(usize, usize)>>, g: int) -> bool {
    &&& caps.len() == 7
    &&& 1 <= g <= 6
    &&& caps[0] is Some
    &&& caps[g] == caps[0]
    &&& forall|j: int| 1 <= j <= 6 && j != g ==> #[trigger] caps[j] is None
}

/// Whether the matches stand one after another in `n` characters, and each is
/// of one construct.
pub open spec fn are_matches(found: Seq<Seq<Option<(usize, usize)>>>, n: int) -> bool
    decreases found.len(),
{
    if found.len() == 0 {
        true
    } else {
        let caps = found.last();
        let (from, to) = caps[0]->0;
        &&& are_matches(found.drop_last(), n)
        &&& exists|g: int| is_construct(caps, g)
        &&& ending(found.drop_last()) <= from <= to <= n
    }
}

/// Whether a text holds a character that an inline construct needs.
pub open spec fn may_hold_construct(s: Seq<char>) -> bool {
    exists|i: int|
        0 <= i < s.len() && (#[trigger] s[i] == '`' || s[i] == '*' || s[i] == '_' || s[i] == ':'
            || s[i] == '{')
}

/// `Regex::captures_iter` of the crate `regex`, on a pattern compiled by
/// `Regex::new`: where the groups of each of the successive matches stand,
/// counted in characters, the whole match first. A pattern that does not
/// compile captures nothing. The result depends on the pattern and the text
/// alone. Of the pattern for inline constructs, which is made of alternatives
/// that are one group each, it is said that the matches do not overlap and
/// stand in order, that one group is the whole of each match, and that there
/// are none in a text that holds no character that the alternatives need.
#[verifier::external_body]
fn captures_iter(pattern: &str, text: &str) -> (r: Vec<Vec<Option<(usize, usize)>>>)
    ensures
        groups(r@) == pattern_captured_all(pattern@, text@),
        pattern@ == INLINE@ ==> are_matches(groups(r@), text@.len() as int),
        pattern@ == INLINE@ && !may_hold_construct(text@) ==> r@.len() == 0,
{
    match regex::Regex::new(pattern) {
        Ok(compiled) => compiled.captures_iter(text).map(|caps| {
            caps.iter().map(|group| group.map(|found| {
                (text[..found.start()].chars().count(), text[..found.end()].chars().count())
            })).collect()
        }).collect(),
        Err(_) => Vec::new(),
    }
}

// ---------------------------------------------------------------------
// Inline constructs
// ---------------------------------------------------------------------

/// The construct that a match is of.
pub open spec fn construct_of(caps: Seq<Option<(usize, usize)>>) -> int {
    choose|g: int| is_construct(caps, g)
}

/// The text up to the end of the last match, with each match in a span of its
/// class.
pub open spec fn woven_to(s: Seq<char>, found: Seq<Seq<Option<(usize, usize)>>>) -> Seq<char>
    decreases found.len(),
{
    if found.len() == 0 {
        Seq::empty()
    } else {
        let before = found.drop_last();
        let (from, to) = found.last()[0]->0;
        woven_to(s, before) + s.subrange(ending(before), from as int) + tagged(
            CLASSES[construct_of(found.last()) - 1]@,
            s.subrange(from as int, to as int),
        )
    }
}

/// The text with each match in a span of its class.
pub open spec fn woven(s: Seq<char>, found: Seq<Seq<Option<(usize, usize)>>>) -> Seq<char> {
    woven_to(s, found) + s.skip(ending(found))
}

/// A text with its inline constructs in spans. It is escaped first, so the
/// patterns only ever see `&lt;` and `&amp;`, none of which contain the markers
/// being matched.
pub open spec fn inlined(s: Seq<char>) -> Seq<char> {
    if may_hold_construct(escaped(s)) {
        woven(escaped(s), pattern_captured_all(INLINE@, escaped(s)))
    } else {
        escaped(s)
    }
}

proof fn lemma_construct(caps: Seq<Option<(usize, usize)>>, g: int)
    requires
        is_construct(caps, g),
    ensures
        construct_of(caps) == g,
{
    let c = construct_of(caps);
    assert(is_construct(caps, c));
    if c != g {
        assert(caps[c] is None);
    }
}

/// The part of matches that come first are matches too.
proof fn lemma_matches_before(found: Seq<Seq<Option<(usize, usize)>>>, n: int, k: int)
    requires
        are_matches(found, n),
        0 <= k <= found.len(),
    ensures
        are_matches(found.take(k), n),
    decreases found.len() - k,
{
    if k == found.len() {
        assert(found.take(k) == found);
    } else {
        lemma_matches_before(found, n, k + 1);
        assert(found.take(k + 1).drop_last() == found.take(k));
    }
}

/// Puts each match in a span of its class: of a text that is escaped, and the
/// matches in it.
pub fn weave(s: &str, found: &[Vec<Option<(usize, usize)>>]) -> (r: String)
    requires
        are_matches(groups(found@), s@.len() as int),
    ensures
        r@ == woven(s@, groups(found@)),
{
    let ghost all = groups(found@);
    let n = s.unicode_len();
    let mut out = String::new();
    let mut last: usize = 0;
    let mut i: usize = 0;
    while i < found.len()
        invariant
            all == groups(found@),
            n == s@.len(),
            are_matches(all, n as int),
            i <= found@.len(),
            last == ending(all.take(i as int)),
            last <= n,
            out@ == woven_to(s@, all.take(i as int)),
        decreases found.len() - i,
    {
        let caps = &found[i];
        let ghost before = out@;
        proof {
            lemma_matches_before(all, n as int, i + 1);
            assert(all.take(i + 1).drop_last() == all.take(i as int));
            assert(all.take(i + 1).last() == caps@);
        }
        let ghost g = choose|g: int| is_construct(caps@, g);
        assert(is_construct(caps@, g));
        let mut k: usize = 1;
        while k < 6 && caps[k].is_none()
            invariant
                is_construct(caps@, g),
                1 <= k <= g,
            decreases 6 - k,
        {
            k += 1;
        }
        proof {
            if k < g {
                assert(caps@[k as int] is None);
            }
            lemma_construct(caps@, g);
        }
        if let Some((from, to)) = caps[0] {
            out.append(s.substring_char(last, from));
            push_tagged(&mut out, CLASSES[k - 1], s.substring_char(from, to));
            last = to;
            assert(out@ == before + s@.subrange(ending(all.take(i as int)), from as int) + tagged(
                CLASSES[g - 1]@,
                s@.subrange(from as int, to as int),
            ));
        }
        i += 1;
    }
    assert(all.take(i as int) == all);
    out.append(s.substring_char(last, n));
    assert(s@.subrange(last as int, n as int) == s@.skip(last as int));
    out
}

// ---------------------------------------------------------------------
// What is displayed
// ---------------------------------------------------------------------

/// Whether `html` ends inside a tag.
pub open spec fn in_tag(html: Seq<char>) -> bool
    decreases html.len(),
{
    if html.len() == 0 {
        false
    } else if html.last() == '<' {
        true
    } else if html.last() == '>' {
        false
    } else {
        in_tag(html.drop_last())
    }
}

/// `html` without its tags.
pub open spec fn untagged(html: Seq<char>) -> Seq<char>
    decreases html.len(),
{
    if html.len() == 0 {
        Seq::empty()
    } else {
        let before = untagged(html.drop_last());
        let c = html.last();
        if c == '<' || c == '>' || in_tag(html.drop_last()) {
            before
        } else {
            before.push(c)
        }
    }
}

/// `html` with its entities read.
pub open spec fn unescaped(html: Seq<char>) -> Seq<char>
    decreases html.len(),
{
    if html.len() == 0 {
        Seq::empty()
    } else if html.len() >= 5 && "&amp;"@.is_prefix_of(html) {
        seq!['&'] + unescaped(html.skip(5))
    } else if html.len() >= 4 && "&lt;"@.is_prefix_of(html) {
        seq!['<'] + unescaped(html.skip(4))
    } else if html.len() >= 4 && "&gt;"@.is_prefix_of(html) {
        seq!['>'] + unescaped(html.skip(4))
    } else {
        seq![html[0]] + unescaped(html.skip(1))
    }
}

/// What a browser displays of `html`.
pub open spec fn displayed(html: Seq<char>) -> Seq<char> {
    unescaped(untagged(html))
}

/// Whether `html` is `s` with tags put in.
pub open spec fn is_dressed(html: Seq<char>, s: Seq<char>) -> bool {
    !in_tag(html) && untagged(html) == escaped(s)
}

/// Whether `s` holds no tags.
pub open spec fn is_bare(s: Seq<char>) -> bool {
    text::free_of(s, '<') && text::free_of(s, '>')
}

proof fn lemma_escaped_in_order(a: Seq<char>, b: Seq<char>)
    ensures
        escaped(a + b) == escaped(a) + escaped(b),
    decreases b.len(),
{
    if b.len() == 0 {
        assert(a + b == a);
        assert(escaped(a) + escaped(b) == escaped(a));
    } else {
        lemma_escaped_in_order(a, b.drop_last());
        assert((a + b).drop_last() == a + b.drop_last());
        assert(escaped(a + b) == escaped(a) + escaped(b));
    }
}

proof fn lemma_escaped_bare(s: Seq<char>)
    ensures
        is_bare(escaped(s)),
    decreases s.len(),
{
    if s.len() > 0 {
        lemma_escaped_bare(s.drop_last());
        reveal_strlit("&amp;");
        reveal_strlit("&lt;");
        reveal_strlit("&gt;");
        let c = escaped_char(s.last());
        assert(is_bare(c)) by {
            assert forall|i: int| 0 <= i < c.len() implies #[trigger] c[i] != '<' && c[i]
                != '>' by {}
        }
        assert(escaped(s) == escaped(s.drop_last()) + c);
    }
}

proof fn lemma_tags_in_order(a: Seq<char>, b: Seq<char>)
    requires
        !in_tag(a),
    ensures
        in_tag(a + b) == in_tag(b),
        untagged(a + b) == untagged(a) + untagged(b),
    decreases b.len(),
{
    if b.len() == 0 {
        assert(a + b == a);
        assert(untagged(a) + untagged(b) == untagged(a));
    } else {
        lemma_tags_in_order(a, b.drop_last());
        assert((a + b).drop_last() == a + b.drop_last());
        assert(untagged(a + b) == untagged(a) + untagged(b));
    }
}

proof fn lemma_bare(s: Seq<char>)
    requires
        is_bare(s),
    ensures
        !in_tag(s),
        untagged(s) == s,
    decreases s.len(),
{
    if s.len() > 0 {
        let less = s.drop_last();
        assert forall|i: int| 0 <= i < less.len() implies #[trigger] less[i] != '<' && less[i]
            != '>' by {
            assert(less[i] == s[i]);
        }
        lemma_bare(less);
        assert(less.push(s.last()) == s);
    } else {
        assert(s == Seq::<char>::empty());
    }
}

/// What stands in a tag, up to its end, is not displayed.
proof fn lemma_tag(html: Seq<char>, inside: Seq<char>)
    requires
        !in_tag(html),
        is_bare(inside),
    ensures
        ({
            let whole = html + (seq!['<'] + inside + seq!['>']);
            !in_tag(whole) && untagged(whole) == untagged(html)
        }),
    decreases inside.len(),
{
    let whole = html + (seq!['<'] + inside + seq!['>']);
    let open = html + (seq!['<'] + inside);
    assert(whole.drop_last() == open);
    lemma_open_tag(html, inside);
}

proof fn lemma_open_tag(html: Seq<char>, inside: Seq<char>)
    requires
        !in_tag(html),
        is_bare(inside),
    ensures
        in_tag(html + (seq!['<'] + inside)),
        untagged(html + (seq!['<'] + inside)) == untagged(html),
    decreases inside.len(),
{
    let open = html + (seq!['<'] + inside);
    if inside.len() == 0 {
        assert(open.drop_last() == html);
        assert(open.last() == '<');
    } else {
        let less = inside.drop_last();
        assert forall|i: int| 0 <= i < less.len() implies #[trigger] less[i] != '<' && less[i]
            != '>' by {
            assert(less[i] == inside[i]);
        }
        lemma_open_tag(html, less);
        assert(open.drop_last() == html + (seq!['<'] + less));
        assert(open.last() == inside.last());
    }
}

/// A span displays what is in it.
proof fn lemma_tagged(class: Seq<char>, inner: Seq<char>)
    requires
        is_bare(class),
        is_bare(inner),
    ensures
        !in_tag(tagged(class, inner)),
        untagged(tagged(class, inner)) == inner,
{
    reveal_strlit("<span class=\"ad-");
    reveal_strlit("\">");
    reveal_strlit("</span>");
    let none = Seq::<char>::empty();
    let opening = "<span class=\"ad-"@.skip(1) + class + seq!['"'];
    let closing = seq!['/', 's', 'p', 'a', 'n'];
    let first = none + (seq!['<'] + opening + seq!['>']);
    assert(is_bare(opening)) by {
        assert forall|i: int| 0 <= i < opening.len() implies #[trigger] opening[i] != '<'
            && opening[i] != '>' by {
            let k = "<span class=\"ad-"@.len() - 1;
            if k <= i < k + class.len() {
                assert(opening[i] == class[i - k]);
            }
        }
    }
    lemma_tag(none, opening);
    lemma_bare(inner);
    lemma_tags_in_order(first, inner);
    let second = first + inner;
    assert(untagged(second) == inner);
    assert(is_bare(closing));
    lemma_tag(second, closing);
    assert(tagged(class, inner) == second + (seq!['<'] + closing + seq!['>']));
}

proof fn lemma_spanned(class: Seq<char>, s: Seq<char>)
    requires
        is_bare(class),
    ensures
        is_dressed(spanned(class, s), s),
{
    lemma_escaped_bare(s);
    lemma_tagged(class, escaped(s));
}

proof fn lemma_dressed_in_order(a: Seq<char>, s: Seq<char>, b: Seq<char>, t: Seq<char>)
    requires
        is_dressed(a, s),
        is_dressed(b, t),
    ensures
        is_dressed(a + b, s + t),
{
    lemma_tags_in_order(a, b);
    lemma_escaped_in_order(s, t);
}

proof fn lemma_escaped_dressed(s: Seq<char>)
    ensures
        is_dressed(escaped(s), s),
{
    lemma_escaped_bare(s);
    lemma_bare(escaped(s));
}

proof fn lemma_class_bare(k: int)
    requires
        0 <= k < 6,
    ensures
        is_bare(CLASSES[k]@),
{
    reveal_strlit("code");
    reveal_strlit("bold");
    reveal_strlit("italic");
    reveal_strlit("mac");
    reveal_strlit("url");
    reveal_strlit("attr");
}

/// Spans around matches do not change what is displayed.
proof fn lemma_woven(s: Seq<char>, found: Seq<Seq<Option<(usize, usize)>>>)
    requires
        is_bare(s),
        are_matches(found, s.len() as int),
    ensures
        !in_tag(woven(s, found)),
        untagged(woven(s, found)) == s,
{
    lemma_woven_to(s, found);
    let rest = s.skip(ending(found));
    assert(is_bare(rest));
    lemma_bare(rest);
    lemma_tags_in_order(woven_to(s, found), rest);
    assert(s.take(ending(found)) + rest == s);
}

proof fn lemma_woven_to(s: Seq<char>, found: Seq<Seq<Option<(usize, usize)>>>)
    requires
        is_bare(s),
        are_matches(found, s.len() as int),
    ensures
        0 <= ending(found) <= s.len(),
        !in_tag(woven_to(s, found)),
        untagged(woven_to(s, found)) == s.take(ending(found)),
    decreases found.len(),
{
    if found.len() == 0 {
        assert(s.take(0) == Seq::<char>::empty());
    } else {
        let before = found.drop_last();
        let caps = found.last();
        let (from, to) = caps[0]->0;
        lemma_woven_to(s, before);
        let g = construct_of(caps);
        assert(is_construct(caps, g));
        let done = woven_to(s, before);
        let between = s.subrange(ending(before), from as int);
        let inner = s.subrange(from as int, to as int);
        assert(is_bare(between));
        assert(is_bare(inner));
        lemma_bare(between);
        lemma_class_bare(g - 1);
        lemma_tagged(CLASSES[g - 1]@, inner);
        lemma_tags_in_order(done, between);
        lemma_tags_in_order(done + between, tagged(CLASSES[g - 1]@, inner));
        assert(s.take(ending(before)) + between + inner == s.take(to as int));
    }
}

/// Entities are read back as what they stand for.
proof fn lemma_unescaped(s: Seq<char>)
    ensures
        unescaped(escaped(s)) == s,
    decreases s.len(),
{
    reveal_strlit("&amp;");
    reveal_strlit("&lt;");
    reveal_strlit("&gt;");
    if s.len() > 0 {
        let c = s[0];
        let less = s.drop_first();
        let first = escaped_char(c);
        assert(s == seq![c] + less);
        lemma_escaped_in_order(seq![c], less);
        assert(seq![c].drop_last() == Seq::<char>::empty());
        assert(escaped(seq![c].drop_last()) == Seq::<char>::empty());
        assert(escaped(seq![c]) == first);
        let whole = escaped(s);
        assert(whole == first + escaped(less));
        lemma_unescaped(less);
        assert(whole.skip(first.len() as int) == escaped(less));
        if c == '&' {
            assert(whole.subrange(0, 5) == "&amp;"@);
        } else if c == '<' {
            assert(whole[1] == 'l');
            assert(!"&amp;"@.is_prefix_of(whole)) by {
                if "&amp;"@.is_prefix_of(whole) {
                    assert(whole[1] == "&amp;"@[1]);
                }
            }
            assert(whole.subrange(0, 4) == "&lt;"@);
        } else if c == '>' {
            assert(whole[1] == 'g');
            assert(!"&amp;"@.is_prefix_of(whole)) by {
                if "&amp;"@.is_prefix_of(whole) {
                    assert(whole[1] == "&amp;"@[1]);
                }
            }
            assert(!"&lt;"@.is_prefix_of(whole)) by {
                if "&lt;"@.is_prefix_of(whole) {
                    assert(whole[1] == "&lt;"@[1]);
                }
            }
            assert(whole.subrange(0, 4) == "&gt;"@);
        } else {
            assert(whole[0] == c);
            assert(!"&amp;"@.is_prefix_of(whole)) by {
                if "&amp;"@.is_prefix_of(whole) {
                    assert(whole[0] == "&amp;"@[0]);
                }
            }
            assert(!"&lt;"@.is_prefix_of(whole)) by {
                if "&lt;"@.is_prefix_of(whole) {
                    assert(whole[0] == "&lt;"@[0]);
                }
            }
            assert(!"&gt;"@.is_prefix_of(whole)) by {
                if "&gt;"@.is_prefix_of(whole) {
                    assert(whole[0] == "&gt;"@[0]);
                }
            }
        }
        assert(unescaped(whole) == seq![c] + unescaped(escaped(less)));
    } else {
        assert(escaped(s) == Seq::<char>::empty());
        assert(s == Seq::<char>::empty());
    }
}

// ---------------------------------------------------------------------
// Lines
// ---------------------------------------------------------------------

/// Wraps inline constructs.
fn wrap_inline(out: &mut String, s: &str)
    ensures
        final(out)@ == old(out)@ + inlined(s@),
        is_dressed(inlined(s@), s@),
{
    let shielded = escape(s);
    let found = captures_iter(INLINE, &shielded);
    proof {
        lemma_escaped_bare(s@);
        lemma_woven(shielded@, groups(found@));
        if !may_hold_construct(shielded@) {
            assert(groups(found@).len() == 0);
            assert(woven(shielded@, groups(found@)) == shielded@);
        }
    }
    out.append(&weave(&shielded, &found));
}

/// Whether `line` is the title of a block, but not a `. ` list item or a `...`
/// fence.
pub open spec fn is_dotted(line: Seq<char>) -> bool {
    text::begins(line, '.') && !". "@.is_prefix_of(line) && !".."@.is_prefix_of(line)
}

/// A list item whose marker stands between `a` and `b`, and whose text starts
/// at `e`.
pub open spec fn item_html(line: Seq<char>, a: int, b: int, e: int) -> Seq<char> {
    escaped(line.take(a)) + spanned("marker"@, line.subrange(a, b)) + escaped(
        line.subrange(b, e),
    ) + inlined(line.skip(e))
}

/// Where the marker of a list item starts and ends, and where its text starts,
/// if the line is one. Whether characters beyond ASCII are digits is for the
/// pattern to say.
pub open spec fn item_of(line: Seq<char>) -> Option<(int, int, int)> {
    if exists|a: int, b: int, e: int| is_item(line, a, b, e) {
        let (a, b, e) = choose|a: int, b: int, e: int| is_item(line, a, b, e);
        if is_plain(line.subrange(a, b)) || pattern_captured(LIST_MARKER@, line) is Some {
            Some((a, b, e))
        } else {
            None
        }
    } else {
        None
    }
}

/// A marker holds no white space.
proof fn lemma_marker_solid(m: Seq<char>, i: int)
    requires
        may_be_marker(m),
        0 <= i < m.len(),
    ensures
        !text::is_space(m[i]),
{
}

/// There is one place at most for a line's marker.
proof fn lemma_item_unique(line: Seq<char>, a: int, b: int, e: int, a2: int, b2: int, e2: int)
    requires
        is_item(line, a, b, e),
        is_item(line, a2, b2, e2),
    ensures
        a == a2,
        b == b2,
        e == e2,
{
    if b < b2 {
        lemma_marker_solid(line.subrange(a, b2), b - a);
        assert(line.subrange(b, e)[0] == line[b]);
        assert(text::is_space(line.subrange(b, e)[0]));
    } else if b2 < b {
        lemma_marker_solid(line.subrange(a, b), b2 - a);
        assert(line.subrange(b2, e2)[0] == line[b2]);
        assert(text::is_space(line.subrange(b2, e2)[0]));
    }
    if e < e2 {
        assert(line.subrange(b, e2)[e - b] == line[e]);
        assert(text::is_space(line.subrange(b, e2)[e - b]));
    } else if e2 < e {
        assert(line.subrange(b, e)[e2 - b] == line[e2]);
        assert(text::is_space(line.subrange(b, e)[e2 - b]));
    }
}

/// A line outside of any block that is not marked up, as HTML.
pub open spec fn line_html(line: Seq<char>) -> Seq<char> {
    if "//"@.is_prefix_of(text::trimmed_start(line)) {
        spanned("comment"@, line)
    } else if exists|n: int| source::is_heading(line, n) {
        spanned("heading"@, line)
    } else if is_attribute_entry(line) {
        spanned("attr-entry"@, line)
    } else if source::is_attribute_list(line) {
        spanned("attr-list"@, line)
    } else if is_dotted(line) {
        spanned("block-title"@, line)
    } else if exists|i: int| is_admonition(line, i) {
        let n = source::lead_text(choose|i: int| is_admonition(line, i)).len() as int;
        spanned("admonition"@, line.take(n)) + inlined(line.skip(n))
    } else {
        match item_of(line) {
            Some((a, b, e)) => item_html(line, a, b, e),
            None => inlined(line),
        }
    }
}

/// Marks up a list item whose marker stands between `a` and `b`, and whose
/// text starts at `e`.
pub fn highlight_item(out: &mut String, line: &str, a: usize, b: usize, e: usize)
    requires
        a <= b <= e <= line@.len(),
    ensures
        final(out)@ == old(out)@ + item_html(line@, a as int, b as int, e as int),
        is_dressed(item_html(line@, a as int, b as int, e as int), line@),
{
    let ghost before = out@;
    let n = line.unicode_len();
    let lead = line.substring_char(0, a);
    let marker = line.substring_char(a, b);
    let gap = line.substring_char(b, e);
    let rest = line.substring_char(e, n);
    proof {
        assert(lead@ == line@.take(a as int));
        assert(rest@ == line@.skip(e as int));
    }
    out.append(&escape(lead));
    push_span(out, "marker", marker);
    out.append(&escape(gap));
    wrap_inline(out, rest);
    proof {
        reveal_strlit("marker");
        lemma_escaped_dressed(lead@);
        lemma_spanned("marker"@, marker@);
        lemma_escaped_dressed(gap@);
        let one = escaped(lead@);
        let two = spanned("marker"@, marker@);
        let three = escaped(gap@);
        lemma_dressed_in_order(one, lead@, two, marker@);
        lemma_dressed_in_order(one + two, lead@ + marker@, three, gap@);
        lemma_dressed_in_order(
            one + two + three,
            lead@ + marker@ + gap@,
            inlined(rest@),
            rest@,
        );
        assert(lead@ + marker@ + gap@ + rest@ == line@);
        assert(out@ == before + item_html(line@, a as int, b as int, e as int));
    }
}

/// Puts the whole line in a span of the class `class`.
fn highlight_whole(out: &mut String, class: &str, line: &str)
    requires
        is_bare(class@),
    ensures
        final(out)@ == old(out)@ + spanned(class@, line@),
        is_dressed(spanned(class@, line@), line@),
{
    proof {
        lemma_spanned(class@, line@);
    }
    push_span(out, class, line);
}

fn highlight_line(out: &mut String, line: &str)
    ensures
        final(out)@ == old(out)@ + line_html(line@),
        is_dressed(line_html(line@), line@),
{
    proof {
        reveal_strlit("comment");
        reveal_strlit("heading");
        reveal_strlit("attr-entry");
        reveal_strlit("attr-list");
        reveal_strlit("block-title");
        reveal_strlit("admonition");
    }
    if starts_with(trim_start(line), "//") {
        highlight_whole(out, "comment", line);
        return;
    }
    if heading_level(line).is_some() {
        highlight_whole(out, "heading", line);
        return;
    }
    if is_match(ATTR_ENTRY, line) {
        highlight_whole(out, "attr-entry", line);
        return;
    }
    if starts_with_char(line, '[') && ends_with_char(trim_end(line), ']') {
        highlight_whole(out, "attr-list", line);
        return;
    }
    // A block title (`.Title`), but not a `. ` list item or `...` fence.
    if starts_with_char(line, '.') && !starts_with(line, ". ") && !starts_with(line, "..") {
        highlight_whole(out, "block-title", line);
        return;
    }
    if let Some((_, n)) = find(ADMONITION, line) {
        let ghost before = out@;
        proof {
            let i = choose|i: int| #[trigger]
                is_admonition(line@, i) && n == source::lead_text(i).len();
            assert(is_admonition(line@, i));
            let j = choose|j: int| is_admonition(line@, j);
            assert(is_admonition(line@, j));
            lemma_one_admonition(line@, i, j);
        }
        let label = line.substring_char(0, n);
        let rest = line.substring_char(n, line.unicode_len());
        proof {
            assert(label@ == line@.take(n as int));
            assert(rest@ == line@.skip(n as int));
        }
        push_span(out, "admonition", label);
        wrap_inline(out, rest);
        proof {
            lemma_spanned("admonition"@, label@);
            lemma_dressed_in_order(
                spanned("admonition"@, label@),
                label@,
                inlined(rest@),
                rest@,
            );
            assert(label@ + rest@ == line@);
            assert(out@ == before + line_html(line@));
        }
        return;
    }
    assert forall|i: int| !is_admonition(line@, i) by {}
    if let Some(caps) = captures(LIST_MARKER, line) {
        if let (Some((a, b)), Some((_, e))) = (caps[2], caps[3]) {
            proof {
                assert(is_item(line@, a as int, b as int, e as int));
                let (a2, b2, e2) = choose|a: int, b: int, e: int| is_item(line@, a, b, e);
                lemma_item_unique(line@, a as int, b as int, e as int, a2, b2, e2);
            }
            highlight_item(out, line, a, b, e);
        }
        return;
    }
    assert(item_of(line@) is None) by {
        if exists|a: int, b: int, e: int| is_item(line@, a, b, e) {
            let (a, b, e) = choose|a: int, b: int, e: int| is_item(line@, a, b, e);
            assert(is_item(line@, a, b, e));
        }
    }
    wrap_inline(out, line);
}

/// A line starts with one admonition at most.
proof fn lemma_one_admonition(line: Seq<char>, i: int, j: int)
    requires
        is_admonition(line, i),
        is_admonition(line, j),
    ensures
        i == j,
{
    reveal_strlit("NOTE");
    reveal_strlit("TIP");
    reveal_strlit("IMPORTANT");
    reveal_strlit("WARNING");
    reveal_strlit("CAUTION");
    assert(source::lead_text(i)[0] == line[0]);
    assert(source::lead_text(j)[0] == line[0]);
}

// ---------------------------------------------------------------------
// Documents
// ---------------------------------------------------------------------

/// Delimiter lines, of canonical length, that open a block whose contents are
/// not marked up further.
pub const VERBATIM_FENCES: [&'static str; 3] = ["----", "....", "++++"];

/// Delimiter lines, of canonical length, that open a block whose contents keep
/// normal inline markup.
pub const PLAIN_FENCES: [&'static str; 5] = ["====", "****", "____", "--", "|==="];

/// Whether `line` is one of the delimiters of canonical length.
pub open spec fn is_canonical_fence(line: Seq<char>) -> bool {
    ||| exists|i: int| 0 <= i < 3 && (#[trigger] VERBATIM_FENCES[i])@ == line
    ||| exists|i: int| 0 <= i < 5 && (#[trigger] PLAIN_FENCES[i])@ == line
}

/// Whether `c` is a character that fences are made of by repeating it.
pub open spec fn is_fence_char(c: char) -> bool {
    is_verbatim_char(c) || c == '=' || c == '*' || c == '_'
}

/// Whether `c` is a character that fences of verbatim blocks are made of.
pub open spec fn is_verbatim_char(c: char) -> bool {
    c == '-' || c == '.' || c == '+'
}

/// Whether `line` is one character over and over, four times or more.
pub open spec fn is_run(line: Seq<char>) -> bool {
    line.len() >= 4 && forall|i: int| 0 <= i < line.len() ==> #[trigger] line[i] == line[0]
}

/// Whether `line` is a delimiter: of canonical length, or a run of one
/// character that is longer.
pub open spec fn is_fence(line: Seq<char>) -> bool {
    is_canonical_fence(line) || (is_run(line) && is_fence_char(line[0]))
}

/// Whether `line` opens a block whose contents are not marked up further.
pub open spec fn is_verbatim_fence(line: Seq<char>) -> bool {
    is_run(line) && is_verbatim_char(line[0])
}

/// Whether the line is one of `fences`.
fn is_one_of(fences: &[&'static str], line: &str) -> (r: bool)
    ensures
        r == exists|i: int| 0 <= i < fences@.len() && (#[trigger] fences@[i])@ == line@,
{
    let mut i: usize = 0;
    while i < fences.len()
        invariant
            i <= fences@.len(),
            forall|j: int| 0 <= j < i ==> (#[trigger] fences@[j])@ != line@,
        decreases fences.len() - i,
    {
        if equal(fences[i], line) {
            assert(fences@[i as int]@ == line@);
            return true;
        }
        i += 1;
    }
    false
}

/// Whether the line is one character over and over, four times or more.
fn run(line: &str) -> (r: bool)
    ensures
        r == is_run(line@),
{
    let chars = chars_of(line);
    if chars.len() < 4 {
        return false;
    }
    let mut i: usize = 0;
    while i < chars.len()
        invariant
            chars@ == line@,
            chars@.len() >= 4,
            i <= chars@.len(),
            forall|j: int| 0 <= j < i ==> #[trigger] chars@[j] == chars@[0],
        decreases chars.len() - i,
    {
        if chars[i] != chars[0] {
            return false;
        }
        i += 1;
    }
    true
}

/// Whether a fence opens a block whose contents are not marked up further.
fn opens_verbatim(fence: &str) -> (r: bool)
    ensures
        r == is_verbatim_fence(fence@),
{
    run(fence) && {
        let first = fence.get_char(0);
        first == '-' || first == '.' || first == '+'
    }
}

/// The fence that a line is, if it is a delimiter.
///
/// AsciiDoc fences may be longer than their canonical four characters (`-----`
/// closes `-----`, not `----`), so the whole run is the delimiter.
pub fn opening_fence<'a>(line: &'a str) -> (r: Option<&'a str>)
    ensures
        r is Some <==> is_fence(line@),
        r matches Some(fence) ==> fence@ == line@,
{
    let verbatim: [&'static str; 3] = VERBATIM_FENCES;
    let plain: [&'static str; 5] = PLAIN_FENCES;
    if is_one_of(&verbatim, line) || is_one_of(&plain, line) {
        return Some(line);
    }
    // Repeated-character fences of non-canonical length.
    if run(line) {
        let first = line.get_char(0);
        if first == '-' || first == '.' || first == '+' || first == '=' || first == '*' || first
            == '_' {
            return Some(line);
        }
    }
    None
}

/// The fence that will close the verbatim block that the lines end in.
pub open spec fn open_fence(lines: Seq<Seq<char>>) -> Option<Seq<char>>
    decreases lines.len(),
{
    if lines.len() == 0 {
        None
    } else {
        let line = text::trimmed_end(lines.last());
        match open_fence(lines.drop_last()) {
            Some(fence) => if line == fence {
                None
            } else {
                Some(fence)
            },
            None => if is_verbatim_fence(line) {
                Some(line)
            } else {
                None
            },
        }
    }
}

/// A line as HTML, given the fence that will close the verbatim block it is
/// in, if it is in one.
pub open spec fn fenced_html(line: Seq<char>, fence: Option<Seq<char>>) -> Seq<char> {
    if fence is Some {
        spanned("verbatim"@, line)
    } else if is_fence(text::trimmed_end(line)) {
        spanned("delim"@, line)
    } else {
        line_html(line)
    }
}

/// The lines as HTML, each with a line feed after it.
pub open spec fn lines_html(lines: Seq<Seq<char>>) -> Seq<char>
    decreases lines.len(),
{
    if lines.len() == 0 {
        Seq::empty()
    } else {
        lines_html(lines.drop_last()) + fenced_html(
            lines.last(),
            open_fence(lines.drop_last()),
        ) + seq!['\n']
    }
}

/// The lines, each with a line feed after it.
spec fn ended(lines: Seq<Seq<char>>) -> Seq<char>
    decreases lines.len(),
{
    if lines.len() == 0 {
        Seq::empty()
    } else {
        ended(lines.drop_last()) + lines.last() + seq!['\n']
    }
}

proof fn lemma_ended(lines: Seq<Seq<char>>)
    requires
        lines.len() > 0,
    ensures
        ended(lines) == text::joined(lines, seq!['\n']).push('\n'),
    decreases lines.len(),
{
    if lines.len() == 1 {
        assert(ended(lines.drop_last()) == Seq::<char>::empty());
        assert(ended(lines) == text::joined(lines, seq!['\n']).push('\n'));
    } else {
        lemma_ended(lines.drop_last());
        assert(ended(lines) == text::joined(lines, seq!['\n']).push('\n'));
    }
}

/// Renders `src` as highlighted HTML for the overlay.
///
/// What is displayed lines up with the source character for character. One
/// line feed is left beyond it: a preformatted element swallows a trailing
/// line break, so the guard line keeps the overlay as tall as the text area
/// when the document ends in one.
pub fn highlight(src: &str) -> (r: String)
    ensures
        r@ == lines_html(text::pieces(src@, '\n')),
        displayed(r@) == src@.push('\n'),
{
    let lines = split(src, '\n');
    let ghost all = text::pieces(src@, '\n');
    let mut out = String::new();
    let mut verbatim: Option<String> = None;
    let mut i: usize = 0;
    proof {
        assert(escaped(Seq::empty()) == Seq::<char>::empty());
        assert(untagged(Seq::empty()) == Seq::<char>::empty());
    }
    while i < lines.len()
        invariant
            text::texts(lines@) == all,
            i <= lines@.len(),
            text::maybe_string(verbatim) == open_fence(all.take(i as int)),
            out@ == lines_html(all.take(i as int)),
            is_dressed(out@, ended(all.take(i as int))),
        decreases lines.len() - i,
    {
        let line = lines[i].as_str();
        let trimmed = trim_end(line);
        let ghost before = out@;
        let ghost fence = open_fence(all.take(i as int));
        proof {
            assert(all.take(i + 1).drop_last() == all.take(i as int));
            assert(all.take(i + 1).last() == line@);
            reveal_strlit("verbatim");
            reveal_strlit("delim");
        }
        let closed = match &verbatim {
            Some(fence) => Some(equal(trimmed, fence)),
            None => None,
        };
        match closed {
            Some(closes) => {
                highlight_whole(&mut out, "verbatim", line);
                if closes {
                    verbatim = None;
                }
            },
            None => {
                if let Some(fence) = opening_fence(trimmed) {
                    highlight_whole(&mut out, "delim", line);
                    if opens_verbatim(fence) {
                        verbatim = Some(fence.to_string());
                    }
                } else {
                    highlight_line(&mut out, line);
                }
            },
        }
        let ghost made = fenced_html(line@, fence);
        assert(out@ == before + made);
        out.push('\n');
        proof {
            lemma_dressed_in_order(before, ended(all.take(i as int)), made, line@);
            lemma_feed();
            lemma_dressed_in_order(
                before + made,
                ended(all.take(i as int)) + line@,
                seq!['\n'],
                seq!['\n'],
            );
            assert(out@ == before + made + seq!['\n']);
        }
        i += 1;
    }
    proof {
        assert(all.take(i as int) == all);
        text::lemma_pieces_count(src@, '\n');
        lemma_ended(all);
        text::law_pieces_join(src@, '\n');
        lemma_unescaped(src@.push('\n'));
    }
    out
}

/// A line feed is displayed as itself.
proof fn lemma_feed()
    ensures
        is_dressed(seq!['\n'], seq!['\n']),
{
    let s = seq!['\n'];
    lemma_escaped_dressed(s);
    assert(s.drop_last() == Seq::<char>::empty());
    assert(escaped(s.drop_last()) == Seq::<char>::empty());
    assert(escaped(s) == s);
}

// ---------------------------------------------------------------------
// What is marked up as what
// ---------------------------------------------------------------------

/// A text that is written in HTML holds no tags, and is read back from it.
pub proof fn law_escaped_read_back(s: Seq<char>)
    ensures
        unescaped(escaped(s)) == s,
        text::free_of(escaped(s), '<'),
        text::free_of(escaped(s), '>'),
{
    lemma_unescaped(s);
    lemma_escaped_bare(s);
}

/// A text is written in HTML character by character: an ampersand and the two
/// brackets by their names, and any other as it is.
pub proof fn law_escaped_in_place(a: Seq<char>, b: Seq<char>, c: char)
    ensures
        escaped(a + b) == escaped(a) + escaped(b),
        escaped(seq!['&']) == "&amp;"@,
        escaped(seq!['<']) == "&lt;"@,
        escaped(seq!['>']) == "&gt;"@,
        c != '&' && c != '<' && c != '>' ==> escaped(seq![c]) == seq![c],
        escaped(Seq::empty()).len() == 0,
    decreases b.len(),
{
    lemma_escaped_one('&');
    lemma_escaped_one('<');
    lemma_escaped_one('>');
    lemma_escaped_one(c);
    if b.len() == 0 {
        assert(a + b == a);
        assert(escaped(a) + escaped(b) == escaped(a));
    } else {
        law_escaped_in_place(a, b.drop_last(), c);
        assert((a + b).drop_last() == a + b.drop_last());
        assert((a + b).last() == b.last());
        assert(escaped(a + b) == escaped(a) + escaped(b));
    }
}

proof fn lemma_escaped_one(c: char)
    ensures
        escaped(seq![c]) == escaped_char(c),
{
    assert(seq![c].drop_last() == Seq::<char>::empty());
    assert(escaped(Seq::empty()) == Seq::<char>::empty());
    assert(escaped(seq![c]) == escaped(seq![c].drop_last()) + escaped_char(c));
    assert(Seq::<char>::empty() + escaped_char(c) == escaped_char(c));
}

/// A text in a span opens with a tag of its class, closes with the end of it,
/// and displays the text.
pub proof fn law_span_displays_its_text(class: Seq<char>, s: Seq<char>)
    requires
        text::free_of(class, '<'),
        text::free_of(class, '>'),
    ensures
        ({
            let made = spanned(class, s);
            let opening = "<span class=\"ad-"@ + class + "\">"@;
            let closing = "</span>"@;
            let n = made.len() as int;
            &&& opening.len() + closing.len() <= n
            &&& made.take(opening.len() as int) == opening
            &&& made.skip(n - closing.len()) == closing
            &&& unescaped(made.subrange(opening.len() as int, n - closing.len())) == s
            &&& displayed(made) == s
        }),
{
    let made = spanned(class, s);
    let opening = "<span class=\"ad-"@ + class + "\">"@;
    let closing = "</span>"@;
    let n = made.len() as int;
    assert(made.take(opening.len() as int) == opening);
    assert(made.skip(n - closing.len()) == closing);
    assert(made.subrange(opening.len() as int, n - closing.len()) == escaped(s));
    lemma_unescaped(s);
    lemma_escaped_bare(s);
    lemma_tagged(class, escaped(s));
}

/// Whether `s` is four or more of one character, which is one of `-`, `.` and
/// `+`.
pub open spec fn is_listing_run(s: Seq<char>) -> bool {
    &&& s.len() >= 4
    &&& s[0] == '-' || s[0] == '.' || s[0] == '+'
    &&& s == text::repeated(s[0], s.len())
}

proof fn lemma_runs(s: Seq<char>)
    ensures
        is_run(s) <==> s.len() >= 4 && s == text::repeated(s[0], s.len()),
        is_verbatim_fence(s) <==> is_listing_run(s),
{
    if s.len() >= 4 && s == text::repeated(s[0], s.len()) {
        assert forall|i: int| 0 <= i < s.len() implies #[trigger] s[i] == s[0] by {
            assert(text::repeated(s[0], s.len())[i] == s[0]);
        }
    }
    if is_run(s) {
        assert(s == text::repeated(s[0], s.len()));
    }
}

/// A verbatim block runs from a line of four or more dashes, dots or pluses to
/// the next line that is just as long a run of them, and no line between closes
/// it, whatever it is.
pub proof fn law_verbatim_block_runs_to_its_fence(lines: Seq<Seq<char>>, i: int, j: int)
    requires
        0 <= i < j <= lines.len(),
        open_fence(lines.take(i)) is None,
        is_listing_run(text::trimmed_end(lines[i])),
        forall|k: int|
            i < k < j ==> text::trimmed_end(#[trigger] lines[k]) != text::trimmed_end(lines[i]),
    ensures
        open_fence(lines.take(j)) == Some(text::trimmed_end(lines[i])),
        j < lines.len() && text::trimmed_end(lines[j]) == text::trimmed_end(lines[i])
            ==> open_fence(lines.take(j + 1)) is None,
    decreases j,
{
    let fence = text::trimmed_end(lines[i]);
    lemma_runs(fence);
    assert(lines.take(j).drop_last() == lines.take(j - 1));
    assert(lines.take(j).last() == lines[j - 1]);
    if j - 1 > i {
        law_verbatim_block_runs_to_its_fence(lines, i, j - 1);
        assert(text::trimmed_end(lines[j - 1]) != fence);
    }
    if j < lines.len() {
        assert(lines.take(j + 1).drop_last() == lines.take(j));
        assert(lines.take(j + 1).last() == lines[j]);
    }
}

/// Outside of a verbatim block no other line opens one, and there is none
/// before the first line.
pub proof fn law_other_lines_open_nothing(lines: Seq<Seq<char>>, line: Seq<char>)
    requires
        open_fence(lines) is None,
        !is_listing_run(text::trimmed_end(line)),
    ensures
        open_fence(lines.push(line)) is None,
        open_fence(Seq::empty()) is None,
{
    assert(lines.push(line).drop_last() == lines);
    lemma_runs(text::trimmed_end(line));
}

/// The delimiters are `--`, `|===`, and every run of four or more of one of
/// `-`, `.`, `+`, `=`, `*` and `_`.
pub proof fn law_delimiters_are_runs(line: Seq<char>)
    ensures
        is_fence(line) <==> {
            ||| line == "--"@
            ||| line == "|==="@
            ||| line.len() >= 4 && line == text::repeated(line[0], line.len()) && (line[0] == '-'
                || line[0] == '.' || line[0] == '+' || line[0] == '=' || line[0] == '*' || line[0]
                == '_')
        },
{
    reveal_strlit("----");
    reveal_strlit("....");
    reveal_strlit("++++");
    reveal_strlit("====");
    reveal_strlit("****");
    reveal_strlit("____");
    reveal_strlit("--");
    reveal_strlit("|===");
    lemma_runs(line);
    assert(VERBATIM_FENCES[0]@ == "----"@ && VERBATIM_FENCES[1]@ == "...."@ && VERBATIM_FENCES[2]@
        == "++++"@);
    assert(PLAIN_FENCES[0]@ == "===="@ && PLAIN_FENCES[1]@ == "****"@ && PLAIN_FENCES[2]@
        == "____"@ && PLAIN_FENCES[3]@ == "--"@ && PLAIN_FENCES[4]@ == "|==="@);
    assert("----"@ == text::repeated('-', 4));
    assert("...."@ == text::repeated('.', 4));
    assert("++++"@ == text::repeated('+', 4));
    assert("===="@ == text::repeated('=', 4));
    assert("****"@ == text::repeated('*', 4));
    assert("____"@ == text::repeated('_', 4));
    if line == "--"@ {
        assert(PLAIN_FENCES[3]@ == line);
    }
    if line == "|==="@ {
        assert(PLAIN_FENCES[4]@ == line);
    }
}

/// Lines are marked up one after another, each by what stands above it: a line
/// in a verbatim block as verbatim, its closing fence with it; any other
/// delimiter as a delimiter; every other line by what it is.
pub proof fn law_lines_in_order(lines: Seq<Seq<char>>, line: Seq<char>)
    ensures
        lines_html(lines.push(line)) == lines_html(lines) + (if open_fence(lines) is Some {
            spanned("verbatim"@, line)
        } else if is_fence(text::trimmed_end(line)) {
            spanned("delim"@, line)
        } else {
            line_html(line)
        }) + seq!['\n'],
        lines_html(Seq::empty()).len() == 0,
{
    assert(lines.push(line).drop_last() == lines);
    assert(lines.push(line).last() == line);
}

proof fn lemma_not_a_comment(line: Seq<char>)
    requires
        line.len() > 0,
        !text::is_space(line[0]),
    ensures
        "//"@.is_prefix_of(text::trimmed_start(line)) <==> line.len() > 1 && line[0] == '/'
            && line[1] == '/',
{
    reveal_strlit("//");
    assert(line.take(0).len() == 0);
    text::lemma_spaces_before_is(line, 0);
    assert(line.skip(0) == line);
    if "//"@.is_prefix_of(line) {
        assert(line.subrange(0, 2) == "//"@);
        assert(line.subrange(0, 2)[0] == line[0]);
        assert(line.subrange(0, 2)[1] == line[1]);
    }
    if line.len() > 1 && line[0] == '/' && line[1] == '/' {
        assert(line.subrange(0, 2) == "//"@);
    }
}

/// The first letters of the labels of admonitions.
proof fn lemma_admonition_starts(line: Seq<char>, i: int)
    requires
        is_admonition(line, i),
    ensures
        line.len() > 0,
        line[0] == 'N' || line[0] == 'T' || line[0] == 'I' || line[0] == 'W' || line[0] == 'C',
{
    reveal_strlit("NOTE");
    reveal_strlit("TIP");
    reveal_strlit("IMPORTANT");
    reveal_strlit("WARNING");
    reveal_strlit("CAUTION");
    let lead = source::lead_text(i);
    assert(line.subrange(0, lead.len() as int) == lead);
    assert(line.subrange(0, lead.len() as int)[0] == line[0]);
}

/// A line that starts with two slashes, after white space or none, is a comment
/// as a whole.
pub proof fn law_comment_lines(indent: Seq<char>, rest: Seq<char>)
    requires
        text::is_blank(indent),
    ensures
        ({
            let line = indent + seq!['/', '/'] + rest;
            line_html(line) == spanned("comment"@, line)
        }),
{
    reveal_strlit("//");
    let line = indent + seq!['/', '/'] + rest;
    let n = indent.len() as int;
    assert(line.take(n) == indent);
    text::lemma_spaces_before_is(line, n);
    let t = text::trimmed_start(line);
    assert(t == seq!['/', '/'] + rest);
    assert(t.subrange(0, 2) == "//"@);
}

/// A section title, an attribute list and a block title are each marked up as a
/// whole, by the characters they start with.
pub proof fn law_whole_lines(level: nat, rest: Seq<char>, c: char)
    requires
        c != ' ',
        c != '.',
    ensures
        1 <= level <= 6 ==> {
            let line = text::repeated('=', level) + seq![' '] + rest;
            line_html(line) == spanned("heading"@, line)
        },
        ({
            let line = seq!['['] + rest + seq![']'];
            line_html(line) == spanned("attr-list"@, line)
        }),
        ({
            let line = seq!['.', c] + rest;
            line_html(line) == spanned("block-title"@, line)
        }),
{
    reveal_strlit(". ");
    reveal_strlit("..");
    if 1 <= level <= 6 {
        let line = text::repeated('=', level) + seq![' '] + rest;
        lemma_not_a_comment(line);
        assert(line[0] == '=');
        assert(source::is_heading(line, level as int));
    }
    let list = seq!['['] + rest + seq![']'];
    lemma_not_a_comment(list);
    assert(list.skip(list.len() as int).len() == 0);
    text::lemma_spaces_after_is(list, list.len() as int);
    assert(text::trimmed_end(list) == list);
    assert(list[0] == '[');
    assert(!is_attribute_entry(list));
    let title = seq!['.', c] + rest;
    lemma_not_a_comment(title);
    assert(title[0] == '.' && title[1] == c);
    assert(!is_attribute_entry(title));
    assert(!". "@.is_prefix_of(title)) by {
        if ". "@.is_prefix_of(title) {
            assert(title.subrange(0, 2)[1] == ' ');
        }
    }
    assert(!".."@.is_prefix_of(title)) by {
        if ".."@.is_prefix_of(title) {
            assert(title.subrange(0, 2)[1] == '.');
        }
    }
}

/// A line that starts with a colon, a name and another colon is an attribute
/// entry as a whole, whether the name is negated or not.
pub proof fn law_attribute_entries(before: bool, name: Seq<char>, after: bool, rest: Seq<char>)
    requires
        name.len() > 0,
        name[0] != '-',
        forall|i: int|
            0 <= i < name.len() ==> {
                let c = #[trigger] name[i];
                ||| 'a' <= c && c <= 'z'
                ||| 'A' <= c && c <= 'Z'
                ||| '0' <= c && c <= '9'
                ||| c == '_'
                ||| c == '-'
            },
    ensures
        ({
            let line = seq![':'] + (if before {
                seq!['!']
            } else {
                Seq::empty()
            }) + name + (if after {
                seq!['!']
            } else {
                Seq::empty()
            }) + seq![':'] + rest;
            line_html(line) == spanned("attr-entry"@, line)
        }),
{
    let first = if before {
        seq!['!']
    } else {
        Seq::empty()
    };
    let last = if after {
        seq!['!']
    } else {
        Seq::empty()
    };
    let line = seq![':'] + first + name + last + seq![':'] + rest;
    lemma_not_a_comment(line);
    assert(line[0] == ':');
    let n = 1 + first.len() + name.len() + last.len();
    let from = 1 + first.len();
    assert(line[n as int] == ':');
    assert(line[from as int] == name[0]);
    if !before {
        assert(line[1] == name[0]);
    }
    if !after {
        assert(line[n - 1] == name[name.len() - 1]);
    } else {
        assert(line[n - 1] == '!');
    }
    assert forall|i: int| from < i < from + name.len() implies is_word(#[trigger] line[i])
        || line[i] == '-' by {
        assert(line[i] == name[i - from]);
    }
    assert(is_entry(line, n as int));
}

/// The label of an admonition is marked up by itself, with its colon and its
/// space, and what follows as text.
pub proof fn law_admonition_lines(i: int, rest: Seq<char>)
    requires
        0 <= i < 5,
    ensures
        ({
            let lead = source::ADMONITIONS[i]@ + seq![':', ' '];
            line_html(lead + rest) == spanned("admonition"@, lead) + inlined(rest)
        }),
{
    let lead = source::lead_text(i);
    let line = lead + rest;
    assert(line.subrange(0, lead.len() as int) == lead);
    assert(is_admonition(line, i));
    lemma_admonition_starts(line, i);
    lemma_not_a_comment(line);
    assert(!is_attribute_entry(line));
    let j = choose|j: int| is_admonition(line, j);
    assert(is_admonition(line, j));
    lemma_one_admonition(line, i, j);
    assert(line.take(lead.len() as int) == lead);
    assert(line.skip(lead.len() as int) == rest);
}

/// The marker of a list item is marked up by itself, wherever it is indented
/// to: a run of stars and dashes, a run of dots, a number and a dot, or a letter
/// and a dot, with white space after it. What follows is marked up as text.
#[verifier::rlimit(30)]
#[verifier::spinoff_prover]
pub proof fn law_item_lines(
    indent: Seq<char>,
    marker: Seq<char>,
    gap: Seq<char>,
    words: Seq<char>,
)
    requires
        text::is_blank(indent),
        gap.len() > 0,
        text::is_blank(gap),
        words.len() > 0 ==> !text::is_space(words[0]),
        marker.len() > 0,
        ({
            ||| forall|i: int|
                0 <= i < marker.len() ==> #[trigger] marker[i] == '*' || marker[i] == '-'
            ||| marker == text::repeated('.', marker.len()) && gap[0] == ' '
            ||| marker.len() > 1 && marker.last() == '.' && forall|i: int|
                0 <= i < marker.len() - 1 ==> '0' <= #[trigger] marker[i] && marker[i] <= '9'
            ||| marker.len() == 2 && marker[1] == '.' && (('a' <= marker[0] && marker[0] <= 'z') || (
            'A' <= marker[0] && marker[0] <= 'Z'))
        }),
    ensures
        line_html(indent + marker + gap + words) == escaped(indent) + spanned("marker"@, marker)
            + escaped(gap) + inlined(words),
{
    reveal_strlit("//");
    reveal_strlit(". ");
    reveal_strlit("..");
    let line = indent + marker + gap + words;
    let a = indent.len() as int;
    let b = a + marker.len();
    let e = b + gap.len();
    assert(may_be_marker(marker)) by {
        if marker == text::repeated('.', marker.len()) {
            assert forall|i: int| 0 <= i < marker.len() implies #[trigger] marker[i] == '.' by {
                assert(text::repeated('.', marker.len())[i] == '.');
            }
        }
    }
    assert(is_plain(marker)) by {
        assert forall|i: int| 0 <= i < marker.len() implies #[trigger] marker[i] <= '\u{7f}' by {
            if marker == text::repeated('.', marker.len()) {
                assert(text::repeated('.', marker.len())[i] == '.');
            }
        }
    }
    lemma_marker_solid(marker, 0);
    assert(line.take(a) == indent);
    assert(line[a] == marker[0]);
    text::lemma_spaces_before_is(line, a);
    assert(line.subrange(a, b) == marker);
    assert(line.subrange(b, e) == gap);
    assert(e < line.len() ==> line[e] == words[0]);
    assert(is_item(line, a, b, e));
    let (a2, b2, e2) = choose|a: int, b: int, e: int| is_item(line, a, b, e);
    assert(is_item(line, a2, b2, e2));
    lemma_item_unique(line, a, b, e, a2, b2, e2);
    assert(item_of(line) == Some((a, b, e)));
    assert(line.skip(e) == words);
    assert(marker[0] != '/');
    assert(!"//"@.is_prefix_of(text::trimmed_start(line))) by {
        let t = text::trimmed_start(line);
        assert(t == line.skip(a));
        if "//"@.is_prefix_of(t) {
            assert(t.subrange(0, 2)[0] == '/');
        }
    }
    if a > 0 {
        assert(line[0] == indent[0]);
        assert(text::is_space(line[0]));
    }
    assert(line[0] != '=' && line[0] != ':' && line[0] != '[');
    assert forall|i: int| !is_admonition(line, i) by {
        if is_admonition(line, i) {
            lemma_admonition_starts(line, i);
            let lead = source::lead_text(i);
            reveal_strlit("NOTE");
            reveal_strlit("TIP");
            reveal_strlit("IMPORTANT");
            reveal_strlit("WARNING");
            reveal_strlit("CAUTION");
            assert(line.subrange(0, lead.len() as int) == lead);
            assert(line.subrange(0, lead.len() as int)[1] == line[1]);
            assert(line[1] == marker[1]);
        }
    }
    assert(!is_dotted(line)) by {
        if text::begins(line, '.') {
            assert(a == 0);
            assert(marker[0] == '.');
            if marker.len() == 1 {
                assert(line[1] == gap[0]);
                if gap[0] == ' ' {
                    assert(line.subrange(0, 2) == ". "@);
                }
            } else {
                assert(line[1] == marker[1]);
                assert(marker[1] == '.');
                assert(line.subrange(0, 2) == ".."@);
            }
        }
    }
}

/// Any other line is marked up as text: one that starts with a character that
/// none of the above do.
pub proof fn law_other_lines_are_text(line: Seq<char>)
    requires
        line.len() > 0 ==> {
            let c = line[0];
            &&& !text::is_space(c)
            &&& c != '/' && c != '=' && c != ':' && c != '[' && c != '.' && c != '*' && c != '-'
            &&& c <= '\u{7f}'
            &&& !('0' <= c && c <= '9')
            &&& line.len() > 1 ==> line[1] != '.'
            &&& c != 'N' && c != 'T' && c != 'I' && c != 'W' && c != 'C'
        },
    ensures
        line_html(line) == inlined(line),
{
    reveal_strlit("//");
    if line.len() == 0 {
        assert(text::trimmed_start(line).len() == 0) by {
            text::lemma_spaces_before(line);
        }
        assert forall|i: int| !is_admonition(line, i) by {
            if is_admonition(line, i) {
                lemma_admonition_starts(line, i);
            }
        }
        assert(item_of(line) is None);
    } else {
        lemma_not_a_comment(line);
        assert(!is_attribute_entry(line));
        assert forall|i: int| !is_admonition(line, i) by {
            if is_admonition(line, i) {
                lemma_admonition_starts(line, i);
            }
        }
        assert forall|a: int, b: int, e: int| !is_item(line, a, b, e) by {
            if is_item(line, a, b, e) {
                text::lemma_spaces_before_is(line, 0);
                assert(a == 0);
                let m = line.subrange(a, b);
                assert(m[0] == line[0]);
                if m.len() > 1 {
                    assert(m[1] == line[1]);
                }
                assert(m.last() == m[m.len() - 1]);
            }
        }
        assert(item_of(line) is None);
    }
}

/// Text that holds one of the five characters that constructs are made of is
/// marked up by the constructs that are found in it; other text holds none.
pub proof fn law_text_is_marked_up(s: Seq<char>)
    ensures
        (exists|i: int|
            0 <= i < escaped(s).len() && (#[trigger] escaped(s)[i] == '`' || escaped(s)[i] == '*'
                || escaped(s)[i] == '_' || escaped(s)[i] == ':' || escaped(s)[i] == '{'))
            ==> inlined(s) == woven(escaped(s), pattern_captured_all(INLINE@, escaped(s))),
        (forall|i: int|
            0 <= i < escaped(s).len() ==> #[trigger] escaped(s)[i] != '`' && escaped(s)[i] != '*'
                && escaped(s)[i] != '_' && escaped(s)[i] != ':' && escaped(s)[i] != '{')
            ==> inlined(s) == escaped(s),
{
}

/// Each match is put in a span of the class of its construct, where it stands;
/// what is between the matches stays.
pub proof fn law_matches_in_spans(
    s: Seq<char>,
    found: Seq<Seq<Option<(usize, usize)>>>,
    caps: Seq<Option<(usize, usize)>>,
    g: int,
)
    requires
        are_matches(found, s.len() as int),
        caps.len() == 7,
        1 <= g <= 6,
        caps[0] is Some,
        caps[g] == caps[0],
        forall|j: int| 1 <= j <= 6 && j != g ==> #[trigger] caps[j] is None,
        ending(found) <= (caps[0]->0).0 <= (caps[0]->0).1 <= s.len(),
    ensures
        are_matches(found.push(caps), s.len() as int),
        ({
            let (from, to) = caps[0]->0;
            let class = if g == 1 {
                "code"@
            } else if g == 2 {
                "bold"@
            } else if g == 3 {
                "italic"@
            } else if g == 4 {
                "mac"@
            } else if g == 5 {
                "url"@
            } else {
                "attr"@
            };
            let before = woven(s, found);
            let left = s.len() - from;
            &&& left <= before.len()
            &&& before.skip(before.len() - left) == s.skip(from as int)
            &&& woven(s, found.push(caps)) == before.take(before.len() - left) + (
            "<span class=\"ad-"@ + class + "\">"@ + s.subrange(from as int, to as int)
                + "</span>"@) + s.skip(to as int)
        }),
        woven(s, Seq::empty()) == s,
{
    let more = found.push(caps);
    let (from, to) = caps[0]->0;
    assert(more.drop_last() == found);
    assert(more.last() == caps);
    assert(is_construct(caps, g));
    lemma_construct(caps, g);
    let at = ending(found);
    lemma_ending(found, s.len() as int);
    let head = woven_to(s, found);
    let before = woven(s, found);
    let left = s.len() - from;
    assert(before == head + s.skip(at));
    assert(before.skip(before.len() - left) == s.skip(from as int));
    assert(before.take(before.len() - left) == head + s.subrange(at, from as int));
    assert(s.skip(0) == s);
    assert(woven(s, Seq::empty()) == Seq::<char>::empty() + s.skip(0));
}

proof fn lemma_ending(found: Seq<Seq<Option<(usize, usize)>>>, n: int)
    requires
        are_matches(found, n),
        0 <= n,
    ensures
        0 <= ending(found) <= n,
{
    if found.len() > 0 {
        let caps = found.last();
        let g = choose|g: int| is_construct(caps, g);
        assert(is_construct(caps, g));
    }
}

} // verus!
