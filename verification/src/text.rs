//! Characters, lines and the pieces of a text.
//!
//! The rest of the library speaks of a text as the sequence of its
//! characters. This module gives the words for taking such a sequence apart
//! and putting it together again, and the functions that do it.
use vstd::prelude::*;

verus! {

// ---------------------------------------------------------------------
// Strings and their characters
// ---------------------------------------------------------------------

/// Appends one character to the end of a string, as `String::push` documents.
pub assume_specification[ String::push ](s: &mut String, c: char)
    ensures
        final(s)@ == old(s)@.push(c),
;

/// How many characters a vector has room for, by `Vec::capacity`.
///
/// A vector never holds more than its capacity, and its capacity never takes
/// more than `isize::MAX` bytes, of which each `char` is four.
#[verifier::external_body]
fn room(v: &Vec<char>) -> (n: usize)
    ensures
        v@.len() <= n,
        4 * n <= isize::MAX,
{
    v.capacity()
}

/// The characters of `s`.
pub fn chars_of(s: &str) -> (v: Vec<char>)
    ensures
        v@ == s@,
        4 * v@.len() <= isize::MAX,
{
    let mut v: Vec<char> = Vec::new();
    for c in it: s.chars()
        invariant
            v@ == it.seq().take(it.index()),
    {
        v.push(c);
    }
    let _ = room(&v);
    v
}

/// The string made of the characters in `v`.
pub fn string_of(v: &[char]) -> (s: String)
    ensures
        s@ == v@,
{
    string_between(v, 0, v.len())
}

/// The string made of the characters of `v` from `from` up to `to`.
pub fn string_between(v: &[char], from: usize, to: usize) -> (s: String)
    requires
        from <= to <= v@.len(),
    ensures
        s@ == v@.subrange(from as int, to as int),
{
    let mut s = String::new();
    let mut i: usize = from;
    while i < to
        invariant
            from <= i <= to <= v@.len(),
            s@ == v@.subrange(from as int, i as int),
        decreases to - i,
    {
        s.push(v[i]);
        i += 1;
    }
    s
}

/// What the strings of a list hold.
pub open spec fn texts(v: Seq<String>) -> Seq<Seq<char>> {
    Seq::new(v.len(), |i: int| v[i]@)
}

/// What the character vectors of a list hold.
pub open spec fn rows(v: Seq<Vec<char>>) -> Seq<Seq<char>> {
    Seq::new(v.len(), |i: int| v[i]@)
}

/// Whether two texts are the same.
pub fn equal(a: &str, b: &str) -> (r: bool)
    ensures
        r == (a@ == b@),
{
    let left = chars_of(a);
    let right = chars_of(b);
    if left.len() != right.len() {
        return false;
    }
    let mut i: usize = 0;
    while i < left.len()
        invariant
            left@ == a@,
            right@ == b@,
            left@.len() == right@.len(),
            i <= left@.len(),
            forall|j: int| 0 <= j < i ==> #[trigger] left@[j] == right@[j],
        decreases left.len() - i,
    {
        if left[i] != right[i] {
            return false;
        }
        i += 1;
    }
    assert(a@ == b@);
    true
}

// ---------------------------------------------------------------------
// White space
// ---------------------------------------------------------------------

/// The characters with Unicode's White_Space property.
pub open spec fn is_space(c: char) -> bool {
    ||| '\u{9}' <= c && c <= '\u{d}'
    ||| c == ' '
    ||| c == '\u{85}'
    ||| c == '\u{a0}'
    ||| c == '\u{1680}'
    ||| '\u{2000}' <= c && c <= '\u{200a}'
    ||| c == '\u{2028}'
    ||| c == '\u{2029}'
    ||| c == '\u{202f}'
    ||| c == '\u{205f}'
    ||| c == '\u{3000}'
}

/// Whether `c` is white space.
pub fn is_whitespace(c: char) -> (r: bool)
    ensures
        r == is_space(c),
{
    ('\u{9}' <= c && c <= '\u{d}') || c == ' ' || c == '\u{85}' || c == '\u{a0}' || c == '\u{1680}'
        || ('\u{2000}' <= c && c <= '\u{200a}') || c == '\u{2028}' || c == '\u{2029}'
        || c == '\u{202f}' || c == '\u{205f}' || c == '\u{3000}'
}

/// Whether every character of `s` is white space.
pub open spec fn is_blank(s: Seq<char>) -> bool {
    forall|i: int| 0 <= i < s.len() ==> is_space(#[trigger] s[i])
}

/// How many characters of white space `s` starts with.
pub open spec fn spaces_before(s: Seq<char>) -> nat
    decreases s.len(),
{
    if s.len() > 0 && is_space(s[0]) {
        1 + spaces_before(s.drop_first())
    } else {
        0
    }
}

/// How many characters of white space `s` ends with.
pub open spec fn spaces_after(s: Seq<char>) -> nat
    decreases s.len(),
{
    if s.len() > 0 && is_space(s.last()) {
        1 + spaces_after(s.drop_last())
    } else {
        0
    }
}

/// `s` without the white space it starts with.
pub open spec fn trimmed_start(s: Seq<char>) -> Seq<char> {
    s.skip(spaces_before(s) as int)
}

/// `s` without the white space it ends with.
pub open spec fn trimmed_end(s: Seq<char>) -> Seq<char> {
    s.take(s.len() - spaces_after(s))
}

/// `s` without the white space around it.
pub open spec fn trimmed(s: Seq<char>) -> Seq<char> {
    trimmed_end(trimmed_start(s))
}

pub proof fn lemma_spaces_before(s: Seq<char>)
    ensures
        spaces_before(s) <= s.len(),
        is_blank(s.take(spaces_before(s) as int)),
        spaces_before(s) < s.len() ==> !is_space(s[spaces_before(s) as int]),
    decreases s.len(),
{
    if s.len() > 0 && is_space(s[0]) {
        lemma_spaces_before(s.drop_first());
        let k = spaces_before(s) as int;
        assert forall|i: int| 0 <= i < k implies is_space(#[trigger] s.take(k)[i]) by {
            if i > 0 {
                assert(s.drop_first().take(k - 1)[i - 1] == s[i]);
            }
        }
    }
}

pub proof fn lemma_spaces_before_is(s: Seq<char>, k: int)
    requires
        0 <= k <= s.len(),
        is_blank(s.take(k)),
        k < s.len() ==> !is_space(s[k]),
    ensures
        spaces_before(s) == k,
{
    lemma_spaces_before(s);
    let n = spaces_before(s) as int;
    if n < k {
        assert(is_space(s.take(k)[n]));
    } else if k < n {
        assert(is_space(s.take(n)[k]));
    }
}

pub proof fn lemma_spaces_after(s: Seq<char>)
    ensures
        spaces_after(s) <= s.len(),
        is_blank(s.skip(s.len() - spaces_after(s))),
        spaces_after(s) < s.len() ==> !is_space(s[s.len() - spaces_after(s) - 1]),
    decreases s.len(),
{
    if s.len() > 0 && is_space(s.last()) {
        lemma_spaces_after(s.drop_last());
        let k = s.len() - spaces_after(s);
        assert forall|i: int| 0 <= i < s.len() - k implies is_space(#[trigger] s.skip(k)[i]) by {
            if i < s.len() - k - 1 {
                assert(s.drop_last().skip(k)[i] == s[k + i]);
            }
        }
    }
}

pub proof fn lemma_spaces_after_is(s: Seq<char>, k: int)
    requires
        0 <= k <= s.len(),
        is_blank(s.skip(k)),
        k > 0 ==> !is_space(s[k - 1]),
    ensures
        spaces_after(s) == s.len() - k,
{
    lemma_spaces_after(s);
    let n = s.len() - spaces_after(s);
    if n < k {
        assert(is_space(s.skip(n)[k - 1 - n]));
    } else if k < n {
        assert(is_space(s.skip(k)[n - 1 - k]));
    }
}

/// What is left after trimming has no white space at either end, and is the
/// middle of what was there.
pub proof fn lemma_trimmed(s: Seq<char>)
    ensures
        trimmed(s).len() <= s.len(),
        trimmed(s).len() > 0 ==> !is_space(trimmed(s)[0]) && !is_space(trimmed(s).last()),
        trimmed(s).len() == 0 <==> is_blank(s),
        trimmed(s).len() > 0 ==> spaces_before(s) + trimmed(s).len() <= s.len(),
        trimmed(s).len() > 0 ==> trimmed(s) == s.subrange(
            spaces_before(s) as int,
            (spaces_before(s) + trimmed(s).len()) as int,
        ),
{
    lemma_spaces_before(s);
    let t = trimmed_start(s);
    lemma_spaces_after(t);
    let b = spaces_before(s) as int;
    if t.len() > 0 {
        assert(t[0] == s[b]);
        if spaces_after(t) == t.len() {
            assert(is_space(t.skip(0)[0]));
        }
        assert(!is_space(s[b]));
    } else {
        assert(s.take(b) == s);
    }
}

/// A text with no white space at either end is left as it is.
pub proof fn lemma_trimmed_keeps(s: Seq<char>)
    requires
        s.len() > 0 ==> !is_space(s[0]) && !is_space(s.last()),
    ensures
        trimmed(s) == s,
        trimmed_start(s) == s,
        trimmed_end(s) == s,
{
    assert(s.skip(0) == s);
    assert(s.take(s.len() as int) == s);
}

/// Trimming a second time changes nothing.
pub proof fn lemma_trimmed_twice(s: Seq<char>)
    ensures
        trimmed(trimmed(s)) == trimmed(s),
        trimmed_start(trimmed(s)) == trimmed(s),
        trimmed_end(trimmed(s)) == trimmed(s),
{
    lemma_trimmed(s);
    lemma_trimmed_keeps(trimmed(s));
}

/// Whether there is nothing but white space in `s`.
pub fn blank(s: &str) -> (r: bool)
    ensures
        r == is_blank(s@),
{
    let chars = chars_of(s);
    let mut i: usize = 0;
    while i < chars.len()
        invariant
            chars@ == s@,
            i <= chars@.len(),
            forall|j: int| 0 <= j < i ==> is_space(#[trigger] chars@[j]),
        decreases chars.len() - i,
    {
        if !is_whitespace(chars[i]) {
            return false;
        }
        i += 1;
    }
    true
}

/// How many characters of white space `chars` starts with.
pub fn leading_spaces(chars: &[char]) -> (k: usize)
    ensures
        k == spaces_before(chars@),
        k <= chars@.len(),
{
    let mut k: usize = 0;
    while k < chars.len() && is_whitespace(chars[k])
        invariant
            k <= chars@.len(),
            is_blank(chars@.take(k as int)),
        decreases chars.len() - k,
    {
        k += 1;
    }
    proof {
        lemma_spaces_before_is(chars@, k as int);
    }
    k
}

/// Where the white space that `chars` ends with begins.
pub fn trailing_spaces(chars: &[char]) -> (k: usize)
    ensures
        k == chars@.len() - spaces_after(chars@),
        k <= chars@.len(),
{
    let mut k: usize = chars.len();
    while k > 0 && is_whitespace(chars[k - 1])
        invariant
            k <= chars@.len(),
            is_blank(chars@.skip(k as int)),
        decreases k,
    {
        proof {
            assert forall|i: int| 0 <= i < chars@.len() - (k - 1) implies is_space(
                #[trigger] chars@.skip(k - 1)[i],
            ) by {
                if i > 0 {
                    assert(chars@.skip(k as int)[i - 1] == chars@.skip(k - 1)[i]);
                }
            }
        }
        k -= 1;
    }
    proof {
        lemma_spaces_after_is(chars@, k as int);
    }
    k
}

/// `s` without the white space it starts with.
pub fn trim_start<'a>(s: &'a str) -> (r: &'a str)
    ensures
        r@ == trimmed_start(s@),
{
    let chars = chars_of(s);
    s.substring_char(leading_spaces(&chars), chars.len())
}

/// `s` without the white space it ends with.
pub fn trim_end<'a>(s: &'a str) -> (r: &'a str)
    ensures
        r@ == trimmed_end(s@),
{
    let chars = chars_of(s);
    s.substring_char(0, trailing_spaces(&chars))
}

/// `s` without the white space around it.
pub fn trim<'a>(s: &'a str) -> (r: &'a str)
    ensures
        r@ == trimmed(s@),
{
    trim_end(trim_start(s))
}

// ---------------------------------------------------------------------
// Beginnings, ends and occurrences
// ---------------------------------------------------------------------

/// Whether `s` starts with the character `c`.
pub open spec fn begins(s: Seq<char>, c: char) -> bool {
    s.len() > 0 && s[0] == c
}

/// Whether `s` ends with the character `c`.
pub open spec fn ends(s: Seq<char>, c: char) -> bool {
    s.len() > 0 && s.last() == c
}

/// Whether `pattern` stands in `s` from position `i` on.
pub open spec fn occurs_at(s: Seq<char>, pattern: Seq<char>, i: int) -> bool {
    0 <= i && i + pattern.len() <= s.len() && s.subrange(i, i + pattern.len()) == pattern
}

/// Whether `i` is the first place where `pattern` stands in `s`.
pub open spec fn first_at(s: Seq<char>, pattern: Seq<char>, i: int) -> bool {
    occurs_at(s, pattern, i) && forall|j: int| j < i ==> !#[trigger] occurs_at(s, pattern, j)
}

/// Whether `i` is the last place where `pattern` stands in `s`.
pub open spec fn last_at(s: Seq<char>, pattern: Seq<char>, i: int) -> bool {
    occurs_at(s, pattern, i) && forall|j: int| i < j ==> !#[trigger] occurs_at(s, pattern, j)
}

/// The first place where `pattern` stands in `s`, if there is one.
pub open spec fn place_of(s: Seq<char>, pattern: Seq<char>) -> Option<int> {
    if exists|i: int| first_at(s, pattern, i) {
        Some(choose|i: int| first_at(s, pattern, i))
    } else {
        None
    }
}

pub proof fn lemma_place_of(s: Seq<char>, pattern: Seq<char>, i: int)
    requires
        first_at(s, pattern, i),
    ensures
        place_of(s, pattern) == Some(i),
{
    let k = choose|k: int| first_at(s, pattern, k);
    assert(first_at(s, pattern, k));
    assert(occurs_at(s, pattern, k) && occurs_at(s, pattern, i));
}

pub proof fn lemma_no_place(s: Seq<char>, pattern: Seq<char>)
    requires
        forall|i: int| !#[trigger] occurs_at(s, pattern, i),
    ensures
        place_of(s, pattern) is None,
{
}

/// Whether `s` starts with `prefix`.
pub fn starts_with(s: &str, prefix: &str) -> (r: bool)
    ensures
        r == prefix@.is_prefix_of(s@),
{
    let n = prefix.unicode_len();
    if n > s.unicode_len() {
        return false;
    }
    equal(s.substring_char(0, n), prefix)
}

/// Whether `s` starts with the character `c`.
pub fn starts_with_char(s: &str, c: char) -> (r: bool)
    ensures
        r == begins(s@, c),
{
    s.unicode_len() > 0 && s.get_char(0) == c
}

/// Whether `s` ends with the character `c`.
pub fn ends_with_char(s: &str, c: char) -> (r: bool)
    ensures
        r == ends(s@, c),
{
    let n = s.unicode_len();
    n > 0 && s.get_char(n - 1) == c
}

/// The first place where `pattern` stands in `s`, if there is one.
pub fn find(s: &str, pattern: &str) -> (r: Option<usize>)
    ensures
        r matches Some(i) ==> place_of(s@, pattern@) == Some(i as int) && first_at(
            s@,
            pattern@,
            i as int,
        ),
        r is None ==> place_of(s@, pattern@) is None && forall|i: int|
            !#[trigger] occurs_at(s@, pattern@, i),
{
    let n = s.unicode_len();
    let m = pattern.unicode_len();
    if m > n {
        return None;
    }
    let mut i: usize = 0;
    while i <= n - m
        invariant
            n == s@.len(),
            m == pattern@.len(),
            m <= n,
            i <= n - m + 1,
            forall|j: int| j < i ==> !#[trigger] occurs_at(s@, pattern@, j),
        decreases n - m + 1 - i,
    {
        if equal(s.substring_char(i, i + m), pattern) {
            proof {
                lemma_place_of(s@, pattern@, i as int);
            }
            return Some(i);
        }
        if i == n - m {
            return None;
        }
        i += 1;
    }
    None
}

/// The last place where `pattern` stands in `s`, if there is one.
pub fn rfind(s: &str, pattern: &str) -> (r: Option<usize>)
    ensures
        r matches Some(i) ==> last_at(s@, pattern@, i as int),
        r is None ==> forall|i: int| !#[trigger] occurs_at(s@, pattern@, i),
{
    let n = s.unicode_len();
    let m = pattern.unicode_len();
    if m > n {
        return None;
    }
    let mut i: usize = n - m;
    loop
        invariant
            n == s@.len(),
            m == pattern@.len(),
            m <= n,
            i <= n - m,
            forall|j: int| i < j ==> !#[trigger] occurs_at(s@, pattern@, j),
        decreases i,
    {
        if equal(s.substring_char(i, i + m), pattern) {
            return Some(i);
        }
        if i == 0 {
            return None;
        }
        i -= 1;
    }
}

/// What stands before `suffix` in `s`, if `s` ends with it.
pub open spec fn before_suffix(s: Seq<char>, suffix: Seq<char>) -> Option<Seq<char>> {
    if suffix.is_suffix_of(s) {
        Some(s.take(s.len() - suffix.len()))
    } else {
        None
    }
}

/// What stands after `prefix` in `s`, if `s` starts with it.
pub open spec fn after_prefix(s: Seq<char>, prefix: Seq<char>) -> Option<Seq<char>> {
    if prefix.is_prefix_of(s) {
        Some(s.skip(prefix.len() as int))
    } else {
        None
    }
}

/// What a text that may be missing says.
pub open spec fn maybe_text(s: Option<&str>) -> Option<Seq<char>> {
    match s {
        Some(text) => Some(text@),
        None => None,
    }
}

/// What a text that may be missing says.
pub open spec fn maybe_string(s: Option<String>) -> Option<Seq<char>> {
    match s {
        Some(text) => Some(text@),
        None => None,
    }
}

/// What stands before `suffix` in `s`, if `s` ends with it.
pub fn strip_suffix<'a>(s: &'a str, suffix: &str) -> (r: Option<&'a str>)
    ensures
        maybe_text(r) == before_suffix(s@, suffix@),
{
    let n = s.unicode_len();
    let m = suffix.unicode_len();
    if m > n {
        return None;
    }
    let ending = s.substring_char(n - m, n);
    if equal(ending, suffix) {
        let rest = s.substring_char(0, n - m);
        assert(rest@ == s@.take(n - m));
        Some(rest)
    } else {
        None
    }
}

/// What stands after `prefix` in `s`, if `s` starts with it.
pub fn strip_prefix<'a>(s: &'a str, prefix: &str) -> (r: Option<&'a str>)
    ensures
        maybe_text(r) == after_prefix(s@, prefix@),
{
    if starts_with(s, prefix) {
        let rest = s.substring_char(prefix.unicode_len(), s.unicode_len());
        assert(rest@ == s@.skip(prefix@.len() as int));
        Some(rest)
    } else {
        None
    }
}

// ---------------------------------------------------------------------
// Replacing
// ---------------------------------------------------------------------

/// `s` with its line breaks turned into spaces.
pub open spec fn folded(s: Seq<char>) -> Seq<char> {
    s.map_values(|c: char| if c == '\n' { ' ' } else { c })
}

/// `s` with `to` in place of each `from`.
pub open spec fn replaced(s: Seq<char>, from: char, to: Seq<char>) -> Seq<char>
    decreases s.len(),
{
    if s.len() == 0 {
        s
    } else {
        replaced(s.drop_last(), from, to) + (if s.last() == from {
            to
        } else {
            seq![s.last()]
        })
    }
}

/// `s` with its line breaks turned into spaces.
pub fn fold(s: &str) -> (r: String)
    ensures
        r@ == folded(s@),
{
    let chars = chars_of(s);
    let mut out = String::new();
    let mut i: usize = 0;
    while i < chars.len()
        invariant
            i <= chars@.len(),
            out@ == folded(chars@.take(i as int)),
        decreases chars.len() - i,
    {
        if chars[i] == '\n' {
            out.push(' ');
        } else {
            out.push(chars[i]);
        }
        i += 1;
    }
    assert(chars@.take(i as int) == chars@);
    out
}

/// `s` with `to` in place of each `from`.
pub fn replace_char(s: &str, from: char, to: &str) -> (r: String)
    ensures
        r@ == replaced(s@, from, to@),
{
    let chars = chars_of(s);
    let mut out = String::new();
    let mut i: usize = 0;
    while i < chars.len()
        invariant
            i <= chars@.len(),
            out@ == replaced(chars@.take(i as int), from, to@),
        decreases chars.len() - i,
    {
        proof {
            assert(chars@.take(i + 1).drop_last() == chars@.take(i as int));
        }
        if chars[i] == from {
            out.append(to);
        } else {
            proof {
                assert(out@.push(chars@[i as int]) == out@ + seq![chars@[i as int]]);
            }
            out.push(chars[i]);
        }
        i += 1;
    }
    assert(chars@.take(i as int) == chars@);
    out
}

/// `c` in upper case, if it is one of the letters `a` to `z`.
pub open spec fn upper(c: char) -> char {
    if 'a' <= c && c <= 'z' {
        (c as u32 - 32) as char
    } else {
        c
    }
}

/// `s` with the letters `a` to `z` in upper case.
pub open spec fn uppercased(s: Seq<char>) -> Seq<char> {
    s.map_values(|c: char| upper(c))
}

fn upper_char(c: char) -> (r: char)
    ensures
        r == upper(c),
{
    if 'a' <= c && c <= 'z' {
        let code: u8 = c as u8;
        (code - 32) as char
    } else {
        c
    }
}

/// `s` with the letters `a` to `z` in upper case.
pub fn uppercase(s: &str) -> (r: String)
    ensures
        r@ == uppercased(s@),
{
    let chars = chars_of(s);
    let mut out = String::new();
    let mut i: usize = 0;
    while i < chars.len()
        invariant
            i <= chars@.len(),
            out@ == uppercased(chars@.take(i as int)),
        decreases chars.len() - i,
    {
        out.push(upper_char(chars[i]));
        i += 1;
    }
    assert(chars@.take(i as int) == chars@);
    out
}

/// `n` times the character `c`.
pub open spec fn repeated(c: char, n: nat) -> Seq<char> {
    Seq::new(n, |i: int| c)
}

/// `n` times the character `c`.
pub fn repeat(c: char, n: usize) -> (r: String)
    ensures
        r@ == repeated(c, n as nat),
{
    let mut out = String::new();
    let mut i: usize = 0;
    while i < n
        invariant
            i <= n,
            out@ == repeated(c, i as nat),
        decreases n - i,
    {
        out.push(c);
        i += 1;
    }
    out
}

// ---------------------------------------------------------------------
// Pieces and lines
// ---------------------------------------------------------------------

/// The stretches of `s` between one `sep` and the next.
pub open spec fn pieces(s: Seq<char>, sep: char) -> Seq<Seq<char>>
    decreases s.len(),
{
    if s.len() == 0 {
        seq![Seq::empty()]
    } else {
        let before = pieces(s.drop_last(), sep);
        if s.last() == sep {
            before.push(Seq::empty())
        } else {
            before.drop_last().push(before.last().push(s.last()))
        }
    }
}

/// The texts in `parts` one after another, with `sep` between them.
pub open spec fn joined(parts: Seq<Seq<char>>, sep: Seq<char>) -> Seq<char>
    decreases parts.len(),
{
    if parts.len() == 0 {
        Seq::empty()
    } else if parts.len() == 1 {
        parts[0]
    } else {
        joined(parts.drop_last(), sep) + sep + parts.last()
    }
}

/// A line without the carriage return that ends it, if one does.
pub open spec fn without_cr(line: Seq<char>) -> Seq<char> {
    if ends(line, '\r') {
        line.drop_last()
    } else {
        line
    }
}

/// The lines of `s`: each ends in a line feed, or a carriage return and a
/// line feed, or is what follows the last of those, unless that is nothing.
pub open spec fn lines_of(s: Seq<char>) -> Seq<Seq<char>> {
    let all = pieces(s, '\n');
    let ended = all.drop_last().map_values(|line: Seq<char>| without_cr(line));
    if all.last().len() == 0 {
        ended
    } else {
        ended.push(all.last())
    }
}

pub proof fn lemma_pieces_count(s: Seq<char>, sep: char)
    ensures
        1 <= pieces(s, sep).len() <= s.len() + 1,
        pieces(s, sep).len() == s.len() + 1 ==> pieces(s, sep).last().len() == 0,
    decreases s.len(),
{
    if s.len() > 0 {
        lemma_pieces_count(s.drop_last(), sep);
    }
}

pub proof fn lemma_lines_count(s: Seq<char>)
    ensures
        lines_of(s).len() <= s.len(),
{
    lemma_pieces_count(s, '\n');
}

/// The characters between one `sep` and the next.
pub fn split_chars(s: &[char], sep: char) -> (r: Vec<Vec<char>>)
    ensures
        rows(r@) == pieces(s@, sep),
        1 <= r@.len() <= s@.len() + 1,
{
    let mut done: Vec<Vec<char>> = Vec::new();
    let mut current: Vec<char> = Vec::new();
    let mut i: usize = 0;
    while i < s.len()
        invariant
            i <= s@.len(),
            rows(done@).push(current@) == pieces(s@.take(i as int), sep),
        decreases s.len() - i,
    {
        let ghost before = rows(done@).push(current@);
        proof {
            assert(s@.take(i + 1).drop_last() == s@.take(i as int));
            assert(before.drop_last() == rows(done@));
        }
        if s[i] == sep {
            done.push(current);
            current = Vec::new();
            assert(rows(done@) == before);
        } else {
            current.push(s[i]);
        }
        i += 1;
    }
    assert(s@.take(i as int) == s@);
    let ghost before = rows(done@).push(current@);
    done.push(current);
    assert(rows(done@) == before);
    proof {
        lemma_pieces_count(s@, sep);
    }
    done
}

/// The stretches of `s` between one `sep` and the next.
pub fn split(s: &str, sep: char) -> (r: Vec<String>)
    ensures
        texts(r@) == pieces(s@, sep),
        1 <= r@.len(),
        2 * r@.len() <= isize::MAX,
{
    let chars = chars_of(s);
    let parts = split_chars(&chars, sep);
    let mut out: Vec<String> = Vec::new();
    let mut i: usize = 0;
    while i < parts.len()
        invariant
            i <= parts@.len(),
            out@.len() == i,
            texts(out@) == rows(parts@).take(i as int),
        decreases parts.len() - i,
    {
        out.push(string_of(&parts[i]));
        i += 1;
    }
    assert(rows(parts@).take(i as int) == rows(parts@));
    out
}

/// The lines of `s`.
pub fn lines(s: &str) -> (r: Vec<String>)
    ensures
        texts(r@) == lines_of(s@),
        r@.len() <= s@.len(),
        4 * r@.len() <= isize::MAX,
{
    let chars = chars_of(s);
    let parts = split_chars(&chars, '\n');
    let ghost all = pieces(s@, '\n');
    let ghost ended = all.drop_last().map_values(|line: Seq<char>| without_cr(line));
    let last = parts.len() - 1;
    let mut out: Vec<String> = Vec::new();
    let mut i: usize = 0;
    while i < last
        invariant
            last == parts@.len() - 1,
            rows(parts@) == all,
            ended == all.drop_last().map_values(|line: Seq<char>| without_cr(line)),
            i <= last,
            texts(out@) == ended.take(i as int),
        decreases last - i,
    {
        let part = &parts[i];
        assert(part@ == all[i as int]);
        let n = part.len();
        if n > 0 && part[n - 1] == '\r' {
            out.push(string_between(part, 0, n - 1));
        } else {
            out.push(string_of(part));
        }
        assert(out@.last()@ == without_cr(all[i as int]));
        assert(ended.take(i + 1) == ended.take(i as int).push(ended[i as int]));
        i += 1;
    }
    assert(ended.take(i as int) == ended);
    assert(parts@[last as int]@ == all.last());
    if parts[last].len() > 0 {
        out.push(string_of(&parts[last]));
    }
    proof {
        lemma_lines_count(s@);
        assert(texts(out@) == lines_of(s@));
    }
    out
}

/// The texts in `parts` one after another, with `sep` between them.
pub fn join(parts: &[String], sep: &str) -> (r: String)
    ensures
        r@ == joined(texts(parts@), sep@),
{
    let mut out = String::new();
    let mut i: usize = 0;
    while i < parts.len()
        invariant
            i <= parts@.len(),
            out@ == joined(texts(parts@).take(i as int), sep@),
        decreases parts.len() - i,
    {
        proof {
            assert(texts(parts@).take(i + 1).drop_last() == texts(parts@).take(i as int));
        }
        if i > 0 {
            out.append(sep);
        }
        out.append(&parts[i]);
        proof {
            if i == 0 {
                assert(out@ == texts(parts@).take(1)[0]);
            }
        }
        i += 1;
    }
    assert(texts(parts@).take(i as int) == texts(parts@));
    out
}

// ---------------------------------------------------------------------
// Bytes
// ---------------------------------------------------------------------

/// How many bytes a character takes in UTF-8.
pub open spec fn utf8_width(c: char) -> nat {
    if c <= '\u{7f}' {
        1
    } else if c <= '\u{7ff}' {
        2
    } else if c <= '\u{ffff}' {
        3
    } else {
        4
    }
}

/// How many bytes a text takes in UTF-8.
pub open spec fn utf8_size(s: Seq<char>) -> nat
    decreases s.len(),
{
    if s.len() == 0 {
        0
    } else {
        utf8_size(s.drop_last()) + utf8_width(s.last())
    }
}

/// Whether the first `k` characters of `s` take `offset` bytes.
pub open spec fn is_boundary(s: Seq<char>, offset: int, k: int) -> bool {
    0 <= k <= s.len() && utf8_size(s.take(k)) == offset
}

fn width(c: char) -> (n: usize)
    ensures
        n == utf8_width(c),
{
    if c <= '\u{7f}' {
        1
    } else if c <= '\u{7ff}' {
        2
    } else if c <= '\u{ffff}' {
        3
    } else {
        4
    }
}

/// How many bytes a text takes in UTF-8.
pub fn byte_count(s: &str) -> (n: usize)
    ensures
        n == utf8_size(s@),
{
    let chars = chars_of(s);
    let mut n: usize = 0;
    let mut i: usize = 0;
    while i < chars.len()
        invariant
            4 * chars@.len() <= isize::MAX,
            i <= chars@.len(),
            n == utf8_size(chars@.take(i as int)),
            n <= 4 * i,
        decreases chars.len() - i,
    {
        assert(chars@.take(i + 1).drop_last() == chars@.take(i as int));
        n += width(chars[i]);
        i += 1;
    }
    assert(chars@.take(i as int) == chars@);
    n
}

/// More characters take more bytes.
pub proof fn lemma_utf8_grows(s: Seq<char>, i: int, j: int)
    requires
        0 <= i < j <= s.len(),
    ensures
        utf8_size(s.take(i)) < utf8_size(s.take(j)),
    decreases j,
{
    assert(s.take(j).drop_last() == s.take(j - 1));
    if i < j - 1 {
        lemma_utf8_grows(s, i, j - 1);
    }
}

/// How many characters the first `offset` bytes of `s` hold, if they end where
/// a character does.
pub fn boundary(s: &str, offset: usize) -> (r: Option<usize>)
    ensures
        r matches Some(k) ==> is_boundary(s@, offset as int, k as int),
        r is None ==> forall|k: int| !is_boundary(s@, offset as int, k),
{
    let chars = chars_of(s);
    let mut n: usize = 0;
    let mut i: usize = 0;
    while i < chars.len() && n < offset
        invariant
            chars@ == s@,
            4 * chars@.len() <= isize::MAX,
            i <= chars@.len(),
            n == utf8_size(chars@.take(i as int)),
            n <= 4 * i,
            i > 0 ==> utf8_size(chars@.take(i - 1)) < offset,
        decreases chars.len() - i,
    {
        assert(chars@.take(i + 1).drop_last() == chars@.take(i as int));
        n += width(chars[i]);
        i += 1;
    }
    if n == offset {
        return Some(i);
    }
    proof {
        assert forall|k: int| !is_boundary(s@, offset as int, k) by {
            if is_boundary(s@, offset as int, k) {
                if k < i {
                    if k < i - 1 {
                        lemma_utf8_grows(s@, k, i - 1);
                    }
                } else if i < k {
                    lemma_utf8_grows(s@, i as int, k);
                }
            }
        }
    }
    None
}

// ---------------------------------------------------------------------
// Taking apart and putting together
// ---------------------------------------------------------------------

/// Whether `c` does not occur in `s`.
pub open spec fn free_of(s: Seq<char>, c: char) -> bool {
    forall|i: int| 0 <= i < s.len() ==> #[trigger] s[i] != c
}

/// Whether `c` occurs in none of the texts.
pub open spec fn all_free_of(parts: Seq<Seq<char>>, c: char) -> bool {
    forall|i: int| 0 <= i < parts.len() ==> free_of(#[trigger] parts[i], c)
}

/// A text without the separator is one piece.
pub proof fn lemma_pieces_plain(s: Seq<char>, sep: char)
    requires
        free_of(s, sep),
    ensures
        pieces(s, sep) == seq![s],
    decreases s.len(),
{
    if s.len() > 0 {
        let rest = s.drop_last();
        assert forall|i: int| 0 <= i < rest.len() implies #[trigger] rest[i] != sep by {
            assert(rest[i] == s[i]);
        }
        lemma_pieces_plain(rest, sep);
        assert(rest.push(s.last()) == s);
        assert(pieces(s, sep) == seq![s]);
    } else {
        assert(s == Seq::<char>::empty());
    }
}

/// The pieces on either side of a separator are those of the two sides.
pub proof fn lemma_pieces_split(a: Seq<char>, b: Seq<char>, sep: char)
    ensures
        pieces(a + seq![sep] + b, sep) == pieces(a, sep) + pieces(b, sep),
    decreases b.len(),
{
    let s = a + seq![sep] + b;
    if b.len() == 0 {
        assert(s.drop_last() == a);
        assert(s.last() == sep);
        assert(pieces(b, sep) == seq![Seq::<char>::empty()]);
        assert(pieces(s, sep) == pieces(a, sep) + pieces(b, sep));
    } else {
        lemma_pieces_split(a, b.drop_last(), sep);
        lemma_pieces_count(b.drop_last(), sep);
        assert(s.drop_last() == a + seq![sep] + b.drop_last());
        assert(s.last() == b.last());
        assert(pieces(s, sep) == pieces(a, sep) + pieces(b, sep));
    }
}

/// No piece holds the separator.
pub proof fn lemma_pieces_free(s: Seq<char>, sep: char)
    ensures
        all_free_of(pieces(s, sep), sep),
    decreases s.len(),
{
    if s.len() > 0 {
        let before = pieces(s.drop_last(), sep);
        lemma_pieces_free(s.drop_last(), sep);
        lemma_pieces_count(s.drop_last(), sep);
        let all = pieces(s, sep);
        assert forall|i: int| 0 <= i < all.len() implies free_of(#[trigger] all[i], sep) by {
            if i < before.len() - 1 {
                assert(all[i] == before[i]);
            } else {
                assert(free_of(before.last(), sep));
                if s.last() == sep && i < before.len() {
                    assert(all[i] == before[i]);
                }
            }
        }
    } else {
        assert(free_of(Seq::empty(), sep));
    }
}

/// Texts joined by a separator that none of them holds are what the whole is
/// split into again.
pub proof fn law_joined_splits(parts: Seq<Seq<char>>, sep: char)
    requires
        parts.len() > 0,
        all_free_of(parts, sep),
    ensures
        pieces(joined(parts, seq![sep]), sep) == parts,
    decreases parts.len(),
{
    if parts.len() == 1 {
        lemma_pieces_plain(parts[0], sep);
        assert(seq![parts[0]] == parts);
    } else {
        let front = parts.drop_last();
        assert forall|i: int| 0 <= i < front.len() implies free_of(#[trigger] front[i], sep) by {
            assert(front[i] == parts[i]);
        }
        law_joined_splits(front, sep);
        lemma_pieces_plain(parts.last(), sep);
        lemma_pieces_split(joined(front, seq![sep]), parts.last(), sep);
        assert(front + seq![parts.last()] == parts);
    }
}

/// The pieces of a text, joined, are the text.
pub proof fn law_pieces_join(s: Seq<char>, sep: char)
    ensures
        joined(pieces(s, sep), seq![sep]) == s,
    decreases s.len(),
{
    if s.len() == 0 {
        assert(joined(pieces(s, sep), seq![sep]) == s);
    } else {
        let before = pieces(s.drop_last(), sep);
        let all = pieces(s, sep);
        law_pieces_join(s.drop_last(), sep);
        lemma_pieces_count(s.drop_last(), sep);
        if s.last() == sep {
            assert(all.drop_last() == before);
            assert(joined(all, seq![sep]) == s.drop_last() + seq![sep] + Seq::<char>::empty());
            assert(joined(all, seq![sep]) == s);
        } else {
            assert(all.drop_last() == before.drop_last());
            if all.len() == 1 {
                assert(before.len() == 1);
                assert(joined(all, seq![sep]) == s);
            } else {
                let front = joined(before.drop_last(), seq![sep]);
                assert(s.drop_last() == front + seq![sep] + before.last());
                assert(all.last() == before.last().push(s.last()));
                assert(joined(all, seq![sep]) == front + seq![sep] + all.last());
                assert(joined(all, seq![sep]) == s.drop_last().push(s.last()));
                assert(joined(all, seq![sep]) == s);
            }
        }
    }
}

/// Whether a line can be written so that it is read back: it holds no line
/// feed, and no carriage return ends it.
pub open spec fn is_line(line: Seq<char>) -> bool {
    free_of(line, '\n') && !ends(line, '\r')
}

/// Whether each of the texts can be written as a line.
pub open spec fn are_lines(all: Seq<Seq<char>>) -> bool {
    forall|i: int| 0 <= i < all.len() ==> is_line(#[trigger] all[i])
}

/// Whether no line feed in `s` has a carriage return before it.
pub open spec fn has_plain_ends(s: Seq<char>) -> bool {
    forall|i: int| 0 < i < s.len() && #[trigger] s[i] == '\n' ==> s[i - 1] != '\r'
}

/// Where no line feed has a carriage return before it, no line but the last
/// ends in one.
pub proof fn lemma_plain_ends(s: Seq<char>)
    requires
        has_plain_ends(s),
    ensures
        forall|i: int|
            0 <= i < pieces(s, '\n').len() - 1 ==> !ends(#[trigger] pieces(s, '\n')[i], '\r'),
        pieces(s, '\n').last().len() > 0 ==> s.len() > 0 && pieces(s, '\n').last().last()
            == s.last(),
    decreases s.len(),
{
    if s.len() > 0 {
        let less = s.drop_last();
        let before = pieces(less, '\n');
        let all = pieces(s, '\n');
        assert forall|i: int| 0 < i < less.len() && #[trigger] less[i] == '\n' implies less[i - 1]
            != '\r' by {
            assert(s[i] == '\n');
        }
        lemma_plain_ends(less);
        lemma_pieces_count(less, '\n');
        assert forall|i: int| 0 <= i < all.len() - 1 implies !ends(#[trigger] all[i], '\r') by {
            if i < before.len() - 1 {
                assert(all[i] == before[i]);
            } else {
                assert(all[i] == before.last());
                assert(s.last() == '\n');
                if before.last().len() > 0 {
                    assert(s[s.len() - 1] == '\n');
                    assert(less.last() == s[s.len() - 2]);
                }
            }
        }
    }
}

/// Lines written one after another are read back as those lines, whether or
/// not a line feed ends the last one. An empty last line is read back only
/// when a line feed ends it, and one that ends in a carriage return only when
/// none does.
pub proof fn law_lines_read_back(all: Seq<Seq<char>>)
    requires
        all_free_of(all, '\n'),
        forall|i: int| 0 <= i < all.len() - 1 ==> !ends(#[trigger] all[i], '\r'),
    ensures
        all.len() == 0 || all.last().len() > 0 ==> lines_of(joined(all, seq!['\n'])) == all,
        all.len() > 0 && all.last().len() == 0 ==> lines_of(joined(all, seq!['\n']))
            == all.drop_last(),
        all.len() > 0 && !ends(all.last(), '\r') ==> lines_of(joined(all, seq!['\n']).push('\n'))
            == all,
{
    let s = joined(all, seq!['\n']);
    if all.len() == 0 {
        assert(pieces(s, '\n') == seq![Seq::<char>::empty()]);
        assert(lines_of(s) == all);
    } else {
        law_joined_splits(all, '\n');
        let cut = |line: Seq<char>| without_cr(line);
        assert(all.drop_last().map_values(cut) == all.drop_last());
        if all.last().len() > 0 {
            assert(all.drop_last().push(all.last()) == all);
        }
        let ended = pieces(s.push('\n'), '\n');
        assert(s.push('\n').drop_last() == s);
        assert(ended.drop_last() == all);
        if !ends(all.last(), '\r') {
            assert(all.map_values(cut) == all);
        }
    }
}

/// A text with no white space at either end is what is left when white space
/// around it is trimmed.
pub proof fn lemma_trimmed_padded(a: Seq<char>, s: Seq<char>, b: Seq<char>)
    requires
        is_blank(a),
        is_blank(b),
        s.len() > 0 ==> !is_space(s[0]) && !is_space(s.last()),
    ensures
        trimmed(a + s + b) == s,
{
    let whole = a + s + b;
    if s.len() == 0 {
        assert(is_blank(whole));
        lemma_trimmed(whole);
    } else {
        assert(whole.take(a.len() as int) == a);
        lemma_spaces_before_is(whole, a.len() as int);
        let t = s + b;
        assert(whole.skip(a.len() as int) == t);
        assert(t.skip(s.len() as int) == b);
        lemma_spaces_after_is(t, s.len() as int);
        assert(t.take(s.len() as int) == s);
    }
}

/// Joining texts from the front.
pub proof fn lemma_joined_front(parts: Seq<Seq<char>>, sep: Seq<char>)
    requires
        parts.len() > 1,
    ensures
        joined(parts, sep) == parts[0] + sep + joined(parts.drop_first(), sep),
    decreases parts.len(),
{
    let tail = parts.drop_first();
    let front = parts.drop_last();
    if parts.len() == 2 {
        assert(joined(front, sep) == parts[0]);
        assert(joined(tail, sep) == parts[1]);
    } else {
        lemma_joined_front(front, sep);
        assert(front.drop_first() == tail.drop_last());
        assert(joined(parts, sep) == parts[0] + sep + joined(tail, sep));
    }
}

/// The lines of a text hold no line feed and are no longer than the text.
pub proof fn lemma_lines_fit(s: Seq<char>)
    ensures
        all_free_of(lines_of(s), '\n'),
        forall|i: int| 0 <= i < lines_of(s).len() ==> #[trigger] lines_of(s)[i].len() <= s.len(),
{
    let all = pieces(s, '\n');
    lemma_pieces_free(s, '\n');
    lemma_pieces_count(s, '\n');
    let got = lines_of(s);
    assert forall|i: int| 0 <= i < got.len() implies free_of(#[trigger] got[i], '\n')
        && got[i].len() <= s.len() by {
        lemma_piece_fits(s, '\n', i);
        assert(free_of(all[i], '\n'));
    }
}

proof fn lemma_piece_fits(s: Seq<char>, sep: char, i: int)
    requires
        0 <= i < pieces(s, sep).len(),
    ensures
        pieces(s, sep)[i].len() <= s.len(),
    decreases s.len(),
{
    if s.len() > 0 {
        lemma_pieces_count(s.drop_last(), sep);
        if i < pieces(s.drop_last(), sep).len() {
            lemma_piece_fits(s.drop_last(), sep, i);
        }
    }
}

// ---------------------------------------------------------------------
// Character by character
// ---------------------------------------------------------------------

/// White space is what Unicode says it is, by the number of the character.
pub proof fn law_white_space(c: char)
    ensures
        is_space(c) <==> {
            let n = c as u32;
            ||| 9 <= n <= 13
            ||| n == 0x20
            ||| n == 0x85
            ||| n == 0xa0
            ||| n == 0x1680
            ||| 0x2000 <= n <= 0x200a
            ||| n == 0x2028
            ||| n == 0x2029
            ||| n == 0x202f
            ||| n == 0x205f
            ||| n == 0x3000
        },
{
}

/// White space is trimmed from the ends of a text, all of it, and nothing else.
pub proof fn law_trimmed_at_the_ends(before: Seq<char>, words: Seq<char>, after: Seq<char>)
    requires
        is_blank(before),
        is_blank(after),
        words.len() > 0 ==> !is_space(words[0]) && !is_space(words.last()),
    ensures
        trimmed(before + words + after) == words,
        words.len() > 0 ==> trimmed_start(before + words + after) == words + after,
        words.len() > 0 ==> trimmed_end(before + words + after) == before + words,
        trimmed_start(before).len() == 0,
        trimmed_end(before).len() == 0,
{
    let whole = before + words + after;
    lemma_trimmed_padded(before, words, after);
    if words.len() > 0 {
        let n = before.len() as int;
        let m = n + words.len();
        assert(whole.take(n) == before);
        assert(whole[n] == words[0]);
        lemma_spaces_before_is(whole, n);
        assert(whole.skip(n) == words + after);
        assert(whole.skip(m) == after);
        assert(whole[m - 1] == words.last());
        lemma_spaces_after_is(whole, m);
        assert(whole.take(m) == before + words);
    }
    assert(before.take(before.len() as int) == before);
    lemma_spaces_before_is(before, before.len() as int);
    assert(before.skip(0) == before);
    lemma_spaces_after_is(before, 0);
}

/// Folding a text turns each line feed into a space, and nothing else.
pub proof fn law_folded_in_place(s: Seq<char>, i: int)
    ensures
        folded(s).len() == s.len(),
        free_of(folded(s), '\n'),
        0 <= i < s.len() && s[i] == '\n' ==> folded(s)[i] == ' ',
        0 <= i < s.len() && s[i] != '\n' ==> folded(s)[i] == s[i],
{
}

/// Every occurrence of a character is replaced where it stands.
pub proof fn law_replaced_in_place(a: Seq<char>, b: Seq<char>, from: char, to: Seq<char>)
    ensures
        replaced(a + b, from, to) == replaced(a, from, to) + replaced(b, from, to),
        replaced(seq![from], from, to) == to,
        free_of(b, from) ==> replaced(b, from, to) == b,
    decreases b.len(),
{
    reveal_with_fuel(replaced, 2);
    assert(seq![from].drop_last() == Seq::<char>::empty());
    assert(Seq::<char>::empty() + to == to);
    if b.len() == 0 {
        assert(a + b == a);
        assert(replaced(a, from, to) + b == replaced(a, from, to));
    } else {
        let front = b.drop_last();
        law_replaced_in_place(a, front, from, to);
        assert((a + b).drop_last() == a + front);
        assert((a + b).last() == b.last());
        let end = if b.last() == from {
            to
        } else {
            seq![b.last()]
        };
        assert(replaced(a + b, from, to) == replaced(a, from, to) + (replaced(front, from, to)
            + end));
        if free_of(b, from) {
            assert(free_of(front, from)) by {
                assert forall|i: int| 0 <= i < front.len() implies #[trigger] front[i] != from by {
                    assert(front[i] == b[i]);
                }
            }
            assert(front + seq![b.last()] == b);
        }
    }
}

/// A text is put in upper case letter by letter, as far as the letters `a` to
/// `z` go.
pub proof fn law_upper_case_in_place(s: Seq<char>, i: int)
    requires
        0 <= i < s.len(),
    ensures
        uppercased(s).len() == s.len(),
        97 <= s[i] as u32 <= 122 ==> uppercased(s)[i] as u32 + 32 == s[i] as u32,
        !(97 <= s[i] as u32 <= 122) ==> uppercased(s)[i] == s[i],
{
}

/// Texts are joined one after another, with the separator between each two of
/// them and nowhere else.
pub proof fn law_joined_in_order(a: Seq<Seq<char>>, b: Seq<Seq<char>>, one: Seq<char>, sep: Seq<char>)
    ensures
        a.len() > 0 && b.len() > 0 ==> joined(a + b, sep) == joined(a, sep) + sep + joined(b, sep),
        joined(seq![one], sep) == one,
        joined(Seq::empty(), sep).len() == 0,
    decreases b.len(),
{
    if a.len() > 0 && b.len() > 0 {
        let front = b.drop_last();
        assert((a + b).drop_last() == a + front);
        assert((a + b).last() == b.last());
        if b.len() == 1 {
            assert(a + front == a);
        } else {
            law_joined_in_order(a, front, one, sep);
            assert(joined(a + b, sep) == joined(a, sep) + sep + joined(b, sep));
        }
    }
}

/// The first line of a text is what stands before the first line feed, without
/// a carriage return right before that; the other lines are those of what
/// follows. A text without line feeds is one line, if there is anything in it.
pub proof fn law_first_line(line: Seq<char>, rest: Seq<char>)
    requires
        free_of(line, '\n'),
    ensures
        !ends(line, '\r') ==> lines_of(line + seq!['\n'] + rest) == seq![line] + lines_of(rest),
        lines_of(line + seq!['\r', '\n'] + rest) == seq![line] + lines_of(rest),
        line.len() > 0 ==> lines_of(line) == seq![line],
        lines_of(Seq::empty()).len() == 0,
{
    lemma_first_line(line, rest);
    let ended = line.push('\r');
    assert(free_of(ended, '\n')) by {
        assert forall|i: int| 0 <= i < ended.len() implies #[trigger] ended[i] != '\n' by {
            if i < line.len() {
                assert(ended[i] == line[i]);
            }
        }
    }
    lemma_first_line(ended, rest);
    assert(ended.drop_last() == line);
    assert(line + seq!['\r', '\n'] + rest == ended + seq!['\n'] + rest);
    lemma_pieces_plain(line, '\n');
    let cut = |l: Seq<char>| without_cr(l);
    assert(seq![line].drop_last().map_values(cut) == Seq::<Seq<char>>::empty());
    assert(Seq::<Seq<char>>::empty().push(line) == seq![line]);
    assert(pieces(Seq::empty(), '\n') == seq![Seq::<char>::empty()]);
}

proof fn lemma_first_line(line: Seq<char>, rest: Seq<char>)
    requires
        free_of(line, '\n'),
    ensures
        lines_of(line + seq!['\n'] + rest) == seq![without_cr(line)] + lines_of(rest),
{
    let whole = line + seq!['\n'] + rest;
    lemma_pieces_plain(line, '\n');
    lemma_pieces_split(line, rest, '\n');
    lemma_pieces_count(rest, '\n');
    let all = pieces(whole, '\n');
    let more = pieces(rest, '\n');
    assert(all == seq![line] + more);
    assert(all.last() == more.last());
    let cut = |l: Seq<char>| without_cr(l);
    assert(all.drop_last() == seq![line] + more.drop_last());
    assert(all.drop_last().map_values(cut) == seq![without_cr(line)] + more.drop_last().map_values(
        cut,
    ));
    assert(lines_of(whole) == seq![without_cr(line)] + lines_of(rest));
}

/// Bytes add up: a text takes as many as its parts, and a character one to
/// four, by its number.
pub proof fn law_bytes_add_up(a: Seq<char>, b: Seq<char>, c: char)
    ensures
        utf8_size(a + b) == utf8_size(a) + utf8_size(b),
        utf8_size(seq![c]) == (if (c as u32) < 0x80 {
            1nat
        } else if (c as u32) < 0x800 {
            2
        } else if (c as u32) < 0x1_0000 {
            3
        } else {
            4
        }),
    decreases b.len(),
{
    assert(seq![c].drop_last() == Seq::<char>::empty());
    reveal_with_fuel(utf8_size, 2);
    if b.len() == 0 {
        assert(a + b == a);
    } else {
        law_bytes_add_up(a, b.drop_last(), c);
        assert((a + b).drop_last() == a + b.drop_last());
        assert((a + b).last() == b.last());
    }
}

} // verus!
