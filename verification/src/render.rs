//! AsciiDoc to HTML, the only place the crate `asciidoc_html5` is touched.
//!
//! Only the in-memory entry points are used. Those that read files compile for
//! the web but reach for a file system, which does not exist in the browser.
use vstd::prelude::*;

use asciidoc_html5::{
    convert_document_with, convert_with, load_with, Options, ReferenceTime, SafeMode,
};

use crate::text;
use crate::text::{find, rfind};

verus! {

/// A parser warning, flattened for display.
#[derive(Clone, Debug, PartialEq)]
pub struct Warning {
    pub line: usize,
    pub message: String,
}

/// The time that a document is rendered at. It drives `docdate`, `doctime` and
/// their `local*` siblings.
#[derive(Clone, Copy, Debug, PartialEq, Eq, Structural)]
pub enum Clock {
    /// Seconds since the Unix epoch.
    Unix(i64),
    /// A local date and time, with how many seconds it is ahead of UTC.
    Local {
        year: i64,
        month: u32,
        day: u32,
        hour: u32,
        minute: u32,
        second: u32,
        utc_offset: i32,
    },
}

impl Clock {
    /// The time by a count of seconds since the Unix epoch: the epoch itself,
    /// when the clock is set to before it and there is none.
    pub fn unix(elapsed: Option<u64>) -> (r: Clock)
        ensures
            r == Clock::Unix(
                match elapsed {
                    Some(seconds) => seconds as i64,
                    None => 0,
                },
            ),
    {
        match elapsed {
            Some(seconds) => Clock::Unix(seconds as i64),
            None => Clock::Unix(0),
        }
    }

    /// The time by what a browser says of a date: it counts months from zero,
    /// and the minutes that the local time is *behind* UTC.
    pub fn local(
        year: u32,
        month: u32,
        day: u32,
        hour: u32,
        minute: u32,
        second: u32,
        behind: i32,
    ) -> (r: Clock)
        requires
            month < u32::MAX,
            i32::MIN <= behind * -60 <= i32::MAX,
        ensures
            r == (Clock::Local {
                year: year as i64,
                month: (month + 1) as u32,
                day,
                hour,
                minute,
                second,
                utc_offset: (behind * -60) as i32,
            }),
    {
        Clock::Local {
            year: year as i64,
            month: month + 1,
            day,
            hour,
            minute,
            second,
            utc_offset: behind * -60,
        }
    }
}

/// How much a document may ask of the machine it is rendered on.
#[derive(Clone, Copy, Debug, PartialEq, Eq, Structural)]
pub enum Safety {
    Safe,
    Secure,
}

/// The HTML and the warnings that a document is rendered to under the secure
/// mode, each warning by its line and its name.
pub uninterp spec fn securely_converted(
    src: Seq<char>,
    embedded: bool,
    located: bool,
    clock: Clock,
) -> (Seq<char>, Seq<(usize, Seq<char>)>);

/// What warnings stand for.
pub open spec fn named_warnings(found: Seq<(usize, String)>) -> Seq<(usize, Seq<char>)> {
    found.map_values(|w: (usize, String)| (w.0, w.1@))
}

/// `load_with`, `Document::warnings` and `convert_document_with` of the crate
/// `asciidoc_html5`: the HTML, and the line and the debug form of each warning.
/// `embedded` asks for a body alone, `located` for each block to be annotated
/// with the line it came from. Without a mode among the options the secure one
/// applies, under which a document learns nothing of the machine; with the
/// clock given, the result depends on the arguments alone.
#[verifier::external_body]
fn convert(src: &str, embedded: bool, located: bool, clock: Clock) -> (r: (
    String,
    Vec<(usize, String)>,
))
    ensures
        (r.0@, named_warnings(r.1@)) == securely_converted(src@, embedded, located, clock),
{
    let time = match clock {
        Clock::Unix(seconds) => ReferenceTime::from_unix_timestamp(seconds),
        Clock::Local { year, month, day, hour, minute, second, utc_offset } =>
            ReferenceTime::from_local(year, month, day, hour, minute, second, utc_offset),
    };
    let options = Options::new().embedded(embedded).source_locations(located).reference_time(time.clone()).input_mtime(time);
    let document = load_with(src, &options);
    let warnings = document.warnings().map(|w| (w.source.line(), format!("{:?}", w.warning))).collect();
    (convert_document_with(&document, &options), warnings)
}

/// The HTML that a document is rendered to under the given mode, with the
/// attribute `unset` taken away, in the current directory `dir` of a user whose
/// home is `home`.
pub uninterp spec fn converted_at(
    src: Seq<char>,
    standalone: bool,
    safety: Safety,
    unset: Seq<char>,
    clock: Clock,
    dir: Seq<char>,
    home: Seq<char>,
) -> Seq<char>;

/// Whether `html` is a complete file, from the document type to the end of the
/// root element.
pub open spec fn is_complete(html: Seq<char>) -> bool {
    &&& "<!DOCTYPE html>\n<html lang=\""@.is_prefix_of(html)
    &&& "</body>\n</html>\n"@.is_suffix_of(html)
}

/// Whether `html` holds a stylesheet of its own.
pub open spec fn holds_style(html: Seq<char>) -> bool {
    exists|i: int| text::occurs_at(html, "<style>\n"@, i)
}

/// `convert_with` of the crate `asciidoc_html5`, under the given mode and with
/// the attribute `unset` taken away: the HTML. Below the secure mode the
/// attributes `docdir` and `user-home` hold the current directory and the home
/// directory; besides those two the result depends on the arguments alone. A
/// source without an opening brace refers to no attribute, and so to neither
/// directory. A standalone document is a complete file; it holds its stylesheet
/// if `linkcss` is taken away and the source has no colon, so that no attribute
/// entry names another stylesheet. Which the directories are is left unsaid.
#[verifier::external_body]
fn convert_complete(src: &str, standalone: bool, safety: Safety, unset: &str, clock: Clock) -> (r:
    String)
    ensures
        exists|dir: Seq<char>, home: Seq<char>|
            r@ == #[trigger] converted_at(src@, standalone, safety, unset@, clock, dir, home),
        text::free_of(src@, '{') ==> forall|dir: Seq<char>, home: Seq<char>|
            r@ == #[trigger] converted_at(src@, standalone, safety, unset@, clock, dir, home),
        standalone ==> is_complete(r@),
        standalone && unset@ == "linkcss"@ && text::free_of(src@, ':') ==> holds_style(r@),
{
    let time = match clock {
        Clock::Unix(seconds) => ReferenceTime::from_unix_timestamp(seconds),
        Clock::Local { year, month, day, hour, minute, second, utc_offset } =>
            ReferenceTime::from_local(year, month, day, hour, minute, second, utc_offset),
    };
    let mode = match safety {
        Safety::Safe => SafeMode::Safe,
        Safety::Secure => SafeMode::Secure,
    };
    let options = Options::new().standalone(standalone).safe_mode(mode).unset(unset).reference_time(time.clone()).input_mtime(time);
    convert_with(src, &options)
}

/// What warnings say, in a status bar.
pub open spec fn flattened(found: Seq<(usize, Seq<char>)>) -> Seq<(usize, Seq<char>)> {
    found.map_values(|w: (usize, Seq<char>)| (w.0, humanized(w.1)))
}

/// What warnings stand for.
pub open spec fn warning_texts(warnings: Seq<Warning>) -> Seq<(usize, Seq<char>)> {
    warnings.map_values(|w: Warning| (w.line, w.message@))
}

/// The warnings of the parser, by their lines and names, flattened for
/// display.
pub fn flatten(found: &[(usize, String)]) -> (r: Vec<Warning>)
    ensures
        warning_texts(r@) == flattened(named_warnings(found@)),
{
    let ghost goal = flattened(named_warnings(found@));
    let mut out: Vec<Warning> = Vec::new();
    let mut i: usize = 0;
    while i < found.len()
        invariant
            goal == flattened(named_warnings(found@)),
            i <= found@.len(),
            warning_texts(out@) == goal.take(i as int),
        decreases found.len() - i,
    {
        let ghost before = warning_texts(out@);
        let message = humanize(&found[i].1);
        let warning = Warning { line: found[i].0, message };
        proof {
            assert((warning.line, warning.message@) == goal[i as int]);
            assert(goal.take(i + 1) == goal.take(i as int).push(goal[i as int]));
        }
        out.push(warning);
        assert(warning_texts(out@) == before.push(goal[i as int]));
        i += 1;
    }
    assert(goal.take(i as int) == goal);
    out
}

/// Renders `src` for the preview pane at the given time, alongside any parser
/// warnings.
///
/// The clock is handed over, because no one clock is there everywhere: asking
/// for the system's panics in a browser, and there is no browser's elsewhere.
pub fn render(src: &str, clock: Clock) -> (r: (String, Vec<Warning>))
    ensures
        ({
            let (html, found) = securely_converted(src@, true, true, clock);
            r.0@ == html && warning_texts(r.1@) == flattened(found)
        }),
{
    let (html, found) = convert(src, true, true, clock);
    (html, flatten(&found))
}

/// Renders a complete, self-contained HTML file for download, at the given
/// time. References to the current directory and the home directory come to
/// what those are on the machine.
///
/// The secure mode forces `linkcss`, which would leave the downloaded file
/// unstyled when opened from disk; the safe mode embeds the stylesheet
/// instead.
pub fn render_standalone(src: &str, clock: Clock) -> (r: String)
    ensures
        exists|dir: Seq<char>, home: Seq<char>|
            r@ == #[trigger] converted_at(
                src@,
                true,
                Safety::Safe,
                "linkcss"@,
                clock,
                dir,
                home,
            ),
        text::free_of(src@, '{') ==> is_conversion(src@, clock, r@),
        is_complete(r@),
        text::free_of(src@, ':') ==> holds_style(r@),
{
    convert_complete(src, true, Safety::Safe, "linkcss", clock)
}

/// Whether `html` is what a source is rendered to for download at the given
/// time, on any machine.
pub open spec fn is_conversion(src: Seq<char>, clock: Clock, html: Seq<char>) -> bool {
    forall|dir: Seq<char>, home: Seq<char>|
        html == #[trigger] converted_at(
            src,
            true,
            Safety::Safe,
            "linkcss"@,
            clock,
            dir,
            home,
        )
}

// ---------------------------------------------------------------------
// Names of warnings
// ---------------------------------------------------------------------

/// Whether a character beyond ASCII is in upper case.
pub uninterp spec fn other_is_uppercase(c: char) -> bool;

/// A character beyond ASCII in lower case.
pub uninterp spec fn other_lowercase(c: char) -> Seq<char>;

/// Whether a character is in upper case.
pub open spec fn is_upper(c: char) -> bool {
    if c <= '\u{7f}' {
        'A' <= c && c <= 'Z'
    } else {
        other_is_uppercase(c)
    }
}

/// A character in lower case.
pub open spec fn lowered(c: char) -> Seq<char> {
    if c <= '\u{7f}' {
        if 'A' <= c && c <= 'Z' {
            seq![(c as u32 + 32) as char]
        } else {
            seq![c]
        }
    } else {
        other_lowercase(c)
    }
}

/// `char::is_uppercase`. Among the ASCII characters, the letters `A` to `Z`
/// are in upper case. Of the others, that it depends on the character alone.
#[verifier::external_body]
fn is_uppercase(c: char) -> (r: bool)
    ensures
        r == (if c <= '\u{7f}' {
            'A' <= c && c <= 'Z'
        } else {
            other_is_uppercase(c)
        }),
{
    c.is_uppercase()
}

/// `char::to_lowercase`. An ASCII character maps to itself, or for the letters
/// `A` to `Z` to the small letter. Of the others, that the mapping depends on
/// the character alone.
#[verifier::external_body]
fn to_lowercase(c: char) -> (r: String)
    ensures
        r@ == (if c <= '\u{7f}' {
            if 'A' <= c && c <= 'Z' {
                seq![(c as u32 + 32) as char]
            } else {
                seq![c]
            }
        } else {
            other_lowercase(c)
        }),
{
    c.to_lowercase().collect()
}

/// What follows the last `::` of a path.
pub open spec fn after_path(s: Seq<char>) -> Seq<char> {
    if exists|i: int| text::last_at(s, "::"@, i) {
        s.skip((choose|i: int| text::last_at(s, "::"@, i)) + 2)
    } else {
        s
    }
}

/// Where the payload of a name starts: at the first bracket, or at the end.
pub open spec fn payload_at(s: Seq<char>) -> int {
    match text::place_of(s, "("@) {
        Some(i) => i,
        None => s.len() as int,
    }
}

/// The words of a name: each capital starts a new one.
pub open spec fn words_of(name: Seq<char>) -> Seq<char>
    decreases name.len(),
{
    if name.len() == 0 {
        Seq::empty()
    } else {
        let before = words_of(name.drop_last());
        let c = name.last();
        if is_upper(c) && name.len() > 1 {
            before + seq![' '] + lowered(c)
        } else {
            before + lowered(c)
        }
    }
}

/// A name out of code as words: the last part of its path, with its payload as
/// it is.
pub open spec fn humanized(debug: Seq<char>) -> Seq<char> {
    let at = payload_at(debug);
    words_of(after_path(debug.take(at))) + debug.skip(at)
}

/// Turns the debug form of a warning into something readable in a status bar:
/// `UnterminatedDelimitedBlock` becomes `unterminated delimited block`.
pub fn humanize(debug: &str) -> (r: String)
    ensures
        r@ == humanized(debug@),
{
    proof {
        reveal_strlit("::");
        reveal_strlit("(");
    }
    // Variants with payloads print as `Name(..)`; only the name is reshaped.
    let n = debug.unicode_len();
    let at = match find(debug, "(") {
        Some(i) => {
            proof {
                text::lemma_place_of(debug@, "("@, i as int);
            }
            i
        },
        None => {
            proof {
                text::lemma_no_place(debug@, "("@);
            }
            n
        },
    };
    assert(at == payload_at(debug@));
    let path = debug.substring_char(0, at);
    let payload = debug.substring_char(at, n);
    // Debug prints the full path, as in `WarningType::UnterminatedBlock`.
    let name = match rfind(path, "::") {
        Some(i) => {
            proof {
                let j = choose|j: int| text::last_at(path@, "::"@, j);
                assert(text::last_at(path@, "::"@, i as int));
                assert(text::last_at(path@, "::"@, j));
                assert(i == j);
            }
            let rest = path.substring_char(i + 2, at);
            assert(rest@ == path@.skip(i + 2));
            rest
        },
        None => path,
    };
    assert(name@ == after_path(path@));
    let mut words = words(name);
    words.append(payload);
    proof {
        assert(path@ == debug@.take(at as int));
        assert(payload@ == debug@.skip(at as int));
    }
    words
}

fn words(name: &str) -> (r: String)
    ensures
        r@ == words_of(name@),
{
    let chars = text::chars_of(name);
    let mut out = String::new();
    let mut i: usize = 0;
    while i < chars.len()
        invariant
            chars@ == name@,
            i <= chars@.len(),
            out@ == words_of(chars@.take(i as int)),
        decreases chars.len() - i,
    {
        let c = chars[i];
        let ghost before = out@;
        proof {
            assert(chars@.take(i + 1).drop_last() == chars@.take(i as int));
        }
        if i > 0 && is_uppercase(c) {
            out.push(' ');
            assert(out@ == before + seq![' ']);
        }
        out.append(&to_lowercase(c));
        i += 1;
    }
    assert(chars@.take(i as int) == chars@);
    out
}

// ---------------------------------------------------------------------
// What becomes of a name
// ---------------------------------------------------------------------

/// Only the name of a warning is reshaped: from the first bracket on it stands
/// as it was, and what is before the last `::` of its path is dropped.
pub proof fn law_payload_is_kept(path: Seq<char>, name: Seq<char>, payload: Seq<char>)
    requires
        text::free_of(path, '('),
        text::free_of(name, '('),
        text::free_of(name, ':'),
        payload.len() > 0 ==> payload[0] == '(',
        path.len() > 0 ==> path.len() >= 2 && path[path.len() - 1] == ':' && path[path.len() - 2]
            == ':',
    ensures
        humanized(path + name + payload) == humanized(name) + payload,
        humanized(name) == words_of(name),
{
    reveal_strlit("::");
    reveal_strlit("(");
    let none = Seq::<char>::empty();
    lemma_payload(path + name, payload);
    lemma_payload(name, none);
    assert(path + name + payload == (path + name) + payload);
    assert(name + none == name);
    lemma_path(path, name);
    lemma_path(none, name);
    assert(none + name == name);
}

proof fn lemma_payload(name: Seq<char>, payload: Seq<char>)
    requires
        text::free_of(name, '('),
        payload.len() > 0 ==> payload[0] == '(',
    ensures
        humanized(name + payload) == words_of(after_path(name)) + payload,
{
    reveal_strlit("(");
    let whole = name + payload;
    let n = name.len() as int;
    if payload.len() > 0 {
        assert(whole.subrange(n, n + 1) == "("@);
        assert(text::first_at(whole, "("@, n)) by {
            assert(text::occurs_at(whole, "("@, n));
            assert forall|i: int| i < n implies !text::occurs_at(whole, "("@, i) by {
                if text::occurs_at(whole, "("@, i) {
                    assert(whole.subrange(i, i + 1)[0] == '(');
                    assert(name[i] == '(');
                }
            }
        }
        text::lemma_place_of(whole, "("@, n);
    } else {
        assert forall|i: int| !#[trigger] text::occurs_at(whole, "("@, i) by {
            if text::occurs_at(whole, "("@, i) {
                assert(whole.subrange(i, i + 1)[0] == '(');
                assert(name[i] == '(');
            }
        }
        text::lemma_no_place(whole, "("@);
    }
    assert(payload_at(whole) == n);
    assert(whole.take(n) == name);
    assert(whole.skip(n) == payload);
}

proof fn lemma_path(path: Seq<char>, name: Seq<char>)
    requires
        text::free_of(name, ':'),
        path.len() > 0 ==> path.len() >= 2 && path[path.len() - 1] == ':' && path[path.len() - 2]
            == ':',
    ensures
        after_path(path + name) == name,
{
    reveal_strlit("::");
    let whole = path + name;
    let n = path.len() as int;
    assert forall|i: int| n - 2 < i implies !text::occurs_at(whole, "::"@, i) by {
        if text::occurs_at(whole, "::"@, i) {
            assert(whole.subrange(i, i + 2)[1] == ':');
            assert(whole[i + 1] == ':');
            assert(name[i + 1 - n] == ':');
        }
    }
    if n > 0 {
        assert(whole.subrange(n - 2, n) == "::"@);
        assert(text::occurs_at(whole, "::"@, n - 2));
        assert(text::last_at(whole, "::"@, n - 2));
        let i = choose|i: int| text::last_at(whole, "::"@, i);
        assert(text::last_at(whole, "::"@, i));
        assert(i == n - 2);
        assert(whole.skip(n) == name);
    } else {
        assert forall|i: int| !text::last_at(whole, "::"@, i) by {
            if text::last_at(whole, "::"@, i) {
                assert(text::occurs_at(whole, "::"@, i));
            }
        }
        assert(whole == name);
    }
}

/// A name becomes words letter by letter: a capital that is not the first
/// letter starts a new word, and every capital becomes the small letter; any
/// other character stays.
pub proof fn law_capitals_start_words(name: Seq<char>, c: char)
    requires
        c <= '\u{7f}',
    ensures
        ({
            let made = words_of(name.push(c));
            let before = words_of(name);
            if 'A' <= c && c <= 'Z' {
                let small = (c as u32 + 32) as char;
                made == (if name.len() == 0 {
                    seq![small]
                } else {
                    before + seq![' ', small]
                })
            } else {
                made == before.push(c)
            }
        }),
        words_of(Seq::empty()).len() == 0,
{
    assert(name.push(c).drop_last() == name);
    assert(name.push(c).last() == c);
    let before = words_of(name);
    if 'A' <= c && c <= 'Z' {
        let small = (c as u32 + 32) as char;
        if name.len() > 0 {
            assert(before + seq![' '] + seq![small] == before + seq![' ', small]);
        } else {
            assert(before + seq![small] == seq![small]);
        }
    } else {
        assert(before + seq![c] == before.push(c));
    }
}

/// Warnings are flattened one by one, in order, each on the line it had.
pub proof fn law_warnings_keep_their_lines(found: Seq<(usize, Seq<char>)>, i: int)
    requires
        0 <= i < found.len(),
    ensures
        flattened(found).len() == found.len(),
        flattened(found)[i].0 == found[i].0,
        flattened(found)[i].1 == humanized(found[i].1),
{
}

} // verus!
