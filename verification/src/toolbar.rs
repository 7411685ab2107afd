//! What the toolbar offers, and what its buttons ask for.
use vstd::prelude::*;

use crate::number;
use crate::number::{write_long, write_number};
use crate::render::Warning;
use crate::text;
use crate::text::{equal, join, rfind, trim};
use crate::wysiwyg::Kind;

verus! {

/// Which surface the document is edited through.
#[derive(Clone, Copy, Debug, PartialEq, Eq, Structural)]
pub enum Mode {
    /// Edit the rendered document directly.
    Rich,
    /// Edit the AsciiDoc source, with the rendering alongside it.
    Source,
}

/// The surface to start with: rich text, unless the page asks otherwise.
pub fn opening_mode(rich: Option<bool>) -> (r: Mode)
    ensures
        r == if rich == Some(false) {
            Mode::Source
        } else {
            Mode::Rich
        },
{
    match rich {
        Some(false) => Mode::Source,
        _ => Mode::Rich,
    }
}

/// Whether the page is to be told of the document: when it is another than it
/// was, and not when it is first looked at.
pub fn has_changed(previous: Option<&str>, document: &str) -> (r: bool)
    ensures
        r == (previous matches Some(before) && before@ != document@),
{
    match previous {
        Some(before) => !equal(before, document),
        None => false,
    }
}

/// The heading buttons, with the level each applies. `=` is the document title
/// in AsciiDoc, so the largest heading a body author writes is `==`.
pub const HEADINGS: [(&'static str, usize); 3] = [("H1", 2), ("H2", 3), ("H3", 4)];

/// The symbol each admonition draws in the preview, reused on the buttons that
/// apply it.
pub const ADMONITION_ICONS: [(&'static str, &'static str); 5] = [
    ("NOTE", "\u{2139}\u{fe0f}"),
    ("TIP", "\u{1f4a1}"),
    ("IMPORTANT", "\u{2757}"),
    ("WARNING", "\u{26a0}\u{fe0f}"),
    ("CAUTION", "\u{1f525}"),
];

/// Whether the icon numbered `i` is the first of those for `label`.
pub open spec fn is_icon(label: Seq<char>, i: int) -> bool {
    &&& 0 <= i < 5
    &&& ADMONITION_ICONS[i].0@ == label
    &&& forall|j: int| 0 <= j < i ==> (#[trigger] ADMONITION_ICONS[j]).0@ != label
}

/// The symbol of an admonition: that of a note, for a label that has none.
pub fn icon_for(label: &str) -> (r: &'static str)
    ensures
        forall|i: int| #[trigger] is_icon(label@, i) ==> r@ == ADMONITION_ICONS[i].1@,
        (forall|i: int| !is_icon(label@, i)) ==> r@ == "\u{2139}\u{fe0f}"@,
{
    let mut i: usize = 0;
    while i < 5
        invariant
            i <= 5,
            forall|j: int| 0 <= j < i ==> (#[trigger] ADMONITION_ICONS[j]).0@ != label@,
        decreases 5 - i,
    {
        let (name, icon) = ADMONITION_ICONS[i];
        assert(name@ == ADMONITION_ICONS[i as int].0@);
        if equal(name, label) {
            proof {
                assert(is_icon(label@, i as int));
                assert forall|k: int| #[trigger] is_icon(label@, k) implies k == i by {
                    if k < i {
                        assert(ADMONITION_ICONS[k].0@ != label@);
                    } else if i < k {
                        assert(ADMONITION_ICONS[i as int].0@ != label@);
                    }
                }
            }
            return icon;
        }
        i += 1;
    }
    assert forall|k: int| !is_icon(label@, k) by {}
    "\u{2139}\u{fe0f}"
}

// ---------------------------------------------------------------------
// The block at hand
// ---------------------------------------------------------------------

/// The number a heading goes by: the largest that a body author writes is the
/// first.
pub open spec fn heading_number(level: usize) -> nat {
    if level <= 2 {
        1
    } else {
        (level - 1) as nat
    }
}

/// The name of a kind of block.
pub open spec fn name_of(kind: Kind) -> Seq<char> {
    match kind {
        Kind::Body => "Paragraph"@,
        Kind::Heading(level) => "Heading "@ + number::decimal(heading_number(level)),
        Kind::List { ordered } => if ordered {
            "Numbered list"@
        } else {
            "Bulleted list"@
        },
        Kind::Title => "Block title"@,
        Kind::Admonition(label) => label@,
        Kind::Table { .. } => "Table cell"@,
        Kind::Image => "Image"@,
        Kind::Attribution(style) => style@ + " attribution"@,
    }
}

/// Names the focused block for the context bar.
pub fn describe(kind: Kind) -> (r: String)
    ensures
        r@ == name_of(kind),
{
    match kind {
        Kind::Body => "Paragraph".to_string(),
        Kind::Heading(level) => {
            let mut out = "Heading ".to_string();
            let n = if level <= 2 {
                1
            } else {
                level - 1
            };
            out.append(&write_number(n));
            out
        },
        Kind::List { ordered } => if ordered {
            "Numbered list".to_string()
        } else {
            "Bulleted list".to_string()
        },
        Kind::Title => "Block title".to_string(),
        Kind::Admonition(label) => label.to_string(),
        Kind::Table { .. } => "Table cell".to_string(),
        Kind::Image => "Image".to_string(),
        Kind::Attribution(style) => {
            let mut out = style.to_string();
            out.append(" attribution");
            out
        },
    }
}

/// Whether a block of the given kind is text by itself, which a list can be made
/// of.
pub open spec fn can_be_list(kind: Kind) -> bool {
    kind is Body || kind is Heading || kind is List
}

/// Whether a block of the given kind can be a heading.
pub open spec fn can_be_heading(kind: Kind) -> bool {
    kind is Body || kind is Heading
}

/// Whether a block of the given kind can be an admonition.
pub open spec fn can_be_admonition(kind: Kind) -> bool {
    kind is Body || kind is Admonition
}

/// Whether a block of the given kind can have a title.
pub open spec fn can_be_titled(kind: Kind) -> bool {
    !(kind is Heading)
}

/// The marker that a list button asks for.
pub open spec fn marker_asked(current: Option<Kind>, ordered: bool) -> Option<char> {
    if current == Some(Kind::List { ordered }) {
        None
    } else if ordered {
        Some('.')
    } else {
        Some('*')
    }
}

/// What a button asks for that is taken off again where it is already.
pub open spec fn toggled(wanted: Seq<char>, current: Option<Seq<char>>) -> Option<Seq<char>> {
    if current == Some(wanted) {
        None
    } else {
        Some(wanted)
    }
}

/// The label that a block carries.
pub open spec fn label_in(current: Option<Kind>) -> Option<Seq<char>> {
    match current {
        Some(Kind::Admonition(label)) => Some(label@),
        _ => None,
    }
}

/// Whether a block can be turned into a list, or out of one. Where there is no
/// block at hand the buttons stay enabled.
pub fn takes_list(kind: Option<Kind>) -> (r: bool)
    ensures
        r == (kind matches Some(k) ==> can_be_list(k)),
        r == match kind {
            Some(k) => !(k is Title || k is Admonition || k is Table || k is Image
                || k is Attribution),
            None => true,
        },
{
    match kind {
        Some(Kind::Title) => false,
        Some(Kind::Admonition(_)) => false,
        Some(Kind::Table { .. }) => false,
        Some(Kind::Image) => false,
        Some(Kind::Attribution(_)) => false,
        _ => true,
    }
}

/// Whether a block can be turned into a heading, or into body text.
pub fn takes_level(kind: Option<Kind>) -> (r: bool)
    ensures
        r == (kind matches Some(k) ==> can_be_heading(k)),
        r == match kind {
            Some(k) => !(k is List || k is Title || k is Admonition || k is Table || k is Image
                || k is Attribution),
            None => true,
        },
{
    match kind {
        Some(Kind::List { .. }) => false,
        _ => takes_list(kind),
    }
}

/// Whether a block can be labelled as an admonition.
pub fn takes_admonition(kind: Option<Kind>) -> (r: bool)
    ensures
        r == (kind matches Some(k) && can_be_admonition(k)),
        r == match kind {
            Some(k) => k is Body || k is Admonition,
            None => false,
        },
{
    match kind {
        Some(Kind::Body) => true,
        Some(Kind::Admonition(_)) => true,
        _ => false,
    }
}

/// Whether a block can have a title. A heading is a title already; AsciiDoc
/// gives it none.
pub fn takes_title(kind: Kind) -> (r: bool)
    ensures
        r == can_be_titled(kind),
        r == !(kind is Heading),
{
    match kind {
        Kind::Heading(_) => false,
        _ => true,
    }
}

/// The marker that a list button asks for. Clicking the kind a block already
/// is turns it back into body text, the way a list button behaves everywhere
/// else.
pub fn list_marker_for(current: Option<Kind>, ordered: bool) -> (r: Option<char>)
    ensures
        r == marker_asked(current, ordered),
        r == if current == Some(Kind::List { ordered }) {
            None::<char>
        } else if ordered {
            Some('.')
        } else {
            Some('*')
        },
{
    let same = match current {
        Some(Kind::List { ordered: now }) => now == ordered,
        _ => false,
    };
    if same {
        None
    } else if ordered {
        Some('.')
    } else {
        Some('*')
    }
}

/// The label that an admonition button asks for. Clicking the label a block
/// already carries takes it off again.
pub fn label_for(label: Option<&'static str>, current: Option<Kind>) -> (r: Option<&'static str>)
    ensures
        text::maybe_text(r) == match label {
            Some(wanted) => toggled(wanted@, label_in(current)),
            None => None,
        },
        match (label, current) {
            (Some(wanted), Some(Kind::Admonition(now))) => if now@ == wanted@ {
                r is None
            } else {
                r == label
            },
            _ => r == label,
        },
{
    match (label, current) {
        (Some(wanted), Some(Kind::Admonition(now))) => if equal(now, wanted) {
            None
        } else {
            label
        },
        _ => label,
    }
}

/// The wrapper that a wrapper button asks for. Clicking the wrapper a block
/// already has takes it off again.
pub fn wrapper_for(style: &'static str, current: Option<&'static str>) -> (r: Option<&'static str>)
    ensures
        text::maybe_text(r) == toggled(style@, text::maybe_text(current)),
        match current {
            Some(now) => if now@ == style@ {
                r is None
            } else {
                r == Some(style)
            },
            None => r == Some(style),
        },
{
    match current {
        Some(now) => if equal(now, style) {
            None
        } else {
            Some(style)
        },
        None => Some(style),
    }
}

// ---------------------------------------------------------------------
// Panels, and the document to open with
// ---------------------------------------------------------------------

/// A text that is there and says something.
pub open spec fn said(s: Option<String>) -> Option<Seq<char>> {
    match s {
        Some(text) => if text@.len() == 0 {
            None
        } else {
            Some(text@)
        },
        None => None,
    }
}

/// An option, unless it is an empty text.
pub fn given(option: Option<String>) -> (r: Option<String>)
    ensures
        text::maybe_string(r) == said(option),
{
    match option {
        Some(text) => if text.as_str().is_empty() {
            None
        } else {
            Some(text)
        },
        None => None,
    }
}

/// The document to open with: the one that the page names, or the one that was
/// saved last, or the sample.
pub fn opening_document(
    value: Option<String>,
    saved: Option<String>,
    sample: &str,
) -> (r: String)
    ensures
        r@ == match (said(value), said(saved)) {
            (Some(text), _) => text,
            (None, Some(text)) => text,
            (None, None) => sample@,
        },
{
    if let Some(text) = given(value) {
        return text;
    }
    if let Some(text) = given(saved) {
        return text;
    }
    sample.to_string()
}

/// What stands before the last dot of a file's name, or the whole name when
/// there is none.
pub open spec fn is_stem(name: Seq<char>, stem: Seq<char>) -> bool {
    if exists|i: int| text::last_at(name, seq!['.'], i) {
        exists|i: int| text::last_at(name, seq!['.'], i) && stem == name.take(i)
    } else {
        stem == name
    }
}

/// How an embedded image is described: as the user did, or by the name of its
/// file without the ending.
pub fn description_of(given: &str, file_name: &str) -> (r: String)
    ensures
        text::trimmed(given@).len() > 0 ==> r@ == text::trimmed(given@),
        text::trimmed(given@).len() == 0 ==> is_stem(file_name@, r@),
{
    let words = trim(given);
    if !words.is_empty() {
        return words.to_string();
    }
    proof {
        reveal_strlit(".");
        assert("."@ == seq!['.']);
    }
    match rfind(file_name, ".") {
        Some(i) => {
            let stem = file_name.substring_char(0, i);
            assert(stem@ == file_name@.take(i as int));
            stem.to_string()
        },
        None => file_name.to_string(),
    }
}

/// How large a file may be before embedding it stops being sensible. Base64
/// adds about a third, and every keystroke copies the whole source.
pub const MAX_EMBEDDED_BYTES: u64 = 2_097_152;

/// How many bytes make a megabyte.
pub const MEGABYTE: u64 = 1_048_576;

/// Whether `tenths` is `bytes` in tenths of a megabyte: the nearest number of
/// them, and of two that are as near the even one.
pub open spec fn is_rounded(bytes: u64, tenths: int) -> bool {
    let error = 10 * bytes - tenths * MEGABYTE;
    &&& -(MEGABYTE as int) <= 2 * error <= MEGABYTE
    &&& (2 * error == MEGABYTE || 2 * error == -(MEGABYTE as int)) ==> tenths % 2 == 0
}

/// What is said of a file that is too large to embed.
pub open spec fn too_large_text(name: Seq<char>, tenths: nat) -> Seq<char> {
    name + " is "@ + number::decimal(tenths / 10) + "."@ + number::decimal(tenths % 10)
        + " MB \u{2014} too large to embed. Link to it instead."@
}

/// `bytes` in tenths of a megabyte, rounded.
fn tenths_of_megabytes(bytes: u64) -> (r: u64)
    requires
        bytes <= 0x1000_0000_0000_0000,
    ensures
        is_rounded(bytes, r as int),
{
    let whole = 10 * bytes / MEGABYTE;
    let rest = 10 * bytes % MEGABYTE;
    assert(10 * bytes == whole * MEGABYTE + rest);
    if 2 * rest > MEGABYTE || (2 * rest == MEGABYTE && whole % 2 == 1) {
        whole + 1
    } else {
        whole
    }
}

/// What is said of a file that is too large to embed; nothing, of one that is
/// not.
pub fn too_large(name: &str, bytes: u64) -> (r: Option<String>)
    requires
        bytes <= 0x1000_0000_0000_0000,
    ensures
        r is Some <==> bytes > MAX_EMBEDDED_BYTES,
        r matches Some(said) ==> exists|tenths: nat|
            is_rounded(bytes, tenths as int) && said@ == #[trigger] too_large_text(name@, tenths),
{
    if bytes <= MAX_EMBEDDED_BYTES {
        return None;
    }
    let tenths = tenths_of_megabytes(bytes);
    let mut out = name.to_string();
    out.append(" is ");
    out.append(&write_long(tenths / 10));
    out.append(".");
    out.append(&write_long(tenths % 10));
    out.append(" MB \u{2014} too large to embed. Link to it instead.");
    assert(out@ == too_large_text(name@, tenths as nat));
    Some(out)
}

// ---------------------------------------------------------------------
// The status line
// ---------------------------------------------------------------------

/// One warning, in the status line.
pub open spec fn warning_text(warning: Warning) -> Seq<char> {
    "line "@ + number::decimal(warning.line as nat) + ": "@ + warning.message@
}

/// What the status line says of the warnings: how many there are, and the
/// first three of them.
pub open spec fn status_text(warnings: Seq<Warning>) -> Seq<char> {
    if warnings.len() == 0 {
        "No warnings"@
    } else {
        let shown = warnings.take(
            if warnings.len() < 3 {
                warnings.len() as int
            } else {
                3
            },
        );
        number::decimal(warnings.len()) + " warning(s) \u{2014} "@ + text::joined(
            shown.map_values(|warning: Warning| warning_text(warning)),
            " \u{b7} "@,
        )
    }
}

/// What the status line says of the warnings.
pub fn status(warnings: &[Warning]) -> (r: String)
    ensures
        r@ == status_text(warnings@),
{
    if warnings.len() == 0 {
        return "No warnings".to_string();
    }
    let n = if warnings.len() < 3 {
        warnings.len()
    } else {
        3
    };
    let ghost goal = warnings@.take(n as int).map_values(
        |warning: Warning| warning_text(warning),
    );
    let mut parts: Vec<String> = Vec::new();
    let mut i: usize = 0;
    while i < n
        invariant
            n <= warnings@.len(),
            goal == warnings@.take(n as int).map_values(
                |warning: Warning| warning_text(warning),
            ),
            i <= n,
            text::texts(parts@) == goal.take(i as int),
        decreases n - i,
    {
        let mut part = "line ".to_string();
        part.append(&write_number(warnings[i].line));
        part.append(": ");
        part.append(&warnings[i].message);
        proof {
            assert(part@ == goal[i as int]);
            assert(goal.take(i + 1) == goal.take(i as int).push(goal[i as int]));
        }
        parts.push(part);
        assert(text::texts(parts@) == goal.take(i + 1));
        i += 1;
    }
    assert(goal.take(i as int) == goal);
    let mut out = write_number(warnings.len());
    out.append(" warning(s) \u{2014} ");
    out.append(&join(&parts, " \u{b7} "));
    out
}

// ---------------------------------------------------------------------
// What is said
// ---------------------------------------------------------------------

/// The number of a heading is one less than its level, as `==` is the largest
/// that a body has; it is read back from the name.
pub proof fn law_headings_are_numbered(level: usize)
    ensures
        level >= 2 ==> heading_number(level) + 1 == level,
        level < 2 ==> heading_number(level) == 1,
        name_of(Kind::Heading(level)).take(8) == "Heading "@,
        number::numeral(name_of(Kind::Heading(level)).skip(8)) == Some(
            heading_number(level) as usize,
        ),
{
    reveal_strlit("Heading ");
    let name = name_of(Kind::Heading(level));
    assert(name.take(8) == "Heading "@);
    assert(name.skip(8) == number::decimal(heading_number(level)));
    number::law_number_read_back(heading_number(level) as usize);
}

/// Blocks of each kind are named.
pub proof fn law_kinds_are_named(label: &'static str, fixed: bool)
    ensures
        name_of(Kind::Body) == "Paragraph"@,
        name_of(Kind::List { ordered: true }) == "Numbered list"@,
        name_of(Kind::List { ordered: false }) == "Bulleted list"@,
        name_of(Kind::Title) == "Block title"@,
        name_of(Kind::Image) == "Image"@,
        name_of(Kind::Table { fixed_columns: fixed }) == "Table cell"@,
        name_of(Kind::Admonition(label)) == label@,
        name_of(Kind::Attribution(label)).take(label@.len() as int) == label@,
        name_of(Kind::Attribution(label)).skip(label@.len() as int) == " attribution"@,
{
    assert(name_of(Kind::Attribution(label)).take(label@.len() as int) == label@);
    assert(name_of(Kind::Attribution(label)).skip(label@.len() as int) == " attribution"@);
}

/// An empty text is as good as none, and any other is what it says.
pub proof fn law_empty_options_are_none(option: String)
    ensures
        said(None) is None,
        said(Some(option)) is None <==> option@.len() == 0,
        option@.len() > 0 ==> said(Some(option)) == Some(option@),
{
}

/// What stands before the last dot of a name, if the name is put together of
/// that, a dot and an ending without dots; a name without dots is all of it.
pub proof fn law_stem_of_a_file(stem: Seq<char>, ending: Seq<char>, said: Seq<char>)
    requires
        text::free_of(ending, '.'),
    ensures
        is_stem(stem + seq!['.'] + ending, said) <==> said == stem,
        is_stem(ending, said) <==> said == ending,
{
    let name = stem + seq!['.'] + ending;
    let n = stem.len() as int;
    assert(name.subrange(n, n + 1) == seq!['.']);
    assert(text::occurs_at(name, seq!['.'], n));
    assert forall|i: int| n < i implies !text::occurs_at(name, seq!['.'], i) by {
        if text::occurs_at(name, seq!['.'], i) {
            assert(name.subrange(i, i + 1)[0] == '.');
            assert(ending[i - n - 1] == '.');
        }
    }
    assert(text::last_at(name, seq!['.'], n));
    assert(name.take(n) == stem);
    assert forall|i: int| text::last_at(name, seq!['.'], i) implies i == n by {}
    assert forall|i: int| !text::last_at(ending, seq!['.'], i) by {
        if text::last_at(ending, seq!['.'], i) {
            assert(text::occurs_at(ending, seq!['.'], i));
            assert(ending.subrange(i, i + 1)[0] == '.');
            assert(ending[i] == '.');
        }
    }
}

/// A file of exactly so many tenths of a megabyte is said to be of just that
/// size, and what is said starts with its name.
pub proof fn law_sizes_are_rounded(bytes: u64, tenths: int, name: Seq<char>)
    ensures
        MEGABYTE == 1024 * 1024,
        MAX_EMBEDDED_BYTES == 2 * 1024 * 1024,
        10 * bytes == tenths * 1_048_576 ==> is_rounded(bytes, tenths),
        is_rounded(bytes, tenths) ==> -524_288 <= 10 * bytes - tenths * 1_048_576 <= 524_288,
        10 * bytes - tenths * 1_048_576 == 524_288 ==> (is_rounded(bytes, tenths) <==> tenths % 2
            == 0),
        -524_288 < 10 * bytes - tenths * 1_048_576 < 524_288 ==> is_rounded(bytes, tenths),
        tenths >= 0 ==> {
            let made = too_large_text(name, tenths as nat);
            let whole = number::decimal((tenths / 10) as nat);
            let n = (name.len() + 4) as int;
            &&& made.take(name.len() as int) == name
            &&& made.subrange(name.len() as int, n) == " is "@
            &&& made.subrange(n, n + whole.len()) == whole
            &&& made[n + whole.len()] == '.'
            &&& made.subrange(
                n + whole.len() + 1,
                n + whole.len() + 1 + number::decimal((tenths % 10) as nat).len(),
            ) == number::decimal((tenths % 10) as nat)
        },
{
    if tenths >= 0 {
        reveal_strlit(" is ");
        reveal_strlit(".");
        let made = too_large_text(name, tenths as nat);
        let whole = number::decimal((tenths / 10) as nat);
        let part = number::decimal((tenths % 10) as nat);
        let n = (name.len() + 4) as int;
        assert(made.take(name.len() as int) == name);
        assert(made.subrange(name.len() as int, n) == " is "@);
        assert(made.subrange(n, n + whole.len()) == whole);
        assert(made.subrange(n + whole.len() + 1, n + whole.len() + 1 + part.len()) == part);
    }
}

/// The status line starts with how many warnings there are, all of them, and
/// then shows the first of them: the line and the message of each of the first
/// three, with the rest left out.
pub proof fn law_status_counts_and_shows(warnings: Seq<Warning>, more: Seq<Warning>)
    requires
        0 < warnings.len() <= 3,
    ensures
        ({
            let count = number::decimal(warnings.len() + more.len());
            let said = status_text(warnings + more);
            let n = (count.len() + " warning(s) \u{2014} "@.len()) as int;
            &&& said.take(count.len() as int) == count
            &&& said.subrange(count.len() as int, n) == " warning(s) \u{2014} "@
            &&& warnings.len() == 3 || more.len() == 0 ==> said.skip(n) == text::joined(
                warnings.map_values(|warning: Warning| warning_text(warning)),
                " \u{b7} "@,
            )
        }),
        forall|w: Warning| #[trigger]
            warning_text(w) == "line "@ + number::decimal(w.line as nat) + ": "@ + w.message@,
        status_text(Seq::empty()) == "No warnings"@,
{
    let all = warnings + more;
    let count = number::decimal(warnings.len() + more.len());
    let said = status_text(all);
    let n = (count.len() + " warning(s) \u{2014} "@.len()) as int;
    let k = if all.len() < 3 {
        all.len() as int
    } else {
        3
    };
    let shown = text::joined(
        all.take(k).map_values(|warning: Warning| warning_text(warning)),
        " \u{b7} "@,
    );
    assert(all.len() == warnings.len() + more.len());
    assert(said == count + " warning(s) \u{2014} "@ + shown);
    assert(said.take(count.len() as int) == count);
    assert(said.subrange(count.len() as int, n) == " warning(s) \u{2014} "@);
    assert(said.skip(n) == shown);
    if warnings.len() == 3 || more.len() == 0 {
        assert(all.take(k) == warnings);
    }
}

/// What can be made of a block, kind by kind.
pub proof fn law_what_each_kind_can_be(kind: Kind)
    ensures
        match kind {
            Kind::Body => can_be_list(kind) && can_be_heading(kind) && can_be_admonition(kind)
                && can_be_titled(kind),
            Kind::Heading(_) => can_be_list(kind) && can_be_heading(kind) && !can_be_admonition(
                kind,
            ) && !can_be_titled(kind),
            Kind::List { .. } => can_be_list(kind) && !can_be_heading(kind) && !can_be_admonition(
                kind,
            ) && can_be_titled(kind),
            Kind::Admonition(_) => !can_be_list(kind) && !can_be_heading(kind)
                && can_be_admonition(kind) && can_be_titled(kind),
            _ => !can_be_list(kind) && !can_be_heading(kind) && !can_be_admonition(kind)
                && can_be_titled(kind),
        },
{
}

/// A button asks for what it says, unless that is there already: asking again
/// takes it off, and asking after that puts it on.
pub proof fn law_buttons_toggle(wanted: Seq<char>, current: Option<Seq<char>>, ordered: bool, kind: Kind)
    ensures
        toggled(wanted, Some(wanted)) is None,
        current != Some(wanted) ==> toggled(wanted, current) == Some(wanted),
        marker_asked(Some(Kind::List { ordered }), ordered) is None,
        marker_asked(Some(Kind::List { ordered: !ordered }), ordered) is Some,
        !(kind is List) ==> marker_asked(Some(kind), ordered) is Some,
        marker_asked(None, ordered) is Some,
        forall|current: Option<Kind>| #[trigger]
            marker_asked(current, true) matches Some(c) ==> c == '.',
        forall|current: Option<Kind>| #[trigger]
            marker_asked(current, false) matches Some(c) ==> c == '*',
        label_in(Some(kind)) is Some <==> kind is Admonition,
        label_in(None) is None,
        kind matches Kind::Admonition(label) ==> label_in(Some(kind)) == Some(label@),
{
}

} // verus!
