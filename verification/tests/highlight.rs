use asciidoc_editor::highlight::{
    escape, highlight, opening_fence, weave, ADMONITION, ATTR_ENTRY, CLASSES, INLINE, LIST_MARKER,
};
use regex::Regex;

/// Strips tags and unescapes, i.e. recovers what the browser will display.
fn text_of(html: &str) -> String {
    let mut out = String::new();
    let mut in_tag = false;
    for c in html.chars() {
        match c {
            '<' => in_tag = true,
            '>' => in_tag = false,
            _ if !in_tag => out.push(c),
            _ => {}
        }
    }
    out.replace("&lt;", "<").replace("&gt;", ">").replace("&amp;", "&")
}

/// The overlay must line up with the textarea character for character.
#[test]
fn rendered_text_round_trips_the_source() {
    let src = "= Title\n:attr: v\n\n== Section\n\nA *bold* and _it_ and `x < y`.\n\n\
               [source,rust]\n----\nfn main() { if a < b {} }\n----\n\n* item\n. step\n\n\
               NOTE: careful.\n// comment\nhttps://example.com[link]\n";

    assert_eq!(text_of(&highlight(src)), format!("{src}\n"));
}

#[test]
fn classifies_line_kinds() {
    assert!(highlight("== Section\n").contains(r#"class="ad-heading""#));
    assert!(highlight(":toc:\n").contains(r#"class="ad-attr-entry""#));
    assert!(highlight("[source,rust]\n").contains(r#"class="ad-attr-list""#));
    assert!(highlight(".Block title\n").contains(r#"class="ad-block-title""#));
    assert!(highlight("// note\n").contains(r#"class="ad-comment""#));
    assert!(highlight("NOTE: hi\n").contains(r#"class="ad-admonition""#));
    assert!(highlight("* item\n").contains(r#"class="ad-marker""#));
}

#[test]
fn verbatim_blocks_suppress_inline_markup() {
    let html = highlight("----\nlet x = *not bold*;\n----\n");

    assert!(html.contains(r#"class="ad-verbatim""#));
    assert!(!html.contains(r#"class="ad-bold""#));
}

#[test]
fn verbatim_block_ends_at_its_own_fence() {
    let html = highlight("----\ncode\n----\n\n*bold*\n");

    assert!(html.contains(r#"class="ad-bold""#), "markup resumes after the fence");
}

#[test]
fn escapes_html_in_source() {
    assert!(highlight("<script>\n").contains("&lt;script&gt;"));
}

#[test]
fn weaves_spans_around_matches() {
    let group = |g: usize, from: usize, to: usize| {
        let mut caps = vec![None; 7];
        caps[0] = Some((from, to));
        caps[g] = Some((from, to));
        caps
    };

    assert_eq!(
        weave("é *b* `c`", &[group(2, 2, 5), group(1, 6, 9)]),
        "é <span class=\"ad-bold\">*b*</span> <span class=\"ad-code\">`c`</span>"
    );
    assert_eq!(weave("plain", &[]), "plain");
}

#[test]
fn marks_up_each_inline_construct() {
    for (src, class) in [
        ("a `code` b", "code"),
        ("a *bold* b", "bold"),
        ("a _it_ b", "italic"),
        ("a link:x[y] b", "mac"),
        ("a https://e.org b", "url"),
        ("a {name} b", "attr"),
    ] {
        let matched = &src[2..src.len() - 2];
        assert_eq!(
            highlight(src),
            format!("a <span class=\"ad-{class}\">{matched}</span> b\n")
        );
    }
}

#[test]
fn marks_up_whole_lines_exactly() {
    for (line, class) in [
        ("  // x & y", "comment"),
        ("=== A", "heading"),
        (":!name-1: v", "attr-entry"),
        ("[a]  ", "attr-list"),
        (".Title", "block-title"),
        ("-----", "delim"),
        ("|===", "delim"),
    ] {
        assert_eq!(
            highlight(line),
            format!("<span class=\"ad-{class}\">{}</span>\n", escape(line))
        );
    }
    assert_eq!(
        highlight("  12. x"),
        "  <span class=\"ad-marker\">12.</span> x\n"
    );
    assert_eq!(
        highlight("TIP: x"),
        "<span class=\"ad-admonition\">TIP: </span>x\n"
    );
    assert_eq!(highlight(". x"), "<span class=\"ad-marker\">.</span> x\n");
    assert_eq!(highlight("..x"), "..x\n");
    assert_eq!(highlight(""), "\n");
}

#[test]
fn a_longer_fence_opens_a_verbatim_block_that_it_closes() {
    for fence in ["-----", ".....", "++++++"] {
        let html = highlight(&format!("{fence}\n*x*\n----\n....\n++++\n{fence}\n_y_\n"));

        assert!(!html.contains(r#"class="ad-bold""#), "{fence}");
        assert!(html.contains(r#"class="ad-italic""#), "{fence}");
    }
    for fence in ["=====", "*****", "_____"] {
        let html = highlight(&format!("{fence}\n*x*\n{fence}\n"));

        assert!(html.contains(r#"class="ad-bold""#), "{fence}");
    }
}

#[test]
fn knows_the_fences() {
    for fence in ["----", "....", "++++", "====", "****", "____", "--", "|===", "-----", "======"] {
        assert_eq!(opening_fence(fence), Some(fence));
    }
    for line in ["", "-", "---", "|====", "--- -", "++", "----a", "~~~~", "-.-."] {
        assert_eq!(opening_fence(line), None, "{line}");
    }
}

/// Every text of up to four of the characters.
fn texts(alphabet: &[char]) -> Vec<String> {
    let mut all = vec![String::new()];
    let mut last = all.clone();
    for _ in 0..4 {
        last = last
            .iter()
            .flat_map(|s| alphabet.iter().map(move |c| format!("{s}{c}")))
            .collect();
        all.extend(last.iter().cloned());
    }
    all
}

fn is_entry(s: &str) -> bool {
    let chars: Vec<char> = s.chars().collect();
    let word = |c: char| c.is_ascii_alphanumeric() || c == '_';
    (2..chars.len()).any(|n| {
        let from = if chars[1] == '!' { 2 } else { 1 };
        let to = if chars[n - 1] == '!' { n - 1 } else { n };
        chars[0] == ':'
            && chars[n] == ':'
            && from < to
            && word(chars[from])
            && (from + 1..to).all(|i| word(chars[i]) || chars[i] == '-')
    })
}

#[test]
fn attribute_entries_are_as_stated() {
    let pattern = Regex::new(ATTR_ENTRY).expect("a pattern");
    for s in texts(&[':', '!', 'a', '-', '_', ' ', 'é']) {
        assert_eq!(pattern.is_match(&s), is_entry(&s), "{s:?}");
        let longer = format!(":{s}:");
        assert_eq!(pattern.is_match(&longer), is_entry(&longer), "{longer:?}");
    }
}

#[test]
fn admonitions_are_as_stated() {
    let pattern = Regex::new(ADMONITION).expect("a pattern");
    for label in ["NOTE", "TIP", "IMPORTANT", "WARNING", "CAUTION"] {
        let found = pattern.find(&format!("{label}: x")).map(|m| (m.start(), m.end()));
        assert_eq!(found, Some((0, label.len() + 2)));
        assert!(!pattern.is_match(&format!(" {label}: x")));
        assert!(!pattern.is_match(&format!("a\n{label}: x")));
        assert!(!pattern.is_match(&format!("{label}:x")));
    }
    assert!(!pattern.is_match("Note: x"));
}

/// Where the marker starts and ends, and the text starts, of a line in ASCII.
fn item_in(s: &str) -> Option<(usize, usize, usize)> {
    let a = s.len() - s.trim_start().len();
    let b = a + s[a..].find(char::is_whitespace)?;
    let e = b + (s[b..].len() - s[b..].trim_start().len());
    let m = &s[a..b];
    let body = m.strip_suffix('.');
    let is_marker = !m.is_empty()
        && (m.chars().all(|c| c == '*' || c == '-')
            || m.chars().all(|c| c == '.')
            || body.is_some_and(|d| !d.is_empty() && d.chars().all(|c| c.is_ascii_digit()))
            || body.is_some_and(|d| d.len() == 1 && d.chars().all(|c| c.is_ascii_alphabetic())));
    is_marker.then_some((a, b, e))
}

#[test]
fn list_markers_are_as_stated() {
    let pattern = Regex::new(LIST_MARKER).expect("a pattern");
    for s in texts(&['*', '-', '.', '1', 'a', ' ', '\t', '|']) {
        let found = pattern.captures(&s).map(|caps| {
            let place = |g: usize| caps.get(g).map(|m| (m.start(), m.end()));
            assert_eq!(caps.len(), 4);
            let (a, b) = place(2).expect("a marker");
            let (_, e) = place(3).expect("a gap");
            assert_eq!(place(0), Some((0, e)));
            assert_eq!(place(1), Some((0, a)));
            assert_eq!(place(3), Some((b, e)));
            (a, b, e)
        });
        assert_eq!(found, item_in(&s), "{s:?}");
    }
    assert!(pattern.is_match("\u{663}. x"), "digits of other scripts");
}

#[test]
fn inline_matches_are_as_stated() {
    let pattern = Regex::new(INLINE).expect("a pattern");
    let names: Vec<&str> = pattern.capture_names().skip(1).map(|name| name.expect("a name")).collect();
    assert_eq!(names, CLASSES);
    for s in texts(&['*', '_', '`', '{', '}', 'a', ':', ' ']) {
        let mut last = 0;
        let mut count = 0;
        for caps in pattern.captures_iter(&s) {
            let whole = caps.get(0).expect("a match");
            assert!(last <= whole.start() && whole.start() <= whole.end());
            last = whole.end();
            let groups: Vec<_> = caps.iter().skip(1).flatten().collect();
            assert_eq!(groups.len(), 1);
            assert_eq!(groups[0].range(), whole.range());
            count += 1;
        }
        if !s.contains(['*', '_', '`', '{', ':']) {
            assert_eq!(count, 0);
        }
    }
}

#[test]
fn the_overlay_shows_the_source_whatever_it_is() {
    for src in [
        "",
        "\n",
        "a & b < c > d &lt; &amp;lt;",
        "----\n<b>\n----\n*x*",
        "* *b* _i_ `c` {d} https://e.org/<x>[y]",
        "NOTE: *x*\n:a: b\n[c]\n.d\n// e\n== f\n1. g\n",
        "🦀 *é* `ß`\r\n",
        "link:a[b] xref:c[d] kbd:[e]",
    ] {
        assert_eq!(text_of(&highlight(src)), format!("{src}\n"), "{src:?}");
    }
}
