use asciidoc_editor::render::{
    flatten, humanize, render, render_standalone, Clock, Warning,
};

/// The system's clock.
fn now() -> Clock {
    let elapsed = std::time::SystemTime::now().duration_since(std::time::UNIX_EPOCH);
    Clock::unix(elapsed.ok().map(|elapsed| elapsed.as_secs()))
}

#[test]
fn renders_body_only_with_source_lines() {
    let (html, warnings) = render("= Title\n\nHello *world*.", now());

    assert!(html.contains("<strong>world</strong>"));
    assert!(html.contains("data-source-line="));
    assert!(!html.contains("<html"), "embedded output must be body-only");
    assert!(warnings.is_empty());
}

/// Time-dependent attributes must resolve without touching `SystemTime`.
#[test]
fn resolves_date_attributes() {
    let (html, _) = render("= Title\n\nBuilt {docdate} at {doctime}.", now());

    assert!(!html.contains("{docdate}"), "docdate should resolve: {html}");
    assert!(!html.contains("{doctime}"), "doctime should resolve: {html}");
}

#[test]
fn standalone_output_embeds_the_stylesheet() {
    let html = render_standalone("= Title\n\nBody.", now());

    assert!(html.contains("<html"));
    assert!(html.contains("<style>"), "export must not link the stylesheet");
}

#[test]
fn humanizes_warning_names() {
    assert_eq!(
        humanize("WarningType::UnterminatedDelimitedBlock"),
        "unterminated delimited block"
    );
    assert_eq!(humanize("UnterminatedDelimitedBlock"), "unterminated delimited block");
    assert_eq!(humanize("MissingAttribute(\"x\")"), "missing attribute(\"x\")");
    assert_eq!(humanize("Empty"), "empty");
}

#[test]
fn warnings_carry_a_line_number() {
    // An unterminated delimited block is a classic silent-failure mode.
    let (_, warnings) = render("= Title\n\n----\nnever closed\n", now());

    assert!(!warnings.is_empty(), "expected a warning");
    assert!(warnings[0].line > 0);
}

#[test]
fn the_clock_is_the_one_given() {
    let src = "= Title\n\nBuilt {docdate} at {doctime}.";
    let noon = Clock::Local {
        year: 2019,
        month: 1,
        day: 2,
        hour: 3,
        minute: 4,
        second: 5,
        utc_offset: 21600,
    };

    assert!(render(src, noon).0.contains("Built 2019-01-02 at 03:04:05 +0600."));
    assert!(render(src, Clock::Unix(0)).0.contains("Built 1970-01-01 at 00:00:00 UTC."));
    assert_eq!(render(src, noon), render(src, noon));
    assert!(render_standalone(src, noon).contains("Built 2019-01-02 at 03:04:05 +0600."));
}

#[test]
fn a_clock_is_what_it_is_read_off() {
    let at = |month: u32, behind: i32| Clock::local(2019, month, 2, 3, 4, 5, behind);
    let local = |month: u32, utc_offset: i32| Clock::Local {
        year: 2019,
        month,
        day: 2,
        hour: 3,
        minute: 4,
        second: 5,
        utc_offset,
    };

    // A browser counts months from zero, and minutes behind UTC.
    assert_eq!(at(0, -360), local(1, 21600));
    assert_eq!(at(11, 210), local(12, -12600));
    assert_eq!(at(5, 0), local(6, 0));
    let src = "{docdate} {doctime}";
    assert!(render(src, at(0, -360)).0.contains("2019-01-02 03:04:05 +0600"));
    assert!(render(src, at(11, 210)).0.contains("2019-12-02 03:04:05 -0330"));

    assert_eq!(Clock::unix(Some(86_400)), Clock::Unix(86_400));
    assert_eq!(Clock::unix(None), Clock::Unix(0));
    assert!(render(src, Clock::unix(Some(86_461))).0.contains("1970-01-02 00:01:01 UTC"));
}

#[test]
fn blocks_carry_the_lines_they_came_from() {
    let (html, _) = render("= Title\n\nHello.\n\n* item\n", now());

    assert!(html.contains("<div class=\"paragraph\" data-source-line=\"3\">"));
    assert!(html.contains("data-source-line=\"5\""));
}

#[test]
fn flattens_warnings() {
    let found = [
        (4, "WarningType::UnterminatedDelimitedBlock".to_string()),
        (9, "Odd(A::B)".to_string()),
    ];

    assert_eq!(
        flatten(&found),
        vec![
            Warning { line: 4, message: "unterminated delimited block".to_string() },
            Warning { line: 9, message: "odd(A::B)".to_string() },
        ]
    );
}

#[test]
fn an_unterminated_block_is_named_in_words() {
    let (_, warnings) = render("= Title\n\n----\nnever closed\n", now());

    assert_eq!(warnings[0].message, "unterminated delimited block");
    assert_eq!(warnings[0].line, 3);
}

#[test]
fn lowers_every_capital_as_std_does() {
    for code in (0..=0x10ffffu32).step_by(11).chain(0x41..0x250) {
        if let Some(c) = char::from_u32(code) {
            if c == '(' || c == ':' {
                continue;
            }
            let mut expected = "x".to_string();
            if c.is_uppercase() {
                expected.push(' ');
            }
            expected.extend(c.to_lowercase());
            assert_eq!(humanize(&format!("x{c}")), expected);
        }
    }
    assert_eq!(humanize("a::"), "");
    assert_eq!(humanize("MissingAttribute(\"a::b\")"), "missing attribute(\"a::b\")");
    assert_eq!(humanize("A::B::OddOne(C::D(E))"), "odd one(C::D(E))");
    assert_eq!(humanize(""), "");
    assert_eq!(humanize("ABC"), "a b c");
}

#[test]
fn a_standalone_file_is_complete() {
    for src in ["", "= Title\n:stylesheet!:\n\nBody {docdir}.", "Just words"] {
        let html = render_standalone(src, Clock::Unix(0));

        assert!(html.starts_with("<!DOCTYPE html>\n<html lang=\""));
        assert!(html.ends_with("</body>\n</html>\n"));
        assert_eq!(html.contains("<style>\n"), !src.contains(':'));
        assert_eq!(html, render_standalone(src, Clock::Unix(0)));
    }
}
