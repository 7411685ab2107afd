use asciidoc_editor::number::{read_number, write_long, write_number};
use asciidoc_editor::text::{
    blank, boundary, byte_count, chars_of, ends_with_char, equal, find, fold, is_whitespace, join,
    lines, repeat, replace_char, rfind, split, starts_with, starts_with_char, string_between,
    string_of, strip_prefix, strip_suffix, trim, trim_end, trim_start, uppercase,
};

const SAMPLES: [&str; 16] = [
    "",
    " ",
    "\n",
    "\r\n",
    "a",
    "  padded\t",
    "one\ntwo\n",
    "one\r\ntwo\r\n\r\n",
    "ends in \\r\r",
    "\u{3000}wide\u{2003}spaces\u{a0}",
    "héllo wörld",
    "🦀 crab\n🦀🦀",
    "a::b::c",
    "x\n\n\ny",
    ",,a,,b,",
    "Mixed CASE ÄÖ ß",
];

#[test]
fn white_space_is_what_unicode_says() {
    for code in 0..=0x10ffffu32 {
        if let Some(c) = char::from_u32(code) {
            assert_eq!(is_whitespace(c), c.is_whitespace(), "{code:x}");
        }
    }
}

#[test]
fn trims_as_std_does() {
    for s in SAMPLES {
        assert_eq!(trim(s), s.trim());
        assert_eq!(trim_start(s), s.trim_start());
        assert_eq!(trim_end(s), s.trim_end());
        assert_eq!(blank(s), s.trim().is_empty());
    }
}

#[test]
fn finds_lines_as_std_does() {
    for s in SAMPLES {
        let expected: Vec<String> = s.lines().map(str::to_string).collect();
        assert_eq!(lines(s), expected, "{s:?}");
        let expected: Vec<String> = s.split('\n').map(str::to_string).collect();
        assert_eq!(split(s, '\n'), expected, "{s:?}");
        assert_eq!(join(&expected, "\n"), s);
        assert_eq!(split(s, ','), s.split(',').map(str::to_string).collect::<Vec<_>>());
    }
}

#[test]
fn searches_as_std_does() {
    for s in SAMPLES {
        for pattern in ["a", "::", "\n", "two", "🦀", "b,"] {
            let chars_before = |at: usize| s[..at].chars().count();
            assert_eq!(find(s, pattern), s.find(pattern).map(chars_before));
            assert_eq!(rfind(s, pattern), s.rfind(pattern).map(chars_before));
            assert_eq!(starts_with(s, pattern), s.starts_with(pattern));
            assert_eq!(strip_prefix(s, pattern), s.strip_prefix(pattern));
            assert_eq!(strip_suffix(s, pattern), s.strip_suffix(pattern));
        }
        assert_eq!(strip_suffix(s, ""), Some(s));
        assert_eq!(strip_prefix(s, ""), Some(s));
        assert_eq!(starts_with_char(s, 'a'), s.starts_with('a'));
        assert_eq!(ends_with_char(s, '\n'), s.ends_with('\n'));
    }
}

#[test]
fn rewrites_as_std_does() {
    for s in SAMPLES {
        assert_eq!(fold(s), s.replace('\n', " "));
        assert_eq!(replace_char(s, 'a', "(A)"), s.replace('a', "(A)"));
        assert_eq!(uppercase(s), s.to_ascii_uppercase());
        assert_eq!(string_of(&chars_of(s)), s);
        assert!(equal(s, s));
        assert!(!equal(s, "something else"));
    }
    assert_eq!(repeat('=', 4), "====");
    assert_eq!(repeat('=', 0), "");
    assert_eq!(string_between(&['a', 'b', 'c'], 1, 2), "b");
}

#[test]
fn counts_bytes_as_std_does() {
    for s in SAMPLES {
        assert_eq!(byte_count(s), s.len());
        for offset in 0..=s.len() + 2 {
            let expected = if s.is_char_boundary(offset) {
                Some(s[..offset].chars().count())
            } else {
                None
            };
            assert_eq!(boundary(s, offset), expected, "{s:?} at {offset}");
        }
    }
}

#[test]
fn every_character_takes_as_many_bytes_as_std_says() {
    for code in (0..=0x10ffffu32).step_by(7).chain([0x7f, 0x80, 0x7ff, 0x800, 0xffff, 0x10000]) {
        if let Some(c) = char::from_u32(code) {
            assert_eq!(byte_count(&c.to_string()), c.len_utf8());
        }
    }
}

#[test]
fn reads_numbers_as_std_does() {
    for s in [
        "", "0", "7", "007", "42", "+42", "-1", "+", "++1", "1.", " 1", "1 ", "abc", "12a",
        "18446744073709551615", "18446744073709551616", "99999999999999999999999", "４",
    ] {
        assert_eq!(read_number(s), s.parse::<usize>().ok(), "{s:?}");
    }
}

#[test]
fn what_is_written_as_a_number_is_read_back() {
    for n in [0, 1, 9, 10, 99, 100, 12345, usize::MAX - 1, usize::MAX] {
        assert_eq!(write_number(n), n.to_string());
        assert_eq!(read_number(&write_number(n)), Some(n));
        assert_eq!(write_long(n as u64), n.to_string());
    }
}
