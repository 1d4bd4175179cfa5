//! The string functions, held against the standard library's.

use backcheck::runners::outcome::line_containing;
use backcheck::text;

const SAMPLES: [&str; 12] = [
    "",
    " ",
    "plain",
    "  padded \t\n",
    "a,b,,c",
    "line one\nline two\r\nline three\n",
    "\u{3000}wide\u{a0}",
    "naïve café",
    "assert assert assert",
    "aaaa",
    "/repo/src/main.rs",
    "日本語 テスト",
];

#[test]
fn white_space_is_unicode_white_space() {
    let mut n: u32 = 0;
    while n <= 0x10ffff {
        if let Some(c) = char::from_u32(n) {
            assert_eq!(text::white(c), c.is_whitespace(), "U+{n:04X}");
        }
        n += 1;
    }
}

#[test]
fn trimming_agrees_with_std() {
    for s in SAMPLES {
        assert_eq!(text::trim(s), s.trim());
        assert_eq!(text::trim_start(s), s.trim_start());
        assert_eq!(text::trim_end(s), s.trim_end());
        assert_eq!(text::is_blank(s), s.trim().is_empty());
        assert_eq!(text::trim_of(s, "a "), s.trim_matches(['a', ' ']));
        assert_eq!(text::trim_start_of(s, "a "), s.trim_start_matches(['a', ' ']));
        assert_eq!(text::trim_end_of(s, "a "), s.trim_end_matches(['a', ' ']));
    }
}

#[test]
fn splitting_agrees_with_std() {
    for s in SAMPLES {
        assert_eq!(text::lines(s), s.lines().collect::<Vec<_>>());
        assert_eq!(text::split(s, ','), s.split(',').collect::<Vec<_>>());
        assert_eq!(text::words(s), s.split_whitespace().collect::<Vec<_>>());
        assert_eq!(
            text::after_last_of(s, "/,"),
            s.rsplit(['/', ',']).next().unwrap()
        );
    }
    assert_eq!(text::lines("a\r\nb\rc\r\n"), vec!["a", "b\rc"]);
}

#[test]
fn searching_agrees_with_std() {
    for s in SAMPLES {
        for p in ["a", "aa", "assert", "line", "é", " ", "zzz"] {
            assert_eq!(text::contains(s, p), s.contains(p), "{p:?} in {s:?}");
            assert_eq!(text::starts_with(s, p), s.starts_with(p));
            assert_eq!(text::ends_with(s, p), s.ends_with(p));
            assert_eq!(text::count(s, p), s.matches(p).count());
            assert_eq!(text::remove_all(s, p), s.replace(p, ""));
            assert_eq!(
                text::strip_prefix(s, p).as_deref(),
                s.strip_prefix(p)
            );
        }
        assert_eq!(text::contains_char(s, 'a'), s.contains('a'));
    }
}

#[test]
fn building_agrees_with_std() {
    for s in SAMPLES {
        assert_eq!(text::byte_len(s), s.len());
        assert_eq!(
            text::take_chars(s, 4),
            s.chars().take(4).collect::<String>()
        );
        assert_eq!(text::replace_char(s, 'a', 'é'), s.replace('a', "é"));
    }
    let parts = vec!["a".to_string(), "".to_string(), "c".to_string()];
    assert_eq!(text::join(&parts, ", "), "a, , c");
    assert_eq!(text::join(&Vec::new(), ", "), "");
    assert_eq!(text::concat3("a", "b", "c"), "abc");
}

#[test]
fn case_is_ignored_beyond_ascii() {
    assert_eq!(
        line_containing("first\n  ÉTÉ Failed \nlast", "été failed").as_deref(),
        Some("ÉTÉ Failed")
    );
    assert_eq!(line_containing("failed", "Failed"), None);
}

#[test]
fn cutting_respects_characters() {
    assert!(text::can_split("abcdefghij", 8));
    assert_eq!(text::take_bytes("abcdefghij", 8), "abcdefgh");
    assert!(text::can_split("éé", 2));
    assert_eq!(text::take_bytes("éé", 2), "é");
    assert!(!text::can_split("éé", 3));
}

#[test]
fn numbers_agree_with_std() {
    for n in [0u64, 7, 10, 99, 100, 12345, u64::MAX] {
        assert_eq!(text::decimal(n), n.to_string());
    }
    for s in [
        "", "0", "7", "007", "+7", "-7", "4294967295", "4294967296", "99999999999999999999", "1a",
        " 1", "+", "٣",
    ] {
        assert_eq!(text::parse_u32(s), s.parse::<u32>().ok(), "{s:?}");
    }
}

#[test]
fn sets_are_sorted_and_distinct() {
    let texts: Vec<String> = ["b", "a", "é", "b", "ab", "a"]
        .iter()
        .map(|s| s.to_string())
        .collect();
    let set: std::collections::BTreeSet<String> = texts.iter().cloned().collect();
    assert_eq!(
        text::sorted_set(&texts),
        set.into_iter().collect::<Vec<_>>()
    );
    assert!(text::comes_before("a", "ab"));
    assert!(!text::comes_before("ab", "a"));
    assert!(!text::comes_before("a", "a"));
}
