use surveillance::text::{
    chars_of, contains, ends_with, is_blank, is_white_space, joined, lines, replace, same_text,
    split_once, starts_with, string_of, strip_prefix, text_between, trim, up_to_char,
};

const SAMPLES: [&str; 14] = [
    "",
    " ",
    "abc",
    "  abc\t\r\n",
    "\u{a0}nbsp\u{2003}",
    "a:b:c",
    ":x",
    "x:",
    "line\nnext\r\nthird\n",
    "\n\nx\r",
    "${HOME}/a/${HOME}",
    "$${HOME}{HOME}",
    "ÄÖÜ straße",
    "aaaa",
];

const PARTS: [&str; 8] = ["a", "aa", "abc", "${HOME}", ":", "\n", "ß", "video"];

#[test]
fn characters_round_trip() {
    for s in SAMPLES {
        assert_eq!(string_of(&chars_of(s)), s);
    }
    assert_eq!(text_between(&chars_of("straße"), 3, 6), "aße");
}

#[test]
fn trimming_follows_the_standard_library() {
    for s in SAMPLES {
        assert_eq!(trim(s), s.trim());
        assert_eq!(is_blank(s), s.trim().is_empty());
    }
}

#[test]
fn white_space_follows_the_standard_library() {
    for u in 0..=0x10FFFFu32 {
        if let Some(c) = char::from_u32(u) {
            assert_eq!(is_white_space(c), c.is_whitespace(), "{u:x}");
        }
    }
}

#[test]
fn searching_follows_the_standard_library() {
    for s in SAMPLES {
        assert!(starts_with(s, "") && ends_with(s, "") && contains(s, ""));
        for p in PARTS {
            assert_eq!(starts_with(s, p), s.starts_with(p));
            assert_eq!(ends_with(s, p), s.ends_with(p));
            assert_eq!(contains(s, p), s.contains(p));
            assert_eq!(strip_prefix(s, p).as_deref(), s.strip_prefix(p));
            assert_eq!(same_text(s, p), s == p);
        }
    }
}

#[test]
fn splitting_follows_the_standard_library() {
    for s in SAMPLES {
        for c in [':', '[', '\n', 'a'] {
            let expected = s.split_once(c).map(|(a, b)| (a.to_string(), b.to_string()));
            assert_eq!(split_once(s, c), expected);
            assert_eq!(up_to_char(s, c), s.split(c).next().unwrap());
        }
        let expected: Vec<String> = s.lines().map(str::to_string).collect();
        assert_eq!(lines(s), expected);
    }
}

#[test]
fn replacing_follows_the_standard_library() {
    for s in SAMPLES {
        for p in PARTS {
            for w in ["", "x", "aa", "/home/pi"] {
                assert_eq!(replace(s, p, w), s.replace(p, w));
            }
        }
    }
}

#[test]
fn joining_puts_texts_side_by_side() {
    assert_eq!(joined("a", "ß"), "aß");
    assert_eq!(joined("", ""), "");
}
