use bitcode_pipeline::text::{
    belongs, chars_of, digit_of, find, is_white_char, last_part, parse_decimal, parse_hex,
    split_and_trim, split_at, stands_at, strip, strip_prefixes, text_of, Class,
};

fn cs(s: &str) -> Vec<char> {
    s.chars().collect()
}

fn st(v: Vec<char>) -> String {
    v.into_iter().collect()
}

const SAMPLES: [&str; 14] = [
    "",
    " ",
    "a",
    "  a b  ",
    "\t\r\n x \u{a0}\u{3000}",
    "'main'<<0x55d0c8>>",
    "''x''",
    ">>>",
    "0x0x1f",
    "#uses=12",
    "a  b   c ",
    " leading",
    "é ü",
    "\u{2003}wide\u{2009}",
];

#[test]
fn chars_and_texts_round_trip() {
    for s in SAMPLES {
        assert_eq!(chars_of(s), cs(s));
        assert_eq!(text_of(&cs(s)), s);
    }
}

#[test]
fn white_characters_are_those_of_the_standard() {
    for code in 0u32..0x11000 {
        if let Some(c) = char::from_u32(code) {
            assert_eq!(is_white_char(c), c.is_whitespace(), "U+{:04X}", code);
            assert_eq!(belongs(Class::White, c), c.is_whitespace());
        }
    }
    assert!(belongs(Class::Only('x'), 'x'));
    assert!(!belongs(Class::Only('x'), 'y'));
}

#[test]
fn strip_of_whitespace_is_trim() {
    for s in SAMPLES {
        assert_eq!(st(strip(&cs(s), Class::White, true, true)), s.trim());
        assert_eq!(st(strip(&cs(s), Class::White, true, false)), s.trim_start());
        assert_eq!(st(strip(&cs(s), Class::White, false, true)), s.trim_end());
        assert_eq!(st(strip(&cs(s), Class::White, false, false)), s);
    }
}

#[test]
fn strip_of_a_character_is_trim_matches() {
    for s in SAMPLES {
        for c in ['\'', '>', 'a', ' '] {
            assert_eq!(st(strip(&cs(s), Class::Only(c), true, true)), s.trim_matches(c));
            assert_eq!(st(strip(&cs(s), Class::Only(c), true, false)), s.trim_start_matches(c));
            assert_eq!(st(strip(&cs(s), Class::Only(c), false, true)), s.trim_end_matches(c));
        }
    }
}

#[test]
fn strip_examples() {
    assert_eq!(st(strip(&cs("''main'"), Class::Only('\''), true, true)), "main");
    assert_eq!(st(strip(&cs("'''"), Class::Only('\''), true, true)), "");
    assert_eq!(st(strip(&cs("a>>"), Class::Only('>'), false, true)), "a");
    assert_eq!(st(strip(&cs(" a "), Class::White, true, false)), "a ");
}

#[test]
fn strip_prefixes_is_trim_start_matches() {
    for s in SAMPLES {
        for p in ["0x", "#uses=", "a", "''", ""] {
            assert_eq!(st(strip_prefixes(&cs(s), &cs(p))), s.trim_start_matches(p), "{:?} {:?}", s, p);
        }
    }
    assert_eq!(st(strip_prefixes(&cs("0x0x0x1"), &cs("0x"))), "1");
    assert_eq!(st(strip_prefixes(&cs("0x"), &cs("0x"))), "");
    assert_eq!(st(strip_prefixes(&cs("00x"), &cs("0x"))), "00x");
}

#[test]
fn find_is_find_in_the_rest() {
    for s in SAMPLES {
        let v = cs(s);
        for p in ["'<<", "0x", " ", "a", "", "external node"] {
            for start in 0..=v.len() + 1 {
                let expected = if start > v.len() {
                    None
                } else {
                    let rest: String = v[start..].iter().collect();
                    rest.find(p).map(|b| start + rest[..b].chars().count())
                };
                assert_eq!(find(&v, &cs(p), start), expected, "{:?} {:?} {}", s, p, start);
            }
        }
    }
}

#[test]
fn find_examples() {
    assert_eq!(find(&cs("a'<<b'<<c"), &cs("'<<"), 0), Some(1));
    assert_eq!(find(&cs("a'<<b'<<c"), &cs("'<<"), 2), Some(5));
    assert_eq!(find(&cs("a'<<b'<<c"), &cs("'<<"), 6), None);
    assert_eq!(find(&cs("abc"), &cs("abcd"), 0), None);
    assert_eq!(find(&cs("abc"), &cs(""), 3), Some(3));
    assert_eq!(find(&cs("abc"), &cs(""), 4), None);
}

#[test]
fn stands_at_examples() {
    assert!(stands_at(&cs("Call graph node for"), &cs("Call graph node"), 0));
    assert!(!stands_at(&cs(" Call graph node"), &cs("Call graph node"), 0));
    assert!(stands_at(&cs(" Call graph node"), &cs("Call graph node"), 1));
    assert!(!stands_at(&cs("Call"), &cs("Call graph node"), 0));
    assert!(stands_at(&cs("abc"), &cs(""), 3));
    assert!(!stands_at(&cs("abc"), &cs(""), 4));
    assert!(!stands_at(&cs("abc"), &cs("c"), usize::MAX));
}

#[test]
fn split_at_is_split() {
    for s in SAMPLES {
        for sep in [' ', '\n', 'a'] {
            let expected: Vec<Vec<char>> = s.split(sep).map(cs).collect();
            assert_eq!(split_at(&cs(s), sep), expected, "{:?}", s);
        }
    }
    assert_eq!(split_at(&cs(""), ' '), vec![cs("")]);
    assert_eq!(split_at(&cs("a  b "), ' '), vec![cs("a"), cs(""), cs("b"), cs("")]);
}

#[test]
fn split_and_trim_keeps_what_is_left() {
    for s in SAMPLES {
        for sep in [' ', '\n'] {
            let expected: Vec<Vec<char>> =
                s.split(sep).map(|p| p.trim()).filter(|p| !p.is_empty()).map(cs).collect();
            assert_eq!(split_and_trim(&cs(s), sep), expected, "{:?}", s);
        }
    }
    assert_eq!(split_and_trim(&cs(" a\tb  \u{a0}c\u{a0} "), ' '), vec![cs("a\tb"), cs("c")]);
    assert_eq!(split_and_trim(&cs("x\r\n\r\n y \n"), '\n'), vec![cs("x"), cs("y")]);
}

#[test]
fn lines_agree_with_the_lines_of_the_standard() {
    for s in ["", "a", "a\n", "a\r\nb", "\n\n a \n\r\n b\r\n", "x\ny\n\n", " \n \n"] {
        let expected: Vec<Vec<char>> = s.lines().map(|l| l.trim()).filter(|l| !l.is_empty()).map(cs).collect();
        assert_eq!(split_and_trim(&cs(s), '\n'), expected, "{:?}", s);
    }
}

#[test]
fn last_part_is_the_last_of_split() {
    for s in SAMPLES {
        assert_eq!(st(last_part(&cs(s), ' ')), s.split(' ').last().unwrap());
    }
    assert_eq!(st(last_part(&cs("calls function 'f'"), ' ')), "'f'");
    assert_eq!(st(last_part(&cs("ends with space "), ' ')), "");
    assert_eq!(st(last_part(&cs("one"), ' ')), "one");
}

#[test]
fn digits() {
    for code in 0u32..0x3000 {
        if let Some(c) = char::from_u32(code) {
            assert_eq!(digit_of(c), c.to_digit(36), "U+{:04X}", code);
        }
    }
}

#[test]
fn numbers_are_read_as_the_standard_reads_them() {
    let texts = [
        "", "+", "-", "0", "00", "+0", "-0", "7", "+7", "++7", "+-7", "-7", "12", "0012", "1f", "1F", "ff", "g", "1g",
        "0x1f", " 1", "1 ", "1_000", "9", "a", "A", "deadBEEF", "18446744073709551615", "18446744073709551616",
        "99999999999999999999999", "ffffffffffffffff", "10000000000000000", "+ffffffffffffffff", "٣", "1é",
        "4294967295", "4294967296", "ffffffff", "100000000",
    ];
    for t in texts {
        assert_eq!(parse_hex(&cs(t)), usize::from_str_radix(t, 16).ok(), "{:?}", t);
        assert_eq!(parse_decimal(&cs(t)), usize::from_str_radix(t, 10).ok(), "{:?}", t);
        assert_eq!(parse_decimal(&cs(t)), t.parse::<usize>().ok(), "{:?}", t);
    }
}

#[test]
fn number_examples() {
    assert_eq!(parse_hex(&cs("55d0c8")), Some(0x55d0c8));
    assert_eq!(parse_hex(&cs("0")), Some(0));
    assert_eq!(parse_decimal(&cs("42")), Some(42));
    assert_eq!(parse_decimal(&cs("+42")), Some(42));
    assert_eq!(parse_decimal(&cs("4a")), None);
    assert_eq!(parse_hex(&cs("4a")), Some(74));
    assert_eq!(parse_decimal(&cs("")), None);
}
