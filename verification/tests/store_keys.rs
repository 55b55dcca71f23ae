use bitcode_pipeline::escape::{artifact_key, reserved};
use bitcode_pipeline::store::{rank_of, store_path, Rank};
use percent_encoding::{percent_decode_str, percent_encode, AsciiSet, CONTROLS};

fn reserved_set() -> &'static AsciiSet {
    let set = CONTROLS
        .add(b' ')
        .add(b'"')
        .add(b'%')
        .add(b'<')
        .add(b'>')
        .add(b'`')
        .add(b'/')
        .add(b'\\');
    Box::leak(Box::new(set))
}

#[test]
fn key_escapes_separators_and_spaces() {
    assert_eq!(artifact_key("/src/a.o"), "%2Fsrc%2Fa.o");
    assert_eq!(artifact_key("/my dir/x"), "%2Fmy%20dir%2Fx");
}

#[test]
fn key_of_empty_path_is_empty() {
    assert_eq!(artifact_key(""), "");
}

#[test]
fn key_keeps_plain_characters() {
    assert_eq!(artifact_key("abc-XYZ_0.9~+=,:;!?*()[]{}'|&^$#@"), "abc-XYZ_0.9~+=,:;!?*()[]{}'|&^$#@");
}

#[test]
fn key_escapes_the_percent_sign() {
    assert_eq!(artifact_key("%"), "%25");
    assert_eq!(artifact_key("100%"), "100%25");
    assert_eq!(artifact_key("/a%2Fb"), "%2Fa%252Fb");
    assert_eq!(artifact_key("%25"), "%2525");
}

#[test]
fn key_escapes_each_reserved_character() {
    assert_eq!(artifact_key(" "), "%20");
    assert_eq!(artifact_key("\""), "%22");
    assert_eq!(artifact_key("<"), "%3C");
    assert_eq!(artifact_key(">"), "%3E");
    assert_eq!(artifact_key("`"), "%60");
    assert_eq!(artifact_key("/"), "%2F");
    assert_eq!(artifact_key("\\"), "%5C");
    assert_eq!(artifact_key("\u{7f}"), "%7F");
    assert_eq!(artifact_key("\n"), "%0A");
    assert_eq!(artifact_key("\t"), "%09");
    assert_eq!(artifact_key("\u{0}"), "%00");
    assert_eq!(artifact_key("\u{1f}"), "%1F");
}

#[test]
fn key_escapes_every_byte_outside_ascii() {
    assert_eq!(artifact_key("é"), "%C3%A9");
    assert_eq!(artifact_key("/src/naïve.o"), "%2Fsrc%2Fna%C3%AFve.o");
    assert_eq!(artifact_key("\u{10ffff}"), "%F4%8F%BF%BF");
}

#[test]
fn key_digits_are_upper_case() {
    assert_eq!(artifact_key("\u{1b}\u{1c}\u{1d}\u{1e}"), "%1B%1C%1D%1E");
    assert_eq!(artifact_key("\u{a}\u{b}\u{c}\u{d}\u{e}\u{f}"), "%0A%0B%0C%0D%0E%0F");
}

#[test]
fn reserved_bytes_are_the_controls_the_listed_and_the_non_ascii() {
    for b in 0u8..=255 {
        let listed = matches!(b, b' ' | b'"' | b'%' | b'<' | b'>' | b'`' | b'/' | b'\\');
        let expected = b < 0x20 || b == 0x7f || b >= 0x80 || listed;
        assert_eq!(reserved(b), expected, "byte {}", b);
    }
}

#[test]
fn key_agrees_with_percent_encode_on_every_character() {
    let set = reserved_set();
    for code in 0u32..0x3000 {
        if let Some(c) = char::from_u32(code) {
            let text = format!("a{}b", c);
            assert_eq!(artifact_key(&text), percent_encode(text.as_bytes(), set).to_string());
        }
    }
}

#[test]
fn key_agrees_with_percent_encode_on_paths() {
    let set = reserved_set();
    for path in ["/usr/lib/libc.so", "/a b/c\\d", "C:\\x\\y z", "/x/<y>/`z`/\"w\"", "/ü/ß/漢字", "/a%2Fb", "50%/%"] {
        assert_eq!(artifact_key(path), percent_encode(path.as_bytes(), set).to_string());
    }
}

#[test]
fn keys_are_single_file_names() {
    for path in ["/a/b c", "/a/b/c", "/a b/c", "/x/../y", "/", "//", "/a\\b", "/a\tb\n"] {
        let key = artifact_key(path);
        assert!(!key.is_empty());
        assert!(key.is_ascii());
        for c in key.chars() {
            assert!(c != '/' && c != '\\' && c != ' ' && !c.is_ascii_control(), "{:?}", key);
        }
    }
}

#[test]
fn distinct_paths_have_distinct_keys() {
    let paths = [
        "/a/b c", "/a/b/c", "/a b/c", "/a/bc", "/ab/c", "/a/b/ c", "/a//b", "/a/b/", "/a%2Fb", "/a%20b", "/a%2Fb%20c",
        "/a%2Fb c", "/a/b%20c", "/a%252Fb",
    ];
    for (i, p) in paths.iter().enumerate() {
        for (j, q) in paths.iter().enumerate() {
            if i != j {
                assert_ne!(artifact_key(p), artifact_key(q), "{:?} {:?}", p, q);
            }
        }
    }
}

#[test]
fn a_path_that_reads_as_an_escape_has_a_key_of_its_own() {
    assert_ne!(artifact_key("/a%2Fb"), artifact_key("/a/b"));
    assert_ne!(artifact_key("/a%2fb"), artifact_key("/a/b"));
    assert_ne!(artifact_key("/a%41b"), artifact_key("/aAb"));
    assert_ne!(artifact_key("%25"), artifact_key("%"));
    assert_ne!(store_path("/o", "/a%2Fb"), store_path("/o", "/a/b"));
}

#[test]
fn a_key_reads_back_as_its_path() {
    let paths = [
        "", "/", "/a/b", "/a%2Fb", "/a%252Fb", "%", "%%", "%2", "%2F", "100% sure", "/a b/c\\d", "/ü/ß/漢字", "/x/<y>/`z`",
        "\u{0}\u{1f}\u{7f}", "%C3%A9", "é",
    ];
    for path in paths {
        let key = artifact_key(path);
        assert_eq!(percent_decode_str(&key).decode_utf8().unwrap(), path, "{:?}", key);
    }
    for code in 0u32..0x800 {
        if let Some(c) = char::from_u32(code) {
            let path = format!("/{}%{}", c, c);
            assert_eq!(percent_decode_str(&artifact_key(&path)).decode_utf8().unwrap(), path);
        }
    }
}

#[test]
fn store_path_joins_directory_and_key() {
    assert_eq!(store_path("/w/rz_build/objects", "/out/liba"), "/w/rz_build/objects/%2Fout%2Fliba");
    assert_eq!(store_path("", "x"), "/x");
    assert_eq!(store_path("/my dir", "/a b"), "/my dir/%2Fa%20b");
}

#[test]
fn rank_orders_by_bytes() {
    assert_eq!(rank_of("a", "b"), Rank::Before);
    assert_eq!(rank_of("b", "a"), Rank::After);
    assert_eq!(rank_of("abc", "abc"), Rank::Same);
    assert_eq!(rank_of("", ""), Rank::Same);
    assert_eq!(rank_of("", "a"), Rank::Before);
    assert_eq!(rank_of("ab", "abc"), Rank::Before);
    assert_eq!(rank_of("abc", "ab"), Rank::After);
    assert_eq!(rank_of("Z", "a"), Rank::Before);
    assert_eq!(rank_of("z", "é"), Rank::Before);
    assert_eq!(rank_of("\u{ffff}", "\u{10000}"), Rank::Before);
}

#[test]
fn rank_agrees_with_the_order_of_strings() {
    let texts = ["", "a", "ab", "b", "B", "é", "/x/%2F", "/x/a", "~", "漢"];
    for a in texts {
        for b in texts {
            let expected = match a.cmp(b) {
                std::cmp::Ordering::Less => Rank::Before,
                std::cmp::Ordering::Equal => Rank::Same,
                std::cmp::Ordering::Greater => Rank::After,
            };
            assert_eq!(rank_of(a, b), expected, "{:?} {:?}", a, b);
        }
    }
}
