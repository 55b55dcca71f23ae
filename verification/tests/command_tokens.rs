use bitcode_pipeline::tokens::{is_space_char, tokens};

#[test]
fn tokens_of_a_plain_command() {
    assert_eq!(tokens("cc -c a.c -o a.o"), vec!["cc", "-c", "a.c", "-o", "a.o"]);
}

#[test]
fn tokens_ignore_leading_trailing_and_repeated_whitespace() {
    assert_eq!(tokens("  cc   -c\ta.c \n"), vec!["cc", "-c", "a.c"]);
}

#[test]
fn tokens_of_nothing() {
    assert_eq!(tokens(""), Vec::<String>::new());
    assert_eq!(tokens(" \t\r\n\u{c}"), Vec::<String>::new());
}

#[test]
fn tokens_split_at_each_kind_of_ascii_whitespace() {
    assert_eq!(tokens("a b\tc\nd\u{c}e\rf"), vec!["a", "b", "c", "d", "e", "f"]);
}

#[test]
fn tokens_do_not_split_at_other_whitespace() {
    assert_eq!(tokens("a\u{a0}b c\u{b}d"), vec!["a\u{a0}b", "c\u{b}d"]);
}

#[test]
fn tokens_agree_with_split_ascii_whitespace() {
    for text in ["", " ", "a", " a", "a ", "a  b", "\ta\nb\r\nc ", "é ü\t漢 字", "a\u{2003}b c"] {
        let expected: Vec<String> = text.split_ascii_whitespace().map(String::from).collect();
        assert_eq!(tokens(text), expected, "{:?}", text);
    }
}

#[test]
fn tokens_of_joined_texts_are_the_tokens_of_each() {
    let a = " cc -c";
    let b = "a.c  -o a.o ";
    let mut both = tokens(a);
    both.extend(tokens(b));
    assert_eq!(tokens(&format!("{}\n{}", a, b)), both);
}

#[test]
fn space_characters() {
    for c in [' ', '\t', '\n', '\u{c}', '\r'] {
        assert!(is_space_char(c));
    }
    for c in ['a', '\u{b}', '\u{a0}', '\u{0}', '-'] {
        assert!(!is_space_char(c));
    }
}
