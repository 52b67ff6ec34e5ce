use cephlens::text::{
    after_prefix, digits_only, i64_text, join_texts, pad_left, pad_right, parse_i64, parse_u64,
    same_text, space, split_first, split_lines, split_text, split_words, strip_chars, text_begins,
    text_has, text_less, trim_text, u64_text,
};

fn samples() -> Vec<&'static str> {
    vec![
        "",
        " ",
        "a",
        " a b ",
        "\ta\u{a0}b\u{2003}",
        "a,b,,c",
        ",",
        "line\nnext\r\nlast",
        "line\n",
        "\r\n\r\n",
        "one\rtwo\n\n",
        "key=value=more",
        "=",
        "åäö=日本",
        "[[4,2]]",
        "+5",
        "-5",
        "--5",
        "007",
        "18446744073709551615",
        "18446744073709551616",
        "9223372036854775807",
        "9223372036854775808",
        "-9223372036854775808",
        "-9223372036854775809",
        "+",
        "-",
        "-0",
        "1_000",
        " 1",
        "٣",
    ]
}

#[test]
fn white_space_is_what_std_says() {
    for code in 0..=0x10ffffu32 {
        if let Some(c) = char::from_u32(code) {
            assert_eq!(space(c), c.is_whitespace(), "{code:x}");
        }
    }
}

#[test]
fn cutting_agrees_with_std() {
    for text in samples() {
        assert_eq!(trim_text(text), text.trim());
        assert_eq!(split_words(text), text.split_whitespace().collect::<Vec<_>>());
        assert_eq!(split_lines(text), text.lines().collect::<Vec<_>>(), "{text:?}");
        assert_eq!(split_text(text, ','), text.split(',').collect::<Vec<_>>());
        let halves = text.split_once('=').map(|(a, b)| (a.to_owned(), b.to_owned()));
        assert_eq!(split_first(text, '='), halves);
        assert_eq!(strip_chars(text, '[', ']'), text.trim_start_matches('[').trim_end_matches(']'));
        assert_eq!(digits_only(text), text.bytes().all(|b| b.is_ascii_digit()));
    }
}

#[test]
fn numbers_parse_as_std_parses_them() {
    for text in samples() {
        assert_eq!(parse_u64(text), text.parse::<u64>().ok(), "{text:?}");
        assert_eq!(parse_i64(text), text.parse::<i64>().ok(), "{text:?}");
    }
}

#[test]
fn numbers_read_back() {
    for n in [0u64, 9, 10, 12_345, u64::MAX] {
        assert_eq!(u64_text(n), n.to_string());
        assert_eq!(parse_u64(&u64_text(n)), Some(n));
    }
    for n in [0i64, -1, 10, i64::MIN, i64::MAX] {
        assert_eq!(i64_text(n), n.to_string());
        assert_eq!(parse_i64(&i64_text(n)), Some(n));
    }
}

#[test]
fn searching_and_ordering_agree_with_std() {
    for a in samples() {
        for b in samples() {
            assert_eq!(same_text(a, b), a == b);
            assert_eq!(text_has(a, b), a.contains(b), "{a:?} {b:?}");
            assert_eq!(text_begins(a, b), a.starts_with(b));
            assert_eq!(after_prefix(a, b), a.strip_prefix(b).map(str::to_owned));
            assert_eq!(text_less(a, b), a < b, "{a:?} {b:?}");
        }
    }
}

#[test]
fn joined_texts_split_back() {
    let parts = vec!["4".to_owned(), String::new(), "-1".to_owned()];
    let joined = join_texts(&parts, ",");
    assert_eq!(joined, "4,,-1");
    assert_eq!(split_text(&joined, ','), parts);
    assert_eq!(join_texts(&Vec::new(), ","), "");
}

#[test]
fn padding_agrees_with_format() {
    for text in samples() {
        assert_eq!(pad_left(text, 4), format!("{text:>4}"));
        assert_eq!(pad_right(text, 24), format!("{text:<24}"));
    }
}
