use speaker_capture::text::{chars_of, is_whitespace, parse_i32, split_chars, trim_whitespace};

fn chars(s: &str) -> Vec<char> {
    s.chars().collect()
}

#[test]
fn whitespace_agrees_with_std_for_every_char() {
    for v in 0u32..=0x10FFFF {
        if let Some(c) = char::from_u32(v) {
            assert_eq!(is_whitespace(c), c.is_whitespace(), "code point {:#x}", v);
        }
    }
}

#[test]
fn whitespace_examples() {
    assert!(is_whitespace(' '));
    assert!(is_whitespace('\n'));
    assert!(is_whitespace('\u{3000}'));
    assert!(!is_whitespace('a'));
    assert!(!is_whitespace('\u{200B}'));
    assert!(!is_whitespace('.'));
}

#[test]
fn trim_removes_surrounding_whitespace() {
    assert_eq!(trim_whitespace("  14.2\n"), "14.2");
    assert_eq!(trim_whitespace(""), "");
    assert_eq!(trim_whitespace(" \t\n "), "");
    assert_eq!(trim_whitespace("\u{3000}a b\t"), "a b");
    assert_eq!(trim_whitespace("x"), "x");
}

#[test]
fn trim_agrees_with_std() {
    for s in ["", " ", "a", " a ", "\u{85}héllo wörld\u{2028}", "\r\n\t x \u{a0}", "a\u{200B}"] {
        assert_eq!(trim_whitespace(s), s.trim(), "input {:?}", s);
    }
}

#[test]
fn trim_is_idempotent_on_examples() {
    for s in ["  a b  ", "\n\n", "x\u{3000}", ""] {
        let once = trim_whitespace(s);
        assert_eq!(trim_whitespace(once), once);
    }
}

#[test]
fn chars_of_lists_characters() {
    assert_eq!(chars_of("aé."), vec!['a', 'é', '.']);
    assert_eq!(chars_of(""), Vec::<char>::new());
}

#[test]
fn split_examples() {
    let pieces = |s: &str| -> Vec<String> {
        split_chars(&chars(s), '.').into_iter().map(|p| p.into_iter().collect()).collect()
    };
    assert_eq!(pieces("14.2.1"), vec!["14", "2", "1"]);
    assert_eq!(pieces(""), vec![""]);
    assert_eq!(pieces("a."), vec!["a", ""]);
    assert_eq!(pieces(".."), vec!["", "", ""]);
    assert_eq!(pieces("abc"), vec!["abc"]);
}

#[test]
fn split_agrees_with_std() {
    for s in ["", ".", "a.b", ".a.", "1..2", "x"] {
        let ours: Vec<String> =
            split_chars(&chars(s), '.').into_iter().map(|p| p.into_iter().collect()).collect();
        let std_pieces: Vec<String> = s.split('.').map(|p| p.to_string()).collect();
        assert_eq!(ours, std_pieces, "input {:?}", s);
    }
}

#[test]
fn parse_i32_examples() {
    assert_eq!(parse_i32(&chars("42")), Some(42));
    assert_eq!(parse_i32(&chars("+7")), Some(7));
    assert_eq!(parse_i32(&chars("-2147483648")), Some(i32::MIN));
    assert_eq!(parse_i32(&chars("2147483647")), Some(i32::MAX));
    assert_eq!(parse_i32(&chars("2147483648")), None);
    assert_eq!(parse_i32(&chars("-2147483649")), None);
    assert_eq!(parse_i32(&chars("")), None);
    assert_eq!(parse_i32(&chars("+")), None);
    assert_eq!(parse_i32(&chars("-")), None);
    assert_eq!(parse_i32(&chars("1a")), None);
    assert_eq!(parse_i32(&chars("00012")), Some(12));
    assert_eq!(parse_i32(&chars(" 1")), None);
    assert_eq!(parse_i32(&chars("99999999999999999999")), None);
}

#[test]
fn parse_i32_agrees_with_std() {
    let inputs = [
        "0", "-0", "+0", "12", "-12", "+-1", "-+1", "1 ", "١", "2147483647", "2147483648",
        "-2147483648", "-2147483649", "0000000000000000000001", "9x9", "", "--1",
    ];
    for s in inputs {
        assert_eq!(parse_i32(&chars(s)), s.parse::<i32>().ok(), "input {:?}", s);
    }
}

#[test]
fn decimal_round_trip_on_examples() {
    for n in [0i64, 1, 9, 10, 99, 100, 12345, 2147483647] {
        assert_eq!(parse_i32(&chars(&n.to_string())), Some(n as i32));
        assert_eq!(parse_i32(&chars(&format!("-{}", n))), Some(-(n as i32)));
    }
    assert_eq!(parse_i32(&chars("-2147483648")), Some(i32::MIN));
}

