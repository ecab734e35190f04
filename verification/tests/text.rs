use tunshell::text::{chars_of, contains, decode, join, parse_number, push_decimal, trim, white_space};

fn number(text: &str, max: u64) -> Option<u64> {
    let chars = chars_of(text);
    parse_number(&chars, 0, chars.len(), max).ok()
}

#[test]
fn white_space_is_that_of_unicode() {
    for c in '\u{0}'..=char::MAX {
        assert_eq!(white_space(c), c.is_whitespace(), "{:?}", c);
    }
}

#[test]
fn trimming_is_that_of_the_standard_library() {
    for text in ["", " ", "a", " a", "a ", "  a b  ", "\u{3000}x\u{85}\t", "\u{200b}x", "\r\n", "\u{feff} y"] {
        let chars = chars_of(text);
        let (lo, hi) = trim(&chars, 0);
        let got: String = chars[lo..hi].iter().collect();
        assert_eq!(got, text.trim());
    }
    let chars = chars_of("k:  v ");
    assert_eq!(trim(&chars, 2), (4, 5));
}

#[test]
fn searching_is_that_of_the_standard_library() {
    let texts = ["", "2", "200 OK", "HTTP/1.1 200 OK", "200 O", "2200 OKK", "20 200 200 OK", "\u{e9}200 OK\u{e9}", "200 ok"];
    let words = ["", "200 OK", "2", "00", "OK", "\u{e9}"];
    for text in texts {
        for word in words {
            assert_eq!(contains(text, word), text.contains(word), "{} in {}", word, text);
        }
    }
}

#[test]
fn numbers_are_read_as_the_standard_library_reads_them() {
    for text in [
        "", "+", "0", "+7", "18446744073709551615", "18446744073709551616", "18446744073709551625",
        "99999999999999999999999", "0000000000000000000000000000001", "1x", "x1", "-1", "1 ", "1844674407370955161x",
    ] {
        assert_eq!(number(text, u64::MAX), text.parse::<u64>().ok(), "{}", text);
    }
    assert_eq!(number("9", 8), None);
    assert_eq!(number("8", 8), Some(8));
    assert_eq!(number("10", 9), None);
    assert_eq!(number("0", 0), Some(0));
    assert_eq!(number("1", 0), None);
}

#[test]
fn faults_of_numbers_are_those_of_the_standard_library() {
    let mut texts = vec![String::new()];
    let mut last = texts.clone();
    for _ in 0..6 {
        let mut next = Vec::new();
        for text in &last {
            for c in ["+", "-", "0", "6", "9", "x"] {
                next.push(format!("{}{}", text, c));
            }
        }
        texts.extend(next.clone());
        last = next;
    }
    for text in &texts {
        let chars = chars_of(text);
        let got = parse_number(&chars, 0, chars.len(), 65535).map_err(|f| f.message().to_string());
        let std = text.parse::<u16>().map(u64::from).map_err(|e| e.to_string());
        assert_eq!(got, std, "{}", text);
    }
}

#[test]
fn numbers_are_written_and_read_back() {
    for n in [0, 1, 9, 10, 11, 99, 100, 12345, 65535, u32::MAX as u64, u64::MAX - 1, u64::MAX] {
        let mut s = "n=".to_string();
        push_decimal(&mut s, n);
        assert_eq!(s, format!("n={}", n));
        assert_eq!(number(&s[2..], u64::MAX), Some(n));
    }
}

#[test]
fn only_utf8_is_decoded() {
    assert_eq!(decode("h\u{e9}\u{10ffff}".as_bytes().to_vec()), Some("h\u{e9}\u{10ffff}".to_string()));
    assert_eq!(decode(vec![]), Some(String::new()));
    assert_eq!(decode(vec![0xc0, 0x80]), None);
    assert_eq!(decode(vec![0xed, 0xa0, 0x80]), None);
    assert_eq!(decode(vec![0x61, 0xe2, 0x82]), None);
}

#[test]
fn strings_are_joined() {
    assert_eq!(join("a", "b\u{e9}"), "ab\u{e9}");
}
