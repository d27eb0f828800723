use zappy::text::{chars_of, dec_string, parse_unsigned_in, push_dec, string_of, word_bounds};

#[test]
fn decimal_rendering() {
    assert_eq!(dec_string(0), "0");
    assert_eq!(dec_string(7), "7");
    assert_eq!(dec_string(1260), "1260");
    assert_eq!(dec_string(u64::MAX), "18446744073709551615");
    let mut s = String::from("sgt ");
    push_dec(&mut s, 100);
    assert_eq!(s, "sgt 100");
}

#[test]
fn unsigned_parsing_follows_from_str() {
    let read = |s: &str, max: u64| {
        let v = chars_of(s);
        parse_unsigned_in(&v, 0, v.len(), max)
    };
    assert_eq!(read("42", 100), Some(42));
    assert_eq!(read("+42", 100), Some(42));
    assert_eq!(read("007", 100), Some(7));
    assert_eq!(read("101", 100), None);
    assert_eq!(read("", 100), None);
    assert_eq!(read("+", 100), None);
    assert_eq!(read("-1", 100), None);
    assert_eq!(read("4 2", 100), None);
    assert_eq!(read("18446744073709551615", u64::MAX), Some(u64::MAX));
    assert_eq!(read("18446744073709551616", u64::MAX), None);
}

#[test]
fn words_are_split_on_white_space() {
    let v = chars_of("  bct\t3\u{3000}4 ");
    let b = word_bounds(&v, 0, v.len());
    let words: Vec<String> = b.iter().map(|&(lo, hi)| string_of(&v, lo, hi)).collect();
    assert_eq!(words, vec!["bct", "3", "4"]);
}
