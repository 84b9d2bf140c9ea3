use verification_tool::text::{chars_of, parse_i64, same_chars, split_chars};

fn parse(s: &str) -> Option<i64> {
    parse_i64(&chars_of(s))
}

fn pieces(s: &str, sep: char) -> Vec<String> {
    split_chars(&chars_of(s), sep).iter().map(|p| p.iter().collect()).collect()
}

#[test]
fn decimal_integers() {
    assert_eq!(parse("0"), Some(0));
    assert_eq!(parse("42"), Some(42));
    assert_eq!(parse("+42"), Some(42));
    assert_eq!(parse("-42"), Some(-42));
    assert_eq!(parse("007"), Some(7));
    assert_eq!(parse("9223372036854775807"), Some(i64::MAX));
    assert_eq!(parse("-9223372036854775808"), Some(i64::MIN));
}

#[test]
fn decimal_integers_rejected() {
    assert_eq!(parse(""), None);
    assert_eq!(parse("-"), None);
    assert_eq!(parse("+"), None);
    assert_eq!(parse("1a"), None);
    assert_eq!(parse(" 1"), None);
    assert_eq!(parse("--1"), None);
    assert_eq!(parse("9223372036854775808"), None);
    assert_eq!(parse("-9223372036854775809"), None);
    assert_eq!(parse("99999999999999999999999999x"), None);
}

#[test]
fn decimal_integers_agree_with_std() {
    for s in ["12", "-0", "+0", "123456789012", "-5x", "", "1 ", "18446744073709551616"] {
        assert_eq!(parse(s), s.parse::<i64>().ok(), "{}", s);
    }
}

#[test]
fn splitting_keeps_empty_pieces() {
    assert_eq!(pieces("a|b", '|'), vec!["a", "b"]);
    assert_eq!(pieces("", '|'), vec![""]);
    assert_eq!(pieces("|a||", '|'), vec!["", "a", "", ""]);
    assert_eq!(pieces("x:1:2", ':'), vec!["x", "1", "2"]);
}

#[test]
fn splitting_agrees_with_std() {
    for s in ["a|b|c", "", "|", "ab||c|"] {
        let ours = pieces(s, '|');
        let std_pieces: Vec<String> = s.split('|').map(|p| p.to_string()).collect();
        assert_eq!(ours, std_pieces);
    }
}

#[test]
fn char_comparison() {
    assert!(same_chars(&chars_of("héllo"), &chars_of("héllo")));
    assert!(!same_chars(&chars_of("hello"), &chars_of("hellO")));
    assert!(!same_chars(&chars_of("hello"), &chars_of("hell")));
}

#[test]
fn event_texts_split_at_bars() {
    let pieces = verification_tool::connector::event_texts("{\"a\":1}|{\"b\":2}||x");
    let texts: Vec<String> = pieces.into_iter().map(|p| p.into_iter().collect()).collect();
    assert_eq!(texts, vec!["{\"a\":1}", "{\"b\":2}", "", "x"]);
}
