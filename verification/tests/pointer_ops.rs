use baret::pointer::{parse_index, parse_pointer, Pointer};

#[test]
fn empty_spellings_normalize_to_the_empty_pointer() {
    assert_eq!("", Pointer::new_unwrap("").as_str());
    assert_eq!("", Pointer::new_unwrap("''").as_str());
    assert_eq!("", Pointer::new_unwrap("\"\"").as_str());
}

#[test]
fn backslash_slash_becomes_slash() {
    assert_eq!("/key", Pointer::new_unwrap("\\/key").as_str());
    assert_eq!("/a/b", Pointer::new_unwrap("\\/a\\/b").as_str());
    assert_eq!("/key", Pointer::new_unwrap("/key").as_str());
}

#[test]
fn parse_index_accepts_plain_decimals() {
    assert_eq!(Some(0), parse_index("0"));
    assert_eq!(Some(1), parse_index("1"));
    assert_eq!(Some(10), parse_index("10"));
    assert_eq!(Some(907), parse_index("907"));
}

#[test]
fn parse_index_rejects_other_spellings() {
    assert_eq!(None, parse_index(""));
    assert_eq!(None, parse_index("01"));
    assert_eq!(None, parse_index("00"));
    assert_eq!(None, parse_index("+1"));
    assert_eq!(None, parse_index("-1"));
    assert_eq!(None, parse_index("1a"));
    assert_eq!(None, parse_index(" 1"));
    assert_eq!(None, parse_index("99999999999999999999999999999999"));
}

#[test]
fn tokens_decode_rfc6901_escapes() {
    let toks = parse_pointer("/a~1b~0c/~01").unwrap();
    assert_eq!(vec!["a/b~c".to_string(), "~1".to_string()], toks);
}

#[test]
fn tokens_of_the_empty_pointer() {
    assert_eq!(Some(Vec::<String>::new()), parse_pointer(""));
}

#[test]
fn tokens_keep_empty_segments() {
    let toks = parse_pointer("/a//b/").unwrap();
    assert_eq!(
        vec!["a".to_string(), "".to_string(), "b".to_string(), "".to_string()],
        toks
    );
}

#[test]
fn malformed_pointer_has_no_tokens() {
    assert_eq!(None, parse_pointer("a/b"));
    assert_eq!(None, parse_pointer("no slash"));
}
