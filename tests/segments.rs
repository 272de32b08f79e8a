use json_decode::scan::{count_parens, find_not_between, Token};
use json_decode::segment::EntryIter;

fn all_segments(text: &str) -> Vec<String> {
    let mut it = EntryIter::iter(text);
    let mut out = Vec::new();
    while let Some(s) = it.next() {
        out.push(s);
    }
    out
}

#[test]
fn segments_respect_brackets() {
    assert_eq!(all_segments("1, [2, 3], {\"b\": 4}"), vec!["1", " [2, 3]", " {\"b\": 4}"]);
}

#[test]
fn empty_body_has_no_segments() {
    assert!(all_segments("").is_empty());
}

#[test]
fn body_without_comma_is_one_segment() {
    assert_eq!(all_segments("\"a\": [1, 2]"), vec!["\"a\": [1, 2]"]);
}

#[test]
fn segments_are_single_pass() {
    let mut it = EntryIter::iter("a,b");
    assert_eq!(it.next().unwrap(), "a");
    assert_eq!(it.next().unwrap(), "b");
    assert!(it.next().is_none());
    assert!(it.next().is_none());
}

#[test]
fn trailing_and_doubled_commas() {
    assert_eq!(all_segments("a,"), vec!["a"]);
    assert_eq!(all_segments("a,,b"), vec!["a", "", "b"]);
    assert_eq!(all_segments("é,ü"), vec!["é", "ü"]);
}

#[test]
fn find_skips_nested_delimiters() {
    assert_eq!(find_not_between("[a,b],c", ',', '[', ']'), Some(5));
    assert_eq!(find_not_between("[a,b]", ',', '[', ']'), None);
    assert_eq!(find_not_between("], a", ',', '[', ']'), None);
    assert_eq!(find_not_between("ü,x", ',', '[', ']'), Some(1));
}

#[test]
fn find_with_quotes_tracks_parity() {
    assert_eq!(find_not_between("\"a:b\": 1", ':', '"', '"'), Some(5));
    assert_eq!(find_not_between("\"a\" 1", ':', '"', '"'), None);
}

#[test]
fn parens_are_counted() {
    assert_eq!(count_parens("[[a]"), 1);
    assert_eq!(count_parens("]]"), -2);
    assert_eq!(count_parens(""), 0);
}

#[test]
fn tokens() {
    assert_eq!(Token::CurlyParOpen.get_token(), '{');
    assert_eq!(Token::SquareParClose.get_token(), ']');
    assert_eq!(Token::Colons.get_token(), ':');
    assert_eq!(Token::Quote.get_token(), '"');
}

#[test]
fn nested_trailing_comma_stays_in_its_segment() {
    assert_eq!(all_segments("a[,"), vec!["a[,"]);
    assert_eq!(all_segments("[a],"), vec!["[a]"]);
}
