use std::collections::HashMap;

use urlencoded::escape::{find_bad_escape, replace_plus};
use urlencoded::text::read_text;
use urlencoded::{
    create_param_hashmap, decode, parse, EmptyQuery, EncodingCause, EncodingError, QueryMap,
    UrlDecodingError, UrlEncodedBody, UrlEncodedQuery, Utf8Fault,
};

fn as_hash_map(map: &QueryMap) -> HashMap<String, Vec<String>> {
    let mut out = HashMap::new();
    for name in map.keys() {
        out.insert(name.clone(), map.get(name).unwrap().clone());
    }
    out
}

fn expected(entries: &[(&str, &[&str])]) -> HashMap<String, Vec<String>> {
    let mut out = HashMap::new();
    for (name, values) in entries {
        out.insert(name.to_string(), values.iter().map(|v| v.to_string()).collect());
    }
    out
}

fn pairs(entries: &[(&str, &str)]) -> Vec<(String, String)> {
    entries.iter().map(|(k, v)| (k.to_string(), v.to_string())).collect()
}

fn fault(valid_up_to: usize, error_len: Option<usize>) -> Utf8Fault {
    Utf8Fault { valid_up_to, error_len }
}

fn error_of(r: Result<QueryMap, UrlDecodingError>) -> UrlDecodingError {
    match r {
        Ok(_) => panic!("decoded"),
        Err(e) => e,
    }
}

#[test]
fn duplicate_names_are_combined() {
    let map = parse(b"band=arctic%20monkeys&band=temper%20trap&color=green").unwrap();
    assert_eq!(
        as_hash_map(&map),
        expected(&[("band", &["arctic monkeys", "temper trap"]), ("color", &["green"])])
    );
}

#[test]
fn empty_input_is_an_error() {
    assert_eq!(error_of(parse(b"")), UrlDecodingError::EmptyQuery);
    assert_eq!(decode(b""), Err(UrlDecodingError::EmptyQuery));
    assert_eq!(error_of(create_param_hashmap("")), UrlDecodingError::EmptyQuery);
}

#[test]
fn an_invalid_escape_is_an_encoding_error() {
    let e = error_of(parse(b"name=%zz"));
    assert!(matches!(e, UrlDecodingError::EncodingError(_)));
    assert_eq!(e, UrlDecodingError::EncodingError(EncodingCause::InvalidEscape { offset: 5 }));
}

#[test]
fn a_segment_without_equals_has_an_empty_value() {
    let map = parse(b"flag").unwrap();
    assert_eq!(as_hash_map(&map), expected(&[("flag", &[""])]));
}

#[test]
fn plus_stands_for_a_space() {
    let map = parse(b"q=hello+world").unwrap();
    assert_eq!(as_hash_map(&map), expected(&[("q", &["hello world"])]));
}

#[test]
fn pairs_come_in_the_order_of_the_input() {
    assert_eq!(
        decode(b"b=2&a=1&b=3"),
        Ok(pairs(&[("b", "2"), ("a", "1"), ("b", "3")]))
    );
}

#[test]
fn a_plain_input_decodes_to_itself() {
    assert_eq!(decode(b"name=value"), Ok(pairs(&[("name", "value")])));
    assert_eq!(
        decode("na\u{ef}ve=caf\u{e9}".as_bytes()),
        Ok(pairs(&[("na\u{ef}ve", "caf\u{e9}")]))
    );
}

#[test]
fn only_the_first_equals_splits() {
    assert_eq!(decode(b"a=b=c"), Ok(pairs(&[("a", "b=c")])));
    assert_eq!(decode(b"=v"), Ok(pairs(&[("", "v")])));
    assert_eq!(decode(b"k="), Ok(pairs(&[("k", "")])));
    assert_eq!(decode(b"="), Ok(pairs(&[("", "")])));
}

#[test]
fn every_segment_gives_a_pair() {
    assert_eq!(decode(b"a=1&"), Ok(pairs(&[("a", "1"), ("", "")])));
    assert_eq!(decode(b"&a=1"), Ok(pairs(&[("", ""), ("a", "1")])));
    assert_eq!(decode(b"a&&b"), Ok(pairs(&[("a", ""), ("", ""), ("b", "")])));
    assert_eq!(decode(b"&"), Ok(pairs(&[("", ""), ("", "")])));
}

#[test]
fn escapes_become_their_bytes() {
    assert_eq!(decode(b"%23first=%25try%25"), Ok(pairs(&[("#first", "%try%")])));
    assert_eq!(decode(b"a=%41%4a%4A%6b"), Ok(pairs(&[("a", "AJJk")])));
    assert_eq!(decode(b"a=%00%7f"), Ok(pairs(&[("a", "\u{0}\u{7f}")])));
    assert_eq!(decode(b"caf%C3%A9=%e2%82%ac"), Ok(pairs(&[("caf\u{e9}", "\u{20ac}")])));
}

#[test]
fn an_escaped_delimiter_does_not_split() {
    assert_eq!(decode(b"a%3Db=c%26d"), Ok(pairs(&[("a=b", "c&d")])));
    let map = parse(b"a%3Db=c%26d").unwrap();
    assert_eq!(as_hash_map(&map), expected(&[("a=b", &["c&d"])]));
}

#[test]
fn an_escaped_plus_stays_a_plus() {
    assert_eq!(decode(b"a=1%2B1+2"), Ok(pairs(&[("a", "1+1 2")])));
    assert_eq!(decode(b"a+b=+"), Ok(pairs(&[("a b", " ")])));
}

#[test]
fn input_that_is_not_utf8_is_an_encoding_error() {
    assert_eq!(
        decode(b"a=\xff"),
        Err(UrlDecodingError::EncodingError(EncodingCause::InvalidUtf8(fault(2, Some(1)))))
    );
    assert_eq!(
        decode(b"ab\xe2\x82"),
        Err(UrlDecodingError::EncodingError(EncodingCause::InvalidUtf8(fault(2, None))))
    );
    assert_eq!(
        error_of(parse(b"\xc3\x28")),
        UrlDecodingError::EncodingError(EncodingCause::InvalidUtf8(fault(0, Some(1))))
    );
}

#[test]
fn the_first_bad_escape_is_reported() {
    assert_eq!(
        decode(b"a=%41%4"),
        Err(UrlDecodingError::EncodingError(EncodingCause::InvalidEscape { offset: 5 }))
    );
    assert_eq!(
        decode(b"%"),
        Err(UrlDecodingError::EncodingError(EncodingCause::InvalidEscape { offset: 0 }))
    );
    assert_eq!(
        decode(b"a=1&b=%g0&c=%"),
        Err(UrlDecodingError::EncodingError(EncodingCause::InvalidEscape { offset: 6 }))
    );
    assert_eq!(
        decode(b"a=%4&1"),
        Err(UrlDecodingError::EncodingError(EncodingCause::InvalidEscape { offset: 2 }))
    );
    assert_eq!(
        decode(b"%%41"),
        Err(UrlDecodingError::EncodingError(EncodingCause::InvalidEscape { offset: 0 }))
    );
}

#[test]
fn escapes_that_spell_no_text_are_an_encoding_error() {
    assert_eq!(
        decode(b"a=%ff"),
        Err(UrlDecodingError::EncodingError(EncodingCause::InvalidDecoded(fault(0, Some(1)))))
    );
    assert_eq!(
        decode(b"ok=1&caf%C3=x"),
        Err(UrlDecodingError::EncodingError(EncodingCause::InvalidDecoded(fault(3, None))))
    );
    assert_eq!(
        decode(b"k=ab%e2%82"),
        Err(UrlDecodingError::EncodingError(EncodingCause::InvalidDecoded(fault(2, None))))
    );
    assert_eq!(
        error_of(parse(b"%C3=%A9")),
        UrlDecodingError::EncodingError(EncodingCause::InvalidDecoded(fault(0, None)))
    );
}

#[test]
fn the_name_is_checked_before_the_value() {
    assert_eq!(
        decode(b"x%ff=%fe%fe"),
        Err(UrlDecodingError::EncodingError(EncodingCause::InvalidDecoded(fault(1, Some(1)))))
    );
    assert_eq!(
        decode(b"x=y%fe&%ff=1"),
        Err(UrlDecodingError::EncodingError(EncodingCause::InvalidDecoded(fault(1, Some(1)))))
    );
}

#[test]
fn a_bad_escape_is_reported_before_bad_text() {
    assert_eq!(
        decode(b"a=%ff&b=%"),
        Err(UrlDecodingError::EncodingError(EncodingCause::InvalidEscape { offset: 8 }))
    );
}

#[test]
fn a_string_is_decoded_like_its_bytes() {
    let map = create_param_hashmap("name=franklin&name=trevor").unwrap();
    assert_eq!(as_hash_map(&map), expected(&[("name", &["franklin", "trevor"])]));
    assert_eq!(map.keys(), &vec!["name".to_string()]);
    assert_eq!(
        error_of(create_param_hashmap("a=%")),
        UrlDecodingError::EncodingError(EncodingCause::InvalidEscape { offset: 2 })
    );
}

#[test]
fn a_url_without_query_has_an_empty_query() {
    assert_eq!(error_of(UrlEncodedQuery::eval(None)), UrlDecodingError::EmptyQuery);
    assert_eq!(error_of(UrlEncodedQuery::eval(Some(""))), UrlDecodingError::EmptyQuery);
    let map = UrlEncodedQuery::eval(Some("fruit=apple&name=iron&fruit=pear")).unwrap();
    assert_eq!(
        as_hash_map(&map),
        expected(&[("fruit", &["apple", "pear"]), ("name", &["iron"])])
    );
}

#[test]
fn a_body_is_decoded_from_its_bytes() {
    assert_eq!(error_of(UrlEncodedBody::eval(b"")), UrlDecodingError::EmptyQuery);
    assert_eq!(
        error_of(UrlEncodedBody::eval(b"\x80")),
        UrlDecodingError::EncodingError(EncodingCause::InvalidUtf8(fault(0, Some(1))))
    );
    let map = UrlEncodedBody::eval(b"fruit=apple&name=iron&fruit=pear").unwrap();
    assert_eq!(map.get("fruit").unwrap(), &vec!["apple".to_string(), "pear".to_string()]);
    assert_eq!(map.keys(), &vec!["fruit".to_string(), "name".to_string()]);
}

#[test]
fn errors_say_what_they_are() {
    let empty = UrlDecodingError::EmptyQuery;
    let cause = EncodingCause::InvalidEscape { offset: 3 };
    let encoding = UrlDecodingError::EncodingError(cause);
    assert_eq!(empty.cause(), None);
    assert_eq!(encoding.cause(), Some(cause));
    assert_eq!(empty.description(), "Error decoding a UrlEncoded query or body");
    assert_eq!(encoding.description(), "Error decoding a UrlEncoded query or body");
    assert_eq!(empty.message(), "An emppty query string was found");
    assert_eq!(encoding.message(), "Invalid query string");
    assert_ne!(empty, encoding);
}

#[test]
fn the_variants_stand_at_the_root() {
    assert_eq!(EmptyQuery, UrlDecodingError::EmptyQuery);
    let cause = EncodingCause::InvalidUtf8(fault(0, None));
    assert_eq!(EncodingError(cause), UrlDecodingError::EncodingError(cause));
    assert_eq!(error_of(parse(b"")), EmptyQuery);
}

#[test]
fn bad_escapes_are_found() {
    assert_eq!(find_bad_escape(b""), None);
    assert_eq!(find_bad_escape(b"abc"), None);
    assert_eq!(find_bad_escape(b"%00%fF%Aa"), None);
    assert_eq!(find_bad_escape(b"%0"), Some(0));
    assert_eq!(find_bad_escape(b"ab%0g"), Some(2));
    assert_eq!(find_bad_escape(b"%41%"), Some(3));
    assert_eq!(find_bad_escape(b"%/0"), Some(0));
    assert_eq!(find_bad_escape(b"%:0"), Some(0));
    assert_eq!(find_bad_escape(b"%@0"), Some(0));
    assert_eq!(find_bad_escape(b"%G0"), Some(0));
    assert_eq!(find_bad_escape(b"%`0"), Some(0));
    assert_eq!(find_bad_escape(b"%0g"), Some(0));
}

#[test]
fn pluses_are_replaced() {
    assert_eq!(replace_plus(b""), b"".to_vec());
    assert_eq!(replace_plus(b"a+b++"), b"a b  ".to_vec());
    assert_eq!(replace_plus(b"%2B*"), b"%2B*".to_vec());
}

#[test]
fn text_is_read_or_its_longest_prefix_given() {
    assert_eq!(read_text(b""), Ok(String::new()));
    assert_eq!(read_text("gr\u{fc}n".as_bytes()), Ok("gr\u{fc}n".to_string()));
    assert_eq!(read_text(b"ab\xffcd"), Err(fault(2, Some(1))));
    assert_eq!(read_text(b"\xf0\x9f\x98"), Err(fault(0, None)));
    assert_eq!(read_text(b"\xed\xa0\x80"), Err(fault(0, Some(1))));
    assert_eq!(read_text(b"\xc0\x80"), Err(fault(0, Some(1))));
    assert_eq!(read_text(b"a\xe2\x82(b"), Err(fault(1, Some(2))));
    assert_eq!(read_text(b"\xf0\x9f\x98!"), Err(fault(0, Some(3))));
    assert_eq!(read_text(b"abc\xe2"), Err(fault(3, None)));
}
