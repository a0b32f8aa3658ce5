use minihttp::form::{parse_form_bytes, parse_form_data};
use minihttp::percent::percent_encode_bytes;

#[test]
fn decodes_simple_pairs() {
    let form = parse_form_data("username=bob&password=p%40ss");
    assert_eq!(form.get("username").unwrap(), "bob");
    assert_eq!(form.get("password").unwrap(), "p@ss");
    assert!(form.get("missing").is_none());
}

#[test]
fn later_duplicate_key_wins() {
    let form = parse_form_data("a=1&b=2&a=3");
    assert_eq!(form.get("a").unwrap(), "3");
    assert_eq!(form.get("b").unwrap(), "2");
}

#[test]
fn segment_without_equals_is_skipped() {
    let form = parse_form_data("justakey&a=1");
    assert!(form.get("justakey").is_none());
    assert_eq!(form.get("a").unwrap(), "1");
}

#[test]
fn empty_body_yields_nothing() {
    let form = parse_form_data("");
    assert!(form.get("").is_none());
}

#[test]
fn value_keeps_second_equals() {
    let form = parse_form_data("k=a=b");
    assert_eq!(form.get("k").unwrap(), "a=b");
}

#[test]
fn plus_decodes_as_space() {
    let form = parse_form_data("k=a+b&a+key=v");
    assert_eq!(form.get("k").unwrap(), "a b");
    assert_eq!(form.get("a key").unwrap(), "v");
}

#[test]
fn escaped_plus_stays_a_plus() {
    let form = parse_form_data("k=a%2Bb&l=a%2bb");
    assert_eq!(form.get("k").unwrap(), "a+b");
    assert_eq!(form.get("l").unwrap(), "a+b");
}

#[test]
fn escapes_are_rewritten_in_values() {
    let form = parse_form_data("a=p%40ss&b=%7e%7E&c=plain");
    assert_eq!(form.get("a").unwrap(), "p@ss");
    assert_eq!(form.get("b").unwrap(), "~~");
    assert_eq!(form.get("c").unwrap(), "plain");
}

#[test]
fn malformed_escapes_pass_through() {
    let form = parse_form_data("a=%&b=%4&c=%zz&d=%4z&e=%%41");
    assert_eq!(form.get("a").unwrap(), "%");
    assert_eq!(form.get("b").unwrap(), "%4");
    assert_eq!(form.get("c").unwrap(), "%zz");
    assert_eq!(form.get("d").unwrap(), "%4z");
    assert_eq!(form.get("e").unwrap(), "%A");
}

#[test]
fn invalid_utf8_value_becomes_empty() {
    let form = parse_form_bytes(b"k=%ff%fe");
    assert_eq!(form.get("k").unwrap(), "");
}

#[test]
fn encode_then_decode_round_trips() {
    let samples: Vec<&[u8]> = vec![b"hello", b"a b&c=d", b"100% sure", b"ends with %"];
    for s in samples {
        let mut body: Vec<u8> = Vec::new();
        body.extend_from_slice(b"k=");
        body.extend_from_slice(&percent_encode_bytes(s));
        let form = parse_form_bytes(&body);
        assert_eq!(form.get("k").unwrap().as_bytes(), s);
    }
}

#[test]
fn encoded_pairs_decode_to_their_fields() {
    let mut body: Vec<u8> = Vec::new();
    body.extend_from_slice(&percent_encode_bytes(b"user name"));
    body.push(b'=');
    body.extend_from_slice(&percent_encode_bytes(b"p@ss&word"));
    body.push(b'&');
    body.extend_from_slice(&percent_encode_bytes(b"note"));
    body.push(b'=');
    body.extend_from_slice(&percent_encode_bytes(b"100%"));
    let form = parse_form_bytes(&body);
    assert_eq!(form.get("user name").unwrap(), "p@ss&word");
    assert_eq!(form.get("note").unwrap(), "100%");
}
