use url_compare::normalize::{filter, ignore_line, normalize, NormalizeError};

fn no_redactions() -> Vec<String> {
    Vec::new()
}

#[test]
fn normalize_pretty_prints_json() {
    let r = normalize("{\"a\":1,\"b\":2}", "application/json", &no_redactions()).unwrap();
    assert_eq!(r, "{\n  \"a\": 1,\n  \"b\": 2\n}");
}

#[test]
fn normalize_keeps_object_keys_as_received() {
    let r = normalize("{\"b\":2,\"a\":1}", "application/json", &no_redactions()).unwrap();
    assert_eq!(r, "{\n  \"b\": 2,\n  \"a\": 1\n}");
    let nested = normalize(
        "{\"z\":{\"m\":1,\"k\":2},\"a\":0}",
        "application/json",
        &no_redactions(),
    )
    .unwrap();
    let z_at = nested.find("\"z\"").unwrap();
    let m_at = nested.find("\"m\"").unwrap();
    let k_at = nested.find("\"k\"").unwrap();
    let a_at = nested.find("\"a\"").unwrap();
    assert!(z_at < m_at && m_at < k_at && k_at < a_at);
}

#[test]
fn normalize_is_idempotent_on_pretty_text() {
    let once = normalize("{\"a\":1,\"b\":2}", "application/json", &no_redactions()).unwrap();
    let twice = normalize(&once, "application/json", &no_redactions()).unwrap();
    assert_eq!(once, twice);
}

#[test]
fn normalize_rejects_other_content_types() {
    let r = normalize("{\"a\":1}", "text/html", &no_redactions());
    assert_eq!(r, Err(NormalizeError::UnsupportedContentType));
}

#[test]
fn normalize_accepts_content_type_with_charset() {
    let r = normalize("{}", "application/json; charset=utf-8", &no_redactions());
    assert!(r.is_ok());
}

#[test]
fn normalize_rejects_malformed_bodies() {
    let r = normalize("{\"a\":", "application/json", &no_redactions());
    assert_eq!(r, Err(NormalizeError::MalformedBody));
}

#[test]
fn differing_bodies_differ_only_on_their_line() {
    let left = normalize("{\"a\":1,\"b\":2}", "application/json", &no_redactions()).unwrap();
    let right = normalize("{\"a\":1,\"b\":3}", "application/json", &no_redactions()).unwrap();
    let left_lines: Vec<&str> = left.lines().collect();
    let right_lines: Vec<&str> = right.lines().collect();
    assert_eq!(left_lines.len(), right_lines.len());
    for (l, r) in left_lines.iter().zip(right_lines.iter()) {
        if l.contains("\"b\"") {
            assert_ne!(l, r);
        } else {
            assert_eq!(l, r);
        }
    }
}

#[test]
fn redacting_the_differing_line_makes_bodies_equal() {
    let reds = vec![String::from("b")];
    let left = normalize("{\"a\":1,\"b\":2}", "application/json", &reds).unwrap();
    let right = normalize("{\"a\":1,\"b\":3}", "application/json", &reds).unwrap();
    assert_eq!(left, right);
}

#[test]
fn filter_drops_matching_lines_and_keeps_order() {
    let reds = vec![String::from("secret")];
    let out = filter("one\nsecret: x\ntwo\nmore secret\nthree", &reds);
    assert_eq!(out, "one\ntwo\nthree");
}

#[test]
fn filter_with_unmatched_term_is_a_noop() {
    let reds = vec![String::from("absent")];
    let out = filter("one\ntwo\nthree", &reds);
    assert_eq!(out, "one\ntwo\nthree");
}

#[test]
fn filter_with_empty_list_keeps_every_line() {
    let out = filter("a\nb", &no_redactions());
    assert_eq!(out, "a\nb");
}

#[test]
fn ignore_line_is_keep_semantics() {
    let reds = vec![String::from("token")];
    assert!(ignore_line("plain line", &reds));
    assert!(!ignore_line("a token here", &reds));
}
