use url_compare::args::{config_from_args, get_cache_location, process_env_variables, Args};
use url_compare::client::{collect_results, pair_outcome, requests_with_differences, Side};
use url_compare::fetch::{expanded_url, ingest_response, prepare_request, FetchError};
use url_compare::normalize::NormalizeError;
use url_compare::request::{Auth, Config, PartRequestConfig, RequestsConfig};
use url_compare::response::{PartResponse, Response};

fn part(url: &str) -> PartRequestConfig {
    PartRequestConfig {
        url: String::from(url),
        method: None,
        cached: false,
        auth: Auth::Anonymous,
        ignore_lines: Vec::new(),
        headers: Vec::new(),
        query: Vec::new(),
    }
}

fn resp(url: &str, code: u16, text: &str) -> PartResponse {
    PartResponse::new(String::from(url), code, String::from(text))
}

fn args_default() -> Args {
    Args {
        path: String::from("requests.toml"),
        take: 0,
        clear_cache: false,
        all_cache: false,
        no_cache: false,
        skip_ignore: false,
        cache_only: false,
        out: None,
    }
}

#[test]
fn prepare_defaults_to_get() {
    let p = prepare_request(&part("http://a/x")).unwrap();
    assert_eq!(p.method, "GET");
    assert_eq!(p.url, "http://a/x");
}

#[test]
fn prepare_rejects_bad_method() {
    let mut pr = part("http://a/x");
    pr.method = Some(String::from("NOT A METHOD"));
    assert_eq!(prepare_request(&pr), Err(FetchError::InvalidMethod));
}

#[test]
fn prepare_accepts_custom_method_and_headers() {
    let mut pr = part("http://a/x");
    pr.method = Some(String::from("PATCH"));
    pr.headers = vec![(String::from("X-Trace-Id"), String::from("abc123"))];
    let p = prepare_request(&pr).unwrap();
    assert_eq!(p.method, "PATCH");
    assert_eq!(p.headers.len(), 1);
}

#[test]
fn prepare_rejects_bad_header_name() {
    let mut pr = part("http://a/x");
    pr.headers = vec![(String::from("bad name"), String::from("v"))];
    assert_eq!(prepare_request(&pr), Err(FetchError::InvalidHeader));
}

#[test]
fn prepare_rejects_bad_header_value() {
    let mut pr = part("http://a/x");
    pr.headers = vec![(String::from("X-Ok"), String::from("bad\nvalue"))];
    assert_eq!(prepare_request(&pr), Err(FetchError::InvalidHeader));
}

#[test]
fn expanded_url_appends_encoded_query() {
    let q = vec![
        (String::from("a"), String::from("b c")),
        (String::from("k"), String::from("é")),
    ];
    let url = expanded_url("http://a/x", &q);
    assert_eq!(url, "http://a/x?a=b%20c&k=%C3%A9");
}

#[test]
fn expanded_url_without_query_is_unchanged() {
    let url = expanded_url("http://a/x", &Vec::new());
    assert_eq!(url, "http://a/x");
}

#[test]
fn ingest_missing_content_type_fails() {
    let r = ingest_response(String::from("http://a/x"), 200, None, "{}", &Vec::new());
    assert_eq!(r, Err(FetchError::MissingContentType));
}

#[test]
fn ingest_normalizes_and_keeps_status() {
    let ct = String::from("application/json");
    let r = ingest_response(
        String::from("http://a/x"),
        503,
        Some(&ct),
        "{\"a\":1}",
        &Vec::new(),
    )
    .unwrap();
    assert_eq!(r.url, "http://a/x");
    assert_eq!(r.status_code, 503);
    assert_eq!(r.text, "{\n  \"a\": 1\n}");
}

#[test]
fn ingest_maps_normalize_errors() {
    let ct = String::from("text/plain");
    let r = ingest_response(String::from("http://a/x"), 200, Some(&ct), "{}", &Vec::new());
    assert_eq!(
        r,
        Err(FetchError::Normalize(NormalizeError::UnsupportedContentType))
    );
}

#[test]
fn pair_outcome_left_failure_discards_right() {
    let r = pair_outcome(
        String::from("cmp"),
        String::from("http://l"),
        Err(FetchError::InvalidMethod),
        String::from("http://r"),
        Ok(resp("http://r", 200, "x")),
    );
    let f = r.err().unwrap();
    assert_eq!(f.name, "cmp");
    assert_eq!(f.side, Side::Left);
    assert_eq!(f.url, "http://l");
    assert_eq!(f.error, FetchError::InvalidMethod);
}

#[test]
fn pair_outcome_both_sides_build_a_response() {
    let r = pair_outcome(
        String::from("cmp"),
        String::from("http://l"),
        Ok(resp("http://l", 200, "x")),
        String::from("http://r"),
        Ok(resp("http://r", 201, "y")),
    )
    .ok()
    .unwrap();
    assert_eq!(r.name, "cmp");
    assert_eq!(r.left.status_code, 200);
    assert_eq!(r.right.status_code, 201);
}

#[test]
fn middle_failure_is_isolated() {
    let ok = |n: &str| {
        Ok(Response::new(
            String::from(n),
            resp("http://l", 200, "x"),
            resp("http://r", 200, "x"),
        ))
    };
    let failed = Err(url_compare::client::FetchFailure {
        name: String::from("second"),
        side: Side::Right,
        url: String::from("http://r2"),
        error: FetchError::Transport(String::from("timed out")),
    });
    let outcomes = vec![ok("first"), failed, ok("third")];
    let (results, errors) = collect_results(outcomes);
    assert_eq!(results.len(), 2);
    assert_eq!(results[0].name, "first");
    assert_eq!(results[1].name, "third");
    assert_eq!(errors.len(), 1);
    assert_eq!(errors[0].name, "second");
}

#[test]
fn env_substitution_replaces_names() {
    let envs = vec![(String::from("HOST"), String::from("https://example.test"))];
    let r = process_env_variables("url = \"${HOST}/query\"", &envs).unwrap();
    assert_eq!(r, "url = \"https://example.test/query\"");
}

#[test]
fn env_substitution_missing_name_fails() {
    let envs: Vec<(String, String)> = Vec::new();
    let r = process_env_variables("${ABSENT}", &envs);
    assert_eq!(r, Err(String::from("ABSENT")));
}

#[test]
fn env_substitution_keeps_plain_dollars() {
    let envs: Vec<(String, String)> = Vec::new();
    let r = process_env_variables("cost: $5", &envs).unwrap();
    assert_eq!(r, "cost: $5");
}

#[test]
fn cache_location_uses_file_name() {
    assert_eq!(
        get_cache_location("configs/app.toml").unwrap(),
        "./cache/app.toml"
    );
    assert_eq!(get_cache_location("app.toml").unwrap(), "./cache/app.toml");
    assert_eq!(get_cache_location("./app.toml").unwrap(), "./cache/app.toml");
    assert_eq!(get_cache_location("configs/").unwrap(), "./cache/configs");
    assert_eq!(get_cache_location("a//b/").unwrap(), "./cache/b");
    assert!(get_cache_location("").is_none());
    assert!(get_cache_location(".").is_none());
    assert!(get_cache_location("configs/..").is_none());
    assert!(get_cache_location("/").is_none());
}

#[test]
fn config_overrides_apply() {
    let mk = |name: &str| RequestsConfig {
        name: String::from(name),
        left: part("http://l"),
        right: part("http://r"),
    };
    let config = Config {
        ignore_lines: vec![String::from("shared")],
        requests: vec![mk("one"), mk("two"), mk("three")],
    };
    let mut args = args_default();
    args.take = 2;
    args.all_cache = true;
    let out = config_from_args(config, &args);
    assert_eq!(out.requests.len(), 2);
    assert!(out.requests[0].left.cached);
    assert!(out.requests[0].right.cached);
    assert_eq!(out.requests[0].left.ignore_lines, vec![String::from("shared")]);
    assert_eq!(out.requests[1].name, "two");
}

#[test]
fn skip_ignore_drops_all_redactions() {
    let mut req = RequestsConfig {
        name: String::from("one"),
        left: part("http://l"),
        right: part("http://r"),
    };
    req.left.ignore_lines = vec![String::from("own")];
    let config = Config {
        ignore_lines: vec![String::from("shared")],
        requests: vec![req],
    };
    let mut args = args_default();
    args.skip_ignore = true;
    let out = config_from_args(config, &args);
    assert!(out.requests[0].left.ignore_lines.is_empty());
    assert!(out.requests[0].right.ignore_lines.is_empty());
}

#[test]
fn requires_cache_sees_any_side() {
    let mut req = RequestsConfig {
        name: String::from("one"),
        left: part("http://l"),
        right: part("http://r"),
    };
    let config = Config::from_requests(Vec::new());
    assert!(!config.requires_cache());
    req.right.cached = true;
    let config = Config::from_requests(vec![req]);
    assert!(config.requires_cache());
}

#[test]
fn config_validation_rejects_empty_names_and_urls() {
    let good = RequestsConfig {
        name: String::from("one"),
        left: part("http://l"),
        right: part("http://r"),
    };
    assert!(Config::from_requests(vec![good]).is_valid());
    let bad = RequestsConfig {
        name: String::from(""),
        left: part("http://l"),
        right: part("http://r"),
    };
    assert!(!Config::from_requests(vec![bad]).is_valid());
    let bad_url = RequestsConfig {
        name: String::from("one"),
        left: part(""),
        right: part("http://r"),
    };
    assert!(!Config::from_requests(vec![bad_url]).is_valid());
}

#[test]
fn response_diff_and_render() {
    let r = Response::new(
        String::from("cmp"),
        resp("http://l", 404, "body"),
        resp("http://r", 200, "other"),
    );
    assert!(!r.texts_match());
    assert_eq!(r.diff(), "cmp: http://l => http://r\nStatus code 404\nbody");
    let same = Response::new(
        String::from("cmp"),
        resp("http://l", 200, "body"),
        resp("http://r", 200, "body"),
    );
    assert!(same.texts_match());
}

#[test]
fn differing_requests_are_kept_for_rerun() {
    let mk = |name: &str, l: &str, r: &str| {
        (
            RequestsConfig {
                name: String::from(name),
                left: part("http://l"),
                right: part("http://r"),
            },
            Response::new(String::from(name), resp("http://l", 200, l), resp("http://r", 200, r)),
        )
    };
    let pairs = vec![mk("same", "x", "x"), mk("diff", "x", "y")];
    let kept = requests_with_differences(pairs);
    assert_eq!(kept.len(), 1);
    assert_eq!(kept[0].name, "diff");
}

#[test]
fn with_and_without_cache_flip_both_sides() {
    let req = RequestsConfig {
        name: String::from("one"),
        left: part("http://l"),
        right: part("http://r"),
    };
    let on = req.with_cache();
    assert!(on.left.cached && on.right.cached);
    assert!(on.requires_cache());
    let off = on.without_cache();
    assert!(!off.left.cached && !off.right.cached);
    let mut with_ignores = off;
    with_ignores.left.ignore_lines = vec![String::from("x")];
    let cleared = with_ignores.without_ignores();
    assert!(cleared.left.ignore_lines.is_empty());
}
