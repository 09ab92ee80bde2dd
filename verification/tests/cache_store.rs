use url_compare::cache::Cache;
use url_compare::client::{CacheError, Client, FetchPlan};
use url_compare::codec::{encode_cache, parse_cache};
use url_compare::response::PartResponse;

fn resp(url: &str, code: u16, text: &str) -> PartResponse {
    PartResponse::new(String::from(url), code, String::from(text))
}

#[test]
fn cache_insert_then_lookup() {
    let mut c = Cache::new();
    c.insert(resp("http://a/x", 200, "{}"));
    let hit = c.lookup("http://a/x").unwrap();
    assert_eq!(hit.url, "http://a/x");
    assert_eq!(hit.status_code, 200);
    assert_eq!(hit.text, "{}");
    assert!(c.lookup("http://a/y").is_none());
}

#[test]
fn cache_insert_replaces_same_url() {
    let mut c = Cache::new();
    c.insert(resp("http://a/x", 200, "old"));
    c.insert(resp("http://a/x", 404, "new"));
    assert_eq!(c.len(), 1);
    let hit = c.lookup("http://a/x").unwrap();
    assert_eq!(hit.status_code, 404);
    assert_eq!(hit.text, "new");
}

#[test]
fn encode_then_parse_reproduces_entries() {
    let entries = vec![
        resp("http://a/x", 200, "{\n  \"a\": 1\n}"),
        resp("http://b/y?q=1", 503, "line with \"quotes\" and \\ and\ttabs\nand newlines"),
        resp("http://c/z", 0, ""),
    ];
    let text = encode_cache(&entries);
    let back = parse_cache(&text).unwrap();
    assert_eq!(back.len(), entries.len());
    for (a, b) in entries.iter().zip(back.iter()) {
        assert_eq!(a.url, b.url);
        assert_eq!(a.status_code, b.status_code);
        assert_eq!(a.text, b.text);
    }
}

#[test]
fn encoded_cache_is_real_json() {
    let entries = vec![resp("http://a/x", 200, "body\nwith \"quotes\" and \u{1}控")];
    let text = encode_cache(&entries);
    let v: serde_json::Value = serde_json::from_str(&text).expect("canonical form parses as JSON");
    let obj = v.as_object().unwrap();
    let entry = obj.get("http://a/x").unwrap();
    assert_eq!(entry.get("url").unwrap().as_str().unwrap(), "http://a/x");
    assert_eq!(entry.get("status_code").unwrap().as_u64().unwrap(), 200);
    assert_eq!(
        entry.get("text").unwrap().as_str().unwrap(),
        "body\nwith \"quotes\" and \u{1}控"
    );
}

#[test]
fn empty_cache_encodes_to_empty_object() {
    let entries: Vec<PartResponse> = Vec::new();
    assert_eq!(encode_cache(&entries), "{}");
    assert_eq!(parse_cache("{}").unwrap().len(), 0);
}

#[test]
fn parse_cache_rejects_garbage() {
    assert!(parse_cache("").is_none());
    assert!(parse_cache("not json").is_none());
    assert!(parse_cache("[]").is_none());
    assert!(parse_cache("{\"a\":1}").is_none());
}

#[test]
fn load_cache_absent_storage_is_empty() {
    let mut client = Client::new();
    client
        .load_cache(String::from("./cache/app.toml"), None)
        .unwrap();
    let (location, text) = client.close().unwrap();
    assert_eq!(location, "./cache/app.toml");
    assert_eq!(text, "{}");
}

#[test]
fn load_cache_round_trips_through_close() {
    let entries = vec![resp("http://a/x", 200, "{\n  \"a\": 1\n}")];
    let text = encode_cache(&entries);
    let mut client = Client::new();
    client
        .load_cache(String::from("./cache/app.toml"), Some(&text))
        .unwrap();
    let (_, persisted) = client.close().unwrap();
    assert_eq!(persisted, text);
}

#[test]
fn load_cache_corrupt_contents_are_fatal() {
    let mut client = Client::new();
    let r = client.load_cache(String::from("./cache/app.toml"), Some("scrambled"));
    assert_eq!(r, Err(CacheError::Corrupt));
}

#[test]
fn load_cache_duplicate_urls_are_corrupt() {
    let entries = vec![resp("http://a/x", 200, "one"), resp("http://a/x", 200, "two")];
    let text = encode_cache(&entries);
    let mut client = Client::new();
    let r = client.load_cache(String::from("./cache/app.toml"), Some(&text));
    assert_eq!(r, Err(CacheError::Corrupt));
}

#[test]
fn cached_side_with_hit_is_served_from_the_cache() {
    let stored = resp("http://a/x", 200, "cached body");
    let text = encode_cache(&vec![stored]);
    let mut client = Client::new();
    client
        .load_cache(String::from("./cache/app.toml"), Some(&text))
        .unwrap();
    let part = url_compare::request::PartRequestConfig {
        url: String::from("http://a/x"),
        method: None,
        cached: true,
        auth: url_compare::request::Auth::Anonymous,
        ignore_lines: Vec::new(),
        headers: Vec::new(),
        query: Vec::new(),
    };
    match client.plan(&part).unwrap() {
        FetchPlan::Cached(hit) => {
            assert_eq!(hit.text, "cached body");
            assert_eq!(hit.status_code, 200);
        }
        FetchPlan::Fetch(_) => panic!("a cache hit must not reach the network"),
    }
}

#[test]
fn uncached_side_goes_to_the_wire() {
    let stored = resp("http://a/x", 200, "cached body");
    let text = encode_cache(&vec![stored]);
    let mut client = Client::new();
    client
        .load_cache(String::from("./cache/app.toml"), Some(&text))
        .unwrap();
    let part = url_compare::request::PartRequestConfig {
        url: String::from("http://a/x"),
        method: None,
        cached: false,
        auth: url_compare::request::Auth::Anonymous,
        ignore_lines: Vec::new(),
        headers: Vec::new(),
        query: Vec::new(),
    };
    match client.plan(&part).unwrap() {
        FetchPlan::Fetch(p) => {
            assert_eq!(p.method, "GET");
            assert_eq!(p.url, "http://a/x");
        }
        FetchPlan::Cached(_) => panic!("an uncached side must not read the cache"),
    }
}

fn cached_part(url: &str, cached: bool) -> url_compare::request::PartRequestConfig {
    url_compare::request::PartRequestConfig {
        url: String::from(url),
        method: None,
        cached,
        auth: url_compare::request::Auth::Anonymous,
        ignore_lines: Vec::new(),
        headers: Vec::new(),
        query: Vec::new(),
    }
}

#[test]
fn record_then_plan_hits() {
    let mut client = Client::new();
    client.load_cache(String::from("./cache/app.toml"), None).unwrap();
    let request = url_compare::request::RequestsConfig {
        name: String::from("cmp"),
        left: cached_part("http://a/x", true),
        right: cached_part("http://b/y", false),
    };
    let response = url_compare::response::Response::new(
        String::from("cmp"),
        resp("http://a/x", 200, "fresh"),
        resp("http://b/y", 200, "other"),
    );
    client.record_comparison(&request, &response);
    match client.plan(&request.left).unwrap() {
        FetchPlan::Cached(hit) => assert_eq!(hit.text, "fresh"),
        FetchPlan::Fetch(_) => panic!("the recorded response must be served"),
    }
    let (_, persisted) = client.close().unwrap();
    assert!(persisted.contains("http://a/x"));
    assert!(!persisted.contains("http://b/y"), "an uncached side must not be stored");
}
