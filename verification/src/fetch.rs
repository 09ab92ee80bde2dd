//! Building one side's request before any I/O: the HTTP method and every
//! header are validated up front (an invalid one fails fast, before the
//! network), query parameters are expanded into the exact URL sent on the
//! wire, and a raw response is turned into a normalized `PartResponse`.

use vstd::prelude::*;

use crate::normalize::{
    apply_redactions, is_json_content_type, json_pretty, json_valid, normalize, NormalizeError,
};
use crate::request::{Auth, BasicAuth, PartRequestConfig};
use crate::response::PartResponse;
use crate::text::{chars_to_string, str_to_chars};

verus! {

/// Why one side of a comparison failed.
#[derive(Debug, Clone, PartialEq, Eq)]
pub enum FetchError {
    /// The configured method is not a valid HTTP method.
    InvalidMethod,
    /// A header name or value is invalid; detected before any network I/O.
    InvalidHeader,
    /// The response carried no content type.
    MissingContentType,
    /// The body could not be normalized.
    Normalize(NormalizeError),
    /// The transport failed (connect, timeout, TLS); reported by the I/O
    /// layer that performed the call.
    Transport(String),
}

/// Whether http accepts these characters as a header name.
pub uninterp spec fn is_header_name(s: Seq<char>) -> bool;

/// One byte http accepts inside a header value: anything printable or
/// obs-text, plus horizontal tab — never another control byte and never DEL.
pub open spec fn valid_header_value_byte(b: u8) -> bool {
    (b >= 32 && b != 127) || b == 9
}

/// Whether http accepts these characters as a header value: every byte of
/// their UTF-8 form is a valid value byte.
pub open spec fn is_header_value(s: Seq<char>) -> bool {
    forall|i: int|
        0 <= i < vstd::utf8::encode_utf8(s).len() ==> valid_header_value_byte(
            #[trigger] vstd::utf8::encode_utf8(s)[i],
        )
}

/// Whether http accepts these characters as a request method.
pub uninterp spec fn is_http_method(s: Seq<char>) -> bool;

/// Relies on `reqwest::header::HeaderName::from_bytes` (http's parser):
/// whether a name is accepted is a function of its bytes alone.
#[verifier::external_body]
fn header_name_valid(s: &str) -> (r: bool)
    ensures
        r == is_header_name(s@),
{
    reqwest::header::HeaderName::from_bytes(s.as_bytes()).is_ok()
}

/// Relies on `reqwest::header::HeaderValue::from_str` (http's parser): it
/// accepts a string exactly when every one of its bytes is a valid value
/// byte, which `is_header_value` states outright over the UTF-8 form.
#[verifier::external_body]
fn header_value_valid(s: &str) -> (r: bool)
    ensures
        r == is_header_value(s@),
{
    reqwest::header::HeaderValue::from_str(s).is_ok()
}

/// Relies on `reqwest::Method::from_bytes` (http's parser): whether a method
/// is accepted is a function of its bytes alone.
#[verifier::external_body]
fn method_valid(s: &str) -> (r: bool)
    ensures
        r == is_http_method(s@),
{
    reqwest::Method::from_bytes(s.as_bytes()).is_ok()
}

/// Upper-case hexadecimal digit, as percent-encoding writes it.
pub open spec fn spec_hex_upper(d: int) -> char {
    if d < 10 {
        crate::text::spec_digit_char(d)
    } else if d == 10 {
        'A'
    } else if d == 11 {
        'B'
    } else if d == 12 {
        'C'
    } else if d == 13 {
        'D'
    } else if d == 14 {
        'E'
    } else {
        'F'
    }
}

/// Characters sent bare in a query string.
pub open spec fn is_unreserved(c: char) -> bool {
    (48 <= (c as u32) <= 57) || (65 <= (c as u32) <= 90) || (97 <= (c as u32) <= 122) || c == '-'
        || c == '_' || c == '.' || c == '~'
}

/// One byte as `%XX`.
pub open spec fn percent_byte(b: u8) -> Seq<char> {
    seq!['%', spec_hex_upper(b as int / 16), spec_hex_upper(b as int % 16)]
}

pub open spec fn percent_bytes(bs: Seq<u8>) -> Seq<char>
    decreases bs.len(),
{
    if bs.len() == 0 {
        Seq::empty()
    } else {
        percent_byte(bs[0]) + percent_bytes(bs.drop_first())
    }
}

/// One query character: bare if unreserved, else the percent-encoding of its
/// UTF-8 bytes.
pub open spec fn encode_query_char(c: char) -> Seq<char> {
    if is_unreserved(c) {
        seq![c]
    } else {
        percent_bytes(vstd::utf8::encode_scalar(c as u32))
    }
}

pub open spec fn encode_query_text(s: Seq<char>) -> Seq<char>
    decreases s.len(),
{
    if s.len() == 0 {
        Seq::empty()
    } else {
        encode_query_char(s[0]) + encode_query_text(s.drop_first())
    }
}

/// One `key=value` pair.
pub open spec fn encode_query_pair(p: (Seq<char>, Seq<char>)) -> Seq<char> {
    encode_query_text(p.0) + (seq!['='] + encode_query_text(p.1))
}

/// The pairs joined with `&`.
pub open spec fn encode_query(q: Seq<(Seq<char>, Seq<char>)>) -> Seq<char>
    decreases q.len(),
{
    if q.len() == 0 {
        Seq::empty()
    } else if q.len() == 1 {
        encode_query_pair(q[0])
    } else {
        encode_query_pair(q[0]) + (seq!['&'] + encode_query(q.drop_first()))
    }
}

/// The views of a query parameter list.
pub open spec fn query_views(q: Seq<(String, String)>) -> Seq<(Seq<char>, Seq<char>)> {
    q.map_values(|p: (String, String)| (p.0@, p.1@))
}

/// The exact URL string sent on the wire: the configured URL with the query
/// parameters appended. This string is also the cache key.
pub open spec fn spec_wire_url(url: Seq<char>, q: Seq<(Seq<char>, Seq<char>)>) -> Seq<char> {
    if q.len() == 0 {
        url
    } else {
        url + seq!['?'] + encode_query(q)
    }
}

fn hex_upper_char(d: u32) -> (c: char)
    requires
        d < 16,
    ensures
        c == spec_hex_upper(d as int),
{
    if d == 0 {
        '0'
    } else if d == 1 {
        '1'
    } else if d == 2 {
        '2'
    } else if d == 3 {
        '3'
    } else if d == 4 {
        '4'
    } else if d == 5 {
        '5'
    } else if d == 6 {
        '6'
    } else if d == 7 {
        '7'
    } else if d == 8 {
        '8'
    } else if d == 9 {
        '9'
    } else if d == 10 {
        'A'
    } else if d == 11 {
        'B'
    } else if d == 12 {
        'C'
    } else if d == 13 {
        'D'
    } else if d == 14 {
        'E'
    } else {
        'F'
    }
}

/// Relies on `char::encode_utf8`: the UTF-8 bytes of one character.
#[verifier::external_body]
fn char_utf8_bytes(c: char) -> (r: Vec<u8>)
    ensures
        r@ == vstd::utf8::encode_scalar(c as u32),
{
    let mut buf = [0u8; 4];
    c.encode_utf8(&mut buf).as_bytes().to_vec()
}

fn is_unreserved_exec(c: char) -> (r: bool)
    ensures
        r == is_unreserved(c),
{
    let u = c as u32;
    (48 <= u && u <= 57) || (65 <= u && u <= 90) || (97 <= u && u <= 122) || c == '-' || c == '_'
        || c == '.' || c == '~'
}

fn push_query_char(out: &mut Vec<char>, c: char)
    ensures
        final(out)@ =~= old(out)@ + encode_query_char(c),
{
    if is_unreserved_exec(c) {
        out.push(c);
    } else {
        let bs = char_utf8_bytes(c);
        let ghost base = out@;
        let mut i: usize = 0;
        while i < bs.len()
            invariant
                bs@ == vstd::utf8::encode_scalar(c as u32),
                i <= bs@.len(),
                out@ =~= base + percent_bytes(bs@.subrange(0, i as int)),
            decreases bs@.len() - i,
        {
            let b = bs[i] as u32;
            out.push('%');
            out.push(hex_upper_char(b / 16));
            out.push(hex_upper_char(b % 16));
            proof {
                lemma_percent_push(bs@.subrange(0, i as int), bs@[i as int]);
                assert(bs@.subrange(0, i + 1) =~= bs@.subrange(0, i as int).push(bs@[i as int]));
            }
            i += 1;
        }
        proof {
            assert(bs@.subrange(0, bs@.len() as int) =~= bs@);
        }
    }
}

proof fn lemma_percent_push(bs: Seq<u8>, b: u8)
    ensures
        percent_bytes(bs.push(b)) =~= percent_bytes(bs) + percent_byte(b),
    decreases bs.len(),
{
    assert(percent_bytes(Seq::<u8>::empty()) =~= Seq::<char>::empty());
    if bs.len() == 0 {
        assert(bs.push(b)[0] == b);
        assert(bs.push(b).drop_first() =~= Seq::<u8>::empty());
        assert(percent_bytes(bs.push(b)) =~= percent_byte(b) + percent_bytes(
            Seq::<u8>::empty(),
        ));
    } else {
        assert(bs.push(b)[0] == bs[0]);
        assert(bs.push(b).drop_first() =~= bs.drop_first().push(b));
        lemma_percent_push(bs.drop_first(), b);
        assert(percent_bytes(bs.push(b)) =~= percent_byte(bs[0]) + percent_bytes(
            bs.drop_first().push(b),
        ));
    }
}

proof fn lemma_query_text_push(p: Seq<char>, c: char)
    ensures
        encode_query_text(p.push(c)) =~= encode_query_text(p) + encode_query_char(c),
    decreases p.len(),
{
    assert(encode_query_text(Seq::<char>::empty()) =~= Seq::<char>::empty());
    if p.len() == 0 {
        assert(p.push(c)[0] == c);
        assert(p.push(c).drop_first() =~= Seq::<char>::empty());
        assert(encode_query_text(p.push(c)) =~= encode_query_char(c) + encode_query_text(
            Seq::<char>::empty(),
        ));
    } else {
        assert(p.push(c)[0] == p[0]);
        assert(p.push(c).drop_first() =~= p.drop_first().push(c));
        lemma_query_text_push(p.drop_first(), c);
        assert(encode_query_text(p.push(c)) =~= encode_query_char(p[0]) + encode_query_text(
            p.drop_first().push(c),
        ));
    }
}

fn push_query_text(out: &mut Vec<char>, s: &str)
    ensures
        final(out)@ =~= old(out)@ + encode_query_text(s@),
{
    let cs = str_to_chars(s);
    let ghost base = out@;
    let mut i: usize = 0;
    while i < cs.len()
        invariant
            cs@ =~= s@,
            i <= cs@.len(),
            out@ =~= base + encode_query_text(s@.subrange(0, i as int)),
        decreases cs@.len() - i,
    {
        push_query_char(out, cs[i]);
        proof {
            lemma_query_text_push(s@.subrange(0, i as int), s@[i as int]);
            assert(s@.subrange(0, i + 1) =~= s@.subrange(0, i as int).push(s@[i as int]));
        }
        i += 1;
    }
    proof {
        assert(s@.subrange(0, s@.len() as int) =~= s@);
    }
}

proof fn lemma_query_push(q: Seq<(Seq<char>, Seq<char>)>, p: (Seq<char>, Seq<char>))
    ensures
        q.len() == 0 ==> encode_query(q.push(p)) =~= encode_query_pair(p),
        q.len() > 0 ==> encode_query(q.push(p)) =~= encode_query(q) + (seq!['&']
            + encode_query_pair(p)),
    decreases q.len(),
{
    if q.len() == 0 {
        assert(q.push(p)[0] == p);
    } else {
        assert(q.push(p)[0] == q[0]);
        assert(q.push(p).drop_first() =~= q.drop_first().push(p));
        lemma_query_push(q.drop_first(), p);
    }
}

/// The exact URL to send: the configured URL, with the query parameters
/// percent-encoded and appended in their configured order.
pub fn expanded_url(url: &str, query: &Vec<(String, String)>) -> (r: String)
    ensures
        r@ == spec_wire_url(url@, query_views(query@)),
{
    let ghost qv = query_views(query@);
    if query.len() == 0 {
        return url.to_owned();
    }
    let mut out = str_to_chars(url);
    out.push('?');
    let ghost head = url@ + seq!['?'];
    let mut i: usize = 0;
    while i < query.len()
        invariant
            qv == query_views(query@),
            head == url@ + seq!['?'],
            i <= qv.len(),
            out@ =~= head + encode_query(qv.subrange(0, i as int)),
        decreases qv.len() - i,
    {
        if i > 0 {
            out.push('&');
        }
        push_query_text(&mut out, query[i].0.as_str());
        out.push('=');
        push_query_text(&mut out, query[i].1.as_str());
        proof {
            lemma_query_push(qv.subrange(0, i as int), qv[i as int]);
            assert(qv.subrange(0, i + 1) =~= qv.subrange(0, i as int).push(qv[i as int]));
            assert(qv[i as int] == (query@[i as int].0@, query@[i as int].1@));
        }
        i += 1;
    }
    proof {
        assert(qv.subrange(0, qv.len() as int) =~= qv);
    }
    chars_to_string(&out)
}

/// A request checked and ready for the wire.
#[derive(Debug, PartialEq, Eq)]
pub struct PreparedRequest {
    /// The validated method, `GET` when none was configured.
    pub method: String,
    /// The exact URL to send, query included: also the cache key.
    pub url: String,
    pub auth: Auth,
    /// The validated headers, in configured order.
    pub headers: Vec<(String, String)>,
}

/// The method this side uses: the configured one, or GET.
pub open spec fn spec_method_of(m: Option<String>) -> Seq<char> {
    match m {
        Some(s) => s@,
        None => "GET"@,
    }
}

/// Every header name and value is one http accepts.
pub open spec fn headers_valid(hs: Seq<(String, String)>) -> bool {
    forall|i: int|
        0 <= i < hs.len() ==> is_header_name(#[trigger] hs[i].0@) && is_header_value(hs[i].1@)
}

fn clone_auth(a: &Auth) -> (r: Auth)
    ensures
        r == *a,
{
    match a {
        Auth::Anonymous => Auth::Anonymous,
        Auth::Basic(b) => Auth::Basic(
            BasicAuth {
                username: b.username.clone(),
                password: match &b.password {
                    Some(p) => Some(p.clone()),
                    None => None,
                },
            },
        ),
        Auth::Bearer(t) => Auth::Bearer(t.clone()),
    }
}

fn clone_pairs(hs: &Vec<(String, String)>) -> (r: Vec<(String, String)>)
    ensures
        r@ =~= hs@,
{
    let mut r: Vec<(String, String)> = Vec::new();
    let mut i: usize = 0;
    while i < hs.len()
        invariant
            i <= hs@.len(),
            r@ =~= hs@.subrange(0, i as int),
        decreases hs@.len() - i,
    {
        r.push((hs[i].0.clone(), hs[i].1.clone()));
        proof {
            assert((hs@[i as int].0, hs@[i as int].1) == hs@[i as int]);
        }
        i += 1;
    }
    proof {
        assert(hs@.subrange(0, hs@.len() as int) =~= hs@);
    }
    r
}

/// Validate one side's request and fix the exact wire form, before any I/O.
/// An unknown method or an invalid header fails fast, never reaching the
/// network.
pub fn prepare_request(part: &PartRequestConfig) -> (r: Result<PreparedRequest, FetchError>)
    ensures
        r is Ok <==> is_http_method(spec_method_of(part.method)) && headers_valid(part.headers@),
        !is_http_method(spec_method_of(part.method)) ==> r == Err::<PreparedRequest, FetchError>(
            FetchError::InvalidMethod,
        ),
        is_http_method(spec_method_of(part.method)) && !headers_valid(part.headers@) ==> r == Err::<
            PreparedRequest,
            FetchError,
        >(FetchError::InvalidHeader),
        r is Ok ==> (r->Ok_0).method@ == spec_method_of(part.method) && (r->Ok_0).url@
            == spec_wire_url(part.url@, query_views(part.query@)) && (r->Ok_0).auth == part.auth
            && (r->Ok_0).headers@ == part.headers@,
{
    let method = match &part.method {
        Some(s) => s.clone(),
        None => String::from_str("GET"),
    };
    if !method_valid(method.as_str()) {
        return Err(FetchError::InvalidMethod);
    }
    let mut i: usize = 0;
    while i < part.headers.len()
        invariant
            is_http_method(spec_method_of(part.method)),
            i <= part.headers@.len(),
            forall|k: int| 0 <= k < i ==> is_header_name(#[trigger] part.headers@[k].0@),
            forall|k: int| 0 <= k < i ==> is_header_value(#[trigger] part.headers@[k].1@),
        decreases part.headers@.len() - i,
    {
        let name_ok = header_name_valid(part.headers[i].0.as_str());
        if !name_ok {
            return Err(FetchError::InvalidHeader);
        }
        let value_ok = header_value_valid(part.headers[i].1.as_str());
        if !value_ok {
            return Err(FetchError::InvalidHeader);
        }
        proof {
            assert(is_header_name(part.headers@[i as int].0@));
            assert(is_header_value(part.headers@[i as int].1@));
        }
        i += 1;
    }
    let url = expanded_url(part.url.as_str(), &part.query);
    Ok(
        PreparedRequest {
            method,
            url,
            auth: clone_auth(&part.auth),
            headers: clone_pairs(&part.headers),
        },
    )
}

/// Turn a raw response into its normalized form: the content type must name
/// JSON, the body must parse, and the redaction pass is applied. The URL is
/// the wire URL the request was sent to; the status code is kept as part of
/// the result, never treated as a failure.
pub fn ingest_response(
    url: String,
    status_code: u16,
    content_type: Option<&String>,
    body: &str,
    redactions: &Vec<String>,
) -> (r: Result<PartResponse, FetchError>)
    ensures
        content_type is None ==> r == Err::<PartResponse, FetchError>(
            FetchError::MissingContentType,
        ),
        content_type is Some ==> {
            &&& r is Ok <==> (is_json_content_type(content_type->0@) && json_valid(body@))
            &&& !is_json_content_type(content_type->0@) ==> r == Err::<PartResponse, FetchError>(
                FetchError::Normalize(NormalizeError::UnsupportedContentType),
            )
            &&& is_json_content_type(content_type->0@) && !json_valid(body@) ==> r == Err::<
                PartResponse,
                FetchError,
            >(FetchError::Normalize(NormalizeError::MalformedBody))
            &&& r is Ok ==> (r->Ok_0).url == url && (r->Ok_0).status_code == status_code && (
            r->Ok_0).text@ == apply_redactions(json_pretty(body@), redactions.deep_view())
        },
{
    let ct = match content_type {
        None => {
            return Err(FetchError::MissingContentType);
        },
        Some(c) => c,
    };
    match normalize(body, ct.as_str(), redactions) {
        Err(e) => Err(FetchError::Normalize(e)),
        Ok(text) => Ok(PartResponse { url, status_code, text }),
    }
}

} // verus!
