//! The persistent form of the cache: one JSON object mapping each URL to
//! `{"url": ..., "status_code": ..., "text": ...}`, in a fixed canonical
//! shape (no whitespace, lower-case hex escapes). `encode_cache` writes it,
//! `parse_cache` reads it back, and the round trip is proved exact: loading
//! what was persisted reproduces every entry.

use vstd::prelude::*;

use crate::response::{PartResponse, PartResponseView};
use crate::text::{chars_to_string, spec_digits, str_to_chars, u16_digits};

verus! {

// ---------------------------------------------------------------------------
// Encoding, as mathematics.
// ---------------------------------------------------------------------------
/// Lower-case hexadecimal digit.
pub open spec fn spec_hex_digit(d: int) -> char {
    if d < 10 {
        crate::text::spec_digit_char(d)
    } else if d == 10 {
        'a'
    } else if d == 11 {
        'b'
    } else if d == 12 {
        'c'
    } else if d == 13 {
        'd'
    } else if d == 14 {
        'e'
    } else {
        'f'
    }
}

/// How one character appears inside a JSON string literal.
pub open spec fn escape_char(c: char) -> Seq<char> {
    if c == '"' {
        seq!['\\', '"']
    } else if c == '\\' {
        seq!['\\', '\\']
    } else if c == '\n' {
        seq!['\\', 'n']
    } else if c == '\r' {
        seq!['\\', 'r']
    } else if c == '\t' {
        seq!['\\', 't']
    } else if (c as u32) < 32 {
        seq![
            '\\',
            'u',
            '0',
            '0',
            spec_hex_digit((c as u32) as int / 16),
            spec_hex_digit((c as u32) as int % 16),
        ]
    } else {
        seq![c]
    }
}

pub open spec fn escape_string(s: Seq<char>) -> Seq<char>
    decreases s.len(),
{
    if s.len() == 0 {
        Seq::empty()
    } else {
        escape_char(s[0]) + escape_string(s.drop_first())
    }
}

/// A JSON string literal: quotes around the escaped characters.
pub open spec fn quoted(s: Seq<char>) -> Seq<char> {
    seq!['"'] + escape_string(s) + seq!['"']
}

/// `{"url":`
pub open spec fn obj_open() -> Seq<char> {
    seq!['{', '"', 'u', 'r', 'l', '"', ':']
}

/// `,"status_code":`
pub open spec fn obj_status() -> Seq<char> {
    seq![',', '"', 's', 't', 'a', 't', 'u', 's', '_', 'c', 'o', 'd', 'e', '"', ':']
}

/// `,"text":`
pub open spec fn obj_text() -> Seq<char> {
    seq![',', '"', 't', 'e', 'x', 't', '"', ':']
}

/// The object stored for one response.
pub open spec fn encode_object(e: PartResponseView) -> Seq<char> {
    obj_open() + (quoted(e.url) + (obj_status() + (spec_digits(e.status_code as int) + (obj_text()
        + (quoted(e.text) + seq!['}'])))))
}

/// One `"url":{...}` member of the top-level object.
pub open spec fn encode_entry(e: PartResponseView) -> Seq<char> {
    quoted(e.url) + (seq![':'] + encode_object(e))
}

/// The members, comma-separated.
pub open spec fn encode_entries(es: Seq<PartResponseView>) -> Seq<char>
    decreases es.len(),
{
    if es.len() == 0 {
        Seq::empty()
    } else if es.len() == 1 {
        encode_entry(es[0])
    } else {
        encode_entry(es[0]) + (seq![','] + encode_entries(es.drop_first()))
    }
}

/// The whole cache file.
pub open spec fn encode_cache_text(es: Seq<PartResponseView>) -> Seq<char> {
    seq!['{'] + encode_entries(es) + seq!['}']
}

// ---------------------------------------------------------------------------
// Parsing, as mathematics. Every function takes the whole text and a
// position, and yields the parsed value with the position after it.
// ---------------------------------------------------------------------------
pub open spec fn is_digit(c: char) -> bool {
    48 <= (c as u32) <= 57
}

pub open spec fn digit_val(c: char) -> int {
    c as u32 - 48
}

pub open spec fn is_hex(c: char) -> bool {
    is_digit(c) || (97 <= (c as u32) <= 102)
}

pub open spec fn hex_val(c: char) -> int {
    if is_digit(c) {
        c as u32 - 48
    } else {
        c as u32 - 87
    }
}

/// The single-character escapes.
pub open spec fn decode_esc(c: char) -> Option<char> {
    if c == '"' {
        Some('"')
    } else if c == '\\' {
        Some('\\')
    } else if c == 'n' {
        Some('\n')
    } else if c == 'r' {
        Some('\r')
    } else if c == 't' {
        Some('\t')
    } else {
        None
    }
}

/// The characters of a string literal after the opening quote, up to and
/// including the closing quote.
pub open spec fn parse_string_body(s: Seq<char>, i: int) -> Option<(Seq<char>, int)>
    decreases s.len() - i,
{
    if i < 0 || i >= s.len() {
        None
    } else if s[i] == '"' {
        Some((Seq::empty(), i + 1))
    } else if s[i] == '\\' {
        if i + 1 < s.len() {
            let c2 = s[i + 1];
            if c2 == 'u' {
                if i + 5 < s.len() && s[i + 2] == '0' && s[i + 3] == '0' && is_hex(s[i + 4])
                    && is_hex(s[i + 5]) {
                    let c = ((16 * hex_val(s[i + 4]) + hex_val(s[i + 5])) as u32) as char;
                    match parse_string_body(s, i + 6) {
                        Some(t) => Some((seq![c] + t.0, t.1)),
                        None => None,
                    }
                } else {
                    None
                }
            } else {
                match decode_esc(c2) {
                    Some(c) => match parse_string_body(s, i + 2) {
                        Some(t) => Some((seq![c] + t.0, t.1)),
                        None => None,
                    },
                    None => None,
                }
            }
        } else {
            None
        }
    } else {
        match parse_string_body(s, i + 1) {
            Some(t) => Some((seq![s[i]] + t.0, t.1)),
            None => None,
        }
    }
}

/// A whole string literal, quotes included.
pub open spec fn parse_quoted(s: Seq<char>, i: int) -> Option<(Seq<char>, int)> {
    if 0 <= i < s.len() && s[i] == '"' {
        parse_string_body(s, i + 1)
    } else {
        None
    }
}

/// Position after `lit` if the text holds it at `i`.
pub open spec fn expect(s: Seq<char>, i: int, lit: Seq<char>) -> Option<int> {
    if 0 <= i && i + lit.len() <= s.len() && s.subrange(i, i + lit.len()) == lit {
        Some(i + lit.len())
    } else {
        None
    }
}

/// End of the run of decimal digits starting at `i`.
pub open spec fn digit_run(s: Seq<char>, i: int) -> int
    decreases s.len() - i,
{
    if 0 <= i < s.len() && is_digit(s[i]) {
        digit_run(s, i + 1)
    } else {
        i
    }
}

/// The number a run of digits denotes.
pub open spec fn digits_val(ds: Seq<char>) -> int
    decreases ds.len(),
{
    if ds.len() == 0 {
        0
    } else {
        digits_val(ds.drop_last()) * 10 + digit_val(ds.last())
    }
}

/// A status code: a nonempty digit run whose value fits in sixteen bits.
pub open spec fn parse_u16(s: Seq<char>, i: int) -> Option<(int, int)> {
    let j = digit_run(s, i);
    if j == i {
        None
    } else {
        let v = digits_val(s.subrange(i, j));
        if v <= 65535 {
            Some((v, j))
        } else {
            None
        }
    }
}

/// One stored response object.
pub open spec fn parse_object(s: Seq<char>, i: int) -> Option<(PartResponseView, int)> {
    match expect(s, i, obj_open()) {
        None => None,
        Some(j1) => match parse_quoted(s, j1) {
            None => None,
            Some(url) => match expect(s, url.1, obj_status()) {
                None => None,
                Some(j2) => match parse_u16(s, j2) {
                    None => None,
                    Some(v) => match expect(s, v.1, obj_text()) {
                        None => None,
                        Some(j3) => match parse_quoted(s, j3) {
                            None => None,
                            Some(text) => match expect(s, text.1, seq!['}']) {
                                None => None,
                                Some(j4) => Some(
                                    (
                                        PartResponseView {
                                            url: url.0,
                                            status_code: v.0 as u16,
                                            text: text.0,
                                        },
                                        j4,
                                    ),
                                ),
                            },
                        },
                    },
                },
            },
        },
    }
}

/// One member: its key must equal the stored URL.
pub open spec fn parse_entry(s: Seq<char>, i: int) -> Option<(PartResponseView, int)> {
    match parse_quoted(s, i) {
        None => None,
        Some(key) => match expect(s, key.1, seq![':']) {
            None => None,
            Some(j1) => match parse_object(s, j1) {
                None => None,
                Some(e) => if key.0 == e.0.url {
                    Some(e)
                } else {
                    None
                },
            },
        },
    }
}

/// One or more comma-separated members. `fuel` bounds the recursion; any
/// value at least the number of members (the text's length will do) is
/// enough.
pub open spec fn parse_entries(s: Seq<char>, i: int, fuel: nat) -> Option<
    (Seq<PartResponseView>, int),
>
    decreases fuel,
{
    if fuel == 0 {
        None
    } else {
        match parse_entry(s, i) {
            None => None,
            Some(e) => if 0 <= e.1 < s.len() && s[e.1] == ',' {
                match parse_entries(s, e.1 + 1, (fuel - 1) as nat) {
                    None => None,
                    Some(rest) => Some((seq![e.0] + rest.0, rest.1)),
                }
            } else {
                Some((seq![e.0], e.1))
            },
        }
    }
}

/// The whole cache file: `{}` or `{` members `}`, nothing before or after.
pub open spec fn parse_cache_text(s: Seq<char>) -> Option<Seq<PartResponseView>> {
    if s.len() >= 2 && s[0] == '{' {
        if s.len() == 2 && s[1] == '}' {
            Some(Seq::empty())
        } else {
            match parse_entries(s, 1, s.len() as nat) {
                None => None,
                Some(es) => if es.1 == s.len() - 1 && s[es.1] == '}' {
                    Some(es.0)
                } else {
                    None
                },
            }
        }
    } else {
        None
    }
}

// ---------------------------------------------------------------------------
// The executable encoder.
// ---------------------------------------------------------------------------
fn hex_digit_char(d: u32) -> (c: char)
    requires
        d < 16,
    ensures
        c == spec_hex_digit(d as int),
{
    if d == 0 {
        '0'
    } else if d == 1 {
        '1'
    } else if d == 2 {
        '2'
    } else if d == 3 {
        '3'
    } else if d == 4 {
        '4'
    } else if d == 5 {
        '5'
    } else if d == 6 {
        '6'
    } else if d == 7 {
        '7'
    } else if d == 8 {
        '8'
    } else if d == 9 {
        '9'
    } else if d == 10 {
        'a'
    } else if d == 11 {
        'b'
    } else if d == 12 {
        'c'
    } else if d == 13 {
        'd'
    } else if d == 14 {
        'e'
    } else {
        'f'
    }
}

fn push_escaped_char(out: &mut Vec<char>, c: char)
    ensures
        final(out)@ =~= old(out)@ + escape_char(c),
{
    if c == '"' {
        out.push('\\');
        out.push('"');
    } else if c == '\\' {
        out.push('\\');
        out.push('\\');
    } else if c == '\n' {
        out.push('\\');
        out.push('n');
    } else if c == '\r' {
        out.push('\\');
        out.push('r');
    } else if c == '\t' {
        out.push('\\');
        out.push('t');
    } else if (c as u32) < 32 {
        let u = c as u32;
        out.push('\\');
        out.push('u');
        out.push('0');
        out.push('0');
        out.push(hex_digit_char(u / 16));
        out.push(hex_digit_char(u % 16));
    } else {
        out.push(c);
    }
}

proof fn lemma_escape_push(p: Seq<char>, c: char)
    ensures
        escape_string(p.push(c)) =~= escape_string(p) + escape_char(c),
    decreases p.len(),
{
    assert(escape_string(Seq::<char>::empty()) =~= Seq::<char>::empty());
    if p.len() == 0 {
        assert(p.push(c)[0] == c);
        assert(p.push(c).drop_first() =~= Seq::<char>::empty());
        assert(escape_string(p.push(c)) =~= escape_char(c) + escape_string(
            Seq::<char>::empty(),
        ));
    } else {
        assert(p.push(c)[0] == p[0]);
        assert(p.push(c).drop_first() =~= p.drop_first().push(c));
        lemma_escape_push(p.drop_first(), c);
        assert(escape_string(p.push(c)) =~= escape_char(p[0]) + escape_string(
            p.drop_first().push(c),
        ));
    }
}

fn push_escaped_str(out: &mut Vec<char>, s: &str)
    ensures
        final(out)@ =~= old(out)@ + escape_string(s@),
{
    let cs = str_to_chars(s);
    let ghost base = out@;
    let mut i: usize = 0;
    while i < cs.len()
        invariant
            cs@ =~= s@,
            i <= cs@.len(),
            out@ =~= base + escape_string(s@.subrange(0, i as int)),
        decreases cs@.len() - i,
    {
        push_escaped_char(out, cs[i]);
        proof {
            lemma_escape_push(s@.subrange(0, i as int), s@[i as int]);
            assert(s@.subrange(0, i + 1) =~= s@.subrange(0, i as int).push(s@[i as int]));
        }
        i += 1;
    }
    proof {
        assert(s@.subrange(0, s@.len() as int) =~= s@);
    }
}

fn push_quoted(out: &mut Vec<char>, s: &str)
    ensures
        final(out)@ =~= old(out)@ + quoted(s@),
{
    out.push('"');
    push_escaped_str(out, s);
    out.push('"');
}

fn push_digits(out: &mut Vec<char>, n: u16)
    ensures
        final(out)@ =~= old(out)@ + spec_digits(n as int),
{
    let ds = u16_digits(n);
    let ghost base = out@;
    let mut i: usize = 0;
    while i < ds.len()
        invariant
            ds@ == spec_digits(n as int),
            i <= ds@.len(),
            out@ =~= base + ds@.subrange(0, i as int),
        decreases ds@.len() - i,
    {
        out.push(ds[i]);
        proof {
            assert(ds@.subrange(0, i + 1) =~= ds@.subrange(0, i as int).push(ds@[i as int]));
        }
        i += 1;
    }
    proof {
        assert(ds@.subrange(0, ds@.len() as int) =~= ds@);
    }
}

fn push_object(out: &mut Vec<char>, p: &PartResponse)
    ensures
        final(out)@ =~= old(out)@ + encode_object(p@),
{
    out.push('{');
    out.push('"');
    out.push('u');
    out.push('r');
    out.push('l');
    out.push('"');
    out.push(':');
    assert(out@ =~= old(out)@ + obj_open());
    push_quoted(out, self_url(p));
    out.push(',');
    out.push('"');
    out.push('s');
    out.push('t');
    out.push('a');
    out.push('t');
    out.push('u');
    out.push('s');
    out.push('_');
    out.push('c');
    out.push('o');
    out.push('d');
    out.push('e');
    out.push('"');
    out.push(':');
    assert(out@ =~= old(out)@ + obj_open() + quoted(p.url@) + obj_status());
    push_digits(out, p.status_code);
    out.push(',');
    out.push('"');
    out.push('t');
    out.push('e');
    out.push('x');
    out.push('t');
    out.push('"');
    out.push(':');
    push_quoted(out, self_text(p));
    out.push('}');
}

fn self_url(p: &PartResponse) -> (r: &str)
    ensures
        r@ == p.url@,
{
    p.url.as_str()
}

fn self_text(p: &PartResponse) -> (r: &str)
    ensures
        r@ == p.text@,
{
    p.text.as_str()
}

fn push_entry(out: &mut Vec<char>, p: &PartResponse)
    ensures
        final(out)@ =~= old(out)@ + encode_entry(p@),
{
    push_quoted(out, self_url(p));
    out.push(':');
    push_object(out, p);
}

proof fn lemma_entries_push(es: Seq<PartResponseView>, e: PartResponseView)
    ensures
        es.len() == 0 ==> encode_entries(es.push(e)) =~= encode_entry(e),
        es.len() > 0 ==> encode_entries(es.push(e)) =~= encode_entries(es) + (seq![',']
            + encode_entry(e)),
    decreases es.len(),
{
    if es.len() == 0 {
        assert(es.push(e)[0] == e);
    } else {
        assert(es.push(e)[0] == es[0]);
        assert(es.push(e).drop_first() =~= es.drop_first().push(e));
        lemma_entries_push(es.drop_first(), e);
    }
}

/// The cache's persistent form: the canonical JSON text for these entries.
pub fn encode_cache(entries: &Vec<PartResponse>) -> (r: String)
    ensures
        r@ == encode_cache_text(entries@.map_values(|p: PartResponse| p@)),
{
    let ghost es = entries@.map_values(|p: PartResponse| p@);
    let mut out: Vec<char> = Vec::new();
    out.push('{');
    let mut i: usize = 0;
    while i < entries.len()
        invariant
            es == entries@.map_values(|p: PartResponse| p@),
            i <= es.len(),
            out@ =~= seq!['{'] + encode_entries(es.subrange(0, i as int)),
        decreases es.len() - i,
    {
        if i > 0 {
            out.push(',');
        }
        push_entry(&mut out, &entries[i]);
        proof {
            lemma_entries_push(es.subrange(0, i as int), es[i as int]);
            assert(es.subrange(0, i + 1) =~= es.subrange(0, i as int).push(es[i as int]));
            assert(entries@[i as int]@ == es[i as int]);
        }
        i += 1;
    }
    out.push('}');
    proof {
        assert(es.subrange(0, es.len() as int) =~= es);
    }
    chars_to_string(&out)
}

// ---------------------------------------------------------------------------
// The executable parser.
// ---------------------------------------------------------------------------
fn hex_digit_val(c: char) -> (r: Option<u32>)
    ensures
        r is Some <==> is_hex(c),
        r is Some ==> r->0 == hex_val(c),
{
    let u = c as u32;
    if 48 <= u && u <= 57 {
        Some(u - 48)
    } else if 97 <= u && u <= 102 {
        Some(u - 87)
    } else {
        None
    }
}

fn parse_string_body_exec(s: &Vec<char>, i: usize) -> (r: Option<(Vec<char>, usize)>)
    ensures
        r is None ==> parse_string_body(s@, i as int) is None,
        r is Some ==> parse_string_body(s@, i as int) == Some(((r->0).0@, (r->0).1 as int)),
    decreases s@.len() - i,
{
    if i >= s.len() {
        return None;
    }
    let c = s[i];
    if c == '"' {
        let v: Vec<char> = Vec::new();
        proof {
            assert(v@ =~= Seq::<char>::empty());
        }
        Some((v, i + 1))
    } else if c == '\\' {
        if i + 1 >= s.len() {
            return None;
        }
        let c2 = s[i + 1];
        if c2 == 'u' {
            if s.len() - i <= 5 {
                return None;
            }
            if s[i + 2] != '0' || s[i + 3] != '0' {
                return None;
            }
            let h1 = match hex_digit_val(s[i + 4]) {
                Some(h) => h,
                None => {
                    return None;
                },
            };
            let h2 = match hex_digit_val(s[i + 5]) {
                Some(h) => h,
                None => {
                    return None;
                },
            };
            let code = 16 * h1 + h2;
            let cc = (code as u8) as char;
            proof {
                assert(cc == ((16 * hex_val(s@[i + 4]) + hex_val(s@[i + 5])) as u32) as char);
            }
            match parse_string_body_exec(s, i + 6) {
                None => None,
                Some(tp) => {
                    let (mut v, j) = tp;
                    let ghost v0 = v@;
                    v.insert(0, cc);
                    proof {
                        assert(v@ =~= seq![cc] + v0);
                    }
                    Some((v, j))
                },
            }
        } else {
            let dc = match c2 {
                '"' => '"',
                '\\' => '\\',
                'n' => '\n',
                'r' => '\r',
                't' => '\t',
                _ => {
                    return None;
                },
            };
            match parse_string_body_exec(s, i + 2) {
                None => None,
                Some(tp) => {
                    let (mut v, j) = tp;
                    let ghost v0 = v@;
                    v.insert(0, dc);
                    proof {
                        assert(v@ =~= seq![dc] + v0);
                    }
                    Some((v, j))
                },
            }
        }
    } else {
        match parse_string_body_exec(s, i + 1) {
            None => None,
            Some(tp) => {
                let (mut v, j) = tp;
                let ghost v0 = v@;
                v.insert(0, c);
                proof {
                    assert(v@ =~= seq![c] + v0);
                }
                Some((v, j))
            },
        }
    }
}

fn parse_quoted_exec(s: &Vec<char>, i: usize) -> (r: Option<(Vec<char>, usize)>)
    ensures
        r is None ==> parse_quoted(s@, i as int) is None,
        r is Some ==> parse_quoted(s@, i as int) == Some(((r->0).0@, (r->0).1 as int)),
{
    if i < s.len() && s[i] == '"' {
        parse_string_body_exec(s, i + 1)
    } else {
        None
    }
}

fn expect_exec(s: &Vec<char>, i: usize, lit: &Vec<char>) -> (r: Option<usize>)
    ensures
        r is None ==> expect(s@, i as int, lit@) is None,
        r is Some ==> expect(s@, i as int, lit@) == Some(r->0 as int),
{
    if i > s.len() || s.len() - i < lit.len() {
        return None;
    }
    let n = s.len();
    let mut m: usize = 0;
    while m < lit.len()
        invariant
            n == s@.len(),
            i + lit@.len() <= s@.len(),
            m <= lit@.len(),
            forall|k: int| 0 <= k < m ==> s@[i + k] == #[trigger] lit@[k],
        decreases lit@.len() - m,
    {
        if s[i + m] != lit[m] {
            proof {
                assert(s@.subrange(i as int, i + lit@.len())[m as int] == s@[i + m]);
            }
            return None;
        }
        m += 1;
    }
    proof {
        assert(s@.subrange(i as int, i + lit@.len() as int) =~= lit@);
    }
    Some(i + lit.len())
}

fn parse_u16_exec(s: &Vec<char>, i: usize) -> (r: Option<(u16, usize)>)
    ensures
        r is None ==> parse_u16(s@, i as int) is None,
        r is Some ==> parse_u16(s@, i as int) == Some(((r->0).0 as int, (r->0).1 as int)),
{
    let n = s.len();
    if i >= n {
        proof {
            assert(digit_run(s@, i as int) == i as int);
        }
        return None;
    }
    let mut j: usize = i;
    while j < n && 48 <= (s[j] as u32) && (s[j] as u32) <= 57
        invariant
            i <= j <= n,
            n == s@.len(),
            forall|k: int| i <= k < j ==> is_digit(#[trigger] s@[k]),
        decreases n - j,
    {
        j += 1;
    }
    proof {
        lemma_digit_run_at(s@, i as int, j as int);
    }
    if j == i {
        return None;
    }
    let mut val: u32 = 0;
    let mut over = false;
    let mut q: usize = i;
    while q < j
        invariant
            i <= q <= j <= n,
            n == s@.len(),
            forall|k: int| i <= k < j ==> is_digit(#[trigger] s@[k]),
            !over ==> val <= 65535 && val == digits_val(s@.subrange(i as int, q as int)),
            over ==> digits_val(s@.subrange(i as int, q as int)) > 65535,
        decreases j - q,
    {
        let d = (s[q] as u32) - 48;
        proof {
            assert(s@.subrange(i as int, q + 1).drop_last() =~= s@.subrange(i as int, q as int));
            assert(s@.subrange(i as int, q + 1).last() == s@[q as int]);
        }
        if !over {
            let v2 = val * 10 + d;
            if v2 > 65535 {
                over = true;
            } else {
                val = v2;
            }
        }
        q += 1;
    }
    if over {
        None
    } else {
        proof {
            assert(s@.subrange(i as int, j as int) == s@.subrange(
                i as int,
                digit_run(s@, i as int),
            ));
        }
        Some((val as u16, j))
    }
}

fn obj_open_chars() -> (r: Vec<char>)
    ensures
        r@ =~= obj_open(),
{
    let v = vec!['{', '"', 'u', 'r', 'l', '"', ':'];
    v
}

fn obj_status_chars() -> (r: Vec<char>)
    ensures
        r@ =~= obj_status(),
{
    let v = vec![',', '"', 's', 't', 'a', 't', 'u', 's', '_', 'c', 'o', 'd', 'e', '"', ':'];
    v
}

fn obj_text_chars() -> (r: Vec<char>)
    ensures
        r@ =~= obj_text(),
{
    let v = vec![',', '"', 't', 'e', 'x', 't', '"', ':'];
    v
}

fn parse_object_exec(s: &Vec<char>, i: usize) -> (r: Option<(PartResponse, usize)>)
    ensures
        r is None ==> parse_object(s@, i as int) is None,
        r is Some ==> parse_object(s@, i as int) == Some(((r->0).0@, (r->0).1 as int)),
{
    let lit1 = obj_open_chars();
    let j1 = match expect_exec(s, i, &lit1) {
        Some(j) => j,
        None => {
            return None;
        },
    };
    let tp1 = match parse_quoted_exec(s, j1) {
        Some(t) => t,
        None => {
            return None;
        },
    };
    let (urlv, j2) = tp1;
    let lit2 = obj_status_chars();
    let j3 = match expect_exec(s, j2, &lit2) {
        Some(j) => j,
        None => {
            return None;
        },
    };
    let tp2 = match parse_u16_exec(s, j3) {
        Some(t) => t,
        None => {
            return None;
        },
    };
    let (code, j4) = tp2;
    let lit3 = obj_text_chars();
    let j5 = match expect_exec(s, j4, &lit3) {
        Some(j) => j,
        None => {
            return None;
        },
    };
    let tp3 = match parse_quoted_exec(s, j5) {
        Some(t) => t,
        None => {
            return None;
        },
    };
    let (textv, j6) = tp3;
    let lit4 = vec!['}'];
    proof {
        assert(lit4@ =~= seq!['}']);
    }
    let j7 = match expect_exec(s, j6, &lit4) {
        Some(j) => j,
        None => {
            return None;
        },
    };
    let url = chars_to_string(&urlv);
    let text = chars_to_string(&textv);
    Some((PartResponse { url, status_code: code, text }, j7))
}

fn chars_eq(a: &Vec<char>, b: &Vec<char>) -> (r: bool)
    ensures
        r == (a@ == b@),
{
    if a.len() != b.len() {
        return false;
    }
    let mut m: usize = 0;
    while m < a.len()
        invariant
            a@.len() == b@.len(),
            m <= a@.len(),
            forall|k: int| 0 <= k < m ==> a@[k] == b@[k],
        decreases a@.len() - m,
    {
        if a[m] != b[m] {
            return false;
        }
        m += 1;
    }
    proof {
        assert(a@ =~= b@);
    }
    true
}

fn parse_entry_exec(s: &Vec<char>, i: usize) -> (r: Option<(PartResponse, usize)>)
    ensures
        r is None ==> parse_entry(s@, i as int) is None,
        r is Some ==> parse_entry(s@, i as int) == Some(((r->0).0@, (r->0).1 as int)),
{
    let tp1 = match parse_quoted_exec(s, i) {
        Some(t) => t,
        None => {
            return None;
        },
    };
    let (key, j1) = tp1;
    let colon = vec![':'];
    proof {
        assert(colon@ =~= seq![':']);
    }
    let j2 = match expect_exec(s, j1, &colon) {
        Some(j) => j,
        None => {
            return None;
        },
    };
    let tp2 = match parse_object_exec(s, j2) {
        Some(t) => t,
        None => {
            return None;
        },
    };
    let (resp, j3) = tp2;
    let urlc = str_to_chars(resp.url.as_str());
    if chars_eq(&key, &urlc) {
        Some((resp, j3))
    } else {
        None
    }
}

fn parse_entries_exec(s: &Vec<char>, i: usize, fuel: usize) -> (r: Option<
    (Vec<PartResponse>, usize),
>)
    ensures
        r is None ==> parse_entries(s@, i as int, fuel as nat) is None,
        r is Some ==> parse_entries(s@, i as int, fuel as nat) == Some(
            ((r->0).0@.map_values(|p: PartResponse| p@), (r->0).1 as int),
        ),
    decreases fuel,
{
    if fuel == 0 {
        return None;
    }
    let tp = match parse_entry_exec(s, i) {
        Some(t) => t,
        None => {
            return None;
        },
    };
    let (e, j) = tp;
    if j < s.len() && s[j] == ',' {
        match parse_entries_exec(s, j + 1, fuel - 1) {
            None => None,
            Some(tp2) => {
                let (mut v, k) = tp2;
                let ghost v0 = v@;
                let ghost ev = e@;
                v.insert(0, e);
                proof {
                    assert(v@.map_values(|p: PartResponse| p@) =~= seq![ev] + v0.map_values(
                        |p: PartResponse| p@,
                    ));
                }
                Some((v, k))
            },
        }
    } else {
        let mut v: Vec<PartResponse> = Vec::new();
        let ghost ev = e@;
        v.push(e);
        proof {
            assert(v@.map_values(|p: PartResponse| p@) =~= seq![ev]);
        }
        Some((v, j))
    }
}

/// Read a persisted cache file back into entries. Only the canonical form
/// written by `encode_cache` is accepted; anything else is corrupt.
pub fn parse_cache(text: &str) -> (r: Option<Vec<PartResponse>>)
    ensures
        r is None ==> parse_cache_text(text@) is None,
        r is Some ==> parse_cache_text(text@) == Some(
            r->0@.map_values(|p: PartResponse| p@),
        ),
{
    let s = str_to_chars(text);
    let n = s.len();
    if n < 2 || s[0] != '{' {
        return None;
    }
    if n == 2 && s[1] == '}' {
        let v: Vec<PartResponse> = Vec::new();
        proof {
            assert(v@.map_values(|p: PartResponse| p@) =~= Seq::<PartResponseView>::empty());
        }
        return Some(v);
    }
    match parse_entries_exec(&s, 1, n) {
        None => None,
        Some(tp) => {
            let (v, j) = tp;
            if j == n - 1 && s[j] == '}' {
                Some(v)
            } else {
                None
            }
        },
    }
}

// ---------------------------------------------------------------------------
// The round trip: parsing an encoding yields the original entries.
// ---------------------------------------------------------------------------
proof fn lemma_split_concat(s: Seq<char>, i: int, x: Seq<char>, y: Seq<char>)
    requires
        0 <= i,
        i + x.len() + y.len() <= s.len(),
        s.subrange(i, i + x.len() + y.len()) == x + y,
    ensures
        s.subrange(i, i + x.len()) == x,
        s.subrange(i + x.len(), i + x.len() + y.len()) == y,
{
    assert forall|m: int| 0 <= m < x.len() implies s.subrange(i, i + x.len() as int)[m]
        == x[m] by {
        assert(s.subrange(i, i + x.len() + y.len())[m] == (x + y)[m]);
    }
    assert(s.subrange(i, i + x.len()) =~= x);
    assert forall|m: int| 0 <= m < y.len() implies s.subrange(
        i + x.len(),
        i + x.len() + y.len(),
    )[m] == y[m] by {
        assert(s.subrange(i, i + x.len() + y.len())[x.len() + m] == (x + y)[x.len() + m]);
        assert(s.subrange(i, i + x.len() + y.len())[x.len() + m] == s[i + x.len() + m]);
        assert((x + y)[x.len() + m] == y[m]);
        assert(s.subrange(i + x.len(), i + x.len() + y.len())[m] == s[i + x.len() + m]);
    }
    assert(s.subrange(i + x.len(), i + x.len() + y.len()) =~= y);
}

proof fn lemma_digit_char_facts(d: int)
    requires
        0 <= d < 10,
    ensures
        is_digit(crate::text::spec_digit_char(d)),
        digit_val(crate::text::spec_digit_char(d)) == d,
{
}

proof fn lemma_hex_digit_facts(d: int)
    requires
        0 <= d < 16,
    ensures
        is_hex(spec_hex_digit(d)),
        hex_val(spec_hex_digit(d)) == d,
{
}

proof fn lemma_digits_shape(n: int)
    requires
        0 <= n,
    ensures
        spec_digits(n).len() >= 1,
        forall|k: int| 0 <= k < spec_digits(n).len() ==> is_digit(#[trigger] spec_digits(n)[k]),
    decreases n,
{
    if n < 10 {
        lemma_digit_char_facts(n);
    } else {
        lemma_digits_shape(n / 10);
        lemma_digit_char_facts(n % 10);
    }
}

proof fn lemma_digits_val_of(n: int)
    requires
        0 <= n,
    ensures
        digits_val(spec_digits(n)) == n,
    decreases n,
{
    assert(digits_val(Seq::<char>::empty()) == 0);
    if n < 10 {
        lemma_digit_char_facts(n);
        assert(spec_digits(n).last() == crate::text::spec_digit_char(n));
        assert(spec_digits(n).drop_last() =~= Seq::<char>::empty());
        assert(digits_val(spec_digits(n)) == digits_val(Seq::<char>::empty()) * 10 + digit_val(
            spec_digits(n).last(),
        ));
    } else {
        lemma_digits_val_of(n / 10);
        lemma_digit_char_facts(n % 10);
        assert(spec_digits(n).last() == crate::text::spec_digit_char(n % 10));
        assert(spec_digits(n).drop_last() =~= spec_digits(n / 10));
        assert(digits_val(spec_digits(n)) == digits_val(spec_digits(n / 10)) * 10 + digit_val(
            spec_digits(n).last(),
        ));
        assert(10 * (n / 10) + n % 10 == n);
    }
}

proof fn lemma_digit_run_at(s: Seq<char>, i: int, j: int)
    requires
        0 <= i <= j <= s.len(),
        forall|m: int| i <= m < j ==> is_digit(#[trigger] s[m]),
        j == s.len() || !is_digit(s[j]),
    ensures
        digit_run(s, i) == j,
    decreases j - i,
{
    if i < j {
        lemma_digit_run_at(s, i + 1, j);
    }
}

proof fn lemma_parse_u16_of(s: Seq<char>, i: int, n: u16)
    requires
        0 <= i,
        i + spec_digits(n as int).len() < s.len(),
        s.subrange(i, i + spec_digits(n as int).len()) == spec_digits(n as int),
        !is_digit(s[i + spec_digits(n as int).len()]),
    ensures
        parse_u16(s, i) == Some((n as int, i + spec_digits(n as int).len())),
{
    let ds = spec_digits(n as int);
    lemma_digits_shape(n as int);
    assert forall|m: int| i <= m < i + ds.len() implies is_digit(#[trigger] s[m]) by {
        assert(s.subrange(i, i + ds.len() as int)[m - i] == s[m]);
        assert(is_digit(ds[m - i]));
    }
    lemma_digit_run_at(s, i, i + ds.len());
    lemma_digits_val_of(n as int);
    assert(s.subrange(i, digit_run(s, i)) == ds);
}

proof fn lemma_parse_body_of_escape(s: Seq<char>, i: int, t: Seq<char>)
    requires
        0 <= i,
        i + escape_string(t).len() + 1 <= s.len(),
        s.subrange(i, i + escape_string(t).len()) == escape_string(t),
        s[i + escape_string(t).len()] == '"',
    ensures
        parse_string_body(s, i) == Some((t, i + escape_string(t).len() + 1)),
    decreases t.len(),
{
    if t.len() == 0 {
        assert(s[i] == '"');
    } else {
        let c = t[0];
        let e = escape_char(c);
        let rest = escape_string(t.drop_first());
        assert(escape_string(t) == e + rest);
        lemma_split_concat(s, i, e, rest);
        let k = e.len() as int;
        assert forall|m: int| 0 <= m < k implies s[i + m] == e[m] by {
            assert(s.subrange(i, i + k)[m] == s[i + m]);
        }
        lemma_parse_body_of_escape(s, i + k, t.drop_first());
        if c == '"' || c == '\\' || c == '\n' || c == '\r' || c == '\t' {
            assert(k == 2);
            assert(s[i + 0] == e[0] && s[i + 1] == e[1]);
            assert(s[i] == '\\');
            assert(decode_esc(s[i + 1]) == Some(c));
            assert(seq![c] + t.drop_first() =~= t);
        } else if (c as u32) < 32 {
            assert(k == 6);
            assert(s[i + 0] == e[0] && s[i + 1] == e[1] && s[i + 2] == e[2] && s[i + 3] == e[3]
                && s[i + 4] == e[4] && s[i + 5] == e[5]);
            assert(s[i] == '\\' && s[i + 1] == 'u' && s[i + 2] == '0' && s[i + 3] == '0');
            let u = (c as u32) as int;
            lemma_hex_digit_facts(u / 16);
            lemma_hex_digit_facts(u % 16);
            assert(16 * hex_val(s[i + 4]) + hex_val(s[i + 5]) == u);
            assert((u as u32) == c as u32);
            vstd::utf8::char_u32_cast(c, c as u32);
            assert(((16 * hex_val(s[i + 4]) + hex_val(s[i + 5])) as u32) as char == c);
            assert(seq![c] + t.drop_first() =~= t);
        } else {
            assert(k == 1);
            assert(s[i + 0] == e[0]);
            assert(s[i] == c);
            assert(s[i] != '"' && s[i] != '\\');
            assert(seq![c] + t.drop_first() =~= t);
        }
    }
}

proof fn lemma_parse_quoted_of(s: Seq<char>, i: int, t: Seq<char>)
    requires
        0 <= i,
        i + quoted(t).len() <= s.len(),
        s.subrange(i, i + quoted(t).len()) == quoted(t),
    ensures
        parse_quoted(s, i) == Some((t, i + quoted(t).len())),
{
    let esc = escape_string(t);
    assert(quoted(t) =~= seq!['"'] + (esc + seq!['"']));
    lemma_split_concat(s, i, seq!['"'], esc + seq!['"']);
    assert(s[i] == '"') by {
        assert(s.subrange(i, i + 1)[0] == s[i + 0]);
    }
    lemma_split_concat(s, i + 1, esc, seq!['"']);
    assert(s[i + 1 + esc.len()] == '"') by {
        assert(s.subrange(i + 1 + esc.len(), i + 1 + esc.len() + 1)[0] == s[i + 1 + esc.len()
            + 0]);
    }
    lemma_parse_body_of_escape(s, i + 1, t);
}

proof fn lemma_parse_object_of(s: Seq<char>, i: int, e: PartResponseView)
    requires
        0 <= i,
        i + encode_object(e).len() <= s.len(),
        s.subrange(i, i + encode_object(e).len()) == encode_object(e),
    ensures
        parse_object(s, i) == Some((e, i + encode_object(e).len())),
{
    let ds = spec_digits(e.status_code as int);
    let p1 = quoted(e.url) + (obj_status() + (ds + (obj_text() + (quoted(e.text) + seq!['}']))));
    let p2 = obj_status() + (ds + (obj_text() + (quoted(e.text) + seq!['}'])));
    let p3 = ds + (obj_text() + (quoted(e.text) + seq!['}']));
    let p4 = obj_text() + (quoted(e.text) + seq!['}']);
    let p5 = quoted(e.text) + seq!['}'];
    lemma_split_concat(s, i, obj_open(), p1);
    let j1 = i + obj_open().len();
    assert(expect(s, i, obj_open()) == Some(j1));
    lemma_split_concat(s, j1, quoted(e.url), p2);
    lemma_parse_quoted_of(s, j1, e.url);
    let j2 = j1 + quoted(e.url).len();
    lemma_split_concat(s, j2, obj_status(), p3);
    assert(expect(s, j2, obj_status()) == Some(j2 + obj_status().len()));
    let j3 = j2 + obj_status().len();
    lemma_split_concat(s, j3, ds, p4);
    assert(s[j3 + ds.len()] == ',') by {
        assert(s.subrange(j3 + ds.len(), j3 + ds.len() + p4.len())[0] == ',');
    }
    lemma_parse_u16_of(s, j3, e.status_code);
    let j4 = j3 + ds.len();
    lemma_split_concat(s, j4, obj_text(), p5);
    assert(expect(s, j4, obj_text()) == Some(j4 + obj_text().len()));
    let j5 = j4 + obj_text().len();
    lemma_split_concat(s, j5, quoted(e.text), seq!['}']);
    lemma_parse_quoted_of(s, j5, e.text);
    let j6 = j5 + quoted(e.text).len();
    assert(expect(s, j6, seq!['}']) == Some(j6 + 1)) by {
        assert(s.subrange(j6, j6 + 1) == seq!['}']);
    }
    assert(parse_object(s, i) == Some((e, j6 + 1)));
}

proof fn lemma_parse_entry_of(s: Seq<char>, i: int, e: PartResponseView)
    requires
        0 <= i,
        i + encode_entry(e).len() <= s.len(),
        s.subrange(i, i + encode_entry(e).len()) == encode_entry(e),
    ensures
        parse_entry(s, i) == Some((e, i + encode_entry(e).len())),
{
    let p1 = seq![':'] + encode_object(e);
    lemma_split_concat(s, i, quoted(e.url), p1);
    lemma_parse_quoted_of(s, i, e.url);
    let j1 = i + quoted(e.url).len();
    lemma_split_concat(s, j1, seq![':'], encode_object(e));
    assert(expect(s, j1, seq![':']) == Some(j1 + 1));
    lemma_parse_object_of(s, j1 + 1, e);
}

proof fn lemma_entries_len(es: Seq<PartResponseView>)
    ensures
        encode_entries(es).len() >= es.len(),
    decreases es.len(),
{
    if es.len() > 1 {
        lemma_entries_len(es.drop_first());
    }
}

proof fn lemma_parse_entries_of(s: Seq<char>, i: int, es: Seq<PartResponseView>, fuel: nat)
    requires
        0 <= i,
        es.len() >= 1,
        fuel >= es.len(),
        i + encode_entries(es).len() < s.len(),
        s.subrange(i, i + encode_entries(es).len()) == encode_entries(es),
        s[i + encode_entries(es).len()] == '}',
    ensures
        parse_entries(s, i, fuel) == Some((es, i + encode_entries(es).len())),
    decreases es.len(),
{
    if es.len() == 1 {
        lemma_parse_entry_of(s, i, es[0]);
        let j = i + encode_entry(es[0]).len();
        assert(s[j] == '}');
        assert(seq![es[0]] =~= es);
    } else {
        let e0 = encode_entry(es[0]);
        let rest = seq![','] + encode_entries(es.drop_first());
        lemma_split_concat(s, i, e0, rest);
        lemma_parse_entry_of(s, i, es[0]);
        let j = i + e0.len();
        assert(s[j] == ',') by {
            assert(s.subrange(j, j + rest.len())[0] == ',');
        }
        lemma_split_concat(s, j, seq![','], encode_entries(es.drop_first()));
        lemma_parse_entries_of(s, j + 1, es.drop_first(), (fuel - 1) as nat);
        assert(seq![es[0]] + es.drop_first() =~= es);
    }
}

/// Law: the cache round-trips through its persistent form. Parsing the
/// serialized cache reproduces every entry, byte for byte.
pub proof fn lemma_cache_round_trip(es: Seq<PartResponseView>)
    ensures
        parse_cache_text(encode_cache_text(es)) == Some(es),
{
    let s = encode_cache_text(es);
    if es.len() == 0 {
        assert(encode_entries(es) =~= Seq::<char>::empty());
        assert(s =~= seq!['{', '}']);
        assert(parse_cache_text(s) == Some(Seq::<PartResponseView>::empty()));
        assert(Seq::<PartResponseView>::empty() =~= es);
    } else {
        let ee = encode_entries(es);
        lemma_entries_len(es);
        assert(s.len() == ee.len() + 2);
        assert(s[0] == '{');
        assert(s[s.len() - 1] == '}');
        assert(s.subrange(1, 1 + ee.len() as int) =~= ee);
        lemma_parse_entries_of(s, 1, es, s.len() as nat);
    }
}

} // verus!
