//! Response normalization: a raw body is pretty-printed as JSON (through
//! serde_json, behind a trusted wrapper) and then redacted line by line —
//! every line containing one of the configured redaction terms is dropped,
//! the survivors keep their relative order and are rejoined with newlines.

use vstd::prelude::*;

use crate::text::{chars_to_string, str_to_chars};

verus! {

/// Why a body could not be normalized.
#[derive(Clone, Copy, Debug, PartialEq, Eq, Structural)]
pub enum NormalizeError {
    /// The response's content type is not `application/json`.
    UnsupportedContentType,
    /// The body is not valid JSON.
    MalformedBody,
}

/// `pat` occurs contiguously somewhere in `hay` (the empty pattern occurs
/// everywhere, as with `str::contains`).
pub open spec fn contains_sub(hay: Seq<char>, pat: Seq<char>) -> bool {
    exists|k: int| 0 <= k && k + pat.len() <= hay.len() && #[trigger] hay.subrange(k, k + pat.len()) == pat
}

/// A line survives redaction when it contains none of the redaction terms.
pub open spec fn keep_line(line: Seq<char>, reds: Seq<Seq<char>>) -> bool {
    forall|i: int| 0 <= i < reds.len() ==> !contains_sub(line, #[trigger] reds[i])
}

/// Index of the first newline in `s`, or `s.len()` if there is none.
pub open spec fn first_newline(s: Seq<char>) -> int
    decreases s.len(),
{
    if s.len() == 0 {
        0
    } else if s[0] == '\n' {
        0
    } else {
        1 + first_newline(s.drop_first())
    }
}

/// One trailing carriage return is not part of a line's content.
pub open spec fn strip_cr(l: Seq<char>) -> Seq<char> {
    if l.len() > 0 && l[l.len() - 1] == '\r' {
        l.drop_last()
    } else {
        l
    }
}

/// The lines of `s`, split at newlines, with an optional final line ending,
/// as `str::lines` splits them.
pub open spec fn split_lines(s: Seq<char>) -> Seq<Seq<char>>
    decreases s.len(),
{
    if s.len() == 0 {
        Seq::empty()
    } else {
        let i = first_newline(s);
        if 0 <= i < s.len() {
            seq![strip_cr(s.subrange(0, i))] + split_lines(s.subrange(i + 1, s.len() as int))
        } else {
            seq![strip_cr(s)]
        }
    }
}

/// The lines joined with single newline separators (no trailing newline).
pub open spec fn join_lines(ls: Seq<Seq<char>>) -> Seq<char>
    decreases ls.len(),
{
    if ls.len() == 0 {
        Seq::empty()
    } else if ls.len() == 1 {
        ls[0]
    } else {
        ls[0] + seq!['\n'] + join_lines(ls.drop_first())
    }
}

/// The surviving lines, in their original order.
pub open spec fn filter_lines(ls: Seq<Seq<char>>, reds: Seq<Seq<char>>) -> Seq<Seq<char>>
    decreases ls.len(),
{
    if ls.len() == 0 {
        Seq::empty()
    } else {
        let rest = filter_lines(ls.drop_first(), reds);
        if keep_line(ls[0], reds) {
            seq![ls[0]] + rest
        } else {
            rest
        }
    }
}

/// The whole redaction pass over a body; an empty redaction list is a
/// strict no-op pass-through.
pub open spec fn apply_redactions(text: Seq<char>, reds: Seq<Seq<char>>) -> Seq<char> {
    if reds.len() == 0 {
        text
    } else {
        join_lines(filter_lines(split_lines(text), reds))
    }
}

proof fn lemma_first_newline_at(s: Seq<char>, j: int)
    requires
        0 <= j <= s.len(),
        forall|m: int| 0 <= m < j ==> s[m] != '\n',
        j < s.len() ==> s[j] == '\n',
    ensures
        first_newline(s) == j,
    decreases s.len(),
{
    if s.len() == 0 {
    } else if s[0] == '\n' {
    } else {
        lemma_first_newline_at(s.drop_first(), j - 1);
    }
}

proof fn lemma_filter_push(ls: Seq<Seq<char>>, x: Seq<char>, reds: Seq<Seq<char>>)
    ensures
        keep_line(x, reds) ==> filter_lines(ls.push(x), reds) =~~= filter_lines(ls, reds).push(x),
        !keep_line(x, reds) ==> filter_lines(ls.push(x), reds) =~~= filter_lines(ls, reds),
    decreases ls.len(),
{
    if ls.len() == 0 {
        assert(ls.push(x)[0] == x);
        assert(ls.push(x).drop_first() =~~= Seq::<Seq<char>>::empty());
        assert(filter_lines(ls.push(x).drop_first(), reds) =~~= Seq::<Seq<char>>::empty());
        if keep_line(x, reds) {
            assert(filter_lines(ls.push(x), reds) =~~= seq![x]);
            assert(filter_lines(ls, reds).push(x) =~~= seq![x]);
        } else {
            assert(filter_lines(ls.push(x), reds) =~~= Seq::<Seq<char>>::empty());
        }
    } else {
        assert(ls.push(x)[0] == ls[0]);
        assert(ls.push(x).drop_first() =~~= ls.drop_first().push(x));
        assert(filter_lines(ls.push(x).drop_first(), reds) == filter_lines(
            ls.drop_first().push(x),
            reds,
        ));
        lemma_filter_push(ls.drop_first(), x, reds);
        if keep_line(ls[0], reds) {
            if keep_line(x, reds) {
                assert(filter_lines(ls.push(x), reds) =~~= seq![ls[0]] + filter_lines(
                    ls.drop_first(),
                    reds,
                ).push(x));
                assert(seq![ls[0]] + filter_lines(ls.drop_first(), reds).push(x) =~~= (seq![ls[0]]
                    + filter_lines(ls.drop_first(), reds)).push(x));
            } else {
                assert(filter_lines(ls.push(x), reds) =~~= seq![ls[0]] + filter_lines(
                    ls.drop_first(),
                    reds,
                ));
            }
        }
    }
}

proof fn lemma_join_push(ls: Seq<Seq<char>>, x: Seq<char>)
    ensures
        ls.len() == 0 ==> join_lines(ls.push(x)) =~= x,
        ls.len() > 0 ==> join_lines(ls.push(x)) =~= join_lines(ls) + seq!['\n'] + x,
    decreases ls.len(),
{
    if ls.len() == 0 {
        assert(ls.push(x)[0] =~= x);
    } else {
        assert(ls.push(x).drop_first() =~~= ls.drop_first().push(x));
        lemma_join_push(ls.drop_first(), x);
        if ls.len() == 1 {
            assert(join_lines(ls) =~= ls[0]);
        }
    }
}

/// The indices of the lines that survive redaction, in increasing order.
pub open spec fn kept_indices(ls: Seq<Seq<char>>, reds: Seq<Seq<char>>) -> Seq<int>
    decreases ls.len(),
{
    if ls.len() == 0 {
        Seq::empty()
    } else {
        let rest = kept_indices(ls.drop_first(), reds).map_values(|k: int| k + 1);
        if keep_line(ls[0], reds) {
            seq![0int] + rest
        } else {
            rest
        }
    }
}

/// Law: redaction preserves order. The surviving lines are exactly the lines
/// at `kept_indices`, a strictly increasing list of positions of the
/// original — filtering never reorders what it keeps — and every line that
/// no redaction term matches has its position in that list.
pub proof fn lemma_redaction_preserves_order(ls: Seq<Seq<char>>, reds: Seq<Seq<char>>)
    ensures
        kept_indices(ls, reds).len() == filter_lines(ls, reds).len(),
        forall|a: int, b: int|
            0 <= a < b < kept_indices(ls, reds).len() ==> #[trigger] kept_indices(ls, reds)[a]
                < #[trigger] kept_indices(ls, reds)[b],
        forall|a: int|
            0 <= a < kept_indices(ls, reds).len() ==> 0 <= #[trigger] kept_indices(ls, reds)[a]
                < ls.len() && filter_lines(ls, reds)[a] == ls[kept_indices(ls, reds)[a]]
                && keep_line(ls[kept_indices(ls, reds)[a]], reds),
        forall|i: int|
            0 <= i < ls.len() && keep_line(#[trigger] ls[i], reds) ==> kept_indices(
                ls,
                reds,
            ).contains(i),
    decreases ls.len(),
{
    if ls.len() == 0 {
    } else {
        lemma_redaction_preserves_order(ls.drop_first(), reds);
        let ks0 = kept_indices(ls.drop_first(), reds);
        let rest = ks0.map_values(|k: int| k + 1);
        assert(forall|a: int| 0 <= a < rest.len() ==> #[trigger] rest[a] == ks0[a] + 1);
        assert(forall|a: int|
            0 <= a < ls.drop_first().len() ==> #[trigger] ls.drop_first()[a] == ls[a + 1]);
        assert forall|i: int|
            0 <= i < ls.len() && keep_line(#[trigger] ls[i], reds) implies kept_indices(
            ls,
            reds,
        ).contains(i) by {
            let ks = kept_indices(ls, reds);
            if i == 0 {
                assert(keep_line(ls[0], reds));
                assert(ks[0] == 0);
                assert(ks.contains(0));
            } else {
                assert(ls.drop_first()[i - 1] == ls[i]);
                assert(ks0.contains(i - 1));
                let a = choose|a: int| 0 <= a < ks0.len() && ks0[a] == i - 1;
                assert(rest[a] == i);
                if keep_line(ls[0], reds) {
                    assert(ks[a + 1] == rest[a]);
                } else {
                    assert(ks[a] == rest[a]);
                }
                assert(ks.contains(i));
            }
        }
    }
}

/// Law: a redaction term that matches no line is a no-op — adding it to the
/// redaction list leaves the filtered lines unchanged.
pub proof fn lemma_redaction_noop(ls: Seq<Seq<char>>, reds: Seq<Seq<char>>, t: Seq<char>)
    requires
        forall|i: int| 0 <= i < ls.len() ==> !contains_sub(#[trigger] ls[i], t),
    ensures
        filter_lines(ls, reds.push(t)) =~~= filter_lines(ls, reds),
    decreases ls.len(),
{
    if ls.len() == 0 {
    } else {
        lemma_redaction_noop(ls.drop_first(), reds, t);
        assert(keep_line(ls[0], reds.push(t)) == keep_line(ls[0], reds)) by {
            if keep_line(ls[0], reds) {
                assert forall|i: int| 0 <= i < reds.push(t).len() implies !contains_sub(
                    ls[0],
                    #[trigger] reds.push(t)[i],
                ) by {
                    if i < reds.len() {
                        assert(reds.push(t)[i] == reds[i]);
                    } else {
                        assert(reds.push(t)[i] == t);
                    }
                }
            } else {
                let i = choose|i: int|
                    0 <= i < reds.len() && contains_sub(ls[0], #[trigger] reds[i]);
                assert(reds.push(t)[i] == reds[i]);
            }
        }
    }
}

fn match_at(hay: &Vec<char>, pat: &Vec<char>, k: usize) -> (r: bool)
    requires
        k + pat@.len() <= hay@.len(),
    ensures
        r <==> hay@.subrange(k as int, k + pat@.len()) == pat@,
{
    let hn = hay.len();
    let mut j: usize = 0;
    while j < pat.len()
        invariant
            hn == hay@.len(),
            k + pat@.len() <= hay@.len(),
            j <= pat@.len(),
            forall|m: int| 0 <= m < j ==> hay@[k + m] == pat@[m],
        decreases pat@.len() - j,
    {
        if hay[k + j] != pat[j] {
            assert(hay@.subrange(k as int, k + pat@.len())[j as int] == hay@[k + j]);
            return false;
        }
        j += 1;
    }
    assert(hay@.subrange(k as int, k + pat@.len()) =~= pat@);
    true
}

fn contains_chars(hay: &Vec<char>, pat: &Vec<char>) -> (r: bool)
    ensures
        r == contains_sub(hay@, pat@),
{
    if pat.len() > hay.len() {
        return false;
    }
    if pat.len() == 0 {
        proof {
            assert(hay@.subrange(0, 0 + pat@.len() as int) =~= pat@);
        }
        return true;
    }
    let hn = hay.len();
    let end = hay.len() - pat.len();
    let mut k: usize = 0;
    while k <= end
        invariant
            hn == hay@.len(),
            1 <= pat@.len() <= hay@.len(),
            end == hay@.len() - pat@.len(),
            k <= end + 1,
            forall|k2: int|
                0 <= k2 < k ==> #[trigger] hay@.subrange(k2, k2 + pat@.len()) != pat@,
        decreases end + 1 - k,
    {
        if match_at(hay, pat, k) {
            return true;
        }
        k += 1;
    }
    false
}

/// A fresh copy of a row of characters.
fn duplicate_row(row: &Vec<char>) -> (r: Vec<char>)
    ensures
        r@ =~= row@,
{
    let mut r: Vec<char> = Vec::new();
    let mut q: usize = 0;
    while q < row.len()
        invariant
            q <= row@.len(),
            r@ =~= row@.subrange(0, q as int),
        decreases row@.len() - q,
    {
        r.push(row[q]);
        q += 1;
    }
    r
}

/// The redaction terms as rows of characters.
fn strings_to_rows(list: &Vec<String>) -> (r: Vec<Vec<char>>)
    ensures
        r.deep_view() =~~= list.deep_view(),
{
    let mut r: Vec<Vec<char>> = Vec::new();
    let mut i: usize = 0;
    while i < list.len()
        invariant
            i <= list@.len(),
            r.deep_view() =~~= list.deep_view().subrange(0, i as int),
        decreases list@.len() - i,
    {
        let ghost old_r = r.deep_view();
        let row = str_to_chars(list[i].as_str());
        r.push(row);
        proof {
            assert(r.deep_view() =~~= old_r.push(row@));
            assert(list.deep_view().subrange(0, i + 1) =~~= list.deep_view().subrange(
                0,
                i as int,
            ).push(list.deep_view()[i as int]));
            assert(row@ == list.deep_view()[i as int]);
        }
        i += 1;
    }
    proof {
        assert(list.deep_view().subrange(0, list.deep_view().len() as int) =~~= list.deep_view());
    }
    r
}

fn keep_row(row: &Vec<char>, reds: &Vec<Vec<char>>) -> (r: bool)
    ensures
        r == keep_line(row@, reds.deep_view()),
{
    let mut i: usize = 0;
    while i < reds.len()
        invariant
            i <= reds@.len(),
            forall|j: int| 0 <= j < i ==> !contains_sub(row@, #[trigger] reds.deep_view()[j]),
        decreases reds@.len() - i,
    {
        let hit = contains_chars(row, &reds[i]);
        proof {
            assert(reds.deep_view()[i as int] == reds@[i as int]@);
        }
        if hit {
            return false;
        }
        i += 1;
    }
    true
}

/// True when the line survives: it contains none of the redaction terms.
pub fn ignore_line(line: &str, ignore_lines: &Vec<String>) -> (r: bool)
    ensures
        r == keep_line(line@, ignore_lines.deep_view()),
{
    let row = str_to_chars(line);
    let reds = strings_to_rows(ignore_lines);
    keep_row(&row, &reds)
}

fn split_lines_exec(chars: &Vec<char>) -> (r: Vec<Vec<char>>)
    ensures
        r.deep_view() =~~= split_lines(chars@),
{
    let n = chars.len();
    let mut out: Vec<Vec<char>> = Vec::new();
    let mut p: usize = 0;
    proof {
        assert(chars@.subrange(0, n as int) =~= chars@);
    }
    while p < n
        invariant
            p <= n,
            n == chars@.len(),
            out.deep_view() + split_lines(chars@.subrange(p as int, n as int)) =~~= split_lines(
                chars@,
            ),
        decreases n - p,
    {
        let ghost suffix = chars@.subrange(p as int, n as int);
        let mut j: usize = p;
        while j < n && chars[j] != '\n'
            invariant
                p <= j <= n,
                n == chars@.len(),
                forall|m: int| p <= m < j ==> chars@[m] != '\n',
            decreases n - j,
        {
            j += 1;
        }
        proof {
            lemma_first_newline_at(suffix, j - p);
        }
        let endi = if j > p && chars[j - 1] == '\r' {
            j - 1
        } else {
            j
        };
        let mut line: Vec<char> = Vec::new();
        let mut q: usize = p;
        while q < endi
            invariant
                p <= q <= endi <= n,
                n == chars@.len(),
                line@ =~= chars@.subrange(p as int, q as int),
            decreases endi - q,
        {
            line.push(chars[q]);
            q += 1;
        }
        proof {
            assert(line@ =~= chars@.subrange(p as int, endi as int));
            assert(suffix.subrange(0, j - p) =~= chars@.subrange(p as int, j as int));
            if j > p && chars@[j - 1] == '\r' {
                assert(suffix.subrange(0, j - p).drop_last() =~= chars@.subrange(
                    p as int,
                    j - 1,
                ));
            }
            assert(strip_cr(suffix.subrange(0, j - p)) =~= line@);
        }
        let ghost old_out = out.deep_view();
        out.push(line);
        proof {
            assert(out.deep_view() =~~= old_out.push(line@));
            if j < n {
                assert(suffix.subrange(j - p + 1, suffix.len() as int) =~= chars@.subrange(
                    j + 1,
                    n as int,
                ));
                assert(split_lines(suffix) =~~= seq![line@] + split_lines(
                    chars@.subrange(j + 1, n as int),
                ));
                assert(old_out.push(line@) + split_lines(chars@.subrange(j + 1, n as int))
                    =~~= old_out + split_lines(suffix));
            } else {
                assert(first_newline(suffix) == suffix.len());
                assert(suffix.subrange(0, j - p) =~= suffix);
                assert(strip_cr(suffix) =~= line@);
                assert(split_lines(suffix) =~~= seq![strip_cr(suffix)]);
                assert(chars@.subrange(n as int, n as int) =~= Seq::<char>::empty());
                assert(old_out.push(line@) + split_lines(chars@.subrange(n as int, n as int))
                    =~~= old_out + split_lines(suffix));
            }
        }
        p = if j < n {
            j + 1
        } else {
            n
        };
    }
    proof {
        assert(chars@.subrange(n as int, n as int) =~= Seq::<char>::empty());
        assert(out.deep_view() + Seq::<Seq<char>>::empty() =~~= out.deep_view());
    }
    out
}

fn filter_lines_exec(ls: &Vec<Vec<char>>, reds: &Vec<Vec<char>>) -> (r: Vec<Vec<char>>)
    ensures
        r.deep_view() =~~= filter_lines(ls.deep_view(), reds.deep_view()),
{
    let mut out: Vec<Vec<char>> = Vec::new();
    let mut i: usize = 0;
    while i < ls.len()
        invariant
            i <= ls@.len(),
            out.deep_view() =~~= filter_lines(
                ls.deep_view().subrange(0, i as int),
                reds.deep_view(),
            ),
        decreases ls@.len() - i,
    {
        let ghost prefix = ls.deep_view().subrange(0, i as int);
        let keep = keep_row(&ls[i], reds);
        proof {
            assert(ls.deep_view()[i as int] == ls@[i as int]@);
            lemma_filter_push(prefix, ls.deep_view()[i as int], reds.deep_view());
            assert(ls.deep_view().subrange(0, i + 1) =~~= prefix.push(ls.deep_view()[i as int]));
        }
        if keep {
            let ghost old_out = out.deep_view();
            let row = duplicate_row(&ls[i]);
            out.push(row);
            proof {
                assert(out.deep_view() =~~= old_out.push(row@));
            }
        }
        i += 1;
    }
    proof {
        assert(ls.deep_view().subrange(0, ls.deep_view().len() as int) =~~= ls.deep_view());
    }
    out
}

fn join_lines_exec(ls: &Vec<Vec<char>>) -> (r: Vec<char>)
    ensures
        r@ =~= join_lines(ls.deep_view()),
{
    let mut out: Vec<char> = Vec::new();
    let mut i: usize = 0;
    while i < ls.len()
        invariant
            i <= ls@.len(),
            out@ =~= join_lines(ls.deep_view().subrange(0, i as int)),
        decreases ls@.len() - i,
    {
        let ghost prefix = ls.deep_view().subrange(0, i as int);
        if i > 0 {
            out.push('\n');
        }
        let row = &ls[i];
        let ghost mid = out@;
        let mut q: usize = 0;
        while q < row.len()
            invariant
                q <= row@.len(),
                out@ =~= mid + row@.subrange(0, q as int),
            decreases row@.len() - q,
        {
            out.push(row[q]);
            q += 1;
        }
        proof {
            lemma_join_push(prefix, ls.deep_view()[i as int]);
            assert(ls.deep_view().subrange(0, i + 1) =~~= prefix.push(ls.deep_view()[i as int]));
            assert(row@.subrange(0, row@.len() as int) =~= row@);
        }
        i += 1;
    }
    proof {
        assert(ls.deep_view().subrange(0, ls.deep_view().len() as int) =~~= ls.deep_view());
    }
    out
}

/// Drop every line of `text` that contains one of the `ignore_list` terms;
/// survivors keep their order and are rejoined with newlines.
pub fn filter(text: &str, ignore_list: &Vec<String>) -> (r: String)
    ensures
        r@ == join_lines(filter_lines(split_lines(text@), ignore_list.deep_view())),
{
    let chars = str_to_chars(text);
    let lines = split_lines_exec(&chars);
    let reds = strings_to_rows(ignore_list);
    let kept = filter_lines_exec(&lines, &reds);
    let joined = join_lines_exec(&kept);
    chars_to_string(&joined)
}

/// Whether serde_json parses this text as JSON.
pub uninterp spec fn json_valid(s: Seq<char>) -> bool;

/// The pretty-printed form serde_json gives a valid JSON text.
pub uninterp spec fn json_pretty(s: Seq<char>) -> Seq<char>;

/// Relies on `serde_json::from_str::<Value>`, which succeeds exactly on valid
/// JSON text and yields a value determined by the text alone, and on
/// `serde_json::to_string_pretty`, which renders that value deterministically
/// and never fails on a `Value` (every key is a string). Object keys come out
/// in the order the text gave them — serde_json is built with its
/// `preserve_order` feature, so no re-sorting hides a real field-order
/// difference between two responses. Because serde_json's text form
/// round-trips (`from_str` of `to_string_pretty`'s output returns the same
/// value), pretty-printing already-pretty text returns it unchanged: the
/// output is valid JSON and a fixed point of this formatter.
#[verifier::external_body]
fn json_pretty_format(text: &str) -> (r: Result<String, NormalizeError>)
    ensures
        r is Ok <==> json_valid(text@),
        r is Err ==> r->Err_0 == NormalizeError::MalformedBody,
        r is Ok ==> r->Ok_0@ == json_pretty(text@),
        r is Ok ==> json_valid(r->Ok_0@) && json_pretty(r->Ok_0@) == r->Ok_0@,
{
    match serde_json::from_str::<serde_json::Value>(text) {
        Ok(value) => match serde_json::to_string_pretty(&value) {
            Ok(s) => Ok(s),
            Err(_) => Err(NormalizeError::MalformedBody),
        },
        Err(_) => Err(NormalizeError::MalformedBody),
    }
}

/// The content type names JSON: it starts with `application/json`.
pub open spec fn is_json_content_type(ct: Seq<char>) -> bool {
    ct.len() >= 16 && ct.subrange(0, 16) == "application/json"@
}

pub fn content_type_is_json(ct: &str) -> (r: bool)
    ensures
        r == is_json_content_type(ct@),
{
    let pat = str_to_chars("application/json");
    proof {
        reveal_strlit("application/json");
    }
    let cc = str_to_chars(ct);
    if cc.len() < pat.len() {
        return false;
    }
    match_at(&cc, &pat, 0)
}

/// Turn a raw body into its comparable text form: JSON bodies are
/// pretty-printed and then redacted; anything else is refused.
///
/// Normalization is stable: with no redactions the result is a fixed point of
/// the formatter (the last clause below), so a second call on that result is
/// bound by this same contract to return it unchanged. The law rides on
/// every call's contract because the formatter is only named, never defined
/// here: a free-standing quantified lemma about `json_pretty` would be an
/// axiom about the outside formatter, which nothing in this crate may
/// assume.
pub fn normalize(body: &str, content_type: &str, redactions: &Vec<String>) -> (r: Result<
    String,
    NormalizeError,
>)
    ensures
        r is Ok <==> (is_json_content_type(content_type@) && json_valid(body@)),
        !is_json_content_type(content_type@) ==> r == Err::<String, NormalizeError>(
            NormalizeError::UnsupportedContentType,
        ),
        is_json_content_type(content_type@) && !json_valid(body@) ==> r == Err::<
            String,
            NormalizeError,
        >(NormalizeError::MalformedBody),
        r is Ok ==> r->Ok_0@ == apply_redactions(json_pretty(body@), redactions.deep_view()),
        r is Ok && redactions@.len() == 0 ==> r->Ok_0@ == json_pretty(body@) && json_valid(
            r->Ok_0@,
        ) && json_pretty(r->Ok_0@) == r->Ok_0@,
{
    if !content_type_is_json(content_type) {
        return Err(NormalizeError::UnsupportedContentType);
    }
    match json_pretty_format(body) {
        Err(e) => Err(e),
        Ok(pretty) => {
            if redactions.len() == 0 {
                Ok(pretty)
            } else {
                Ok(filter(pretty.as_str(), redactions))
            }
        },
    }
}

} // verus!
