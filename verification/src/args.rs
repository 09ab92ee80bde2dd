//! The command-line surface as plain data (`Args`), and the pure work behind
//! configuration loading: `${NAME}` substitution from environment pairs,
//! the cache file location for a config path, and the command-line overrides
//! applied to a parsed `Config`.

use vstd::prelude::*;

use crate::request::{Config, PartRequestConfig, RequestsConfig};
use crate::text::{chars_to_string, str_to_chars};

verus! {

/// The resolved command line. Parsing and I/O live outside the engine; this
/// is the data the engine's logic needs.
pub struct Args {
    /// The config file whose requests are compared.
    pub path: String,
    /// Keep only the first n requests, when nonzero.
    pub take: usize,
    /// Delete the cache file before the run starts.
    pub clear_cache: bool,
    /// Mark every side cache-eligible.
    pub all_cache: bool,
    /// Mark no side cache-eligible.
    pub no_cache: bool,
    /// Drop every redaction term.
    pub skip_ignore: bool,
    /// Only fill the cache; show no differences.
    pub cache_only: bool,
    /// Write a narrowed config of the differing requests here instead of
    /// showing them.
    pub out: Option<String>,
}

/// The value stored for a name, first match wins.
pub open spec fn env_lookup(envs: Seq<(String, String)>, name: Seq<char>) -> Option<Seq<char>>
    decreases envs.len(),
{
    if envs.len() == 0 {
        None
    } else if envs[0].0@ == name {
        Some(envs[0].1@)
    } else {
        env_lookup(envs.drop_first(), name)
    }
}

/// Index of the first closing brace, or the length if there is none.
pub open spec fn first_close(s: Seq<char>) -> int
    decreases s.len(),
{
    if s.len() == 0 {
        0
    } else if s[0] == '}' {
        0
    } else {
        1 + first_close(s.drop_first())
    }
}

/// `${NAME}` substitution over a text: a name in braces is replaced by its
/// value, `$` followed by anything else is kept as written, a lone trailing
/// `$` is dropped, and an unclosed `${` takes the rest of the text as the
/// name. A name with no value fails the whole substitution.
pub open spec fn spec_substitute(s: Seq<char>, envs: Seq<(String, String)>) -> Option<Seq<char>>
    decreases s.len(),
{
    if s.len() == 0 {
        Some(Seq::<char>::empty())
    } else if s[0] != '$' {
        match spec_substitute(s.drop_first(), envs) {
            Some(t) => Some(seq![s[0]] + t),
            None => None,
        }
    } else if s.len() == 1 {
        Some(Seq::<char>::empty())
    } else if s[1] == '{' {
        let rest = s.skip(2);
        let j = first_close(rest);
        if 0 <= j < rest.len() {
            match env_lookup(envs, rest.subrange(0, j)) {
                None => None,
                Some(v) => match spec_substitute(rest.skip(j + 1), envs) {
                    Some(t) => Some(v + t),
                    None => None,
                },
            }
        } else {
            match env_lookup(envs, rest) {
                None => None,
                Some(v) => Some(v),
            }
        }
    } else {
        match spec_substitute(s.skip(2), envs) {
            Some(t) => Some(seq![s[0], s[1]] + t),
            None => None,
        }
    }
}

proof fn lemma_first_close_at(s: Seq<char>, j: int)
    requires
        0 <= j <= s.len(),
        forall|m: int| 0 <= m < j ==> s[m] != '}',
        j < s.len() ==> s[j] == '}',
    ensures
        first_close(s) == j,
    decreases s.len(),
{
    if s.len() == 0 {
    } else if s[0] == '}' {
    } else {
        lemma_first_close_at(s.drop_first(), j - 1);
    }
}

fn env_find(envs: &Vec<(String, String)>, name: &String) -> (r: Option<String>)
    ensures
        r is Some <==> env_lookup(envs@, name@) is Some,
        r is Some ==> Some(r->0@) == env_lookup(envs@, name@),
{
    let mut i: usize = 0;
    proof {
        assert(envs@.skip(0) =~= envs@);
    }
    while i < envs.len()
        invariant
            i <= envs@.len(),
            env_lookup(envs@, name@) == env_lookup(envs@.skip(i as int), name@),
        decreases envs@.len() - i,
    {
        proof {
            assert(envs@.skip(i as int)[0] == envs@[i as int]);
            assert(envs@.skip(i as int).drop_first() =~= envs@.skip(i + 1));
        }
        if envs[i].0.eq(name) {
            return Some(envs[i].1.clone());
        }
        i += 1;
    }
    proof {
        assert(envs@.skip(envs@.len() as int).len() == 0);
    }
    None
}

fn substitute_chars(s: &Vec<char>, i: usize, envs: &Vec<(String, String)>) -> (r: Result<
    Vec<char>,
    String,
>)
    requires
        i <= s@.len(),
    ensures
        r is Ok <==> spec_substitute(s@.skip(i as int), envs@) is Some,
        r is Ok ==> Some((r->Ok_0)@) == spec_substitute(s@.skip(i as int), envs@),
        r is Err ==> env_lookup(envs@, (r->Err_0)@) is None,
    decreases s@.len() - i,
{
    let n = s.len();
    let ghost suffix = s@.skip(i as int);
    if i == n {
        let v: Vec<char> = Vec::new();
        proof {
            assert(v@ =~= Seq::<char>::empty());
        }
        return Ok(v);
    }
    let c = s[i];
    proof {
        assert(suffix[0] == s@[i as int]);
        assert(suffix.drop_first() =~= s@.skip(i + 1));
    }
    if c != '$' {
        match substitute_chars(s, i + 1, envs) {
            Err(e) => Err(e),
            Ok(mut t) => {
                let ghost t0 = t@;
                t.insert(0, c);
                proof {
                    assert(t@ =~= seq![c] + t0);
                }
                Ok(t)
            },
        }
    } else if i + 1 == n {
        let v: Vec<char> = Vec::new();
        proof {
            assert(v@ =~= Seq::<char>::empty());
        }
        Ok(v)
    } else if s[i + 1] == '{' {
        let ghost rest = s@.skip(i + 2);
        proof {
            assert(suffix[1] == s@[i + 1]);
            assert(suffix.skip(2) =~= rest);
        }
        let mut j: usize = i + 2;
        while j < n && s[j] != '}'
            invariant
                i + 2 <= j <= n,
                n == s@.len(),
                forall|m: int| i + 2 <= m < j ==> s@[m] != '}',
            decreases n - j,
        {
            j += 1;
        }
        proof {
            assert(forall|m: int| 0 <= m < j - (i + 2) ==> rest[m] == s@[m + i + 2]);
            lemma_first_close_at(rest, j - (i + 2));
        }
        let mut namev: Vec<char> = Vec::new();
        let mut q: usize = i + 2;
        while q < j
            invariant
                i + 2 <= q <= j <= n,
                n == s@.len(),
                namev@ =~= s@.subrange(i + 2, q as int),
            decreases j - q,
        {
            namev.push(s[q]);
            q += 1;
        }
        proof {
            assert(namev@ =~= s@.subrange(i + 2, j as int));
            if j < n {
                assert(rest.subrange(0, j - (i + 2)) =~= s@.subrange(i + 2, j as int));
            } else {
                assert(rest =~= s@.subrange(i + 2, j as int));
            }
        }
        let name = chars_to_string(&namev);
        match env_find(envs, &name) {
            None => Err(name),
            Some(v) => {
                let vc = str_to_chars(v.as_str());
                if j < n {
                    proof {
                        assert(rest.skip(j - (i + 2) + 1) =~= s@.skip(j + 1));
                    }
                    match substitute_chars(s, j + 1, envs) {
                        Err(e) => Err(e),
                        Ok(t) => {
                            let mut out = vc;
                            let ghost o0 = out@;
                            let mut k: usize = 0;
                            let ghost tv = t@;
                            while k < t.len()
                                invariant
                                    k <= tv.len(),
                                    tv == t@,
                                    out@ =~= o0 + tv.subrange(0, k as int),
                                decreases tv.len() - k,
                            {
                                out.push(t[k]);
                                proof {
                                    assert(tv.subrange(0, k + 1) =~= tv.subrange(
                                        0,
                                        k as int,
                                    ).push(tv[k as int]));
                                }
                                k += 1;
                            }
                            proof {
                                assert(tv.subrange(0, tv.len() as int) =~= tv);
                            }
                            Ok(out)
                        },
                    }
                } else {
                    Ok(vc)
                }
            },
        }
    } else {
        proof {
            assert(suffix[1] == s@[i + 1]);
            assert(suffix.skip(2) =~= s@.skip(i + 2));
        }
        let c2 = s[i + 1];
        match substitute_chars(s, i + 2, envs) {
            Err(e) => Err(e),
            Ok(mut t) => {
                let ghost t0 = t@;
                t.insert(0, c2);
                t.insert(0, c);
                proof {
                    assert(t@ =~= seq![c, c2] + t0);
                }
                Ok(t)
            },
        }
    }
}

/// Replace every `${NAME}` in the text by that variable's value. A name
/// that no pair provides fails, carrying the name for the error message.
pub fn process_env_variables(text: &str, envs: &Vec<(String, String)>) -> (r: Result<
    String,
    String,
>)
    ensures
        r is Ok <==> spec_substitute(text@, envs@) is Some,
        r is Ok ==> Some((r->Ok_0)@) == spec_substitute(text@, envs@),
        r is Err ==> env_lookup(envs@, (r->Err_0)@) is None,
{
    let cs = str_to_chars(text);
    proof {
        assert(cs@.skip(0) =~= text@);
    }
    match substitute_chars(&cs, 0, envs) {
        Err(e) => Err(e),
        Ok(v) => Ok(chars_to_string(&v)),
    }
}

/// Index of the first slash in `s`, or `s.len()` if there is none.
pub open spec fn first_slash(s: Seq<char>) -> int
    decreases s.len(),
{
    if s.len() == 0 {
        0
    } else if s[0] == '/' {
        0
    } else {
        1 + first_slash(s.drop_first())
    }
}

/// A path component that names something: nonempty and not a bare dot.
pub open spec fn keep_comp(c: Seq<char>) -> bool {
    c.len() > 0 && c != seq!['.']
}

/// The path's named components, in order: split at slashes, with empty and
/// bare-dot components dropped, as std's path parsing drops them.
pub open spec fn path_components(p: Seq<char>) -> Seq<Seq<char>>
    decreases p.len(),
{
    if p.len() == 0 {
        Seq::empty()
    } else {
        let i = first_slash(p);
        if 0 <= i < p.len() {
            let c = p.subrange(0, i);
            let rest = path_components(p.subrange(i + 1, p.len() as int));
            if keep_comp(c) {
                seq![c] + rest
            } else {
                rest
            }
        } else {
            if keep_comp(p) {
                seq![p]
            } else {
                Seq::empty()
            }
        }
    }
}

/// The file name, as `Path::file_name` reads it: the last named component of
/// the path, unless that component is `..`.
pub open spec fn spec_file_name(p: Seq<char>) -> Option<Seq<char>> {
    let cs = path_components(p);
    if cs.len() == 0 {
        None
    } else if cs.last() == seq!['.', '.'] {
        None
    } else {
        Some(cs.last())
    }
}

proof fn lemma_first_slash_at(s: Seq<char>, j: int)
    requires
        0 <= j <= s.len(),
        forall|m: int| 0 <= m < j ==> s[m] != '/',
        j < s.len() ==> s[j] == '/',
    ensures
        first_slash(s) == j,
    decreases s.len(),
{
    if s.len() == 0 {
    } else if s[0] == '/' {
    } else {
        lemma_first_slash_at(s.drop_first(), j - 1);
    }
}

fn path_components_exec(cs: &Vec<char>) -> (r: Vec<Vec<char>>)
    ensures
        r.deep_view() =~~= path_components(cs@),
{
    let n = cs.len();
    let mut out: Vec<Vec<char>> = Vec::new();
    let mut p: usize = 0;
    proof {
        assert(cs@.subrange(0, n as int) =~= cs@);
    }
    while p < n
        invariant
            p <= n,
            n == cs@.len(),
            out.deep_view() + path_components(cs@.subrange(p as int, n as int))
                =~~= path_components(cs@),
        decreases n - p,
    {
        let ghost suffix = cs@.subrange(p as int, n as int);
        let mut j: usize = p;
        while j < n && cs[j] != '/'
            invariant
                p <= j <= n,
                n == cs@.len(),
                forall|m: int| p <= m < j ==> cs@[m] != '/',
            decreases n - j,
        {
            j += 1;
        }
        proof {
            lemma_first_slash_at(suffix, j - p);
        }
        let mut comp: Vec<char> = Vec::new();
        let mut q: usize = p;
        while q < j
            invariant
                p <= q <= j <= n,
                n == cs@.len(),
                comp@ =~= cs@.subrange(p as int, q as int),
            decreases j - q,
        {
            comp.push(cs[q]);
            q += 1;
        }
        let named = comp.len() > 0 && !(comp.len() == 1 && comp[0] == '.');
        proof {
            assert(comp@ =~= cs@.subrange(p as int, j as int));
            if comp@.len() == 1 && comp@[0] == '.' {
                assert(comp@ =~= seq!['.']);
            }
            assert(named == keep_comp(comp@));
            if j < n {
                assert(suffix.subrange(0, j - p) =~= cs@.subrange(p as int, j as int));
                assert(suffix.subrange(j - p + 1, suffix.len() as int) =~= cs@.subrange(
                    j + 1,
                    n as int,
                ));
            } else {
                assert(suffix.subrange(0, j - p) =~= suffix);
                assert(suffix =~= cs@.subrange(p as int, j as int));
            }
        }
        if named {
            let ghost old_out = out.deep_view();
            out.push(comp);
            proof {
                assert(out.deep_view() =~~= old_out.push(cs@.subrange(p as int, j as int)));
                if j < n {
                    assert(path_components(suffix) =~~= seq![cs@.subrange(p as int, j as int)]
                        + path_components(cs@.subrange(j + 1, n as int)));
                    assert(old_out.push(cs@.subrange(p as int, j as int)) + path_components(
                        cs@.subrange(j + 1, n as int),
                    ) =~~= old_out + path_components(suffix));
                } else {
                    assert(path_components(suffix) =~~= seq![cs@.subrange(p as int, j as int)]);
                    assert(cs@.subrange(n as int, n as int) =~= Seq::<char>::empty());
                    assert(old_out.push(cs@.subrange(p as int, j as int)) + path_components(
                        cs@.subrange(n as int, n as int),
                    ) =~~= old_out + path_components(suffix));
                }
            }
        } else {
            proof {
                if j < n {
                    assert(path_components(suffix) =~~= path_components(
                        cs@.subrange(j + 1, n as int),
                    ));
                } else {
                    assert(path_components(suffix) =~~= Seq::<Seq<char>>::empty());
                    assert(cs@.subrange(n as int, n as int) =~= Seq::<char>::empty());
                }
            }
        }
        p = if j < n {
            j + 1
        } else {
            n
        };
    }
    proof {
        assert(cs@.subrange(n as int, n as int) =~= Seq::<char>::empty());
        assert(out.deep_view() + Seq::<Seq<char>>::empty() =~~= out.deep_view());
    }
    out
}

/// The cache file for a config path: `./cache/` plus the config's file name,
/// read as `Path::file_name` reads it; a path with no file name (empty,
/// all slashes and dots, or ending in `..`) has none.
pub fn get_cache_location(path: &str) -> (r: Option<String>)
    ensures
        r is Some <==> spec_file_name(path@) is Some,
        r is Some ==> Some((r->0)@) == match spec_file_name(path@) {
            Some(name) => Some("./cache/"@ + name),
            None => None,
        },
{
    let cs = str_to_chars(path);
    let comps = path_components_exec(&cs);
    if comps.len() == 0 {
        return None;
    }
    let last = &comps[comps.len() - 1];
    proof {
        assert(last@ == path_components(path@).last());
    }
    if last.len() == 2 && last[0] == '.' && last[1] == '.' {
        proof {
            assert(last@ =~= seq!['.', '.']);
        }
        return None;
    }
    proof {
        assert(last@ != seq!['.', '.']) by {
            if last@.len() == 2 {
                assert(seq!['.', '.'][0] == '.' && seq!['.', '.'][1] == '.');
            }
        }
    }
    let mut out = String::from_str("./cache/");
    let name = chars_to_string(last);
    out.append(name.as_str());
    Some(out)
}

/// How one side looks after the command-line overrides: caching forced on or
/// off, and the redaction list dropped or extended with the shared terms.
pub open spec fn part_overridden(
    po: PartRequestConfig,
    pt: PartRequestConfig,
    shared: Seq<String>,
    skip_ignore: bool,
    all_cache: bool,
    no_cache: bool,
) -> bool {
    &&& pt.url == po.url
    &&& pt.method == po.method
    &&& pt.auth == po.auth
    &&& pt.headers == po.headers
    &&& pt.query == po.query
    &&& pt.cached == (if all_cache {
        true
    } else if no_cache {
        false
    } else {
        po.cached
    })
    &&& pt.ignore_lines@ == (if skip_ignore {
        Seq::<String>::empty()
    } else {
        po.ignore_lines@ + shared
    })
}

fn override_part(p: PartRequestConfig, shared: &Vec<String>, args: &Args) -> (r: PartRequestConfig)
    ensures
        part_overridden(p, r, shared@, args.skip_ignore, args.all_cache, args.no_cache),
{
    let ghost p0 = p;
    let PartRequestConfig { url, method, cached, auth, ignore_lines, headers, query } = p;
    let new_ignores = if args.skip_ignore {
        Vec::new()
    } else {
        let mut v = ignore_lines;
        let ghost v0 = v@;
        let mut i: usize = 0;
        while i < shared.len()
            invariant
                i <= shared@.len(),
                v@ =~= v0 + shared@.subrange(0, i as int),
            decreases shared@.len() - i,
        {
            v.push(shared[i].clone());
            proof {
                assert(shared@.subrange(0, i + 1) =~= shared@.subrange(0, i as int).push(
                    shared@[i as int],
                ));
            }
            i += 1;
        }
        proof {
            assert(shared@.subrange(0, shared@.len() as int) =~= shared@);
        }
        v
    };
    let new_cached = if args.all_cache {
        true
    } else if args.no_cache {
        false
    } else {
        cached
    };
    PartRequestConfig {
        url,
        method,
        cached: new_cached,
        auth,
        ignore_lines: new_ignores,
        headers,
        query,
    }
}

/// Apply the command line to a parsed run: keep only the first `take`
/// requests when asked, and override each side's caching and redactions.
pub fn config_from_args(config: Config, args: &Args) -> (r: Config)
    ensures
        r.ignore_lines == config.ignore_lines,
        r.requests@.len() == (if args.take > 0 && args.take < config.requests@.len() {
            args.take as int
        } else {
            config.requests@.len() as int
        }),
        forall|k: int|
            0 <= k < r.requests@.len() ==> {
                &&& (#[trigger] r.requests@[k]).name == config.requests@[k].name
                &&& part_overridden(
                    config.requests@[k].left,
                    r.requests@[k].left,
                    config.ignore_lines@,
                    args.skip_ignore,
                    args.all_cache,
                    args.no_cache,
                )
                &&& part_overridden(
                    config.requests@[k].right,
                    r.requests@[k].right,
                    config.ignore_lines@,
                    args.skip_ignore,
                    args.all_cache,
                    args.no_cache,
                )
            },
{
    let Config { ignore_lines, requests } = config;
    let ghost orig = requests@;
    let mut requests = requests;
    let limit = if args.take > 0 && args.take < requests.len() {
        args.take
    } else {
        requests.len()
    };
    while requests.len() > limit
        invariant
            limit <= requests@.len(),
            requests@.len() <= orig.len(),
            requests@ =~= orig.subrange(0, requests@.len() as int),
        decreases requests@.len(),
    {
        let ghost before = requests@;
        let discarded = requests.pop();
        proof {
            assert(requests@ =~= orig.subrange(0, requests@.len() as int)) by {
                assert(requests@ =~= before.subrange(0, before.len() - 1));
            }
        }
    }
    let mut rest = requests;
    let mut out: Vec<RequestsConfig> = Vec::new();
    let ghost kept = orig.subrange(0, limit as int);
    while rest.len() > 0
        invariant
            out@.len() + rest@.len() == limit,
            kept == orig.subrange(0, limit as int),
            limit <= orig.len(),
            rest@ =~= kept.subrange(out@.len() as int, limit as int),
            forall|k: int|
                0 <= k < out@.len() ==> {
                    &&& (#[trigger] out@[k]).name == kept[k].name
                    &&& part_overridden(
                        kept[k].left,
                        out@[k].left,
                        ignore_lines@,
                        args.skip_ignore,
                        args.all_cache,
                        args.no_cache,
                    )
                    &&& part_overridden(
                        kept[k].right,
                        out@[k].right,
                        ignore_lines@,
                        args.skip_ignore,
                        args.all_cache,
                        args.no_cache,
                    )
                },
        decreases rest@.len(),
    {
        let ghost r0 = rest@;
        let x = rest.remove(0);
        proof {
            assert(rest@ =~= r0.drop_first());
            assert(x == kept[out@.len() as int]);
        }
        let RequestsConfig { name, left, right } = x;
        let new_left = override_part(left, &ignore_lines, args);
        let new_right = override_part(right, &ignore_lines, args);
        out.push(RequestsConfig { name, left: new_left, right: new_right });
        proof {
            assert(rest@ =~= kept.subrange(out@.len() as int, limit as int));
        }
    }
    Config { ignore_lines, requests: out }
}

} // verus!
