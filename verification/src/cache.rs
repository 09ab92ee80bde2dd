//! The response cache: a URL-keyed collection of prior normalized responses.
//! Keys are the exact URL strings sent on the wire; the collection never
//! holds two entries for the same URL. Its persistent JSON form lives in
//! `codec`.

use vstd::prelude::*;

use crate::response::{PartResponse, PartResponseView};

verus! {

/// Index of the first entry with this URL, or -1 if there is none.
pub open spec fn find_url(s: Seq<PartResponseView>, url: Seq<char>) -> int
    decreases s.len(),
{
    if s.len() == 0 {
        -1
    } else if s[0].url == url {
        0
    } else {
        let rest = find_url(s.drop_first(), url);
        if rest < 0 {
            -1
        } else {
            1 + rest
        }
    }
}

/// The entry stored for this URL, if any.
pub open spec fn spec_lookup(s: Seq<PartResponseView>, url: Seq<char>) -> Option<PartResponseView> {
    if find_url(s, url) >= 0 {
        Some(s[find_url(s, url)])
    } else {
        None
    }
}

/// No two entries share a URL.
pub open spec fn unique_urls(s: Seq<PartResponseView>) -> bool {
    forall|i: int, j: int| 0 <= i < j < s.len() ==> (#[trigger] s[i].url) != (#[trigger] s[j].url)
}

/// What storing `e` does: any earlier entry for its URL goes, `e` comes in.
pub open spec fn spec_insert(s: Seq<PartResponseView>, e: PartResponseView) -> Seq<
    PartResponseView,
> {
    if find_url(s, e.url) >= 0 {
        s.remove(find_url(s, e.url)).push(e)
    } else {
        s.push(e)
    }
}

pub proof fn lemma_find_url_at(s: Seq<PartResponseView>, url: Seq<char>, j: int)
    requires
        0 <= j <= s.len(),
        forall|m: int| 0 <= m < j ==> (#[trigger] s[m].url) != url,
        j < s.len() ==> s[j].url == url,
    ensures
        j < s.len() ==> find_url(s, url) == j,
        j == s.len() ==> find_url(s, url) == -1,
    decreases s.len(),
{
    if s.len() == 0 {
    } else if s[0].url == url {
    } else {
        assert(forall|m: int|
            0 <= m < s.drop_first().len() ==> #[trigger] s.drop_first()[m] == s[m + 1]);
        lemma_find_url_at(s.drop_first(), url, j - 1);
    }
}

/// The cache: prior normalized responses, at most one per URL.
pub struct Cache {
    entries: Vec<PartResponse>,
}

impl View for Cache {
    type V = Seq<PartResponseView>;

    closed spec fn view(&self) -> Seq<PartResponseView> {
        self.entries@.map_values(|p: PartResponse| p@)
    }
}

impl Cache {
    /// The collection invariant: URLs are unique.
    pub open spec fn wf(&self) -> bool {
        unique_urls(self@)
    }

    /// An empty cache, for a first run with no prior storage.
    pub fn new() -> (r: Self)
        ensures
            r@ =~= Seq::<PartResponseView>::empty(),
            r.wf(),
    {
        let r = Cache { entries: Vec::new() };
        proof {
            assert(r@ =~= Seq::<PartResponseView>::empty());
        }
        r
    }

    /// A cache holding exactly these entries; refused if two share a URL.
    pub fn from_entries(entries: Vec<PartResponse>) -> (r: Option<Self>)
        ensures
            r is Some <==> unique_urls(entries@.map_values(|p: PartResponse| p@)),
            r is Some ==> r->0@ == entries@.map_values(|p: PartResponse| p@) && r->0.wf(),
    {
        let ghost v = entries@.map_values(|p: PartResponse| p@);
        let n = entries.len();
        let mut i: usize = 0;
        while i < n
            invariant
                n == entries@.len(),
                i <= n,
                v == entries@.map_values(|p: PartResponse| p@),
                forall|a: int, b: int| 0 <= a < b < i ==> v[a].url != v[b].url,
            decreases n - i,
        {
            let mut j: usize = 0;
            while j < i
                invariant
                    n == entries@.len(),
                    j <= i < n,
                    v == entries@.map_values(|p: PartResponse| p@),
                    forall|b: int| 0 <= b < j ==> v[b].url != v[i as int].url,
                decreases i - j,
            {
                if entries[j].url.eq(&entries[i].url) {
                    assert(v[j as int].url == v[i as int].url);
                    return None;
                }
                j += 1;
            }
            i += 1;
        }
        assert(unique_urls(v));
        Some(Cache { entries })
    }

    /// How many responses are stored.
    pub fn len(&self) -> (r: usize)
        ensures
            r == self@.len(),
    {
        self.entries.len()
    }

    /// The stored entries, for persisting or inspection.
    pub fn entries(&self) -> (r: &Vec<PartResponse>)
        ensures
            r@.map_values(|p: PartResponse| p@) == self@,
    {
        &self.entries
    }

    /// The stored response for this URL, if any: a pure read.
    pub fn lookup(&self, url: &str) -> (r: Option<PartResponse>)
        ensures
            r is Some <==> spec_lookup(self@, url@) is Some,
            r is Some ==> r->0@ == spec_lookup(self@, url@)->0,
    {
        let url_s = url.to_owned();
        let n = self.entries.len();
        let mut i: usize = 0;
        while i < n
            invariant
                n == self@.len(),
                url_s@ == url@,
                i <= n,
                forall|m: int| 0 <= m < i ==> (#[trigger] self@[m].url) != url@,
            decreases n - i,
        {
            if self.entries[i].url.eq(&url_s) {
                proof {
                    lemma_find_url_at(self@, url@, i as int);
                }
                return Some(self.entries[i].duplicate());
            }
            i += 1;
        }
        proof {
            lemma_find_url_at(self@, url@, n as int);
        }
        None
    }

    /// Store a response under its URL, replacing any earlier entry for the
    /// same URL; every other entry is kept in place.
    pub fn insert(&mut self, resp: PartResponse)
        requires
            old(self).wf(),
        ensures
            final(self).wf(),
            final(self)@ == spec_insert(old(self)@, resp@),
            spec_lookup(final(self)@, resp.url@) == Some(resp@),
    {
        let ghost v0 = self@;
        let n = self.entries.len();
        let mut i: usize = 0;
        while i < n
            invariant
                n == self@.len(),
                i <= n,
                self@ == v0,
                v0 == old(self)@,
                unique_urls(v0),
                forall|m: int| 0 <= m < i ==> (#[trigger] v0[m].url) != resp.url@,
            decreases n - i,
        {
            if self.entries[i].url.eq(&resp.url) {
                proof {
                    lemma_find_url_at(v0, resp.url@, i as int);
                }
                let ghost ru = resp.url@;
                let ghost rv = resp@;
                self.entries.remove(i);
                self.entries.push(resp);
                proof {
                    let vi = v0.remove(i as int);
                    v0.remove_ensures(i as int);
                    assert(self@ =~= vi.push(rv));
                    assert forall|m: int| 0 <= m < vi.len() implies (#[trigger] vi[m].url)
                        != ru by {
                        if m < i {
                            assert(vi[m] == v0[m]);
                        } else {
                            assert(vi[m] == v0[m + 1]);
                            assert(v0[i as int].url == ru);
                        }
                    }
                    lemma_find_url_at(self@, ru, vi.len() as int);
                    assert forall|a: int, b: int| 0 <= a < b < self@.len() implies (
                    #[trigger] self@[a].url) != (#[trigger] self@[b].url) by {
                        if b < vi.len() {
                            let a0 = if a < i {
                                a
                            } else {
                                a + 1
                            };
                            let b0 = if b < i {
                                b
                            } else {
                                b + 1
                            };
                            assert(self@[a] == v0[a0]);
                            assert(self@[b] == v0[b0]);
                        } else {
                            assert(self@[b] == rv);
                        }
                    }
                }
                return ;
            }
            i += 1;
        }
        proof {
            lemma_find_url_at(v0, resp.url@, n as int);
        }
        self.entries.push(resp);
        proof {
            assert(self@ =~= v0.push(resp@));
            lemma_find_url_at(self@, resp.url@, n as int);
            assert(forall|a: int, b: int|
                0 <= a < b < self@.len() ==> (#[trigger] self@[a].url) != (#[trigger] self@[b].url));
        }
    }
}

} // verus!
