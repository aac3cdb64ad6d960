//! The one-slot cache of compiled pattern sets, keyed by pattern text and
//! Unicode mode, and the search that goes through it.

use vstd::prelude::*;

use crate::lines::{count_of, lemma_resolution_unique, result_views, SearchLineResult, NEWLINE};
use crate::matcher::{
    all_nonempty, match_starts, pattern_compiles, scans, search_file_impl, search_outcome, Matcher,
};

verus! {

/// The character that ends each pattern in a cache key.
pub open spec fn separator() -> char {
    '\0'
}

/// The text of each pattern.
pub open spec fn pattern_views(ps: Seq<String>) -> Seq<Seq<char>> {
    ps.map_values(|p: String| p@)
}

/// The patterns, each followed by the separator.
pub open spec fn framed(ps: Seq<Seq<char>>) -> Seq<char>
    decreases ps.len(),
{
    if ps.len() == 0 {
        Seq::empty()
    } else {
        ps[0] + seq![separator()] + framed(ps.drop_first())
    }
}

/// The character that records the Unicode mode in a cache key.
pub open spec fn mode_char(unicode: bool) -> char {
    if unicode {
        '1'
    } else {
        '0'
    }
}

/// The cache key of a pattern list: the patterns joined by the separator,
/// then the separator and the mode character.
pub open spec fn key_of(ps: Seq<Seq<char>>, unicode: bool) -> Seq<char> {
    framed(ps) + seq![mode_char(unicode)]
}

/// No pattern holds the separator.
pub open spec fn separator_free(ps: Seq<Seq<char>>) -> bool {
    forall|i: int, j: int| 0 <= i < ps.len() && 0 <= j < ps[i].len() ==> ps[i][j] != separator()
}

/// Every pattern compiles in the given mode.
pub open spec fn all_compile(ps: Seq<Seq<char>>, unicode: bool) -> bool {
    forall|i: int| 0 <= i < ps.len() ==> pattern_compiles(#[trigger] ps[i], unicode)
}

/// The match starts of each pattern over `b`, in order.
pub open spec fn pattern_scans(ps: Seq<Seq<char>>, unicode: bool, b: Seq<u8>) -> Seq<Seq<usize>> {
    Seq::new(ps.len(), |i: int| match_starts(ps[i], unicode, b))
}

proof fn lemma_framed_push(ps: Seq<Seq<char>>, p: Seq<char>)
    ensures
        framed(ps.push(p)) == framed(ps) + p + seq![separator()],
    decreases ps.len(),
{
    if ps.len() == 0 {
        assert(ps.push(p).drop_first() =~= ps);
        assert(framed(ps.push(p)) =~= p + seq![separator()]);
    } else {
        assert(ps.push(p).drop_first() =~= ps.drop_first().push(p));
        lemma_framed_push(ps.drop_first(), p);
        assert(framed(ps.push(p)) =~= framed(ps) + p + seq![separator()]);
    }
}

proof fn lemma_framed_injective(a: Seq<Seq<char>>, b: Seq<Seq<char>>)
    requires
        framed(a) == framed(b),
        separator_free(a),
        separator_free(b),
    ensures
        a == b,
    decreases a.len(),
{
    if a.len() == 0 {
        if b.len() > 0 {
            assert(framed(b).len() >= 1);
        }
        assert(a =~= b);
    } else if b.len() == 0 {
        assert(framed(a).len() >= 1);
    } else {
        let x = framed(a);
        let n = a[0].len() as int;
        let m = b[0].len() as int;
        if n < m {
            assert(x[n] == separator());
            assert(x[n] == b[0][n]);
        } else if m < n {
            assert(x[m] == separator());
            assert(x[m] == a[0][m]);
        }
        assert(a[0] =~= x.subrange(0, n));
        assert(b[0] =~= x.subrange(0, n));
        assert(framed(a.drop_first()) =~= x.subrange(n + 1, x.len() as int));
        assert(framed(b.drop_first()) =~= x.subrange(n + 1, x.len() as int));
        assert forall|i: int, j: int| 0 <= i < a.drop_first().len() && 0 <= j < a.drop_first()[i].len()
            implies a.drop_first()[i][j] != separator() by {
            assert(a.drop_first()[i] == a[i + 1]);
        }
        assert forall|i: int, j: int| 0 <= i < b.drop_first().len() && 0 <= j < b.drop_first()[i].len()
            implies b.drop_first()[i][j] != separator() by {
            assert(b.drop_first()[i] == b[i + 1]);
        }
        lemma_framed_injective(a.drop_first(), b.drop_first());
        assert(a =~= seq![a[0]] + a.drop_first());
        assert(b =~= seq![b[0]] + b.drop_first());
    }
}

/// Two separator-free pattern lists with the same key are the same list, in
/// the same mode.
pub proof fn lemma_key_injective(a: Seq<Seq<char>>, u: bool, b: Seq<Seq<char>>, v: bool)
    requires
        key_of(a, u) == key_of(b, v),
        separator_free(a),
        separator_free(b),
    ensures
        a == b,
        u == v,
{
    let ka = key_of(a, u);
    assert(ka.last() == mode_char(u));
    assert(key_of(b, v).last() == mode_char(v));
    assert(framed(a) =~= ka.drop_last());
    assert(framed(b) =~= key_of(b, v).drop_last());
    lemma_framed_injective(a, b);
}

/// The cache key of `patterns` in the given mode.
fn cache_key(patterns: &Vec<String>, unicode: bool) -> (r: String)
    ensures
        r@ == key_of(pattern_views(patterns@), unicode),
{
    let ghost ps = pattern_views(patterns@);
    let mut key = String::new();
    let mut i: usize = 0;
    while i < patterns.len()
        invariant
            ps == pattern_views(patterns@),
            i <= patterns@.len(),
            key@ == framed(ps.subrange(0, i as int)),
        decreases patterns@.len() - i,
    {
        proof {
            assert(ps.subrange(0, i + 1) =~= ps.subrange(0, i as int).push(ps[i as int]));
            lemma_framed_push(ps.subrange(0, i as int), ps[i as int]);
        }
        let ghost before = key@;
        key.append(patterns[i].as_str());
        key.append("\0");
        proof {
            reveal_strlit("\0");
            assert(ps[i as int] == patterns@[i as int]@);
            assert(key@ =~= before + ps[i as int] + seq![separator()]);
        }
        i += 1;
    }
    proof {
        assert(ps.subrange(0, i as int) =~= ps);
        reveal_strlit("1");
        reveal_strlit("0");
    }
    key.append(if unicode { "1" } else { "0" });
    key
}

/// The pattern text of each matcher.
pub open spec fn sources(ms: Seq<Matcher>) -> Seq<Seq<char>> {
    ms.map_values(|m: Matcher| m.source())
}

/// What searching `b` for `ps` gives, whatever a cache held before: nothing
/// when a pattern does not compile, else the outcome of the AND search.
pub open spec fn search_result(
    b: Seq<u8>,
    ps: Seq<Seq<char>>,
    unicode: bool,
    include_text: bool,
    r: Seq<SearchLineResult>,
) -> bool {
    if all_compile(ps, unicode) {
        search_outcome(b, pattern_scans(ps, unicode, b), include_text, r)
    } else {
        r.len() == 0
    }
}

struct CachedSearch {
    cache_key: String,
    regexes: Vec<Matcher>,
}

/// Holds the most recently compiled pattern set, under its cache key.
pub struct SearchCache {
    slot: Option<CachedSearch>,
}

impl SearchCache {
    /// The pattern texts and the Unicode mode of the cached set, if any.
    pub closed spec fn cached(&self) -> Option<(Seq<Seq<char>>, bool)> {
        match self.slot {
            None => None,
            Some(c) => Some((sources(c.regexes@), c.regexes@[0].unicode())),
        }
    }

    /// A cached set is non-empty, compiled in one mode, stored under the key
    /// of its patterns and that mode.
    pub closed spec fn wf(&self) -> bool {
        match self.slot {
            None => true,
            Some(c) => {
                let ms = c.regexes@;
                &&& ms.len() > 0
                &&& forall|i: int| 0 <= i < ms.len() ==> (#[trigger] ms[i]).unicode() == ms[0].unicode()
                &&& c.cache_key@ == key_of(sources(ms), ms[0].unicode())
                &&& all_compile(sources(ms), ms[0].unicode())
            },
        }
    }

    /// The cached set was stored under the key of `ps` in mode `unicode`.
    pub open spec fn hits(&self, ps: Seq<Seq<char>>, unicode: bool) -> bool {
        &&& self.cached() is Some
        &&& key_of(self.cached()->Some_0.0, self.cached()->Some_0.1) == key_of(ps, unicode)
    }

    /// An empty cache.
    pub fn new() -> (r: Self)
        ensures
            r.wf(),
            r.cached() is None,
    {
        SearchCache { slot: None }
    }

    /// Makes the cache hold a compiled set for `patterns` in mode `unicode`:
    /// kept as it is when the key matches, else compiled afresh. Returns
    /// whether it holds one; when a pattern does not compile, the cache is
    /// left unchanged.
    pub fn get_or_compile(&mut self, patterns: &Vec<String>, unicode: bool) -> (r: bool)
        requires
            old(self).wf(),
        ensures
            final(self).wf(),
            patterns@.len() == 0 ==> !r && final(self).cached() == old(self).cached(),
            patterns@.len() > 0 && old(self).hits(pattern_views(patterns@), unicode) ==> r
                && final(self).cached() == old(self).cached(),
            patterns@.len() > 0 && !old(self).hits(pattern_views(patterns@), unicode) ==> r
                == all_compile(pattern_views(patterns@), unicode) && final(self).cached() == if r {
                Some((pattern_views(patterns@), unicode))
            } else {
                old(self).cached()
            },
            r ==> final(self).hits(pattern_views(patterns@), unicode),
    {
        let ghost ps = pattern_views(patterns@);
        if patterns.len() == 0 {
            return false;
        }
        let cache_key = cache_key(patterns, unicode);
        let hit = match &self.slot {
            Some(cached) => cached.cache_key == cache_key,
            None => false,
        };
        if hit {
            return true;
        }
        let mut regexes: Vec<Matcher> = Vec::new();
        let mut i: usize = 0;
        while i < patterns.len()
            invariant
                ps == pattern_views(patterns@),
                self.wf(),
                self.cached() == old(self).cached(),
                !old(self).hits(ps, unicode),
                i <= patterns@.len(),
                regexes@.len() == i,
                forall|j: int| 0 <= j < i ==> (#[trigger] regexes@[j]).source() == ps[j]
                    && regexes@[j].unicode() == unicode,
                forall|j: int| 0 <= j < i ==> pattern_compiles(#[trigger] ps[j], unicode),
            decreases patterns@.len() - i,
        {
            match Matcher::compile(&patterns[i], unicode) {
                Ok(m) => regexes.push(m),
                Err(_) => {
                    proof {
                        assert(!pattern_compiles(ps[i as int], unicode));
                    }
                    return false;
                },
            }
            i += 1;
        }
        proof {
            assert(sources(regexes@) =~= ps);
        }
        self.slot = Some(CachedSearch { cache_key, regexes });
        true
    }

    /// Searches `bytes` for the lines where `patterns` match, with AND
    /// semantics, compiling the patterns only when the cache does not
    /// already hold them.
    pub fn search(
        &mut self,
        bytes: &[u8],
        patterns: &Vec<String>,
        unicode: bool,
        include_lines: bool,
    ) -> (r: Vec<SearchLineResult>)
        requires
            old(self).wf(),
            count_of(bytes@, NEWLINE) < u32::MAX,
        ensures
            final(self).wf(),
            patterns@.len() == 0 ==> r@.len() == 0 && final(self).cached() == old(self).cached(),
            patterns@.len() > 0 && old(self).hits(pattern_views(patterns@), unicode) ==> final(self).cached()
                == old(self).cached() && search_result(
                bytes@,
                old(self).cached()->Some_0.0,
                old(self).cached()->Some_0.1,
                include_lines,
                r@,
            ),
            patterns@.len() > 0 && !old(self).hits(pattern_views(patterns@), unicode) ==> search_result(
                bytes@,
                pattern_views(patterns@),
                unicode,
                include_lines,
                r@,
            ) && final(self).cached() == if all_compile(pattern_views(patterns@), unicode) {
                Some((pattern_views(patterns@), unicode))
            } else {
                old(self).cached()
            },
            separator_free(pattern_views(patterns@)) && (old(self).cached() matches Some(c)
                ==> separator_free(c.0)) ==> search_result(
                bytes@,
                pattern_views(patterns@),
                unicode,
                include_lines,
                r@,
            ),
    {
        let ghost ps = pattern_views(patterns@);
        if !self.get_or_compile(patterns, unicode) {
            return Vec::new();
        }
        let r = match &self.slot {
            Some(cached) => {
                let ghost ms = cached.regexes@;
                let r = search_file_impl(bytes, cached.regexes.as_slice(), include_lines);
                proof {
                    assert(scans(ms, bytes@) =~= pattern_scans(sources(ms), ms[0].unicode(), bytes@));
                }
                r
            },
            None => Vec::new(),
        };
        proof {
            if patterns@.len() > 0 && separator_free(ps) && (old(self).cached() matches Some(c)
                ==> separator_free(c.0)) && old(self).hits(ps, unicode) {
                let c = old(self).cached()->Some_0;
                lemma_key_injective(c.0, c.1, ps, unicode);
            }
        }
        r
    }
}

/// Searches are deterministic: two results of searching the same bytes for
/// the same patterns, in the same modes, are the same list. As `search`
/// gives such a result whatever its cache held (for patterns without the
/// separator), a search that finds its patterns cached returns what a
/// search that compiles them returns.
pub proof fn lemma_search_deterministic(
    b: Seq<u8>,
    ps: Seq<Seq<char>>,
    unicode: bool,
    include_text: bool,
    r1: Seq<SearchLineResult>,
    r2: Seq<SearchLineResult>,
)
    requires
        search_result(b, ps, unicode, include_text, r1),
        search_result(b, ps, unicode, include_text, r2),
    ensures
        result_views(r1) == result_views(r2),
{
    let ss = pattern_scans(ps, unicode, b);
    if all_compile(ps, unicode) && all_nonempty(ss) {
        lemma_resolution_unique(b, ss.flatten(), include_text, r1, r2);
    } else {
        assert(result_views(r1) =~= result_views(r2));
    }
}

} // verus!
