//! Compiled patterns and the AND matcher over a byte buffer.

use vstd::prelude::*;

use crate::lines::{
    count_of, entry_for, from_some_position, has_line, is_resolution, line_of,
    positions_to_line_results, SearchLineResult, NEWLINE,
};

verus! {

#[verifier::external_type_specification]
#[verifier::external_body]
pub struct ExRegex(regex::bytes::Regex);

#[verifier::external_type_specification]
#[verifier::external_body]
pub struct ExRegexError(regex::Error);

/// Whether `pattern` compiles as a case-insensitive, multi-line regular
/// expression in the given Unicode mode.
pub uninterp spec fn pattern_compiles(pattern: Seq<char>, unicode: bool) -> bool;

/// The start offsets of the leftmost-first, non-overlapping matches of
/// `pattern` (case-insensitive, multi-line, in the given Unicode mode) in
/// `haystack`.
pub uninterp spec fn match_starts(pattern: Seq<char>, unicode: bool, haystack: Seq<u8>) -> Seq<usize>;

/// Relies on regex::bytes::RegexBuilder::build, with case-insensitive and
/// multi-line matching on: it fails on the patterns it cannot compile, which
/// depends on the pattern and the Unicode mode alone.
#[verifier::external_body]
fn build_regex(pattern: &str, unicode: bool) -> (r: Result<regex::bytes::Regex, regex::Error>)
    ensures
        r is Ok <==> pattern_compiles(pattern@, unicode),
{
    regex::bytes::RegexBuilder::new(pattern).case_insensitive(true).multi_line(true).unicode(
        unicode,
    ).build()
}

/// A pattern that did not compile.
#[derive(Debug, PartialEq, Eq)]
pub struct CompileFailure;

/// A compiled pattern, with the text and the Unicode mode it was built from.
/// Its fields are private: `compile` is the only way to make one, so the
/// regex always is the one that `build_regex` gave for `source` and
/// `unicode`.
pub struct Matcher {
    source: String,
    unicode: bool,
    regex: regex::bytes::Regex,
}

impl Matcher {
    /// The pattern text this matcher was compiled from.
    pub closed spec fn source(&self) -> Seq<char> {
        self.source@
    }

    /// Whether this matcher was compiled in Unicode mode.
    pub closed spec fn unicode(&self) -> bool {
        self.unicode
    }

    /// Compiles `pattern` case-insensitively, with `^` and `$` matching at
    /// line boundaries, and Unicode classes when `unicode` holds.
    pub fn compile(pattern: &String, unicode: bool) -> (r: Result<Matcher, CompileFailure>)
        ensures
            r is Ok <==> pattern_compiles(pattern@, unicode),
            r matches Ok(m) ==> m.source() == pattern@ && m.unicode() == unicode,
    {
        match build_regex(pattern.as_str(), unicode) {
            Ok(regex) => Ok(Matcher { source: pattern.clone(), unicode, regex }),
            Err(_) => Err(CompileFailure),
        }
    }
}

/// Relies on regex::bytes::Regex::find_iter: the successive non-overlapping
/// matches of the matcher's regex, of which Match::start gives the offsets,
/// each within the haystack.
#[verifier::external_body]
fn find_starts(m: &Matcher, haystack: &[u8]) -> (r: Vec<usize>)
    ensures
        r@ == match_starts(m.source(), m.unicode(), haystack@),
        forall|i: int| 0 <= i < r@.len() ==> r@[i] <= haystack@.len(),
{
    m.regex.find_iter(haystack).map(|found| found.start()).collect()
}

/// The match starts of each matcher in `ms` over `b`, in order.
pub open spec fn scans(ms: Seq<Matcher>, b: Seq<u8>) -> Seq<Seq<usize>> {
    ms.map_values(|m: Matcher| match_starts(m.source(), m.unicode(), b))
}

/// Every list of match starts is non-empty: each pattern matched somewhere.
pub open spec fn all_nonempty(ss: Seq<Seq<usize>>) -> bool {
    forall|i: int| 0 <= i < ss.len() ==> (#[trigger] ss[i]).len() > 0
}

/// `r` is the outcome of an AND search whose patterns matched at `ss`:
/// empty when some pattern matched nowhere, else the lines of every match
/// of every pattern.
pub open spec fn search_outcome(
    b: Seq<u8>,
    ss: Seq<Seq<usize>>,
    include_text: bool,
    r: Seq<SearchLineResult>,
) -> bool {
    if all_nonempty(ss) {
        is_resolution(b, ss.flatten(), include_text, r)
    } else {
        r.len() == 0
    }
}

/// Runs each matcher over `bytes` in order and stops at the first that
/// matches nowhere; if all match, reports the lines of all their matches.
pub fn search_file_impl(bytes: &[u8], regexes: &[Matcher], include_lines: bool) -> (r: Vec<
    SearchLineResult,
>)
    requires
        count_of(bytes@, NEWLINE) < u32::MAX,
    ensures
        search_outcome(bytes@, scans(regexes@, bytes@), include_lines, r@),
{
    let ghost ss = scans(regexes@, bytes@);
    let mut all_match_positions: Vec<usize> = Vec::new();
    let mut i: usize = 0;
    while i < regexes.len()
        invariant
            ss == scans(regexes@, bytes@),
            i <= regexes@.len(),
            all_match_positions@ == ss.subrange(0, i as int).flatten(),
            forall|j: int| 0 <= j < i ==> (#[trigger] ss[j]).len() > 0,
            forall|k: int|
                0 <= k < all_match_positions@.len() ==> all_match_positions@[k] <= bytes@.len(),
        decreases regexes@.len() - i,
    {
        let mut matches = find_starts(&regexes[i], bytes);
        if matches.len() == 0 {
            proof {
                assert(ss[i as int].len() == 0);
            }
            return Vec::new();
        }
        proof {
            assert(ss.subrange(0, i + 1) =~= ss.subrange(0, i as int).push(ss[i as int]));
            ss.subrange(0, i as int).lemma_flatten_push(ss[i as int]);
        }
        all_match_positions.append(&mut matches);
        i += 1;
    }
    proof {
        assert(ss.subrange(0, i as int) =~= ss);
    }
    positions_to_line_results(bytes, &mut all_match_positions, include_lines)
}

/// Some pattern has a match that starts on line `line`.
pub open spec fn matched_on_line(b: Seq<u8>, ss: Seq<Seq<usize>>, line: int) -> bool {
    exists|i: int, p: usize| 0 <= i < ss.len() && ss[i].contains(p) && line_of(b, p as int) == line
}

proof fn lemma_flatten_contains(ss: Seq<Seq<usize>>, p: usize)
    ensures
        ss.flatten().contains(p) <==> exists|i: int| 0 <= i < ss.len() && (#[trigger] ss[i]).contains(p),
    decreases ss.len(),
{
    if ss.len() > 0 {
        let rest = ss.drop_first();
        lemma_flatten_contains(rest, p);
        let f = ss.flatten();
        assert(f == ss[0] + rest.flatten());
        if f.contains(p) {
            let k = choose|k: int| 0 <= k < f.len() && f[k] == p;
            if k < ss[0].len() {
                assert(ss[0][k] == p);
                assert(ss[0].contains(p));
            } else {
                assert(rest.flatten()[k - ss[0].len()] == p);
                assert(rest.flatten().contains(p));
                let i = choose|i: int| 0 <= i < rest.len() && (#[trigger] rest[i]).contains(p);
                assert(ss[i + 1] == rest[i]);
            }
        }
        if exists|i: int| 0 <= i < ss.len() && (#[trigger] ss[i]).contains(p) {
            let i = choose|i: int| 0 <= i < ss.len() && (#[trigger] ss[i]).contains(p);
            if i == 0 {
                let k = choose|k: int| 0 <= k < ss[0].len() && ss[0][k] == p;
                assert(f[k] == p);
            } else {
                assert(rest[i - 1] == ss[i]);
                assert(rest.flatten().contains(p));
                let k = choose|k: int| 0 <= k < rest.flatten().len() && rest.flatten()[k] == p;
                assert(f[k + ss[0].len()] == p);
            }
        }
    }
}

/// AND semantics: when some pattern matched nowhere, nothing is reported;
/// otherwise a line is reported exactly when some pattern has a match that
/// starts on it.
pub proof fn lemma_and_semantics(
    b: Seq<u8>,
    ss: Seq<Seq<usize>>,
    include_text: bool,
    r: Seq<SearchLineResult>,
)
    requires
        search_outcome(b, ss, include_text, r),
    ensures
        (exists|i: int| 0 <= i < ss.len() && (#[trigger] ss[i]).len() == 0) ==> r.len() == 0,
        all_nonempty(ss) ==> forall|line: int| has_line(r, line) <==> matched_on_line(b, ss, line),
{
    if all_nonempty(ss) {
        let f = ss.flatten();
        assert forall|line: int| has_line(r, line) <==> matched_on_line(b, ss, line) by {
            if has_line(r, line) {
                let k = choose|k: int| 0 <= k < r.len() && r[k].line == line;
                assert(from_some_position(b, f, include_text, r[k]));
                let p = choose|p: usize| entry_for(b, f, include_text, r[k], p);
                lemma_flatten_contains(ss, p);
                let i = choose|i: int| 0 <= i < ss.len() && (#[trigger] ss[i]).contains(p);
                assert(ss[i].contains(p) && line_of(b, p as int) == line);
            }
            if matched_on_line(b, ss, line) {
                let (i, p) = choose|i: int, p: usize|
                    0 <= i < ss.len() && ss[i].contains(p) && line_of(b, p as int) == line;
                lemma_flatten_contains(ss, p);
                assert(f.contains(p));
            }
        }
    }
}

} // verus!
