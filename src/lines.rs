//! Line numbering and line text over a byte buffer.

use vstd::prelude::*;

verus! {

/// The line-feed byte that separates lines.
pub const NEWLINE: u8 = 10;

/// The carriage-return byte dropped from the end of a line's text.
pub const CARRIAGE_RETURN: u8 = 13;

/// How many times `x` occurs in `s`.
pub open spec fn count_of(s: Seq<u8>, x: u8) -> nat
    decreases s.len(),
{
    if s.len() == 0 {
        0
    } else {
        count_of(s.drop_last(), x) + if s.last() == x { 1nat } else { 0nat }
    }
}

/// Relies on memchr::memchr_iter, whose iterator yields each position of the
/// needle in the haystack once: its count is the number of occurrences.
#[verifier::external_body]
fn count_byte(needle: u8, haystack: &[u8]) -> (r: usize)
    ensures
        r == count_of(haystack@, needle),
{
    memchr::memchr_iter(needle, haystack).count()
}

/// A buffer holds a byte no more often than it has bytes: one shorter than
/// `u32::MAX` meets the bound on newlines that line numbering needs.
pub proof fn lemma_count_at_most_len(s: Seq<u8>, x: u8)
    ensures
        count_of(s, x) <= s.len(),
    decreases s.len(),
{
    if s.len() > 0 {
        lemma_count_at_most_len(s.drop_last(), x);
    }
}

/// The line number (from 1) of byte offset `pos`: one more than the
/// newlines before it.
pub open spec fn line_of(b: Seq<u8>, pos: int) -> int {
    1 + count_of(b.subrange(0, pos), NEWLINE) as int
}

/// Offset where the line holding `pos` begins: just past the last newline
/// before `pos`, or 0.
pub open spec fn line_start(b: Seq<u8>, pos: int) -> int
    decreases pos,
{
    if pos <= 0 {
        0
    } else if b[pos - 1] == NEWLINE {
        pos
    } else {
        line_start(b, pos - 1)
    }
}

/// Offset where the line holding `pos` ends: the first newline at or after
/// `pos`, or the end of the buffer.
pub open spec fn line_end(b: Seq<u8>, pos: int) -> int
    decreases b.len() - pos,
{
    if pos >= b.len() {
        b.len() as int
    } else if b[pos] == NEWLINE {
        pos
    } else {
        line_end(b, pos + 1)
    }
}

/// `s` without one trailing carriage return, if it has one.
pub open spec fn strip_cr(s: Seq<u8>) -> Seq<u8> {
    if s.len() > 0 && s.last() == CARRIAGE_RETURN {
        s.drop_last()
    } else {
        s
    }
}

/// The characters that decoding `bytes` as UTF-8 gives, each invalid
/// sequence replaced by U+FFFD.
pub uninterp spec fn lossy_text(bytes: Seq<u8>) -> Seq<char>;

/// The text of the line that holds `pos`: its bytes without the newline and
/// without one trailing carriage return, decoded permissively.
pub open spec fn line_text(b: Seq<u8>, pos: int) -> Seq<char> {
    lossy_text(strip_cr(b.subrange(line_start(b, pos), line_end(b, pos))))
}

/// Relies on memchr::memchr: the first index of the needle, if any.
pub assume_specification[ memchr::memchr ](needle: u8, haystack: &[u8]) -> (r: Option<usize>)
    ensures
        r matches Some(i) ==> i < haystack@.len() && haystack@[i as int] == needle && forall|j: int|
            0 <= j < i ==> haystack@[j] != needle,
        r is None ==> forall|j: int| 0 <= j < haystack@.len() ==> haystack@[j] != needle,
;

/// Relies on memchr::memrchr: the last index of the needle, if any.
pub assume_specification[ memchr::memrchr ](needle: u8, haystack: &[u8]) -> (r: Option<usize>)
    ensures
        r matches Some(i) ==> i < haystack@.len() && haystack@[i as int] == needle && forall|j: int|
            i < j < haystack@.len() ==> haystack@[j] != needle,
        r is None ==> forall|j: int| 0 <= j < haystack@.len() ==> haystack@[j] != needle,
;

/// Relies on String::from_utf8_lossy, which replaces each invalid sequence
/// and depends on the bytes alone.
#[verifier::external_body]
fn decode_lossy(bytes: &[u8]) -> (r: String)
    ensures
        r@ == lossy_text(bytes@),
{
    String::from_utf8_lossy(bytes).into_owned()
}

proof fn lemma_line_start_at(b: Seq<u8>, pos: int, k: int)
    requires
        0 <= k <= pos <= b.len(),
        k == 0 || b[k - 1] == NEWLINE,
        forall|j: int| k <= j < pos ==> b[j] != NEWLINE,
    ensures
        line_start(b, pos) == k,
    decreases pos,
{
    if pos > k {
        lemma_line_start_at(b, pos - 1, k);
    }
}

proof fn lemma_line_end_at(b: Seq<u8>, pos: int, k: int)
    requires
        0 <= pos <= k <= b.len(),
        k == b.len() || b[k] == NEWLINE,
        forall|j: int| pos <= j < k ==> b[j] != NEWLINE,
    ensures
        line_end(b, pos) == k,
    decreases k - pos,
{
    if pos < k {
        lemma_line_end_at(b, pos + 1, k);
    }
}

/// The text of the line that holds byte offset `pos`, without its line
/// ending.
pub fn extract_line_text(bytes: &[u8], pos: usize) -> (r: String)
    requires
        pos <= bytes@.len(),
    ensures
        r@ == line_text(bytes@, pos as int),
{
    let before = &bytes[0..pos];
    let line_start: usize = match memchr::memrchr(NEWLINE, before) {
        Some(i) => i + 1,
        None => 0,
    };
    proof {
        assert forall|j: int| line_start <= j < pos implies bytes@[j] != NEWLINE by {
            assert(bytes@[j] == before@[j]);
        }
        lemma_line_start_at(bytes@, pos as int, line_start as int);
    }
    let after = &bytes[pos..bytes.len()];
    let line_end: usize = match memchr::memchr(NEWLINE, after) {
        Some(i) => pos + i,
        None => bytes.len(),
    };
    proof {
        assert forall|j: int| pos <= j < line_end implies bytes@[j] != NEWLINE by {
            assert(bytes@[j] == after@[j - pos]);
        }
        lemma_line_end_at(bytes@, pos as int, line_end as int);
    }
    let mut end: usize = line_end;
    if end > line_start && bytes[end - 1] == CARRIAGE_RETURN {
        end = end - 1;
    }
    let line = &bytes[line_start..end];
    proof {
        let whole = bytes@.subrange(line_start as int, line_end as int);
        assert(line@ == strip_cr(whole)) by {
            if whole.len() > 0 && whole.last() == CARRIAGE_RETURN {
                assert(line@ =~= whole.drop_last());
            } else {
                assert(line@ =~= whole);
            }
        }
    }
    decode_lossy(line)
}

/// One reported line: its number (from 1) and its text, or an empty text
/// when the text was not asked for.
#[derive(Debug, PartialEq, Eq)]
pub struct SearchLineResult {
    pub line: u32,
    pub text: String,
}

impl View for SearchLineResult {
    type V = (u32, Seq<char>);

    open spec fn view(&self) -> (u32, Seq<char>) {
        (self.line, self.text@)
    }
}

/// Every element is smaller than the next one.
pub open spec fn strictly_ascending(s: Seq<usize>) -> bool {
    forall|i: int, j: int| 0 <= i < j < s.len() ==> s[i] < s[j]
}

/// `p` is the smallest of the positions in `ps` that lie on its line.
pub open spec fn first_on_line(b: Seq<u8>, ps: Seq<usize>, p: usize) -> bool {
    forall|q: usize| #[trigger]
        ps.contains(q) && line_of(b, q as int) == line_of(b, p as int) ==> p <= q
}

/// `e` is the result that position `p` of `ps` gives: `p` is the first of
/// `ps` on its line, and `e` holds that line's number and, if asked, text.
pub open spec fn entry_for(
    b: Seq<u8>,
    ps: Seq<usize>,
    include_text: bool,
    e: SearchLineResult,
    p: usize,
) -> bool {
    &&& ps.contains(p)
    &&& first_on_line(b, ps, p)
    &&& e.line == line_of(b, p as int)
    &&& e.text@ == if include_text {
        line_text(b, p as int)
    } else {
        Seq::<char>::empty()
    }
}

/// `e` is the result that some position of `ps` gives.
pub open spec fn from_some_position(b: Seq<u8>, ps: Seq<usize>, include_text: bool, e: SearchLineResult) -> bool {
    exists|p: usize| entry_for(b, ps, include_text, e, p)
}

/// Some result of `r` is for line `line`.
pub open spec fn has_line(r: Seq<SearchLineResult>, line: int) -> bool {
    exists|i: int| 0 <= i < r.len() && r[i].line == line
}

/// `r` lists, in ascending order and once each, the lines that hold a
/// position of `ps`; each with the text of that line when `include_text`
/// holds, and with an empty text otherwise.
pub open spec fn is_resolution(
    b: Seq<u8>,
    ps: Seq<usize>,
    include_text: bool,
    r: Seq<SearchLineResult>,
) -> bool {
    &&& forall|i: int, j: int| 0 <= i < j < r.len() ==> r[i].line < r[j].line
    &&& forall|i: int| 0 <= i < r.len() ==> from_some_position(b, ps, include_text, #[trigger] r[i])
    &&& forall|p: usize| #[trigger] ps.contains(p) ==> has_line(r, line_of(b, p as int))
}

proof fn lemma_count_append(a: Seq<u8>, c: Seq<u8>, x: u8)
    ensures
        count_of(a + c, x) == count_of(a, x) + count_of(c, x),
    decreases c.len(),
{
    if c.len() == 0 {
        assert(a + c =~= a);
    } else {
        lemma_count_append(a, c.drop_last(), x);
        assert((a + c).drop_last() =~= a + c.drop_last());
    }
}

/// The newlines before `j` are those before `i` and those from `i` to `j`.
proof fn lemma_count_split(s: Seq<u8>, i: int, j: int, x: u8)
    requires
        0 <= i <= j <= s.len(),
    ensures
        count_of(s.subrange(0, j), x) == count_of(s.subrange(0, i), x) + count_of(s.subrange(i, j), x),
{
    lemma_count_append(s.subrange(0, i), s.subrange(i, j), x);
    assert(s.subrange(0, i) + s.subrange(i, j) =~= s.subrange(0, j));
}

/// Line numbers grow with the offset and never pass the buffer's last line.
proof fn lemma_line_of_monotone(b: Seq<u8>, p: int, q: int)
    requires
        0 <= p <= q <= b.len(),
    ensures
        line_of(b, p) <= line_of(b, q) <= 1 + count_of(b, NEWLINE),
{
    lemma_count_split(b, p, q, NEWLINE);
    lemma_count_split(b, q, b.len() as int, NEWLINE);
    assert(b.subrange(0, b.len() as int) =~= b);
}

/// Relies on slice::sort_unstable: the same elements, in ascending order.
#[verifier::external_body]
fn sort_positions(v: &mut Vec<usize>)
    ensures
        final(v)@.to_multiset() == old(v)@.to_multiset(),
        forall|i: int, j: int| 0 <= i <= j < final(v)@.len() ==> final(v)@[i] <= final(v)@[j],
{
    v.sort_unstable();
}

/// Relies on Vec::dedup: it drops each element equal to the one before it,
/// so on a sorted vector one of each value stays, in order.
#[verifier::external_body]
fn dedup_positions(v: &mut Vec<usize>)
    requires
        forall|i: int, j: int| 0 <= i <= j < old(v)@.len() ==> old(v)@[i] <= old(v)@[j],
    ensures
        strictly_ascending(final(v)@),
        forall|x: usize| final(v)@.contains(x) <==> old(v)@.contains(x),
{
    v.dedup();
}

/// Each result `r[k]` is the one that position `wit[k]` of `ps` gives.
spec fn witnessed(
    b: Seq<u8>,
    ps: Seq<usize>,
    include_text: bool,
    r: Seq<SearchLineResult>,
    wit: Seq<usize>,
) -> bool {
    &&& wit.len() == r.len()
    &&& forall|k: int| 0 <= k < r.len() ==> entry_for(b, ps, include_text, #[trigger] r[k], wit[k])
}

/// Appending a position beyond all others keeps earlier results first on
/// their lines.
proof fn lemma_witnessed_extend(
    b: Seq<u8>,
    ps: Seq<usize>,
    pos: usize,
    include_text: bool,
    r: Seq<SearchLineResult>,
    wit: Seq<usize>,
)
    requires
        witnessed(b, ps, include_text, r, wit),
        forall|q: usize| ps.contains(q) ==> q < pos,
    ensures
        witnessed(b, ps.push(pos), include_text, r, wit),
{
    let next = ps.push(pos);
    assert forall|k: int| 0 <= k < r.len() implies entry_for(b, next, include_text, #[trigger] r[k], wit[k]) by {
        assert(entry_for(b, ps, include_text, r[k], wit[k]));
        let w = wit[k];
        let j = choose|j: int| 0 <= j < ps.len() && ps[j] == w;
        assert(next[j] == w);
        assert forall|q: usize| #[trigger]
            next.contains(q) && line_of(b, q as int) == line_of(b, w as int) implies w <= q by {
            if q != pos {
                let jj = choose|jj: int| 0 <= jj < next.len() && next[jj] == q;
                assert(ps[jj] == q);
                assert(ps.contains(q));
            }
        }
    }
}

/// A position past all others, on a line after all of theirs, is the first
/// on its line.
proof fn lemma_first_on_new_line(b: Seq<u8>, ps: Seq<usize>, pos: usize)
    requires
        forall|q: usize| ps.contains(q) ==> line_of(b, q as int) < line_of(b, pos as int),
    ensures
        first_on_line(b, ps.push(pos), pos),
{
    let next = ps.push(pos);
    assert forall|q: usize| #[trigger]
        next.contains(q) && line_of(b, q as int) == line_of(b, pos as int) implies pos <= q by {
        if q != pos {
            let j = choose|j: int| 0 <= j < next.len() && next[j] == q;
            assert(ps[j] == q);
            assert(ps.contains(q));
        }
    }
}

/// An entry for `p` stays one when the positions are replaced by a
/// sequence holding the same values.
proof fn lemma_entry_same_values(
    b: Seq<u8>,
    ps: Seq<usize>,
    qs: Seq<usize>,
    include_text: bool,
    e: SearchLineResult,
    p: usize,
)
    requires
        entry_for(b, ps, include_text, e, p),
        forall|x: usize| ps.contains(x) <==> qs.contains(x),
    ensures
        entry_for(b, qs, include_text, e, p),
{
    assert forall|q: usize| #[trigger]
        qs.contains(q) && line_of(b, q as int) == line_of(b, p as int) implies p <= q by {
        assert(ps.contains(q));
    }
}

/// Witnessed results stay witnessed by the same positions in any sequence
/// with the same values.
proof fn lemma_witnessed_entries(
    b: Seq<u8>,
    ps: Seq<usize>,
    qs: Seq<usize>,
    include_text: bool,
    r: Seq<SearchLineResult>,
    wit: Seq<usize>,
)
    requires
        witnessed(b, ps, include_text, r, wit),
        forall|x: usize| ps.contains(x) <==> qs.contains(x),
    ensures
        forall|i: int| 0 <= i < r.len() ==> from_some_position(b, qs, include_text, #[trigger] r[i]),
{
    assert forall|k: int| 0 <= k < r.len() implies from_some_position(b, qs, include_text, #[trigger] r[k]) by {
        lemma_entry_same_values(b, ps, qs, include_text, r[k], wit[k]);
    }
}

/// Results that cover each element of `ps` cover each value of a sequence
/// with the same values.
proof fn lemma_covered(b: Seq<u8>, ps: Seq<usize>, qs: Seq<usize>, r: Seq<SearchLineResult>)
    requires
        forall|j: int| 0 <= j < ps.len() ==> has_line(r, line_of(b, #[trigger] ps[j] as int)),
        forall|x: usize| ps.contains(x) <==> qs.contains(x),
    ensures
        forall|p: usize| #[trigger] qs.contains(p) ==> has_line(r, line_of(b, p as int)),
{
    assert forall|p: usize| #[trigger] qs.contains(p) implies has_line(r, line_of(b, p as int)) by {
        assert(ps.contains(p));
        let j = choose|j: int| 0 <= j < ps.len() && ps[j] == p;
        assert(has_line(r, line_of(b, ps[j] as int)));
    }
}

/// Turns match positions into the lines that hold them: sorted, one result
/// per line, numbered from 1, with the line's text when `include_lines`
/// holds. `positions` is left sorted, each value once.
pub fn positions_to_line_results(
    bytes: &[u8],
    positions: &mut Vec<usize>,
    include_lines: bool,
) -> (r: Vec<SearchLineResult>)
    requires
        forall|i: int| 0 <= i < old(positions)@.len() ==> old(positions)@[i] <= bytes@.len(),
        count_of(bytes@, NEWLINE) < u32::MAX,
    ensures
        strictly_ascending(final(positions)@),
        forall|p: usize| final(positions)@.contains(p) <==> old(positions)@.contains(p),
        is_resolution(bytes@, old(positions)@, include_lines, r@),
{
    let ghost original = positions@;
    sort_positions(positions);
    proof {
        assert forall|x: usize| positions@.contains(x) <==> original.contains(x) by {
            vstd::seq_lib::to_multiset_contains(positions@, x);
            vstd::seq_lib::to_multiset_contains(original, x);
        }
    }
    dedup_positions(positions);
    let ghost sorted = positions@;
    proof {
        assert forall|j: int| 0 <= j < sorted.len() implies sorted[j] <= bytes@.len() by {
            assert(sorted.contains(sorted[j]));
            assert(original.contains(sorted[j]));
        }
    }
    let mut results: Vec<SearchLineResult> = Vec::new();
    let mut current_line: u32 = 1;
    let mut last_pos: usize = 0;
    let ghost mut wit: Seq<usize> = Seq::empty();
    let mut i: usize = 0;
    while i < positions.len()
        invariant
            positions@ == sorted,
            strictly_ascending(sorted),
            forall|j: int| 0 <= j < sorted.len() ==> sorted[j] <= bytes@.len(),
            count_of(bytes@, NEWLINE) < u32::MAX,
            i <= sorted.len(),
            last_pos <= bytes@.len(),
            current_line == line_of(bytes@, last_pos as int),
            i == 0 ==> last_pos == 0 && results@.len() == 0,
            i > 0 ==> last_pos == sorted[i - 1] && results@.len() > 0
                && results@.last().line == current_line,
            witnessed(bytes@, sorted.subrange(0, i as int), include_lines, results@, wit),
            forall|k: int, l: int| 0 <= k < l < results@.len() ==> results@[k].line < results@[l].line,
            forall|j: int| 0 <= j < i ==> has_line(results@, line_of(bytes@, #[trigger] sorted[j] as int)),
        decreases sorted.len() - i,
    {
        let pos = positions[i];
        let ghost pre = sorted.subrange(0, i as int);
        let ghost next = sorted.subrange(0, i + 1);
        proof {
            lemma_count_split(bytes@, last_pos as int, pos as int, NEWLINE);
            lemma_line_of_monotone(bytes@, pos as int, bytes@.len() as int);
            assert(next =~= pre.push(pos));
            assert forall|q: usize| pre.contains(q) implies q < pos && line_of(bytes@, q as int)
                <= line_of(bytes@, last_pos as int) by {
                let j = choose|j: int| 0 <= j < pre.len() && pre[j] == q;
                assert(sorted[j] < sorted[i as int]);
                if j < i - 1 {
                    assert(sorted[j] < sorted[i - 1]);
                }
                lemma_line_of_monotone(bytes@, q as int, last_pos as int);
            }
            lemma_witnessed_extend(bytes@, pre, pos, include_lines, results@, wit);
        }
        let n = count_byte(NEWLINE, &bytes[last_pos..pos]);
        let ghost prev_line = current_line;
        current_line = current_line + n as u32;
        last_pos = pos;
        if results.len() == 0 || results[results.len() - 1].line != current_line {
            let text = if include_lines {
                extract_line_text(bytes, pos)
            } else {
                String::new()
            };
            let ghost old_results = results@;
            results.push(SearchLineResult { line: current_line, text });
            proof {
                if i > 0 {
                    lemma_line_of_monotone(bytes@, sorted[i - 1] as int, pos as int);
                }
                lemma_first_on_new_line(bytes@, pre, pos);
                wit = wit.push(pos);
                assert(next[i as int] == pos);
                assert(entry_for(bytes@, next, include_lines, results@[old_results.len() as int], pos));
                assert forall|k: int| 0 <= k < results@.len() implies entry_for(
                    bytes@,
                    next,
                    include_lines,
                    #[trigger] results@[k],
                    wit[k],
                ) by {
                    if k < old_results.len() {
                        assert(results@[k] == old_results[k]);
                    }
                }
                assert forall|j: int| 0 <= j < i + 1 implies has_line(
                    results@,
                    line_of(bytes@, #[trigger] sorted[j] as int),
                ) by {
                    if j < i {
                        let k = choose|k: int| 0 <= k < old_results.len()
                            && old_results[k].line == line_of(bytes@, sorted[j] as int);
                        assert(results@[k] == old_results[k]);
                    } else {
                        assert(results@[old_results.len() as int].line == line_of(bytes@, sorted[j] as int));
                    }
                }
            }
        } else {
            proof {
                assert(results@[results@.len() - 1].line == line_of(bytes@, sorted[i as int] as int));
                assert(has_line(results@, line_of(bytes@, sorted[i as int] as int)));
            }
        }
        i += 1;
    }
    proof {
        assert(sorted.subrange(0, sorted.len() as int) =~= sorted);
        lemma_witnessed_entries(bytes@, sorted, original, include_lines, results@, wit);
        lemma_covered(bytes@, sorted, original, results@);
    }
    results
}

/// The views of a list of results.
pub open spec fn result_views(r: Seq<SearchLineResult>) -> Seq<(u32, Seq<char>)> {
    r.map_values(|e: SearchLineResult| e@)
}

proof fn lemma_sorted_lines_equal(r1: Seq<SearchLineResult>, r2: Seq<SearchLineResult>)
    requires
        forall|i: int, j: int| 0 <= i < j < r1.len() ==> r1[i].line < r1[j].line,
        forall|i: int, j: int| 0 <= i < j < r2.len() ==> r2[i].line < r2[j].line,
        forall|k: int| 0 <= k < r1.len() ==> has_line(r2, (#[trigger] r1[k]).line as int),
        forall|k: int| 0 <= k < r2.len() ==> has_line(r1, (#[trigger] r2[k]).line as int),
    ensures
        r1.len() == r2.len(),
        forall|k: int| 0 <= k < r1.len() ==> (#[trigger] r1[k]).line == r2[k].line,
    decreases r1.len(),
{
    if r1.len() == 0 {
        if r2.len() > 0 {
            assert(has_line(r1, r2[0].line as int));
        }
    } else if r2.len() == 0 {
        assert(has_line(r2, r1[0].line as int));
    } else {
        assert(has_line(r2, r1[0].line as int));
        assert(has_line(r1, r2[0].line as int));
        let j1 = choose|j: int| 0 <= j < r2.len() && r2[j].line == r1[0].line;
        let j2 = choose|j: int| 0 <= j < r1.len() && r1[j].line == r2[0].line;
        if j1 > 0 {
            assert(r2[0].line < r2[j1].line);
        }
        if j2 > 0 {
            assert(r1[0].line < r1[j2].line);
        }
        assert(r1[0].line == r2[0].line);
        let t1 = r1.drop_first();
        let t2 = r2.drop_first();
        assert forall|k: int| 0 <= k < t1.len() implies has_line(t2, (#[trigger] t1[k]).line as int) by {
            assert(r1[0].line < r1[k + 1].line);
            assert(has_line(r2, r1[k + 1].line as int));
            let j = choose|j: int| 0 <= j < r2.len() && r2[j].line == r1[k + 1].line;
            assert(t2[j - 1].line == t1[k].line);
        }
        assert forall|k: int| 0 <= k < t2.len() implies has_line(t1, (#[trigger] t2[k]).line as int) by {
            assert(r2[0].line < r2[k + 1].line);
            assert(has_line(r1, r2[k + 1].line as int));
            let j = choose|j: int| 0 <= j < r1.len() && r1[j].line == r2[k + 1].line;
            assert(t1[j - 1].line == t2[k].line);
        }
        lemma_sorted_lines_equal(t1, t2);
        assert forall|k: int| 0 <= k < r1.len() implies (#[trigger] r1[k]).line == r2[k].line by {
            if k > 0 {
                assert(r1[k] == t1[k - 1]);
                assert(r2[k] == t2[k - 1]);
            }
        }
    }
}

/// A resolution is unique: two lists that both resolve the same positions
/// of the same bytes, with the same choice of text, hold the same lines with
/// the same texts.
pub proof fn lemma_resolution_unique(
    b: Seq<u8>,
    ps: Seq<usize>,
    include_text: bool,
    r1: Seq<SearchLineResult>,
    r2: Seq<SearchLineResult>,
)
    requires
        is_resolution(b, ps, include_text, r1),
        is_resolution(b, ps, include_text, r2),
    ensures
        result_views(r1) == result_views(r2),
{
    assert forall|k: int| 0 <= k < r1.len() implies has_line(r2, (#[trigger] r1[k]).line as int) by {
        assert(from_some_position(b, ps, include_text, r1[k]));
        let p = choose|p: usize| entry_for(b, ps, include_text, r1[k], p);
        assert(ps.contains(p));
    }
    assert forall|k: int| 0 <= k < r2.len() implies has_line(r1, (#[trigger] r2[k]).line as int) by {
        assert(from_some_position(b, ps, include_text, r2[k]));
        let p = choose|p: usize| entry_for(b, ps, include_text, r2[k], p);
        assert(ps.contains(p));
    }
    lemma_sorted_lines_equal(r1, r2);
    assert forall|k: int| 0 <= k < r1.len() implies (#[trigger] r1[k])@ == r2[k]@ by {
        assert(from_some_position(b, ps, include_text, r1[k]));
        assert(from_some_position(b, ps, include_text, r2[k]));
        let p1 = choose|p: usize| entry_for(b, ps, include_text, r1[k], p);
        let p2 = choose|p: usize| entry_for(b, ps, include_text, r2[k], p);
        assert(ps.contains(p1) && line_of(b, p1 as int) == line_of(b, p2 as int));
        assert(ps.contains(p2) && line_of(b, p2 as int) == line_of(b, p1 as int));
        assert(p1 <= p2);
        assert(p2 <= p1);
    }
    assert(result_views(r1) =~= result_views(r2));
}

} // verus!
