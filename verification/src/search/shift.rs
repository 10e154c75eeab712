//! Why the scanner may skip: the shifts it takes pass over no occurrence.

use vstd::prelude::*;
use crate::search::pattern::{
    back_run, code, full_shift_entry, good_suffix_entry, is_border, last_occurrence,
    lemma_back_run_bound, lemma_last_occurrence, lemma_longest_border_within,
    lemma_rightmost_suffix_end, matches_at, matches_below, naive_scan, suffix_run,
};

verus! {

/// With the pattern laid on the text at offset `start`, comparing backwards
/// from the pattern's last symbol first fails at pattern position `pos`.
pub open spec fn mismatch_at(p: Seq<char>, t: Seq<char>, start: int, pos: int) -> bool {
    &&& 0 <= start
    &&& start + p.len() <= t.len()
    &&& 0 <= pos < p.len()
    &&& t[start + pos] != p[pos]
    &&& forall|j: int| pos < j < p.len() ==> #[trigger] p[j] == t[start + j]
}

/// The shift that brings the last earlier occurrence of the text's symbol
/// under it, or moves the pattern just past that symbol.
pub open spec fn bad_character_shift(p: Seq<char>, t: Seq<char>, start: int, pos: int) -> int {
    pos - last_occurrence(p, code(t[start + pos]), pos)
}

/// The shift that brings the rightmost earlier occurrence of the matched
/// suffix under the text it matched, or else the longest border that fits
/// into it; `1` where nothing has matched.
pub open spec fn good_suffix_shift(p: Seq<char>, pos: int) -> int {
    if pos + 1 == p.len() {
        1
    } else if good_suffix_entry(p, pos + 1) == -1 {
        p.len() - full_shift_entry(p, pos + 1)
    } else {
        p.len() - good_suffix_entry(p, pos + 1) - 1
    }
}

/// The shift the scanner takes after a mismatch: the larger of the two.
pub open spec fn mismatch_shift(p: Seq<char>, t: Seq<char>, start: int, pos: int) -> int {
    if bad_character_shift(p, t, start, pos) >= good_suffix_shift(p, pos) {
        bad_character_shift(p, t, start, pos)
    } else {
        good_suffix_shift(p, pos)
    }
}

/// An occurrence at offset `i` puts pattern symbol `k` on text symbol `i + k`.
pub proof fn lemma_match_symbol(p: Seq<char>, t: Seq<char>, i: int, k: int)
    requires
        matches_at(p, t, i),
        0 <= k < p.len(),
    ensures
        t[i + k] == p[k],
{
    assert(t.subrange(i, i + p.len())[k] == t[i + k]);
}

/// A run backwards over an equal window that ends at two different symbols,
/// or at the start of the sequence, has exactly the window's length.
pub proof fn lemma_back_run_exact(s: Seq<char>, i: int, j: int, len: int)
    requires
        0 <= len,
        len - 1 <= i < s.len(),
        len - 1 <= j < s.len(),
        s.subrange(i + 1 - len, i + 1) == s.subrange(j + 1 - len, j + 1),
        i - len < 0 || j - len < 0 || s[i - len] != s[j - len],
    ensures
        back_run(s, i, j) == len,
    decreases len,
{
    if len > 0 {
        let a = s.subrange(i + 1 - len, i + 1);
        let b = s.subrange(j + 1 - len, j + 1);
        assert(a[len - 1] == s[i]);
        assert(b[len - 1] == s[j]);
        assert(s.subrange(i + 1 - len, i) =~= a.subrange(0, len - 1));
        assert(s.subrange(j + 1 - len, j) =~= b.subrange(0, len - 1));
        lemma_back_run_exact(s, i - 1, j - 1, len - 1);
    }
}

/// Both shifts move the pattern forward, and by no more than its length.
pub proof fn lemma_shift_bounds(p: Seq<char>, t: Seq<char>, start: int, pos: int)
    requires
        0 <= start,
        start + p.len() <= t.len(),
        0 <= pos < p.len(),
    ensures
        1 <= bad_character_shift(p, t, start, pos) <= pos + 1,
        1 <= good_suffix_shift(p, pos) <= p.len(),
        pos + 1 < p.len() && good_suffix_entry(p, pos + 1) != -1 ==> good_suffix_shift(p, pos)
            <= pos + 1,
{
    let n = p.len() as int;
    lemma_last_occurrence(p, code(t[start + pos]), pos);
    if pos + 1 < n {
        let g = good_suffix_entry(p, pos + 1);
        lemma_rightmost_suffix_end(p, n - pos - 1, n - 1);
        lemma_longest_border_within(p, n - pos - 1);
        if g != -1 {
            lemma_back_run_bound(p, g, n - 1);
        }
    }
}

/// The bad-character shift passes over no occurrence.
pub proof fn lemma_bad_character_shift_safe(
    p: Seq<char>,
    t: Seq<char>,
    start: int,
    pos: int,
    d: int,
)
    requires
        mismatch_at(p, t, start, pos),
        0 <= d < bad_character_shift(p, t, start, pos),
    ensures
        !matches_at(p, t, start + d),
{
    if matches_at(p, t, start + d) {
        lemma_last_occurrence(p, code(t[start + pos]), pos);
        lemma_match_symbol(p, t, start + d, pos - d);
        assert(code(p[pos - d]) == code(t[start + pos]));
        assert(false);
    }
}

/// The good-suffix shift passes over no occurrence.
pub proof fn lemma_good_suffix_shift_safe(p: Seq<char>, t: Seq<char>, start: int, pos: int, d: int)
    requires
        mismatch_at(p, t, start, pos),
        0 <= d < good_suffix_shift(p, pos),
    ensures
        !matches_at(p, t, start + d),
{
    let n = p.len() as int;
    if matches_at(p, t, start + d) {
        if d == 0 {
            lemma_match_symbol(p, t, start, pos);
            assert(false);
        }
        let len = n - pos - 1;
        let g = good_suffix_entry(p, pos + 1);
        lemma_rightmost_suffix_end(p, len, n - 1);
        lemma_longest_border_within(p, len);
        lemma_shift_bounds(p, t, start, pos);
        if d <= pos {
            // The occurrence repeats the matched suffix, ending at `e`, behind
            // another symbol than the one that failed.
            let e = n - 1 - d;
            let a = p.subrange(e + 1 - len, e + 1);
            let b = p.subrange(n - len, n);
            assert forall|u: int| 0 <= u < len implies a[u] == b[u] by {
                let j = n - len + u;
                lemma_match_symbol(p, t, start + d, j - d);
                assert(p[j] == t[start + j]);
            }
            assert(a =~= b);
            lemma_match_symbol(p, t, start + d, pos - d);
            lemma_back_run_exact(p, e, n - 1, len);
            assert(suffix_run(p, e) == len);
            assert(false);
        } else {
            // The occurrence starts inside the matched suffix: a border.
            let w = n - d;
            let a = p.subrange(0, w);
            let b = p.subrange(n - w, n);
            assert forall|u: int| 0 <= u < w implies a[u] == b[u] by {
                lemma_match_symbol(p, t, start + d, u);
                assert(p[d + u] == t[start + (d + u)]);
            }
            assert(a =~= b);
            assert(is_border(p, w));
            assert(false);
        }
    }
}

/// The shift taken after a mismatch passes over no occurrence.
pub proof fn lemma_mismatch_shift_safe(p: Seq<char>, t: Seq<char>, start: int, pos: int, d: int)
    requires
        mismatch_at(p, t, start, pos),
        0 <= d < mismatch_shift(p, t, start, pos),
    ensures
        !matches_at(p, t, start + d),
{
    if d < bad_character_shift(p, t, start, pos) {
        lemma_bad_character_shift_safe(p, t, start, pos, d);
    } else {
        lemma_good_suffix_shift_safe(p, t, start, pos, d);
    }
}

/// A shift beyond the failed position lays a border of the pattern on the
/// end of the text that has just matched: at the next alignment those text
/// symbols are known to agree with the pattern.
pub proof fn lemma_long_shift_overlap(p: Seq<char>, t: Seq<char>, start: int, pos: int, x: int)
    requires
        mismatch_at(p, t, start, pos),
        mismatch_shift(p, t, start, pos) > pos + 1,
        start + mismatch_shift(p, t, start, pos) <= x < start + p.len(),
    ensures
        t[x] == p[x - start - mismatch_shift(p, t, start, pos)],
{
    let n = p.len() as int;
    let shift = mismatch_shift(p, t, start, pos);
    lemma_shift_bounds(p, t, start, pos);
    lemma_longest_border_within(p, n - pos - 1);
    let f = full_shift_entry(p, pos + 1) as int;
    assert(shift == n - f);
    let u = x - start - shift;
    assert(p.subrange(0, f)[u] == p[u]);
    assert(p.subrange(n - f, n)[u] == p[n - f + u]);
    assert(p[x - start] == t[start + (x - start)]);
}

/// From position `from` on the pattern repeats one symbol.
pub open spec fn constant_from(p: Seq<char>, from: int) -> bool {
    forall|j: int| from <= j < p.len() && 0 <= j ==> #[trigger] p[j] == p[p.len() - 1]
}

/// A pattern with a border whose symbols behind the border are all the
/// same, together with the border's last symbol, repeats that symbol
/// throughout.
pub proof fn lemma_constant_tail_spreads(p: Seq<char>, f: int, from: int, i: int)
    requires
        is_border(p, f),
        f < p.len(),
        from <= f,
        constant_from(p, from),
        0 <= i < p.len(),
    ensures
        p[i] == p[p.len() - 1],
    decreases p.len() - i,
{
    if i < from {
        let n = p.len() as int;
        assert(p.subrange(0, f)[i] == p[i]);
        assert(p.subrange(n - f, n)[i] == p[n - f + i]);
        lemma_constant_tail_spreads(p, f, from, n - f + i);
    }
}

/// Where the pattern occurs at one offset and, laid on the next offset, agrees
/// with the text from pattern position `from` on, it repeats one symbol from
/// `from` on.
pub proof fn lemma_agreement_after_match(p: Seq<char>, t: Seq<char>, start: int, from: int, j: int)
    requires
        matches_at(p, t, start - 1),
        start + p.len() <= t.len(),
        0 <= from,
        forall|x: int| from <= x < p.len() ==> #[trigger] p[x] == t[start + x],
        from <= j < p.len(),
    ensures
        p[j] == p[p.len() - 1],
    decreases p.len() - j,
{
    if j < p.len() - 1 {
        lemma_match_symbol(p, t, start - 1, j + 1);
        assert(p[j] == t[start + j]);
        lemma_agreement_after_match(p, t, start, from, j + 1);
    }
}

/// After an occurrence the pattern moves on by one position. If it has a
/// border that reaches to pattern position `from` or beyond, and it agrees
/// with the text from `from` on, it occurs at the new offset too.
pub proof fn lemma_boundary_after_match(p: Seq<char>, t: Seq<char>, start: int, from: int, f: int)
    requires
        matches_at(p, t, start - 1),
        start + p.len() <= t.len(),
        is_border(p, f),
        0 <= from <= f < p.len(),
        forall|x: int| from <= x < p.len() ==> #[trigger] p[x] == t[start + x],
    ensures
        matches_at(p, t, start),
{
    let n = p.len() as int;
    assert(constant_from(p, from)) by {
        assert forall|j: int| from <= j < n && 0 <= j implies #[trigger] p[j] == p[n - 1] by {
            lemma_agreement_after_match(p, t, start, from, j);
        }
    }
    let window = t.subrange(start, start + n);
    assert forall|j: int| 0 <= j < n implies window[j] == p[j] by {
        if j < from {
            lemma_match_symbol(p, t, start - 1, j + 1);
            lemma_constant_tail_spreads(p, f, from, j);
            lemma_constant_tail_spreads(p, f, from, j + 1);
        } else {
            assert(p[j] == t[start + j]);
        }
    }
    assert(window =~= p);
}

/// What is known of the text while a boundary `q` is in force, with the
/// pattern laid on the text at offset `start`.
///
/// The boundary was set by a shift that brought the pattern to offset
/// `anchor`, where a border of the pattern came to lie on the text up to `q`
/// that had matched. Since then the pattern has moved on only from one
/// occurrence to the next position.
#[verifier::opaque]
pub open spec fn boundary_known(p: Seq<char>, t: Seq<char>, start: int, q: int, anchor: int) -> bool {
    &&& anchor <= start
    &&& anchor <= q + 1
    &&& q + 1 - anchor < p.len()
    &&& is_border(p, q + 1 - anchor)
    &&& forall|x: int| anchor <= x <= q ==> #[trigger] t[x] == p[x - anchor]
    &&& anchor < start ==> matches_at(p, t, start - 1)
}

/// A shift beyond the failed position sets a boundary at the end of the text
/// that has just matched.
pub proof fn lemma_boundary_set(p: Seq<char>, t: Seq<char>, start: int, pos: int)
    requires
        mismatch_at(p, t, start, pos),
        mismatch_shift(p, t, start, pos) > pos + 1,
    ensures
        boundary_known(
            p,
            t,
            start + mismatch_shift(p, t, start, pos),
            start + p.len() - 1,
            start + mismatch_shift(p, t, start, pos),
        ),
{
    reveal(boundary_known);
    let n = p.len() as int;
    let shift = mismatch_shift(p, t, start, pos);
    let anchor = start + shift;
    lemma_shift_bounds(p, t, start, pos);
    lemma_longest_border_within(p, n - pos - 1);
    assert(shift == n - full_shift_entry(p, pos + 1));
    assert forall|x: int| anchor <= x <= start + n - 1 implies #[trigger] t[x] == p[x - anchor] by {
        lemma_long_shift_overlap(p, t, start, pos, x);
    }
}

/// With a boundary in force, a comparison that has come down to the boundary
/// without a mismatch has found an occurrence.
pub proof fn lemma_boundary_match(
    p: Seq<char>,
    t: Seq<char>,
    start: int,
    q: int,
    anchor: int,
    from: int,
)
    requires
        boundary_known(p, t, start, q, anchor),
        0 <= start,
        start + p.len() <= t.len(),
        from == q + 1 - start,
        0 < from < p.len(),
        forall|x: int| from <= x < p.len() ==> #[trigger] p[x] == t[start + x],
    ensures
        matches_at(p, t, start),
{
    reveal(boundary_known);
    if anchor < start {
        lemma_boundary_after_match(p, t, start, from, q + 1 - anchor);
    } else {
        let n = p.len() as int;
        let window = t.subrange(start, start + n);
        assert forall|j: int| 0 <= j < n implies window[j] == p[j] by {
            if j < from {
                assert(t[start + j] == p[start + j - anchor]);
            } else {
                assert(p[j] == t[start + j]);
            }
        }
        assert(window =~= p);
    }
}

/// A boundary stays in force when the pattern moves on by one position from
/// an occurrence.
pub proof fn lemma_boundary_kept(p: Seq<char>, t: Seq<char>, start: int, q: int, anchor: int)
    requires
        boundary_known(p, t, start, q, anchor),
        matches_at(p, t, start),
    ensures
        boundary_known(p, t, start + 1, q, anchor),
{
    reveal(boundary_known);
}

/// Where a stretch of offsets holds no occurrence, the occurrences below its
/// end are those below its start.
pub proof fn lemma_matches_below_skip(p: Seq<char>, t: Seq<char>, lo: int, hi: int)
    requires
        lo <= hi,
        forall|i: int| lo <= i < hi ==> !#[trigger] matches_at(p, t, i),
    ensures
        matches_below(p, t, hi) == matches_below(p, t, lo),
    decreases hi - lo,
{
    if lo < hi {
        lemma_matches_below_skip(p, t, lo, hi - 1);
    }
}

/// What `matches_below` lists: occurrences only, each below the limit, in
/// strictly ascending order, and every occurrence below the limit.
pub proof fn lemma_matches_below_lists(p: Seq<char>, t: Seq<char>, limit: int)
    requires
        limit <= usize::MAX + 1,
    ensures
        forall|i: int|
            0 <= i < matches_below(p, t, limit).len() ==> {
                &&& (#[trigger] matches_below(p, t, limit)[i]) < limit
                &&& matches_at(p, t, matches_below(p, t, limit)[i] as int)
            },
        forall|i: int, j: int|
            0 <= i < j < matches_below(p, t, limit).len() ==> matches_below(p, t, limit)[i]
                < matches_below(p, t, limit)[j],
        forall|o: int|
            0 <= o < limit && #[trigger] matches_at(p, t, o) ==> matches_below(
                p,
                t,
                limit,
            ).contains(o as usize),
    decreases limit,
{
    if limit > 0 {
        lemma_matches_below_lists(p, t, limit - 1);
        let before = matches_below(p, t, limit - 1);
        let now = matches_below(p, t, limit);
        if matches_at(p, t, limit - 1) {
            assert(now == before.push((limit - 1) as usize));
            assert forall|o: int| 0 <= o < limit && #[trigger] matches_at(p, t, o) implies now.contains(
                o as usize,
            ) by {
                if o < limit - 1 {
                    let i = choose|i: int| 0 <= i < before.len() && before[i] == o as usize;
                    assert(now[i] == o as usize);
                } else {
                    assert(now[before.len() as int] == o as usize);
                }
            }
        }
    }
}

/// What trying every offset finds in a text that a machine can hold: the
/// offsets of the occurrences of the pattern, all of them and nothing else,
/// in strictly ascending order.
pub proof fn lemma_naive_scan_lists(p: Seq<char>, t: Seq<char>)
    requires
        t.len() <= usize::MAX,
    ensures
        forall|i: int|
            0 <= i < naive_scan(p, t).len() ==> p.len() > 0 && matches_at(
                p,
                t,
                (#[trigger] naive_scan(p, t)[i]) as int,
            ),
        forall|i: int, j: int|
            0 <= i < j < naive_scan(p, t).len() ==> naive_scan(p, t)[i] < naive_scan(p, t)[j],
        forall|o: int|
            p.len() > 0 && #[trigger] matches_at(p, t, o) ==> naive_scan(p, t).contains(o as usize),
{
    if p.len() > 0 {
        lemma_matches_below_lists(p, t, t.len() - p.len() + 1);
    }
}

} // verus!
