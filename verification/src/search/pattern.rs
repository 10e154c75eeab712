//! The mathematical vocabulary of the matcher: runs, borders, occurrences.

use vstd::prelude::*;

verus! {

/// Number of symbols in the alphabet: one per single-byte character code.
pub const ALPHABET_SIZE: usize = 256;

/// The code of a symbol, its index into the per-symbol tables.
pub open spec fn code(c: char) -> int {
    c as u32 as int
}

/// Every symbol of `s` has a code below `ALPHABET_SIZE`.
pub open spec fn in_alphabet(s: Seq<char>) -> bool {
    forall|i: int| 0 <= i < s.len() ==> code(#[trigger] s[i]) < ALPHABET_SIZE
}

/// Length of the longest stretch over which the symbols from position `i` on
/// agree with the symbols from position `j` on.
pub open spec fn run_length(s: Seq<char>, i: int, j: int) -> nat
    decreases s.len() - i,
{
    if 0 <= i < s.len() && 0 <= j < s.len() && s[i] == s[j] {
        1 + run_length(s, i + 1, j + 1)
    } else {
        0
    }
}

/// Length of the longest stretch over which the symbols from position `i`
/// backwards agree with the symbols from position `j` backwards.
pub open spec fn back_run(s: Seq<char>, i: int, j: int) -> nat
    decreases i + 1,
{
    if 0 <= i < s.len() && 0 <= j < s.len() && s[i] == s[j] {
        1 + back_run(s, i - 1, j - 1)
    } else {
        0
    }
}

/// Length of the longest suffix of `p[0..=i]` that is also a suffix of `p`.
pub open spec fn suffix_run(p: Seq<char>, i: int) -> nat {
    back_run(p, i, p.len() - 1)
}

/// The first `b` symbols of `p` equal its last `b` symbols.
pub open spec fn is_border(p: Seq<char>, b: int) -> bool {
    0 <= b <= p.len() && p.subrange(0, b) == p.subrange(p.len() - b, p.len() as int)
}

/// The longest border of `p` that has at most `limit` symbols.
pub open spec fn longest_border_within(p: Seq<char>, limit: int) -> nat
    decreases limit,
{
    if limit <= 0 {
        0
    } else if is_border(p, limit) {
        limit as nat
    } else {
        longest_border_within(p, limit - 1)
    }
}

/// The greatest position `i < below` whose suffix run has exactly `len`
/// symbols, or `-1` where there is none.
pub open spec fn rightmost_suffix_end(p: Seq<char>, len: int, below: int) -> int
    decreases below,
{
    if below <= 0 {
        -1
    } else if suffix_run(p, below - 1) == len {
        below - 1
    } else {
        rightmost_suffix_end(p, len, below - 1)
    }
}

/// Entry `j` of the good-suffix table: the end of the rightmost occurrence of
/// the suffix `p[j..]` that ends before the end of the pattern and either
/// starts the pattern or is preceded by another symbol than the suffix is;
/// `-1` without one.
pub open spec fn good_suffix_entry(p: Seq<char>, j: int) -> int {
    rightmost_suffix_end(p, p.len() - j, p.len() - 1)
}

/// Entry `j` of the full-shift table: the length of the longest border of `p`
/// that fits into the suffix `p[j..]`.
pub open spec fn full_shift_entry(p: Seq<char>, j: int) -> nat {
    longest_border_within(p, p.len() - j)
}

/// The greatest position below `before` that holds the symbol with code `c`,
/// or `-1` where the symbol does not occur there.
pub open spec fn last_occurrence(p: Seq<char>, c: int, before: int) -> int
    decreases before,
{
    if before <= 0 || before > p.len() {
        -1
    } else if code(p[before - 1]) == c {
        before - 1
    } else {
        last_occurrence(p, c, before - 1)
    }
}

/// The pattern occurs in the text at offset `i`.
pub open spec fn matches_at(p: Seq<char>, t: Seq<char>, i: int) -> bool {
    0 <= i && i + p.len() <= t.len() && t.subrange(i, i + p.len()) == p
}

/// The offsets below `limit` at which the pattern occurs, in ascending order.
pub open spec fn matches_below(p: Seq<char>, t: Seq<char>, limit: int) -> Seq<usize>
    decreases limit,
{
    if limit <= 0 {
        Seq::empty()
    } else if matches_at(p, t, limit - 1) {
        matches_below(p, t, limit - 1).push((limit - 1) as usize)
    } else {
        matches_below(p, t, limit - 1)
    }
}

/// What trying every offset in turn finds: all offsets at which a non-empty
/// pattern occurs in the text, in ascending order. For an empty pattern no
/// offset is reported.
pub open spec fn naive_scan(p: Seq<char>, t: Seq<char>) -> Seq<usize> {
    if p.len() == 0 {
        Seq::empty()
    } else {
        matches_below(p, t, t.len() - p.len() + 1)
    }
}

/// A run of a position against itself reaches the end of the sequence.
pub proof fn lemma_run_length_same(s: Seq<char>, i: int)
    requires
        0 <= i <= s.len(),
    ensures
        run_length(s, i, i) == s.len() - i,
    decreases s.len() - i,
{
    if i < s.len() {
        lemma_run_length_same(s, i + 1);
    }
}

/// A run stays inside the sequence.
pub proof fn lemma_run_length_bound(s: Seq<char>, i: int, j: int)
    requires
        0 <= i <= s.len(),
        0 <= j <= s.len(),
    ensures
        i + run_length(s, i, j) <= s.len(),
        j + run_length(s, i, j) <= s.len(),
    decreases s.len() - i,
{
    if i < s.len() && j < s.len() && s[i] == s[j] {
        lemma_run_length_bound(s, i + 1, j + 1);
    }
}

/// Runs do not depend on the order of the two positions.
pub proof fn lemma_run_length_symmetric(s: Seq<char>, i: int, j: int)
    ensures
        run_length(s, i, j) == run_length(s, j, i),
    decreases s.len() - i,
{
    if 0 <= i < s.len() && 0 <= j < s.len() && s[i] == s[j] {
        lemma_run_length_symmetric(s, i + 1, j + 1);
    }
}

/// Inside a run the two stretches hold the same symbols.
pub proof fn lemma_run_length_agrees(s: Seq<char>, i: int, j: int, t: int)
    requires
        0 <= t < run_length(s, i, j),
    ensures
        0 <= i + t < s.len(),
        0 <= j + t < s.len(),
        s[i + t] == s[j + t],
    decreases t,
{
    if t > 0 {
        lemma_run_length_agrees(s, i + 1, j + 1, t - 1);
    }
}

/// Skipping `t` symbols of a run leaves the rest of it.
pub proof fn lemma_run_length_skip(s: Seq<char>, i: int, j: int, t: int)
    requires
        0 <= t <= run_length(s, i, j),
    ensures
        run_length(s, i, j) == t + run_length(s, i + t, j + t),
    decreases t,
{
    if t > 0 {
        lemma_run_length_skip(s, i + 1, j + 1, t - 1);
    }
}

/// Of the three runs among three positions, the two shortest are equal: the
/// run between the outer two is at least the shorter of the other two, and
/// is exactly that where the other two differ.
pub proof fn lemma_run_length_triangle(s: Seq<char>, x: int, y: int, z: int)
    requires
        0 <= x,
        0 <= y,
        0 <= z,
    ensures
        run_length(s, x, z) >= run_length(s, x, y) || run_length(s, x, z) >= run_length(s, y, z),
        run_length(s, x, y) < run_length(s, y, z) ==> run_length(s, x, z) == run_length(s, x, y),
        run_length(s, y, z) < run_length(s, x, y) ==> run_length(s, x, z) == run_length(s, y, z),
    decreases s.len() - x,
{
    if x < s.len() && y < s.len() && z < s.len() && s[x] == s[y] && s[y] == s[z] {
        lemma_run_length_triangle(s, x + 1, y + 1, z + 1);
    }
}

/// Two equal windows of `len` symbols give a run of at least `len`.
pub proof fn lemma_run_length_covers(s: Seq<char>, i: int, j: int, len: int)
    requires
        0 <= i,
        0 <= j,
        0 <= len,
        i + len <= s.len(),
        j + len <= s.len(),
        s.subrange(i, i + len) == s.subrange(j, j + len),
    ensures
        run_length(s, i, j) >= len,
    decreases len,
{
    if len > 0 {
        assert(s[i] == s.subrange(i, i + len)[0]);
        assert(s[j] == s.subrange(j, j + len)[0]);
        assert(s.subrange(i + 1, i + len) =~= s.subrange(i, i + len).subrange(1, len));
        assert(s.subrange(j + 1, j + len) =~= s.subrange(j, j + len).subrange(1, len));
        lemma_run_length_covers(s, i + 1, j + 1, len - 1);
    }
}

/// The first `len` symbols of a run form two equal windows.
pub proof fn lemma_run_length_window(s: Seq<char>, i: int, j: int, len: int)
    requires
        0 <= len <= run_length(s, i, j),
    ensures
        0 <= i || len == 0,
        0 <= j || len == 0,
        i + len <= s.len() || len == 0,
        j + len <= s.len() || len == 0,
        len > 0 ==> s.subrange(i, i + len) == s.subrange(j, j + len),
{
    if len > 0 {
        lemma_run_length_agrees(s, i, j, 0);
        lemma_run_length_agrees(s, i, j, len - 1);
        let a = s.subrange(i, i + len);
        let b = s.subrange(j, j + len);
        assert forall|k: int| 0 <= k < len implies a[k] == b[k] by {
            lemma_run_length_agrees(s, i, j, k);
        }
        assert(a =~= b);
    }
}

/// A border of `b` symbols is a run from position `len - b` that reaches the
/// end of the pattern.
pub proof fn lemma_border_is_run(p: Seq<char>, b: int)
    requires
        1 <= b <= p.len(),
    ensures
        is_border(p, b) <==> run_length(p, 0, p.len() - b) == b,
{
    let n = p.len() as int;
    lemma_run_length_bound(p, 0, n - b);
    if is_border(p, b) {
        lemma_run_length_covers(p, 0, n - b, b);
    }
    if run_length(p, 0, n - b) == b {
        lemma_run_length_window(p, 0, n - b, b);
    }
}

/// A run backwards in a sequence is a run forwards in its mirror image.
pub proof fn lemma_back_run_mirror(p: Seq<char>, r: Seq<char>, i: int, j: int)
    requires
        r.len() == p.len(),
        forall|k: int| 0 <= k < p.len() ==> r[k] == p[p.len() - 1 - k],
        i < p.len(),
        j < p.len(),
    ensures
        back_run(p, i, j) == run_length(r, p.len() - 1 - i, p.len() - 1 - j),
    decreases i + 1,
{
    if 0 <= i && 0 <= j {
        assert(r[p.len() - 1 - i] == p[i]);
        assert(r[p.len() - 1 - j] == p[j]);
        if p[i] == p[j] {
            lemma_back_run_mirror(p, r, i - 1, j - 1);
        }
    }
}

/// A run backwards does not pass the start of the sequence.
pub proof fn lemma_back_run_bound(s: Seq<char>, i: int, j: int)
    requires
        -1 <= i,
        -1 <= j,
    ensures
        back_run(s, i, j) <= i + 1,
        back_run(s, i, j) <= j + 1,
    decreases i + 1,
{
    if 0 <= i < s.len() && 0 <= j < s.len() && s[i] == s[j] {
        lemma_back_run_bound(s, i - 1, j - 1);
    }
}

/// What `rightmost_suffix_end` returns: a position with the wanted suffix
/// run and none after it, or `-1` and no such position at all.
pub proof fn lemma_rightmost_suffix_end(p: Seq<char>, len: int, below: int)
    ensures
        ({
            let e = rightmost_suffix_end(p, len, below);
            &&& -1 <= e
            &&& e < below || e == -1
            &&& e >= 0 ==> suffix_run(p, e) == len
            &&& forall|i: int| e < i < below && 0 <= i ==> suffix_run(p, i) != len
        }),
    decreases below,
{
    if below > 0 && suffix_run(p, below - 1) != len {
        lemma_rightmost_suffix_end(p, len, below - 1);
    }
}

/// What `longest_border_within` returns: a border within the limit, and no
/// longer border within the limit.
pub proof fn lemma_longest_border_within(p: Seq<char>, limit: int)
    requires
        limit <= p.len(),
    ensures
        ({
            let f = longest_border_within(p, limit) as int;
            &&& 0 <= f
            &&& f <= limit || f == 0
            &&& is_border(p, f)
            &&& forall|b: int| f < b <= limit ==> !is_border(p, b)
        }),
    decreases limit,
{
    if limit > 0 {
        if !is_border(p, limit) {
            lemma_longest_border_within(p, limit - 1);
        }
    } else {
        assert(p.subrange(0, 0) =~= p.subrange(p.len() as int, p.len() as int));
    }
}

/// What `last_occurrence` returns: a position that holds the symbol and none
/// after it, or `-1` and no such position at all.
pub proof fn lemma_last_occurrence(p: Seq<char>, c: int, before: int)
    requires
        before <= p.len(),
    ensures
        ({
            let l = last_occurrence(p, c, before);
            &&& -1 <= l
            &&& l < before || l == -1
            &&& l >= 0 ==> code(p[l]) == c
            &&& forall|i: int| l < i < before && 0 <= i ==> code(#[trigger] p[i]) != c
        }),
    decreases before,
{
    if before > 0 && code(p[before - 1]) != c {
        lemma_last_occurrence(p, c, before - 1);
    }
}

} // verus!
