//! Pattern preprocessing and the scanning loop.

use vstd::prelude::*;
use crate::search::pattern::{
    code, full_shift_entry, good_suffix_entry, in_alphabet, last_occurrence,
    lemma_back_run_bound, lemma_back_run_mirror, lemma_border_is_run, lemma_last_occurrence,
    lemma_longest_border_within, lemma_rightmost_suffix_end, lemma_run_length_bound,
    lemma_run_length_same, lemma_run_length_skip, lemma_run_length_symmetric,
    lemma_run_length_triangle, longest_border_within, matches_at, matches_below, naive_scan,
    rightmost_suffix_end, run_length, suffix_run, ALPHABET_SIZE,
};
use crate::search::shift::{
    boundary_known, lemma_boundary_kept, lemma_boundary_match, lemma_boundary_set,
    lemma_matches_below_skip, lemma_mismatch_shift_safe, lemma_naive_scan_lists,
    lemma_shift_bounds, mismatch_at, mismatch_shift,
};

verus! {

/// Finds every occurrence of the pattern in the text and returns the offsets
/// at which they start, in ascending order. Occurrences may overlap.
///
/// The pattern is laid on the text and compared backwards from its last
/// symbol. `k` is the text position under the pattern's last symbol. After a
/// mismatch the pattern moves on by the larger of the bad-character and the
/// good-suffix shift. After an occurrence it moves on by one position.
///
/// `prev_k` is set after a shift that carries the pattern beyond the position
/// that failed: the pattern then starts inside the text it has just matched,
/// the text up to `prev_k` is known to agree with it, and a comparison that
/// comes down to `prev_k` stops there. An occurrence leaves `prev_k` as it
/// is; a shorter shift clears it.
pub fn search(pattern: &str, contents: &Vec<char>) -> (results: Vec<usize>)
    requires
        in_alphabet(pattern@),
        in_alphabet(contents@),
        pattern@.len() <= i32::MAX,
    ensures
        results@ == naive_scan(pattern@, contents@),
        pattern@.len() == 0 || pattern@.len() > contents@.len() ==> results@.len() == 0,
        forall|i: int|
            0 <= i < results.len() ==> matches_at(pattern@, contents@, (#[trigger] results[i]) as int),
        forall|i: int, j: int| 0 <= i < j < results.len() ==> results[i] < results[j],
        forall|o: int|
            pattern@.len() > 0 && #[trigger] matches_at(pattern@, contents@, o)
                ==> results@.contains(o as usize),
{
    let mut results: Vec<usize> = Vec::new();
    let p_vec = symbols(pattern);
    let n = p_vec.len();
    let m = contents.len();
    proof {
        lemma_naive_scan_lists(pattern@, contents@);
    }

    if n == 0 {
        return results;
    }
    if n > m {
        proof {
            lemma_matches_below_skip(pattern@, contents@, m - n + 1, 0);
        }
        return results;
    }
    let bad_char_table = get_bad_character(pattern);
    let good_suffix = get_good_suffix(pattern);
    let full_shift = get_full_shift(pattern);

    let mut k: usize = n - 1;
    let mut prev_k: Option<usize> = None;
    // Where the pattern started after the shift that set `prev_k`.
    let ghost mut anchor: int = 0;

    while k < m
        invariant
            n == p_vec.len(),
            m == contents.len(),
            p_vec@ == pattern@,
            1 <= n <= m,
            n <= i32::MAX,
            in_alphabet(contents@),
            n - 1 <= k <= m,
            bad_char_table.len() == ALPHABET_SIZE,
            forall|c: int|
                0 <= c < ALPHABET_SIZE ==> (#[trigger] bad_char_table[c]).len() == n + 1,
            forall|c: int, i: int|
                0 <= c < ALPHABET_SIZE && 0 <= i <= n ==> #[trigger] bad_char_table[c][i]
                    == last_occurrence(p_vec@, c, i),
            good_suffix.len() == n,
            forall|j: int| 0 <= j < n ==> good_suffix[j] == good_suffix_entry(p_vec@, j),
            full_shift.len() == n,
            forall|j: int| 0 <= j < n ==> full_shift[j] == full_shift_entry(p_vec@, j),
            results@ == matches_below(p_vec@, contents@, k + 1 - n),
            match prev_k {
                Some(q) => q < k && boundary_known(
                    p_vec@,
                    contents@,
                    k + 1 - n,
                    q as int,
                    anchor,
                ),
                None => true,
            },
        decreases m - k,
    {
        let ghost start: int = k + 1 - n;
        let floor: usize = match prev_k {
            Some(q) => q + 1,
            None => 0,
        };
        let mut p_index: usize = n - 1;
        let mut c_index: usize = k;
        let mut valid = false;

        while p_vec[p_index] == contents[c_index]
            invariant_except_break
                !valid,
            invariant
                n == p_vec.len(),
                m == contents.len(),
                k < m,
                start == k + 1 - n,
                0 <= start,
                p_index < n,
                c_index == start + p_index,
                floor <= c_index,
                forall|j: int| p_index < j < n ==> #[trigger] p_vec[j] == contents[start + j],
            ensures
                valid ==> p_vec[p_index as int] == contents[c_index as int] && (p_index == 0
                    || c_index == floor),
                !valid ==> p_vec[p_index as int] != contents[c_index as int],
            decreases p_index,
        {
            if p_index == 0 || c_index == floor {
                valid = true;
                break;
            }
            p_index -= 1;
            c_index -= 1;
        }

        if valid {
            let i = k + 1 - n;
            proof {
                if p_index > 0 {
                    lemma_boundary_match(
                        p_vec@,
                        contents@,
                        start,
                        floor - 1,
                        anchor,
                        p_index as int,
                    );
                } else {
                    assert(contents@.subrange(start, start + n) =~= p_vec@);
                }
                if let Some(q) = prev_k {
                    lemma_boundary_kept(p_vec@, contents@, start, q as int, anchor);
                }
            }
            results.push(i);
            k += 1;
        } else {
            proof {
                assert(mismatch_at(p_vec@, contents@, start, p_index as int));
                lemma_shift_bounds(p_vec@, contents@, start, p_index as int);
            }
            let symbol = contents[c_index] as u32 as usize;
            let bad_char = bad_char_table[symbol][p_index];
            let char_shift = p_index as i32 - bad_char;

            let suffix_shift;
            if p_index + 1 == n {
                suffix_shift = 1;
            } else if good_suffix[p_index + 1] == -1 {
                suffix_shift = (n - full_shift[p_index + 1]) as i32;
            } else {
                suffix_shift = n as i32 - good_suffix[p_index + 1] - 1;
            }
            let shift = if char_shift > suffix_shift {
                char_shift
            } else {
                suffix_shift
            };
            proof {
                assert(shift == mismatch_shift(p_vec@, contents@, start, p_index as int));
                assert forall|i: int| start <= i < start + shift implies !#[trigger] matches_at(
                    p_vec@,
                    contents@,
                    i,
                ) by {
                    lemma_mismatch_shift_safe(p_vec@, contents@, start, p_index as int, i - start);
                }
                lemma_matches_below_skip(p_vec@, contents@, start, start + shift);
                if start + shift > m - n + 1 {
                    lemma_matches_below_skip(p_vec@, contents@, m - n + 1, start + shift);
                }
            }
            if shift as usize >= m - k {
                prev_k = None;
                k = m;
            } else {
                if shift > p_index as i32 + 1 {
                    proof {
                        anchor = start + shift;
                        lemma_boundary_set(p_vec@, contents@, start, p_index as int);
                    }
                    prev_k = Some(k);
                } else {
                    prev_k = None;
                }
                k += shift as usize;
            }
        }
    }
    proof {
        lemma_matches_below_skip(pattern@, contents@, m - n + 1, k + 1 - n);
    }
    results
}

/// Finds every occurrence of the pattern in the text and returns the offsets,
/// counted in symbols, at which they start, in ascending order.
pub fn search_string(pattern: &str, contents: String) -> (results: Vec<usize>)
    requires
        in_alphabet(pattern@),
        in_alphabet(contents@),
        pattern@.len() <= i32::MAX,
    ensures
        results@ == naive_scan(pattern@, contents@),
        pattern@.len() == 0 || pattern@.len() > contents@.len() ==> results@.len() == 0,
        forall|i: int|
            0 <= i < results.len() ==> matches_at(pattern@, contents@, (#[trigger] results[i]) as int),
        forall|i: int, j: int| 0 <= i < j < results.len() ==> results[i] < results[j],
        forall|o: int|
            pattern@.len() > 0 && #[trigger] matches_at(pattern@, contents@, o)
                ==> results@.contains(o as usize),
{
    let chars = symbols(contents.as_str());
    search(pattern, &chars)
}

/// Whether every symbol of the text belongs to the alphabet.
pub fn within_alphabet(text: &str) -> (ok: bool)
    ensures
        ok == in_alphabet(text@),
{
    let chars = symbols(text);
    let mut i: usize = 0;
    while i < chars.len()
        invariant
            i <= chars.len(),
            chars@ == text@,
            forall|k: int| 0 <= k < i ==> code(#[trigger] chars@[k]) < ALPHABET_SIZE,
        decreases chars.len() - i,
    {
        if chars[i] as u32 >= ALPHABET_SIZE as u32 {
            assert(code(text@[i as int]) >= ALPHABET_SIZE);
            return false;
        }
        i += 1;
    }
    true
}

/// Counts how far the symbols from `i1` on agree with the symbols from `i2` on.
pub fn match_length(pattern: &Vec<char>, i1: usize, i2: usize) -> (count: usize)
    requires
        i1 == i2 ==> i1 <= pattern.len(),
    ensures
        count == run_length(pattern@, i1 as int, i2 as int),
{
    if i1 == i2 {
        proof {
            lemma_run_length_same(pattern@, i1 as int);
        }
        pattern.len() - i1
    } else {
        let n = pattern.len();
        let mut count: usize = 0;
        let mut a: usize = i1;
        let mut b: usize = i2;
        while a < n && b < n && pattern[a] == pattern[b]
            invariant
                n == pattern.len(),
                a == i1 + count,
                b == i2 + count,
                a <= n || count == 0,
                b <= n || count == 0,
                run_length(pattern@, i1 as int, i2 as int) == count + run_length(
                    pattern@,
                    a as int,
                    b as int,
                ),
            decreases n - a,
        {
            count += 1;
            a += 1;
            b += 1;
        }
        count
    }
}

/// The symbols of a string, in order.
pub fn symbols(text: &str) -> (out: Vec<char>)
    ensures
        out@ == text@,
{
    let mut out: Vec<char> = Vec::new();
    for c in it: text.chars()
        invariant
            it.seq() == text@,
            out@ == it.seq().take(it.index()),
    {
        out.push(c);
    }
    out
}

/// For each position of the symbol sequence, the length of the run that
/// starts there and agrees with the start of the sequence.
pub fn prefix_runs(chars: &Vec<char>) -> (z: Vec<usize>)
    ensures
        z.len() == chars.len(),
        forall|i: int| 0 <= i < z.len() ==> z[i] == run_length(chars@, 0, i),
{
    let n = chars.len();
    if n == 0 {
        return Vec::new();
    }
    proof {
        lemma_run_length_same(chars@, 0);
    }
    if n == 1 {
        return vec![1];
    }
    let mut z: Vec<usize> = vec![0; n];
    z[0] = n;
    let first = match_length(chars, 0, 1);
    z[1] = first;
    proof {
        lemma_run_length_bound(chars@, 0, 1);
    }

    // A run of `first` against the neighbour means `first + 1` equal symbols:
    // the entries inside that block follow without comparing anything.
    let mut i: usize = 2;
    while i < 1 + first
        invariant
            n == chars.len(),
            z.len() == n,
            first == run_length(chars@, 0, 1),
            first + 1 <= n,
            2 <= i,
            i <= first + 1 || i == 2,
            z[0] == n,
            forall|k: int| 1 <= k < i ==> z[k] == first + 1 - k,
            forall|k: int| 0 <= k < i ==> z[k] == run_length(chars@, 0, k),
            forall|k: int| i <= k < n ==> z[k] == 0,
        decreases n + 1 - i,
    {
        proof {
            lemma_run_length_skip(chars@, 0, 1, i - 1);
            lemma_run_length_triangle(chars@, 0, i - 1, i as int);
            assert(z[i - 1] == first + 2 - i);
            assert(run_length(chars@, 0, i as int) == first + 1 - i);
        }
        z[i] = first - i + 1;
        i += 1;
    }
    proof {
        if first >= 1 && first + 1 < n {
            lemma_run_length_skip(chars@, 0, 1, first as int);
            lemma_run_length_triangle(chars@, 0, first as int, first + 1);
            assert(z[first as int] == 1);
            assert(run_length(chars@, 0, first + 1) == 0);
            assert(z[first + 1] == 0);
        }
    }

    let mut left: usize = 0;
    let mut right: usize = 0;
    i = if first + 1 < n { first + 2 } else { n };
    while i < n
        invariant
            n == chars.len(),
            z.len() == n,
            2 <= i <= n,
            forall|k: int| 0 <= k < i && k < n ==> z[k] == run_length(chars@, 0, k),
            right == 0 || (1 <= left < i && left <= right < n && run_length(chars@, 0, left as int)
                >= right - left + 1),
        decreases n + 1 - i,
    {
        proof {
            lemma_run_length_bound(chars@, 0, i as int);
        }
        if i <= right {
            let k = i - left;
            let b = z[k];
            let a = right - i + 1;
            proof {
                lemma_run_length_skip(chars@, 0, left as int, k as int);
                lemma_run_length_triangle(chars@, 0, k as int, i as int);
            }
            if b < a {
                z[i] = b;
            } else {
                proof {
                    lemma_run_length_skip(chars@, 0, i as int, a as int);
                }
                let more = match_length(chars, a, right + 1);
                z[i] = a + more;
                left = i;
                right = i + z[i] - 1;
            }
        } else {
            z[i] = match_length(chars, 0, i);
            if z[i] > 0 {
                left = i;
                right = i + z[i] - 1;
            }
        }
        i += 1;
    }
    z
}

/// For each position of the pattern, the length of the run that starts there
/// and agrees with the start of the pattern.
pub fn preprocess(pattern: &str) -> (z: Vec<usize>)
    ensures
        z.len() == pattern@.len(),
        forall|i: int| 0 <= i < z.len() ==> z[i] == run_length(pattern@, 0, i),
{
    let chars = symbols(pattern);
    prefix_runs(&chars)
}

/// The good-suffix table of the pattern.
///
/// Entry `j` is the end of the rightmost earlier occurrence of the suffix that
/// starts at `j`, taken only where that occurrence starts the pattern or is
/// preceded by another symbol than the suffix is, and `-1` where there is
/// none.
pub fn get_good_suffix(pattern: &str) -> (table: Vec<i32>)
    requires
        pattern@.len() <= i32::MAX,
    ensures
        table.len() == pattern@.len(),
        forall|j: int| 0 <= j < table.len() ==> table[j] == good_suffix_entry(pattern@, j),
        forall|j: int| 0 <= j < table.len() ==> -1 <= #[trigger] table[j] < table.len() - 1,
{
    let chars = symbols(pattern);
    let n = chars.len();
    let mut result: Vec<i32> = vec![-1; n];
    if n == 0 {
        return result;
    }
    let mut mirrored: Vec<char> = Vec::new();
    let mut m: usize = 0;
    while m < n
        invariant
            n == chars.len(),
            m <= n,
            mirrored.len() == m,
            forall|k: int| 0 <= k < m ==> mirrored[k] == chars[n - 1 - k],
        decreases n - m,
    {
        mirrored.push(chars[n - 1 - m]);
        m += 1;
    }
    let runs = prefix_runs(&mirrored);

    let mut i: usize = 0;
    while i < n - 1
        invariant
            n == chars.len(),
            n <= i32::MAX,
            chars@ == pattern@,
            mirrored.len() == n,
            forall|k: int| 0 <= k < n ==> mirrored[k] == chars[n - 1 - k],
            runs.len() == n,
            forall|k: int| 0 <= k < n ==> runs[k] == run_length(mirrored@, 0, k),
            i <= n - 1,
            result.len() == n,
            forall|j: int| 0 <= j < n ==> result[j] == rightmost_suffix_end(chars@, n - j, i as int),
        decreases n - i,
    {
        let len = runs[n - 1 - i];
        proof {
            lemma_back_run_mirror(chars@, mirrored@, i as int, n - 1);
            lemma_run_length_symmetric(mirrored@, 0, n - 1 - i);
            lemma_back_run_bound(chars@, i as int, n - 1);
            assert(len == suffix_run(chars@, i as int));
        }
        let j = n - len;
        if j != n {
            result[j] = i as i32;
        }
        i += 1;
    }
    proof {
        assert forall|j: int| 0 <= j < n implies -1 <= #[trigger] result[j] < n - 1 by {
            lemma_rightmost_suffix_end(chars@, n - j, n - 1);
        }
    }
    result
}

/// The full-shift table of the pattern.
///
/// Entry `j` is the length of the longest suffix of the pattern that starts
/// at `j` or later and is also a prefix of the pattern.
pub fn get_full_shift(pattern: &str) -> (table: Vec<usize>)
    ensures
        table.len() == pattern@.len(),
        forall|j: int| 0 <= j < table.len() ==> table[j] == full_shift_entry(pattern@, j),
        forall|j: int| 0 <= j < table.len() ==> #[trigger] table[j] <= table.len() - j,
{
    let chars = symbols(pattern);
    let n = chars.len();
    let mut result: Vec<usize> = vec![0; n];
    let z = prefix_runs(&chars);
    let mut longest: usize = 0;

    let mut index: usize = 0;
    while index < n
        invariant
            n == chars.len(),
            chars@ == pattern@,
            z.len() == n,
            forall|k: int| 0 <= k < n ==> z[k] == run_length(chars@, 0, k),
            index <= n,
            result.len() == n,
            longest == longest_border_within(chars@, index as int),
            longest <= index,
            forall|j: int| n - index <= j < n ==> result[j] == longest_border_within(chars@, n - j),
        decreases n - index,
    {
        let value = z[n - 1 - index];
        proof {
            lemma_border_is_run(chars@, index + 1);
        }
        if value == index + 1 {
            if longest < value {
                longest = value;
            }
        }
        let i = n - index - 1;
        result[i] = longest;
        index += 1;
    }
    proof {
        assert forall|j: int| 0 <= j < n implies #[trigger] result[j] <= n - j by {
            lemma_longest_border_within(chars@, n - j);
        }
    }
    result
}

/// The bad-character table of the pattern.
///
/// Row `c`, entry `i`, is the last position before `i` at which the pattern
/// holds the symbol with code `c`, and `-1` where it holds none there.
pub fn get_bad_character(pattern: &str) -> (table: Vec<Vec<i32>>)
    requires
        in_alphabet(pattern@),
        pattern@.len() <= i32::MAX,
    ensures
        table.len() == ALPHABET_SIZE,
        forall|c: int| 0 <= c < ALPHABET_SIZE ==> (#[trigger] table[c]).len() == pattern@.len() + 1,
        forall|c: int, i: int|
            0 <= c < ALPHABET_SIZE && 0 <= i <= pattern@.len() ==> #[trigger] table[c][i]
                == last_occurrence(pattern@, c, i),
        forall|c: int, i: int|
            0 <= c < ALPHABET_SIZE && 0 <= i <= pattern@.len() ==> -1 <= #[trigger] table[c][i] < i,
{
    let chars = symbols(pattern);
    let n = chars.len();
    let mut result: Vec<Vec<i32>> = Vec::new();
    let mut c: usize = 0;
    while c < ALPHABET_SIZE
        invariant
            c <= ALPHABET_SIZE,
            result.len() == c,
            forall|d: int| 0 <= d < c ==> (#[trigger] result[d])@ == seq![-1i32],
        decreases ALPHABET_SIZE - c,
    {
        let mut row: Vec<i32> = Vec::with_capacity(n);
        row.push(-1);
        result.push(row);
        c += 1;
    }

    let mut alpha: [i32; ALPHABET_SIZE] = [-1;ALPHABET_SIZE];
    let mut i: usize = 0;
    while i < n
        invariant
            n == chars.len(),
            n <= i32::MAX,
            chars@ == pattern@,
            in_alphabet(chars@),
            i <= n,
            result.len() == ALPHABET_SIZE,
            forall|d: int| 0 <= d < ALPHABET_SIZE ==> (#[trigger] result[d]).len() == i + 1,
            forall|d: int, t: int|
                0 <= d < ALPHABET_SIZE && 0 <= t <= i ==> #[trigger] result[d][t]
                    == last_occurrence(chars@, d, t),
            forall|d: int| 0 <= d < ALPHABET_SIZE ==> #[trigger] alpha[d] == last_occurrence(chars@, d, i as int),
        decreases n - i,
    {
        let symbol = chars[i] as u32 as usize;
        alpha[symbol] = i as i32;
        let mut j: usize = 0;
        while j < ALPHABET_SIZE
            invariant
                n == chars.len(),
                i < n,
                j <= ALPHABET_SIZE,
                result.len() == ALPHABET_SIZE,
                forall|d: int| 0 <= d < j ==> (#[trigger] result[d]).len() == i + 2,
                forall|d: int| j <= d < ALPHABET_SIZE ==> (#[trigger] result[d]).len() == i + 1,
                forall|d: int, t: int|
                    0 <= d < ALPHABET_SIZE && 0 <= t <= i ==> #[trigger] result[d][t]
                        == last_occurrence(chars@, d, t),
                forall|d: int| 0 <= d < j ==> #[trigger] result[d][i + 1] == last_occurrence(chars@, d, i + 1),
                forall|d: int| 0 <= d < ALPHABET_SIZE ==> #[trigger] alpha[d] == last_occurrence(chars@, d, i + 1),
            decreases ALPHABET_SIZE - j,
        {
            result[j].push(alpha[j]);
            j += 1;
        }
        i += 1;
    }
    proof {
        assert forall|c: int, i: int|
            0 <= c < ALPHABET_SIZE && 0 <= i <= n implies -1 <= #[trigger] result[c][i] < i by {
            lemma_last_occurrence(chars@, c, i);
        }
    }
    result
}

} // verus!
