use boyer_moore::search::search::{search, search_string};
use boyer_moore::search::tree::Tree;

fn brute_force(pattern: &[char], text: &[char]) -> Vec<usize> {
    let mut found = Vec::new();
    if pattern.is_empty() || pattern.len() > text.len() {
        return found;
    }
    for start in 0..=(text.len() - pattern.len()) {
        if &text[start..start + pattern.len()] == pattern {
            found.push(start);
        }
    }
    found
}

fn word(mut index: usize, len: usize, alphabet: &[char]) -> Vec<char> {
    let mut out = Vec::new();
    for _ in 0..len {
        out.push(alphabet[index % alphabet.len()]);
        index /= alphabet.len();
    }
    out
}

fn check_all(alphabet: &[char], max_pattern: usize, max_text: usize) {
    for n in 0..=max_pattern {
        for pi in 0..alphabet.len().pow(n as u32) {
            let pattern = word(pi, n, alphabet);
            let pattern_string: String = pattern.iter().collect();
            for m in 0..=max_text {
                for ti in 0..alphabet.len().pow(m as u32) {
                    let text = word(ti, m, alphabet);
                    let expected = brute_force(&pattern, &text);
                    assert_eq!(expected, search(&pattern_string, &text));
                }
            }
        }
    }
}

#[test]
fn scan_equals_brute_force_on_two_symbols() {
    check_all(&['a', 'b'], 5, 9);
}

#[test]
fn scan_equals_brute_force_on_three_symbols() {
    check_all(&['a', 'b', '\u{ff}'], 4, 6);
}

#[test]
fn scan_equals_brute_force_on_generated_texts() {
    let mut state: u64 = 0x2545_f491_4f6c_dd1d;
    let mut next = move || {
        state ^= state << 13;
        state ^= state >> 7;
        state ^= state << 17;
        state
    };
    for _ in 0..300 {
        let n = (next() % 7) as usize + 1;
        let m = (next() % 200) as usize;
        let spread = (next() % 3) as u32 + 2;
        let pattern: Vec<char> = (0..n).map(|_| char::from(b'a' + (next() % spread as u64) as u8)).collect();
        let text: Vec<char> = (0..m).map(|_| char::from(b'a' + (next() % spread as u64) as u8)).collect();
        let pattern_string: String = pattern.iter().collect();
        let text_string: String = text.iter().collect();
        let expected = brute_force(&pattern, &text);
        assert_eq!(expected, search(&pattern_string, &text));
        assert_eq!(expected, search_string(&pattern_string, text_string));
    }
}

#[test]
fn offsets_ascend() {
    let found = search_string("aba", "abababa abacaba ababa".to_string());
    assert_eq!(vec![0, 2, 4, 8, 12, 16, 18], found);
    for pair in found.windows(2) {
        assert!(pair[0] < pair[1]);
    }
}

#[test]
fn tree_agrees_with_a_list_of_insertions() {
    let mut state: u64 = 0x9e37_79b9_7f4a_7c15;
    let mut next = move || {
        state ^= state << 13;
        state ^= state >> 7;
        state ^= state << 17;
        state
    };
    let mut tree: Tree<u32, u64> = Tree::new();
    let mut log: Vec<(u32, u64)> = Vec::new();
    for _ in 0..500 {
        let key = (next() % 64) as u32;
        let value = next();
        let existed = log.iter().any(|(k, _)| *k == key);
        assert_eq!(existed, tree.insert(key, value));
        log.push((key, value));
    }
    let mut distinct: Vec<u32> = log.iter().map(|(k, _)| *k).collect();
    distinct.sort();
    distinct.dedup();
    assert_eq!(distinct.len(), tree.size());
    for key in 0..70u32 {
        let last = log.iter().rev().find(|(k, _)| *k == key).map(|(_, v)| v);
        assert_eq!(last, tree.get(key));
        let below = distinct.iter().rev().find(|k| **k <= key);
        assert_eq!(below, tree.lower_bound(key).map(|(k, _)| k));
    }
}
