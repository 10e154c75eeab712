use boyer_moore::search::search::{
    get_bad_character, get_full_shift, get_good_suffix, match_length, preprocess, prefix_runs,
    search, search_string, symbols, within_alphabet,
};

#[test]
fn simple_search() {
    let results = search_string("pattern", "a pattern to find".to_string());
    assert_eq!(1, results.len(), "only one result should be returned");
    assert_eq!(2, results[0], "correct index");
}

#[test]
fn search_simple_search() {
    let results = search_string("pattern", "a pattern to find".to_string());
    assert_eq!(1, results.len(), "only one result should be returned");
    assert_eq!(2, results[0], "correct index");
}

#[test]
fn pattern_at_end() {
    let results = search_string("test", "find test".to_string());
    assert_eq!(1, results.len());
    assert_eq!(5, results[0]);
}

#[test]
fn another_test() {
    let results: Vec<usize> = search_string("test", "search for test".to_string());
    assert_eq!(1, results.len());
}

#[test]
fn no_results() {
    let results = search_string("jfkdl", "a pattern to find".to_string());
    assert_eq!(0, results.len(), "no results found");
}

#[test]
fn search_no_results() {
    let results = search_string("jfkdl", "a pattern to find".to_string());
    assert_eq!(0, results.len(), "no results found");
}

#[test]
fn single_character_pattern() {
    let results = search_string("p", "abcdefghijklmnopqrstuvwxyz".to_string());
    assert_eq!(1, results.len(), "only one result");
    assert_eq!(15, results[0], "correct index");
}

#[test]
fn search_single_character_pattern() {
    let results = search_string("p", "abcdefghijklmnopqrstuvwxyz".to_string());
    assert_eq!(1, results.len(), "only one result");
    assert_eq!(15, results[0], "correct index");
}

#[test]
fn two_character_pattern_at_beginning() {
    let results = search_string("ab", "abcdefghijklmnopqrstuvwxyz".to_string());
    assert_eq!(1, results.len(), "only one result");
    assert_eq!(0, results[0], "correct index");
}

#[test]
fn search_two_character_pattern_at_beginning() {
    let results = search_string("ab", "abcdefghijklmnopqrstuvwxyz".to_string());
    assert_eq!(1, results.len(), "only one result");
    assert_eq!(0, results[0], "correct index");
}

#[test]
fn two_character_pattern_at_end() {
    let results = search_string("yz", "abcdefghijklmnopqrstuvwxyz".to_string());
    assert_eq!(1, results.len(), "only one result");
    assert_eq!(24, results[0], "correct index");
}

#[test]
fn search_two_character_pattern_at_end() {
    let results = search_string("yz", "abcdefghijklmnopqrstuvwxyz".to_string());
    assert_eq!(1, results.len(), "only one result");
    assert_eq!(24, results[0], "correct index");
}

#[test]
fn two_character_pattern() {
    let results = search_string("mn", "abcdefghijklmnopqrstuvwxyz".to_string());
    assert_eq!(1, results.len(), "only one result");
    assert_eq!(12, results[0], "correct index");
}

#[test]
fn search_two_character_pattern() {
    let results = search_string("mn", "abcdefghijklmnopqrstuvwxyz".to_string());
    assert_eq!(1, results.len(), "only one result");
    assert_eq!(12, results[0], "correct index");
}

#[test]
fn two_character_repeat() {
    let results = search_string("ab", "abababababab".to_string());
    assert_eq!(6, results.len(), "correct number of results");
}

#[test]
fn search_two_character_repeat() {
    let results = search_string("ab", "abababababab".to_string());
    assert_eq!(6, results.len(), "correct number of results");
    assert_eq!(vec![0, 2, 4, 6, 8, 10], results);
}

#[test]
fn multiple_results() {
    let input = "search jdd in the string jdd of jdd".to_string();
    let results = search_string("jdd", input);
    assert_eq!(3, results.len(), "three results");
    let results = search_string("jd ", "search jd in the string jd of jd".to_string());
    assert_eq!(2, results.len(), "three results");
}

#[test]
fn search_multiple_results() {
    let results = search_string("jd ", "search jd in the string jd of jd".to_string());
    assert_eq!(2, results.len(), "three results");
    assert_eq!(vec![7, 24], results);
    let input = "search jdd in the string jdd of jdd".to_string();
    let results = search_string("jdd", input);
    assert_eq!(3, results.len(), "three results");
    assert_eq!(vec![7, 25, 32], results);
}

#[test]
fn all_matches() {
    let results = search_string("j", "jjjjjjjjjj".to_string());
    assert_eq!(10, results.len(), "all matches");
}

#[test]
fn search_all_matches() {
    let results = search_string("j", "jjjjjjjjjj".to_string());
    assert_eq!(10, results.len(), "all matches");
    assert_eq!(vec![0, 1, 2, 3, 4, 5, 6, 7, 8, 9], results);
}

#[test]
fn match_length_equal() {
    let chars = "this is a test of this".chars().collect();
    let result = match_length(&chars, 0, 0);
    assert_eq!(chars.len(), result, "match should be entire string");
}

#[test]
fn match_length_different() {
    let chars = "this is a this of this".chars().collect();
    let result = match_length(&chars, 0, 10);
    assert_eq!(5, result, "match all of `this `");
}

#[test]
fn match_length_no_match() {
    let chars = "this is a -es- of no-hing".chars().collect();
    let result = match_length(&chars, 0, 10);
    assert_eq!(0, result, "no match");
}

#[test]
fn small_preprocess() {
    let result = preprocess("a");
    assert_eq!(1, result.len(), "correct size");
    assert_eq!(1, result[0], "correct substring size");
}

#[test]
fn empty_preprocess() {
    assert_eq!(0, preprocess("").len(), "empty result");
}

#[test]
fn simple_preprocess() {
    let input = "hanhan";
    let result = preprocess(input);
    assert_eq!(input.len(), result[0]);
    assert_eq!(0, result[1]);
    assert_eq!(3, result[3]);
}

#[test]
fn full_shift_simple() {
    let input = "hanhan";
    let result = get_full_shift(input);

    assert_eq!(input.len(), result.len());
    assert_eq!(3, result[3]);
    assert_eq!(3, result[2]);
}

#[test]
fn full_shift_no_result() {
    let input = "abcdefghijklm";
    let result = get_full_shift(input);
    assert_eq!(13, result[0], "the full body is a prefix and suffix");

    for i in 1..13 {
        assert_eq!(0, result[i], "should be no results for {}", i);
    }
}

#[test]
fn overlapping_occurrences_are_all_reported() {
    assert_eq!(vec![0, 1, 2], search_string("aa", "aaaa".to_string()));
}

#[test]
fn empty_pattern_occurs_nowhere() {
    assert_eq!(Vec::<usize>::new(), search_string("", "anything".to_string()));
    assert_eq!(Vec::<usize>::new(), search_string("", String::new()));
}

#[test]
fn pattern_longer_than_text_occurs_nowhere() {
    assert_eq!(Vec::<usize>::new(), search_string("abcdef", "abc".to_string()));
    assert_eq!(Vec::<usize>::new(), search_string("a", String::new()));
}

#[test]
fn pattern_equal_to_text() {
    assert_eq!(vec![0], search_string("abc", "abc".to_string()));
}

#[test]
fn search_takes_symbols() {
    let text: Vec<char> = "abracadabra".chars().collect();
    assert_eq!(vec![0, 7], search("abra", &text));
    assert_eq!(vec![0, 3, 5, 7, 10], search("a", &text));
}

#[test]
fn symbols_beyond_ascii_are_counted_once() {
    // 0xE9 and 0xFF are in the alphabet; offsets count symbols, not bytes.
    let text = "\u{e9}t\u{e9} \u{ff}\u{e9}t\u{e9}".to_string();
    assert_eq!(vec![0, 5], search_string("\u{e9}t\u{e9}", text));
}

#[test]
fn no_match_is_claimed_after_a_bad_character_shift() {
    // The shift by the bad-character rule lands the pattern inside text that
    // matched its suffix, where the pattern has no border.
    assert_eq!(Vec::<usize>::new(), search_string("xabyab", "qqqzabbyab".to_string()));
    assert_eq!(Vec::<usize>::new(), search_string("abab", "aaabbab".to_string()));
    assert_eq!(Vec::<usize>::new(), search_string("abb", "acbbb".to_string()));
}

#[test]
fn no_match_is_claimed_from_an_old_boundary() {
    assert_eq!(Vec::<usize>::new(), search_string("abab", "bbabbab".to_string()));
    assert_eq!(Vec::<usize>::new(), search_string("abab", "abbabbab".to_string()));
}

#[test]
fn match_found_across_a_known_border() {
    // After the mismatch on "c" the pattern moves by its period, and its
    // first two symbols lie on text that has matched already.
    assert_eq!(vec![3], search_string("abcab", "abxabcab".to_string()));
    assert_eq!(vec![2, 5], search_string("abcab", "ababcabcab".to_string()));
}

#[test]
fn symbols_of_a_string() {
    assert_eq!(vec!['a', '\u{e9}', 'z'], symbols("a\u{e9}z"));
    assert_eq!(Vec::<char>::new(), symbols(""));
}

#[test]
fn match_length_counts_equal_symbols() {
    let chars: Vec<char> = "aabaab".chars().collect();
    assert_eq!(3, match_length(&chars, 0, 3));
    assert_eq!(1, match_length(&chars, 0, 1));
    assert_eq!(0, match_length(&chars, 0, 2));
    assert_eq!(0, match_length(&chars, 0, 6));
    assert_eq!(0, match_length(&chars, 6, 6));
    assert_eq!(2, match_length(&chars, 4, 4));
}

#[test]
fn preprocess_gives_every_run() {
    assert_eq!(vec![6, 0, 0, 3, 0, 0], preprocess("hanhan"));
    assert_eq!(vec![4, 3, 2, 1], preprocess("aaaa"));
    assert_eq!(vec![4, 0, 2, 0], preprocess("abab"));
    assert_eq!(vec![2, 0], preprocess("ab"));
    assert_eq!(vec![2, 1], preprocess("aa"));
}

#[test]
fn preprocess_extends_a_run_past_its_window() {
    // At the last position the run known from the window is continued by
    // comparing beyond it.
    assert_eq!(vec![5, 1, 0, 2, 1], preprocess("aabaa"));
    assert_eq!(vec![9, 1, 0, 6, 1, 0, 3, 1, 0], preprocess("aabaabaab"));
    let chars: Vec<char> = "aabaa".chars().collect();
    assert_eq!(vec![5, 1, 0, 2, 1], prefix_runs(&chars));
}

#[test]
fn good_suffix_table() {
    assert_eq!(vec![-1, -1, -1, 2, -1, -1], get_good_suffix("hanhan"));
    assert_eq!(vec![-1, -1, 1, -1], get_good_suffix("abab"));
    assert_eq!(vec![-1, -1, -1, 2], get_good_suffix("xaxx"));
    assert_eq!(vec![-1, 2, 1, 0], get_good_suffix("aaaa"));
    assert_eq!(vec![-1, -1, -1, 1, 3], get_good_suffix("aabaa"));
    assert_eq!(vec![-1], get_good_suffix("a"));
    assert_eq!(Vec::<i32>::new(), get_good_suffix(""));
}

#[test]
fn full_shift_table() {
    assert_eq!(vec![6, 3, 3, 3, 0, 0], get_full_shift("hanhan"));
    assert_eq!(vec![4, 2, 2, 0], get_full_shift("abab"));
    assert_eq!(vec![4, 1, 1, 1], get_full_shift("xaxx"));
    assert_eq!(vec![5, 2, 2, 2, 1], get_full_shift("aabaa"));
    assert_eq!(vec![1], get_full_shift("a"));
    assert_eq!(Vec::<usize>::new(), get_full_shift(""));
}

#[test]
fn bad_character_table() {
    let table = get_bad_character("abab");
    assert_eq!(256, table.len());
    assert_eq!(vec![-1, 0, 0, 2, 2], table['a' as usize]);
    assert_eq!(vec![-1, -1, 1, 1, 3], table['b' as usize]);
    assert_eq!(vec![-1, -1, -1, -1, -1], table['c' as usize]);
    assert_eq!(vec![-1, -1, -1, -1, -1], table[255]);
}

#[test]
fn bad_character_table_of_empty_pattern() {
    let table = get_bad_character("");
    assert_eq!(256, table.len());
    for row in table {
        assert_eq!(vec![-1], row);
    }
}

#[test]
fn alphabet_membership() {
    assert!(within_alphabet(""));
    assert!(within_alphabet("plain ascii\n\t"));
    assert!(within_alphabet("\u{e9}\u{ff}"));
    assert!(!within_alphabet("\u{100}"));
    assert!(!within_alphabet("abc\u{20ac}def"));
}
