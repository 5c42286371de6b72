use codecrafters_grep::utils::{
    check_num_similar_pattern, check_optional, get_next_pattern, get_numrepeats, match_extra,
    try_get_numrepeats, try_match_extra,
};
use codecrafters_grep::{match_by_char, try_match_by_char};

fn chars(s: &str) -> Vec<char> {
    s.chars().collect()
}

#[test]
fn success_reports_matched_prefix() {
    let r = match_by_char("dogs", "do", false, &Vec::new());
    assert_eq!(r, (true, Some(2), "do".to_string()));
    let r = match_by_char("dog", "dog$", false, &Vec::new());
    assert_eq!(r, (true, Some(3), "dog".to_string()));
    let r = match_by_char("goøö0Ogol", "g.+gol", false, &Vec::new());
    assert!(r.0);
    let n = r.1.unwrap();
    let prefix: String = "goøö0Ogol".chars().take(n).collect();
    assert_eq!(r.2, prefix);
}

#[test]
fn failure_reports_nothing() {
    assert_eq!(
        match_by_char("cog", "d.g", false, &Vec::new()),
        (false, None, String::new())
    );
}

#[test]
fn end_anchor_one_before_the_end() {
    // `$` accepts the position just before the last character and then
    // reports the whole line
    assert_eq!(
        match_by_char("dogs", "dog$", false, &Vec::new()),
        (true, Some(4), "dogs".to_string())
    );
}

#[test]
fn alternatives_without_group() {
    assert_eq!(
        match_by_char("dog", "cat|dog", false, &Vec::new()),
        (true, Some(3), "dog".to_string())
    );
    assert_eq!(
        match_by_char("cow", "cat|dog", false, &Vec::new()),
        (false, Some(0), String::new())
    );
}

#[test]
fn word_class_and_digits() {
    assert!(match_by_char("_", r"\w", false, &Vec::new()).0);
    assert!(match_by_char("é", r"\w", false, &Vec::new()).0);
    assert!(!match_by_char("-", r"\w", false, &Vec::new()).0);
    assert!(match_by_char("a7", r"\d", false, &Vec::new()).0);
    assert!(!match_by_char("ab", r"\d", false, &Vec::new()).0);
}

#[test]
fn single_character_bracket_group_never_matches() {
    // a bracket group needs at least two characters
    assert!(!match_by_char("a", "[a]", false, &Vec::new()).0);
    assert!(match_by_char("a", "[ab]", false, &Vec::new()).0);
}

#[test]
fn passed_groups_serve_back_references() {
    let groups = vec![(0, 4, "cat".to_string())];
    assert!(match_by_char("cat", r"\1", false, &groups).0);
    assert!(!match_by_char("dog", r"\1", false, &groups).0);
}

#[test]
fn budget_and_panics() {
    let none: Vec<(usize, usize, String)> = Vec::new();
    // no budget at all
    assert_eq!(try_match_by_char("a", "a", false, &none, 0), None);
    // enough budget
    assert_eq!(
        try_match_by_char("a", "a", false, &none, 100),
        Some((true, Some(1), "a".to_string()))
    );
    // the same with any larger budget
    assert_eq!(
        try_match_by_char("a", "a", false, &none, u64::MAX),
        try_match_by_char("a", "a", false, &none, 100)
    );
    // empty pattern, empty input, unclosed group, missing group
    assert_eq!(try_match_by_char("a", "", false, &none, 1000), None);
    assert_eq!(try_match_by_char("", "a", false, &none, 1000), None);
    assert_eq!(try_match_by_char("abc", "(abc", false, &none, 1000), None);
    assert_eq!(try_match_by_char("abc", r"\3", false, &none, 1000), None);
    // a `[` that no `]` closes makes no progress
    assert_eq!(try_match_by_char("x", "[abc", false, &none, 1000), None);
}

#[test]
fn optional_markers() {
    assert!(check_optional("a?b"));
    assert!(check_optional("a*"));
    assert!(!check_optional("ab"));
    assert!(check_optional("[ab]?"));
    assert!(!check_optional("[ab]c"));
    // the index read after a group is that of its `)`
    assert!(!check_optional("(ab)*"));
    assert!(check_optional(r"\d?"));
    assert!(check_optional("?a*"));
}

#[test]
fn next_sub_pattern() {
    assert_eq!(get_next_pattern("[ab]c"), "[ab]");
    assert_eq!(get_next_pattern("^abc"), "a");
    assert_eq!(get_next_pattern("+]x"), "x");
    assert_eq!(get_next_pattern("((a)b)"), "a");
    assert_eq!(get_next_pattern(r"\d+"), r"\d");
    assert_eq!(get_next_pattern(r"\\d"), r"\d");
    assert_eq!(get_next_pattern("^+"), "");
}

#[test]
fn similar_sub_patterns() {
    let none: Vec<(usize, usize, String)> = Vec::new();
    assert_eq!(check_num_similar_pattern(2, "a", &chars("ca+at"), &none), 1);
    assert_eq!(check_num_similar_pattern(2, "a", &chars("ca+aat"), &none), 2);
    assert_eq!(check_num_similar_pattern(2, "a", &chars("ca+t"), &none), 0);
    assert_eq!(check_num_similar_pattern(3, r"\d", &chars(r"1\d+23x"), &none), 2);
}

#[test]
fn repeats_of_a_sub_pattern() {
    let none: Vec<(usize, usize, String)> = Vec::new();
    assert_eq!(
        get_numrepeats(0, "aaab", "^a".to_string(), &chars("aaab"), &none),
        (3, 3)
    );
    assert_eq!(
        get_numrepeats(1, "baab", "^a".to_string(), &chars("baab"), &none),
        (2, 2)
    );
}

#[test]
fn extra_repetitions() {
    let none: Vec<(usize, usize, String)> = Vec::new();
    assert_eq!(match_extra("a", &chars("aaa"), "aaa", 0, &none, 1, &chars("a+")), (true, 3));
    assert_eq!(match_extra("a", &chars("aab"), "aab", 0, &none, 1, &chars("a+$")), (false, 2));
}

#[test]
fn plain_pattern_matches_a_beginning() {
    let none: Vec<(usize, usize, String)> = Vec::new();
    assert_eq!(
        match_by_char("dogs", "dog", false, &none),
        (true, Some(3), "dog".to_string())
    );
    assert!(!match_by_char("hotdog", "dog", false, &none).0);
    assert!(!match_by_char("do", "dog", false, &none).0);
}

#[test]
fn alternatives_match_when_one_does() {
    let none: Vec<(usize, usize, String)> = Vec::new();
    let whole = match_by_char("cow", "cat|dog|cow", false, &none);
    let last = match_by_char("cow", "cow", false, &none);
    assert!(whole.0);
    assert_eq!(whole, last);
}

#[test]
fn leading_anchor_can_be_dropped() {
    let none: Vec<(usize, usize, String)> = Vec::new();
    for (input, p) in [("abc", "ab"), ("dog", "d.g"), ("a1", r"a\d"), ("aaab", "a+b")] {
        let anchored = format!("^{}", p);
        assert!(match_by_char(input, &anchored, false, &none).0);
        assert!(match_by_char(input, p, false, &none).0);
    }
    // the anchor itself can make a match fail
    assert!(!match_by_char("xab", "^ab", false, &none).0);
}

#[test]
fn doubled_anchor_reads_a_caret() {
    let none: Vec<(usize, usize, String)> = Vec::new();
    // after a leading `^`, a second `^` is an ordinary character
    assert!(match_by_char("^xb", "^^.b", false, &none).0);
    assert!(!match_by_char("^xb", "^.b", false, &none).0);
}

#[test]
fn extra_at_end_moves_past_the_repeats() {
    let none: Vec<(usize, usize, String)> = Vec::new();
    let input = chars("aaab");
    let (_, covered) = get_numrepeats(0, "aaab", "^a".to_string(), &input, &none);
    assert_eq!(covered, 3);
    // nothing after the repeat: success, past what the repeats cover
    assert_eq!(match_extra("a", &input, "aaab", 0, &none, 1, &chars("a+")), (true, covered));
    // only `$` after the repeat: success only at the end of the input
    assert_eq!(match_extra("a", &input, "aaab", 0, &none, 1, &chars("a+$")), (false, covered));
}

#[test]
fn extra_backtracks_to_the_last_match() {
    let none: Vec<(usize, usize, String)> = Vec::new();
    // the rest `b` matches from position 3
    assert_eq!(match_extra("a", &chars("aaab"), "aaab", 0, &none, 1, &chars("a+b")), (true, 3));
    // the rest `ab` matches from position 1 only
    assert_eq!(match_extra("a", &chars("aab"), "aab", 0, &none, 1, &chars("a+ab")), (true, 1));
    // no position above the start: the start itself
    assert_eq!(match_extra("a", &chars("aaa"), "aaa", 0, &none, 1, &chars("a+b")), (true, 0));
}

#[test]
fn checked_helpers() {
    let none: Vec<(usize, usize, String)> = Vec::new();
    let input = chars("aaab");
    assert_eq!(try_get_numrepeats(0, "aaab", "^a", &input, &none, 0), None);
    assert_eq!(try_get_numrepeats(0, "aaab", "^a", &input, &none, u64::MAX), Some((3, 3)));
    assert_eq!(
        try_match_extra("a", &input, "aaab", 0, &none, 1, &chars("a+b"), 0),
        None
    );
    assert_eq!(
        try_match_extra("a", &input, "aaab", 0, &none, 1, &chars("a+b"), u64::MAX),
        Some((true, 3))
    );
    // a pattern position past the end
    assert_eq!(
        try_match_extra("a", &input, "aaab", 0, &none, 5, &chars("a+b"), u64::MAX),
        None
    );
}
