use lifetimes::{compile, CompileError, Matcher, MatcherToken};

#[test]
fn main_simple_test() {
    let match_string = "abc(d|e|f).".to_string();
    let mut matcher = Matcher::new(&match_string).unwrap();

    assert_eq!(matcher.most_tokens_matched(), 0);

    {
        let candidate1 = "abcge".to_string();
        let result = matcher.match_string(&candidate1);
        assert_eq!(result, vec![(&MatcherToken::RawText("abc"), "abc"),]);
        assert_eq!(matcher.most_tokens_matched(), 1);
    }

    {
        let candidate1 = "abcde".to_string();
        let result = matcher.match_string(&candidate1);
        assert_eq!(
            result,
            vec![
                (&MatcherToken::RawText("abc"), "abc"),
                (&MatcherToken::OneOfText(vec!["d", "e", "f"]), "d"),
                (&MatcherToken::WildCard, "e")
            ]
        );
        assert_eq!(matcher.most_tokens_matched(), 3);
    }
}

#[test]
fn main_broken_matcher() {
    let match_string = "abc(d|e|f.".to_string();
    let matcher = Matcher::new(&match_string);
    assert_eq!(matcher, None);
}

#[test]
fn compiles_group_and_wildcard() {
    let matcher = Matcher::new("abc(d|e|f).").unwrap();
    assert_eq!(
        matcher.tokens(),
        &vec![
            MatcherToken::RawText("abc"),
            MatcherToken::OneOfText(vec!["d", "e", "f"]),
            MatcherToken::WildCard
        ]
    );
    assert_eq!(matcher.text(), "abc(d|e|f).");
}

#[test]
fn count_keeps_the_highest_value() {
    let mut matcher = Matcher::new("abc(d|e|f).").unwrap();
    assert_eq!(matcher.match_string("abcdx").len(), 3);
    assert_eq!(matcher.most_tokens_matched(), 3);
    assert_eq!(matcher.match_string("xyz").len(), 0);
    assert_eq!(matcher.most_tokens_matched(), 3);
    assert_eq!(matcher.match_string("abcg").len(), 1);
    assert_eq!(matcher.most_tokens_matched(), 3);
}

#[test]
fn spans_are_adjacent() {
    let mut matcher = Matcher::new("a(xy|x).b(q|)c").unwrap();
    let input = "axyzbqcdef";
    let result = matcher.match_string(input);
    let joined: String = result.iter().map(|(_, s)| *s).collect();
    assert_eq!(joined, "axyzbqc");
    assert!(input.starts_with(&joined));
    assert_eq!(result.len(), 6);
}

#[test]
fn empty_pattern_matches_nothing() {
    let mut matcher = Matcher::new("").unwrap();
    assert!(matcher.tokens().is_empty());
    assert!(matcher.match_string("anything").is_empty());
    assert_eq!(matcher.most_tokens_matched(), 0);

    let mut other = Matcher::new("an").unwrap();
    assert_eq!(other.match_string("anything").len(), 1);
    assert_eq!(other.most_tokens_matched(), 1);
}

#[test]
fn wildcard_takes_one_multibyte_character() {
    let mut matcher = Matcher::new(".").unwrap();
    let result = matcher.match_string("💪b");
    assert_eq!(result, vec![(&MatcherToken::WildCard, "💪")]);

    let mut matcher = Matcher::new("abc(d|e|f).").unwrap();
    let result = matcher.match_string("abcd💪");
    assert_eq!(result[2], (&MatcherToken::WildCard, "💪"));
}

#[test]
fn first_alternative_wins_without_backtracking() {
    let mut matcher = Matcher::new("(a|ab)c").unwrap();
    let result = matcher.match_string("abc");
    assert_eq!(result, vec![(&MatcherToken::OneOfText(vec!["a", "ab"]), "a")]);
    assert_eq!(matcher.most_tokens_matched(), 1);
}

#[test]
fn empty_alternatives_and_unclosed_group() {
    let matcher = Matcher::new("(|a||)").unwrap();
    assert_eq!(
        matcher.tokens(),
        &vec![MatcherToken::OneOfText(vec!["", "a", "", ""])]
    );
    assert_eq!(Matcher::new("x(y"), None);
    assert_eq!(Matcher::new("("), None);
    assert!(Matcher::new("()").is_some());
}

#[test]
fn stops_at_end_of_input() {
    let mut matcher = Matcher::new("ab..").unwrap();
    let result = matcher.match_string("abé");
    assert_eq!(
        result,
        vec![(&MatcherToken::RawText("ab"), "ab"), (&MatcherToken::WildCard, "é")]
    );
    assert_eq!(matcher.most_tokens_matched(), 2);
}

#[test]
fn compile_reports_unterminated_group() {
    assert_eq!(compile("abc(d|e|f.").err(), Some(CompileError::UnterminatedGroup));
    let mut matcher = compile("abc(d|e|f).").unwrap();
    assert_eq!(matcher.most_tokens_matched(), 0);
    assert_eq!(matcher.match_string("abcfz").len(), 3);
    assert_eq!(matcher.most_tokens_matched(), 3);
}
