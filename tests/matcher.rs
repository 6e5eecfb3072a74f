use token_matcher::matcher::Matcher;
use token_matcher::token::MatcherToken;

#[test]
fn simple_test() {
    let match_string = "abc(d|e|f).".to_string();
    let mut matcher = Matcher::new(&match_string).unwrap();

    assert_eq!(matcher.most_tokens_matched, 0);

    {
        let candidate1 = "abcge".to_string();
        let result = matcher.match_string(&candidate1);
        assert_eq!(result, vec![(&MatcherToken::RawText("abc"), "abc"),]);
        assert_eq!(matcher.most_tokens_matched, 1);
    }

    {
        let candidate1 = "abcde".to_string();
        let result = matcher.match_string(&candidate1);
        assert_eq!(
            result,
            vec![
                (&MatcherToken::RawText("abc"), "abc"),
                (&MatcherToken::OneOfText(vec!["d", "e", "f"]), "d"),
                (&MatcherToken::WildCard, "e")
            ]
        );
        assert_eq!(matcher.most_tokens_matched, 3);
    }
}

#[test]
fn broken_matcher() {
    let match_string = "abc(d|e|f.".to_string();
    let matcher = Matcher::new(&match_string);
    assert_eq!(matcher, None);
}

#[test]
fn compile_tokens_in_order() {
    let matcher = Matcher::new("ab.(x|)c").unwrap();
    assert_eq!(
        matcher.tokens,
        vec![
            MatcherToken::RawText("ab"),
            MatcherToken::WildCard,
            MatcherToken::OneOfText(vec!["x", ""]),
            MatcherToken::RawText("c"),
        ]
    );
    assert_eq!(matcher.text, "ab.(x|)c");
}

#[test]
fn round_trip_of_spans() {
    let pattern = "he(llo|y).w(|o)rld";
    let matcher = Matcher::new(pattern).unwrap();
    let mut rebuilt = String::new();
    for t in &matcher.tokens {
        match t {
            MatcherToken::RawText(s) => rebuilt.push_str(s),
            MatcherToken::WildCard => rebuilt.push('.'),
            MatcherToken::OneOfText(alts) => {
                rebuilt.push('(');
                rebuilt.push_str(&alts.join("|"));
                rebuilt.push(')');
            }
        }
    }
    assert_eq!(rebuilt, pattern);
}

#[test]
fn empty_group_compiles() {
    let matcher = Matcher::new("()").unwrap();
    assert_eq!(matcher.tokens, vec![MatcherToken::OneOfText(vec![""])]);
}

#[test]
fn open_group_after_closed_one_fails() {
    assert_eq!(Matcher::new("(a)b(c"), None);
    assert_eq!(Matcher::new("("), None);
}

#[test]
fn first_alternative_wins() {
    let mut matcher = Matcher::new("(d|e|f)").unwrap();
    let result = matcher.match_string("d...");
    assert_eq!(result, vec![(&MatcherToken::OneOfText(vec!["d", "e", "f"]), "d")]);
}

#[test]
fn first_alternative_not_longest() {
    let mut matcher = Matcher::new("(a|ab)c").unwrap();
    let result = matcher.match_string("abc");
    assert_eq!(result, vec![(&MatcherToken::OneOfText(vec!["a", "ab"]), "a")]);
}

#[test]
fn statistic_is_running_max() {
    let mut matcher = Matcher::new("a.b").unwrap();
    assert_eq!(matcher.most_tokens_matched, 0);
    assert_eq!(matcher.match_string("axb").len(), 3);
    assert_eq!(matcher.most_tokens_matched, 3);
    assert_eq!(matcher.match_string("q").len(), 0);
    assert_eq!(matcher.most_tokens_matched, 3);
    assert_eq!(matcher.match_string("ax").len(), 2);
    assert_eq!(matcher.most_tokens_matched, 3);
    assert_eq!(matcher.most_tokens_matched(), 3);
}

#[test]
fn empty_pattern() {
    let mut matcher = Matcher::new("").unwrap();
    assert!(matcher.tokens.is_empty());
    assert!(matcher.match_string("anything").is_empty());
    assert!(matcher.match_string("").is_empty());
    assert_eq!(matcher.most_tokens_matched, 0);
}

#[test]
fn exhausted_candidate() {
    let mut matcher = Matcher::new("ab.(c|d)").unwrap();
    let result = matcher.match_string("abz");
    assert_eq!(
        result,
        vec![(&MatcherToken::RawText("ab"), "ab"), (&MatcherToken::WildCard, "z")]
    );
    assert_eq!(matcher.most_tokens_matched, 2);
}

#[test]
fn empty_candidate() {
    let mut matcher = Matcher::new(".").unwrap();
    assert!(matcher.match_string("").is_empty());
    let mut matcher = Matcher::new("(|x)").unwrap();
    assert!(matcher.match_string("").is_empty());
}

#[test]
fn raw_text_mismatch_stops() {
    let mut matcher = Matcher::new("abc.").unwrap();
    assert!(matcher.match_string("abd").is_empty());
    assert!(matcher.match_string("ab").is_empty());
}

#[test]
fn wildcard_takes_one_character() {
    let mut matcher = Matcher::new(".x").unwrap();
    let result = matcher.match_string("\u{1F4AA}x");
    assert_eq!(
        result,
        vec![(&MatcherToken::WildCard, "\u{1F4AA}"), (&MatcherToken::RawText("x"), "x")]
    );
}

#[test]
fn unicode_raw_and_alternatives() {
    let mut matcher = Matcher::new("\u{e9}t(\u{e9}|e)").unwrap();
    let result = matcher.match_string("\u{e9}te!");
    assert_eq!(
        result,
        vec![
            (&MatcherToken::RawText("\u{e9}t"), "\u{e9}t"),
            (&MatcherToken::OneOfText(vec!["\u{e9}", "e"]), "e")
        ]
    );
}
