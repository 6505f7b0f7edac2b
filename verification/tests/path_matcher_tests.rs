use path_matcher::fault::MatchError;
use path_matcher::path_matcher::{AntPathMatcher, PathMatcher};
use path_matcher::path_matcher_v2::{quote, PathSeparatorPatternCache};
use path_matcher::engine::RegexMatch;
use path_matcher::string_matcher::{bind_captures, AntPathStringMatcher};

#[test]
fn test_1() {
    let mut ant_path_matcher = AntPathMatcher::default();
    let result = ant_path_matcher.match_("/a/*", "/a/b/c");
    assert_eq!(result, false);
}

#[test]
fn single_star_matches_one_segment() {
    let mut m = AntPathMatcher::default();
    assert!(m.match_("/a/*", "/a/b"));
    assert!(!m.match_("/a/*", "/a/b/c"));
    assert!(!m.match_("/a/*", "/x/b"));
}

#[test]
fn double_star_matches_many_segments() {
    let mut m = AntPathMatcher::default();
    assert!(m.match_("/a/**", "/a/b/c"));
    assert!(m.match_("/a/**/c", "/a/b/x/c"));
    assert!(m.match_("/a/**/b/**/d", "/a/x/b/y/d"));
    assert!(!m.match_("/a/**/b/**/d", "/a/x/y/d"));
    assert!(m.match_("/**", "/x/y"));
    assert!(m.match_("/**", "/"));
}

#[test]
fn match_start_allows_pattern_left_over() {
    let mut m = AntPathMatcher::default();
    assert!(m.match_start("/a/b/c", "/a/b"));
    assert!(!m.match_("/a/b/c", "/a/b"));
    assert!(m.match_start("/a/b/**", "/a/b"));
    assert!(m.match_("/a/b/**", "/a/b"));
    assert!(!m.match_start("/a/x/c", "/a/b"));
}

#[test]
fn leading_separator_must_agree() {
    let mut m = AntPathMatcher::default();
    assert!(!m.match_("a/b", "/a/b"));
    assert!(!m.match_("/a/b", "a/b"));
    assert!(m.match_("a/b", "a/b"));
}

#[test]
fn trailing_separator_rules() {
    let mut m = AntPathMatcher::default();
    assert!(!m.match_("/a/", "/a"));
    assert!(m.match_("/a/", "/a/"));
    assert!(m.match_("/a/*", "/a/"));
    assert!(m.match_("/", "/"));
}

#[test]
fn default_ignores_case() {
    let mut m = AntPathMatcher::default();
    assert!(m.match_("/A/b", "/a/B"));
}

#[test]
fn case_sensitive_matcher() {
    let mut m = AntPathMatcher::new("/", true, false, true);
    assert!(!m.match_("/A", "/a"));
    assert!(m.match_("/a", "/a"));
    assert!(m.match_("/a/*", "/a/b"));
    assert!(m.match_("/a/**", "/a/b/c"));
}

#[test]
fn question_mark_matches_one_character() {
    let mut m = AntPathMatcher::default();
    assert!(m.match_("/a?c", "/abc"));
    assert!(!m.match_("/a?c", "/abbc"));
}

#[test]
fn variable_inside_a_segment() {
    let mut m = AntPathMatcher::default();
    assert!(m.match_("/a{x}b", "/aXYb"));
    assert!(!m.match_("/a{x}b", "/aXYc"));
}

#[test]
fn regex_match_must_end_at_the_segment_end() {
    let mut m = AntPathMatcher::default();
    assert!(!m.match_("/{v:a|ab}", "/ab"));
    assert!(m.match_("/{v:ab|a}", "/ab"));
}

#[test]
fn switching_caching_off_loses_pattern_segments() {
    let mut m = AntPathMatcher::new("/", false, false, false);
    assert!(!m.match_("/a", "/a"));
    assert!(m.match_("/", "/"));
}

#[test]
fn trimmed_tokens() {
    let mut m = AntPathMatcher::new("/", false, true, true);
    assert!(m.match_("/ a /b", "/a/ b "));
    let mut n = AntPathMatcher::new("/", false, false, true);
    assert!(!n.match_("/ a /b", "/a/ b "));
}

#[test]
fn other_separator() {
    let mut m = AntPathMatcher::new(".", false, false, true);
    assert!(m.match_("a.*", "a.b"));
    assert!(!m.match_("a.*", "a.b.c"));
}

#[test]
fn empty_separator_splits_into_characters() {
    let mut m = AntPathMatcher::new("", false, false, true);
    assert!(m.match_("ab", "ab"));
    assert!(!m.match_("ab", "ac"));
    let mut cs = AntPathMatcher::new("", true, false, true);
    assert_eq!(cs.try_match("a", "a"), Err(MatchError::EmptySeparator));
}

#[test]
fn is_pattern_cases() {
    let m = AntPathMatcher::default();
    assert!(m.is_pattern("/a/*"));
    assert!(m.is_pattern("/a/?"));
    assert!(m.is_pattern("/a/{b}"));
    assert!(!m.is_pattern("/a/b"));
    assert!(!m.is_pattern("/a/}{"));
    assert!(!m.is_pattern("/a/{"));
}

#[test]
fn is_pattern_on_multibyte_paths() {
    let m = AntPathMatcher::default();
    assert_eq!(m.try_is_pattern("\u{e9}"), Err(MatchError::CharIndexOutOfRange));
    assert_eq!(m.try_is_pattern("\u{e9}*"), Ok(true));
    assert_eq!(m.try_is_pattern("ab"), Ok(false));
}

#[test]
fn extract_variables() {
    let mut m = AntPathMatcher::default();
    let vars = m.extract_uri_template_variables("/hotels/{hotel}", "/hotels/1");
    assert_eq!(vars.len(), 1);
    assert_eq!(vars.get("hotel").map(|s| s.as_str()), Some("1"));
    let vars = m.extract_uri_template_variables("/hotels/{hotel}/rooms/{room:\\d+}", "/hotels/h1/rooms/42");
    assert_eq!(vars.len(), 2);
    assert_eq!(vars.get("hotel").map(|s| s.as_str()), Some("h1"));
    assert_eq!(vars.get("room").map(|s| s.as_str()), Some("42"));
}

#[test]
fn extract_variables_errors() {
    let mut m = AntPathMatcher::default();
    assert!(matches!(
        m.try_extract_uri_template_variables("/{id:\\d+}", "/abc"),
        Err(MatchError::NoMatch)
    ));
    assert!(matches!(
        m.try_extract_uri_template_variables("/{**rest}", "/x"),
        Err(MatchError::CapturingVariable)
    ));
    assert!(m.match_("/{**rest}", "/x"));
    assert!(matches!(
        m.try_extract_uri_template_variables("/{a:(x)}", "/x"),
        Err(MatchError::CaptureCountMismatch)
    ));
    assert!(m.match_("/{a:(x)}", "/x"));
}

#[test]
fn invalid_variable_regex() {
    let mut m = AntPathMatcher::default();
    assert_eq!(m.try_match("/{id:[}", "/x"), Err(MatchError::InvalidRegex));
    assert_eq!(m.try_match_start("/{id:[}", "/x"), Err(MatchError::InvalidRegex));
    assert_eq!(m.try_match("/a", "/a"), Ok(true));
}

#[test]
fn extract_path_within_pattern_cases() {
    let mut m = AntPathMatcher::default();
    assert_eq!(m.extract_path_within_pattern("/docs/*", "/docs/cvs/commit"), "cvs/cvs/cvs");
    assert_eq!(m.extract_path_within_pattern("*.html", "commit.html"), "/commit.html");
    assert_eq!(m.extract_path_within_pattern("/docs/cvs/commit.html", "/docs/cvs/commit.html"), "");
    assert_eq!(m.extract_path_within_pattern("/a/*", ""), "");
    assert_eq!(
        m.try_extract_path_within_pattern("/a/b/*", "/x"),
        Err(MatchError::PathTooShort)
    );
}

#[test]
fn string_matcher_directly() {
    let exact = AntPathStringMatcher::new("abc", true).ok().unwrap();
    let mut none = None;
    assert!(exact.match_string("abc", &mut none));
    assert!(!exact.match_string("ABC", &mut none));
    let wild = AntPathStringMatcher::new("a*", false).ok().unwrap();
    assert_eq!(wild.try_match_string("AXYZ", &mut none), Ok(true));
    assert!(matches!(AntPathStringMatcher::new("{x:(}", true), Err(MatchError::InvalidRegex)));
}

#[test]
fn quote_escapes_meta_characters() {
    assert_eq!(quote("a.b", 0, 3), "a\\.b");
    assert_eq!(quote("abc", 1, 1), "");
    assert_eq!(quote("x(y)", 1, 4), "\\(y\\)");
}

#[test]
fn separator_suffix_patterns() {
    let c = PathSeparatorPatternCache::new("/");
    assert_eq!(c.ends_on_wildcard, "/*");
    assert_eq!(c.ends_on_double_wildcard, "/**");
}

#[test]
fn full_match_implies_start_match() {
    let mut m = AntPathMatcher::default();
    let pairs = [("/a/*", "/a/b"), ("/a/**/c", "/a/b/c"), ("/x", "/x")];
    for (p, s) in pairs.iter() {
        assert!(m.match_(p, s));
        assert!(m.match_start(p, s));
    }
}

#[test]
fn empty_segments_are_dropped() {
    let mut m = AntPathMatcher::default();
    assert!(m.match_("/a/b", "//a//b"));
    assert!(m.match_("/a//b", "/a/b"));
}

#[test]
fn double_star_pattern_matches_every_path() {
    let mut m = AntPathMatcher::default();
    assert!(m.match_("/**/**", "/x/y/z"));
    assert!(m.match_start("/**", "/x"));
    assert!(!m.match_("/**", "x"));
}


#[test]
fn default_matcher_answers_the_same_twice() {
    let mut m = AntPathMatcher::default();
    assert!(m.match_("/a", "/a"));
    assert!(m.match_("/a", "/a"));
    assert!(m.match_("/a/{x}", "/a/b"));
    assert!(m.match_("/a/{x}", "/a/b"));
    assert!(!m.match_("/a/{x}", "/a/b/c"));
}

#[test]
fn matcher_from_given_wildcards() {
    let ms = vec![RegexMatch { start: 0, end: 1, text: "*".to_string() }];
    let m = AntPathStringMatcher::from_wildcards("*.txt", true, &ms).unwrap();
    let mut none = None;
    assert_eq!(m.try_match_string("a.txt", &mut none), Ok(true));
    assert_eq!(m.try_match_string("a.txt.bak", &mut none), Ok(false));
    assert_eq!(m.try_match_string("a.TXT", &mut none), Ok(false));
}

#[test]
fn matcher_from_no_wildcards_compares_literally() {
    let ms: Vec<RegexMatch> = Vec::new();
    let m = AntPathStringMatcher::from_wildcards("a*b", true, &ms).unwrap();
    let mut none = None;
    assert_eq!(m.try_match_string("a*b", &mut none), Ok(true));
    assert_eq!(m.try_match_string("axb", &mut none), Ok(false));
}

#[test]
fn matcher_from_given_variable() {
    let ms = vec![RegexMatch { start: 0, end: 6, text: "{name}".to_string() }];
    let m = AntPathStringMatcher::from_wildcards("{name}.html", true, &ms).unwrap();
    let no_vars = AntPathMatcher::default().extract_uri_template_variables("/x", "/x");
    assert_eq!(no_vars.len(), 0);
    let mut vars = Some(no_vars);
    assert_eq!(m.try_match_string("index.html", &mut vars), Ok(true));
    assert_eq!(vars.unwrap().get("name"), Some(&"index".to_string()));
}

#[test]
fn bind_captures_binds_in_order() {
    let names = vec!["a".to_string(), "b".to_string()];
    let groups = vec![Some("x-y".to_string()), Some("x".to_string()), Some("y".to_string())];
    let mut vars = AntPathMatcher::default().extract_uri_template_variables("/x", "/x");
    assert_eq!(bind_captures(&names, &groups, &mut vars), Ok(()));
    assert_eq!(vars.get("a"), Some(&"x".to_string()));
    assert_eq!(vars.get("b"), Some(&"y".to_string()));
}

#[test]
fn bind_captures_errors() {
    let names = vec!["a".to_string()];
    let mut vars = AntPathMatcher::default().extract_uri_template_variables("/x", "/x");
    let two = vec![Some("x".to_string())];
    assert_eq!(bind_captures(&names, &two, &mut vars), Err(MatchError::CaptureCountMismatch));
    let missing = vec![Some("x".to_string()), None];
    assert_eq!(bind_captures(&names, &missing, &mut vars), Err(MatchError::UnmatchedGroup));
    let starred = vec!["**a".to_string()];
    let groups = vec![Some("x".to_string()), Some("x".to_string())];
    assert_eq!(bind_captures(&starred, &groups, &mut vars), Err(MatchError::CapturingVariable));
}

#[test]
fn gathering_variables_keeps_the_answer() {
    let mut m = AntPathMatcher::default();
    let vars = m.try_extract_uri_template_variables("/hotels/{hotel}/rooms/{room}", "/hotels/1/rooms/2");
    assert!(vars.is_ok());
    assert_eq!(m.try_match("/hotels/{hotel}/rooms/{room}", "/hotels/1/rooms/2"), Ok(true));
    assert!(matches!(
        m.try_extract_uri_template_variables("/hotels/{hotel}", "/rooms/1"),
        Err(MatchError::NoMatch)
    ));
    assert_eq!(m.try_match("/hotels/{hotel}", "/rooms/1"), Ok(false));
}

#[test]
fn whitespace_is_trimmed_from_tokens() {
    let mut m = AntPathMatcher::new("/", true, true, true);
    assert!(m.match_("/a/b", "/ a\u{3000}/\tb\u{2028}"));
    assert!(!m.match_("/a/b", "/ a\u{3000}x/b"));
}

#[test]
fn extracted_values_are_pieces_of_path_segments() {
    let mut m = AntPathMatcher::default();
    let path = "/shop/books-12/page.html";
    let vars = m.extract_uri_template_variables("/shop/{kind}-{id}/{name}.html", path);
    assert_eq!(vars.len(), 3);
    let segments: Vec<&str> = path.split('/').collect();
    for key in ["kind", "id", "name"] {
        let value = vars.get(key).unwrap();
        assert!(path.contains(value.as_str()));
        assert!(!value.contains('/'));
        assert!(segments.iter().any(|s| s.contains(value.as_str())));
    }
    assert_eq!(vars.get("kind").map(|s| s.as_str()), Some("books"));
    assert_eq!(vars.get("id").map(|s| s.as_str()), Some("12"));
    assert_eq!(vars.get("name").map(|s| s.as_str()), Some("page"));
}
