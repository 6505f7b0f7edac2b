//! A second, smaller matcher: its settings, the suffix patterns derived from
//! its separator, and the interface it is to offer (including `combine`).
use vstd::prelude::*;
use vstd::hash_map::StringHashMap;

pub use crate::string_matcher::quote;

verus! {

/// The separator that `AntPathMatcher::default` uses.
pub const DEFAULT_PATH_SEPARATOR: &'static str = "/";

/// The operations of a path matcher; `combine` joins two patterns into one.
pub trait PathMatcher {
    fn is_pattern(&self, path: &str) -> bool;

    fn match_(&mut self, pattern: &str, path: &str) -> bool;

    fn match_start(&self, pattern: String, path: String) -> bool;

    fn extract_path_within_pattern(&mut self, pattern: &str, path: &str) -> String;

    fn extract_uri_template_variables(&mut self, pattern: &str, path: &str) -> StringHashMap<String>;

    fn combine(&self, pattern1: String, pattern2: String) -> String;
}

/// The patterns that end a path on a wildcard segment, for one separator:
/// the separator followed by `*`, and by `**`.
pub struct PathSeparatorPatternCache {
    pub ends_on_wildcard: String,
    pub ends_on_double_wildcard: String,
}

impl PathSeparatorPatternCache {
    /// The two suffix patterns for `path_separator`.
    pub fn new(path_separator: &str) -> (r: Self)
        ensures
            r.ends_on_wildcard@ == path_separator@ + seq!['*'],
            r.ends_on_double_wildcard@ == path_separator@ + seq!['*', '*'],
    {
        let mut w = crate::text::chars_of(path_separator);
        let mut dw = crate::text::chars_of(path_separator);
        w.push('*');
        dw.push('*');
        dw.push('*');
        assert(dw@ =~= path_separator@ + seq!['*', '*']);
        PathSeparatorPatternCache {
            ends_on_wildcard: crate::text::string_of(&w),
            ends_on_double_wildcard: crate::text::string_of(&dw),
        }
    }
}

/// The settings and caches of the second matcher.
pub struct AntPathMatcher {
    path_separator: String,
    path_separator_pattern_cache: PathSeparatorPatternCache,
    case_sensitive: bool,
    trim_tokens: bool,
    cache_patterns: bool,
    tokenized_pattern_cache: StringHashMap<Vec<String>>,
    string_matcher_cache: StringHashMap<crate::string_matcher::AntPathStringMatcher>,
}

impl AntPathMatcher {
    /// The separator.
    pub closed spec fn separator(&self) -> Seq<char> {
        self.path_separator@
    }

    /// Whether case counts, tokens are trimmed and patterns cached.
    pub closed spec fn flags(&self) -> (bool, bool, bool) {
        (self.case_sensitive, self.trim_tokens, self.cache_patterns)
    }

    /// The patterns whose tokens are cached, and the pattern segments whose
    /// matchers are cached.
    pub closed spec fn cached_keys(&self) -> (Set<Seq<char>>, Set<Seq<char>>) {
        (self.tokenized_pattern_cache@.dom(), self.string_matcher_cache@.dom())
    }

    /// The suffix patterns kept for the separator.
    pub closed spec fn suffixes(&self) -> (Seq<char>, Seq<char>) {
        (
            self.path_separator_pattern_cache.ends_on_wildcard@,
            self.path_separator_pattern_cache.ends_on_double_wildcard@,
        )
    }
}

impl Default for AntPathMatcher {
    /// A matcher on `/`, ignoring case, not trimming, not caching.
    fn default() -> (r: Self)
        ensures
            r.separator() == seq!['/'],
            r.flags() == (false, false, false),
            r.suffixes() == (seq!['/', '*'], seq!['/', '*', '*']),
            r.cached_keys() == (Set::<Seq<char>>::empty(), Set::<Seq<char>>::empty()),
    {
        proof {
            assert(Map::<Seq<char>, Vec<String>>::empty().dom() =~= Set::<Seq<char>>::empty());
            assert(Map::<Seq<char>, crate::string_matcher::AntPathStringMatcher>::empty().dom()
                =~= Set::<Seq<char>>::empty());
        }
        let sep = DEFAULT_PATH_SEPARATOR.to_owned();
        let cache = PathSeparatorPatternCache::new(DEFAULT_PATH_SEPARATOR);
        proof {
            reveal_strlit("/");
            assert(sep@ =~= seq!['/']);
            assert(cache.ends_on_wildcard@ =~= seq!['/', '*']);
            assert(cache.ends_on_double_wildcard@ =~= seq!['/', '*', '*']);
        }
        AntPathMatcher {
            path_separator: sep,
            path_separator_pattern_cache: cache,
            case_sensitive: false,
            trim_tokens: false,
            cache_patterns: false,
            tokenized_pattern_cache: StringHashMap::new(),
            string_matcher_cache: StringHashMap::new(),
        }
    }
}

} // verus!
