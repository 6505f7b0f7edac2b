//! The Ant-style path matcher: its settings, its caches of tokenized patterns
//! and segment matchers, and the walk that matches a path against a pattern.
use vstd::prelude::*;
use vstd::hash_map::StringHashMap;
use vstd::utf8::encode_utf8;
use crate::fault::MatchError;
use crate::path_spec::{
    extract_from, extract_path_spec, extract_repeat, extract_variables_spec, is_pattern_from,
    is_pattern_spec, all_double_star, bwd, double_star, first_double_star, fwd, is_wildcard, middle,
    pattern_tokens, potential_from, potential_match_spec, search, seg_match,
    skip_segment_spec, skip_separator_spec, try_block, walk, MatcherConfig, Step, CacheState,
    cache_invariant, deactivated, tokenize_step, matcher_step, fwd_cache, bwd_cache,
    try_block_cache, search_cache, middle_cache, walk_cache, do_match_cache, values_from_path,
};
use crate::string_matcher::{
    build_spec, copy_strings, gathered_from, lemma_gathered_refl, lemma_gathered_trans,
    lemma_gathered_widen, utf8_len, vars_view, AntPathStringMatcher, Vars,
};
use crate::text::{is_substring, lemma_substring_trans, law_tokens_are_substrings, law_tokens_hold_no_separator, byte_len, chars_of, ends_with, starts_with, string_of, tokenize, tokenize_spec};

verus! {

/// The separator that `AntPathMatcher::default` uses.
pub const DEFAULT_PATH_SEPARATOR: &'static str = "/";

/// How many distinct patterns a cache may hold, when caching was left to
/// decide for itself, before caching is switched off.
pub const CACHE_TURNOFF_THRESHOLD: usize = 65536;

/// A matcher of paths against Ant-style patterns.
pub struct AntPathMatcher {
    path_separator: String,
    case_sensitive: bool,
    trim_tokens: bool,
    cache_patterns: Option<bool>,
    tokenized_pattern_cache: StringHashMap<Vec<String>>,
    string_matcher_cache: StringHashMap<AntPathStringMatcher>,
}

impl View for AntPathMatcher {
    type V = MatcherConfig;

    closed spec fn view(&self) -> MatcherConfig {
        MatcherConfig {
            path_separator: self.path_separator@,
            case_sensitive: self.case_sensitive,
            trim_tokens: self.trim_tokens,
            cache_patterns: self.cache_patterns,
        }
    }
}

/// How the settings may change during one call: only the cache policy, and
/// only from "decide for itself" to "off".
pub open spec fn evolves(before: MatcherConfig, after: MatcherConfig) -> bool {
    &&& after.path_separator == before.path_separator
    &&& after.case_sensitive == before.case_sensitive
    &&& after.trim_tokens == before.trim_tokens
    &&& (after.cache_patterns == before.cache_patterns || (before.cache_patterns is None
        && after.cache_patterns == Some(false)))
}

/// The exec form of a phase's stopping point.
pub enum Phase {
    Done(bool),
    At(usize, usize),
}

/// The stopping point that a `Phase` stands for.
pub open spec fn phase_view(p: Phase) -> Step {
    match p {
        Phase::Done(b) => Step::Done(b),
        Phase::At(a, c) => Step::At(a as int, c as int),
    }
}

/// Whether `sb` stands in `b` at byte `x`.
fn bytes_prefix_at(b: &[u8], x: usize, sb: &[u8]) -> (r: bool)
    requires
        x <= b@.len(),
    ensures
        r == sb@.is_prefix_of(b@.skip(x as int)),
{
    broadcast use vstd::slice::group_slice_axioms;
    if sb.len() > b.len() - x {
        return false;
    }
    let blen = b.len();
    let mut i: usize = 0;
    while i < sb.len()
        invariant
            blen == b@.len(),
            x + sb@.len() <= b@.len(),
            i <= sb@.len(),
            forall|k: int| 0 <= k < i ==> sb@[k] == b@[x + k],
        decreases sb.len() - i,
    {
        if sb[i] != b[x + i] {
            return false;
        }
        i = i + 1;
    }
    true
}

/// The first index in `from..to` whose token is `**`.
fn first_double_star_exec(patt_dirs: &Vec<String>, from: usize, to: usize) -> (r: Option<usize>)
    requires
        to <= patt_dirs.len(),
    ensures
        match r {
            Some(i) => first_double_star(patt_dirs.deep_view(), from as int, to as int) == i as int && from <= i < to,
            None => first_double_star(patt_dirs.deep_view(), from as int, to as int) == -1,
        },
{
    let ghost pv = patt_dirs.deep_view();
    let mut i = from;
    while i < to
        invariant
            from <= i,
            to <= patt_dirs.len(),
            pv == patt_dirs.deep_view(),
            first_double_star(pv, from as int, to as int) == first_double_star(pv, i as int, to as int),
        decreases to - i,
    {
        assert(pv[i as int] == patt_dirs[i as int]@);
        if is_double_star(&patt_dirs[i]) {
            return Some(i);
        }
        i = i + 1;
    }
    None
}

/// Whether every token in `from..to` is `**`.
fn all_double_star_exec(patt_dirs: &Vec<String>, from: usize, to: usize) -> (r: bool)
    requires
        to <= patt_dirs.len(),
    ensures
        r == all_double_star(patt_dirs.deep_view(), from as int, to as int),
{
    let ghost pv = patt_dirs.deep_view();
    let mut i = from;
    while i < to
        invariant
            from <= i,
            to <= patt_dirs.len(),
            pv == patt_dirs.deep_view(),
            forall|k: int| from <= k < i ==> pv[k] == double_star(),
        decreases to - i,
    {
        assert(pv[i as int] == patt_dirs[i as int]@);
        if !is_double_star(&patt_dirs[i]) {
            return false;
        }
        i = i + 1;
    }
    true
}

/// Whether the token `t` is `**`.
fn is_double_star(t: &String) -> (r: bool)
    ensures
        r == (t@ == double_star()),
{
    let c = chars_of(t.as_str());
    if c.len() == 2 && c[0] == '*' && c[1] == '*' {
        assert(c@ =~= double_star());
        true
    } else {
        false
    }
}

/// Whether the token `t` is `*`.
fn is_single_star(t: &String) -> (r: bool)
    ensures
        r == (t@ == seq!['*']),
{
    let c = chars_of(t.as_str());
    if c.len() == 1 && c[0] == '*' {
        assert(c@ =~= seq!['*']);
        true
    } else {
        false
    }
}

impl AntPathMatcher {
    /// The patterns whose tokens the matcher has cached.
    pub closed spec fn tokenized_keys(&self) -> Set<Seq<char>> {
        self.tokenized_pattern_cache@.dom()
    }

    /// The pattern segments whose matchers the matcher has cached.
    pub closed spec fn matcher_keys(&self) -> Set<Seq<char>> {
        self.string_matcher_cache@.dom()
    }

    /// The settings together with what each cache holds.
    pub open spec fn state(&self) -> CacheState {
        CacheState { cfg: self@, tokenized: self.tokenized_keys(), matchers: self.matcher_keys() }
    }

    /// The caches hold, for each pattern they know, its tokens and its
    /// segment matcher as built now; they are finite, empty once caching is
    /// off, and no larger than the threshold while caching is undecided.
    pub closed spec fn wf(&self) -> bool {
        &&& cache_invariant(self.state())
        &&& forall|k: Seq<char>| #[trigger]
            self.tokenized_pattern_cache@.contains_key(k)
                ==> self.tokenized_pattern_cache@[k].deep_view() == tokenize_spec(
                k,
                self.path_separator@,
                self.trim_tokens,
            )
        &&& forall|k: Seq<char>| #[trigger]
            self.string_matcher_cache@.contains_key(k) ==> build_spec(k, self.case_sensitive)
                == Ok::<crate::string_matcher::StringMatcherView, MatchError>(
                self.string_matcher_cache@[k]@,
            )
    }

    /// A matcher with the given separator and settings; `cache_patterns`
    /// switches the caches on or off for good.
    pub fn new(path_separator: &str, case_sensitive: bool, trim_tokens: bool, cache_patterns: bool) -> (r: Self)
        ensures
            r.wf(),
            r@ == (MatcherConfig {
                path_separator: path_separator@,
                case_sensitive,
                trim_tokens,
                cache_patterns: Some(cache_patterns),
            }),
            r.state().tokenized == Set::<Seq<char>>::empty(),
            r.state().matchers == Set::<Seq<char>>::empty(),
    {
        proof {
            assert(Map::<Seq<char>, Vec<String>>::empty().dom() =~= Set::<Seq<char>>::empty());
            assert(Map::<Seq<char>, AntPathStringMatcher>::empty().dom() =~= Set::<Seq<char>>::empty());
        }
        AntPathMatcher {
            path_separator: path_separator.to_owned(),
            case_sensitive,
            trim_tokens,
            cache_patterns: Some(cache_patterns),
            tokenized_pattern_cache: StringHashMap::new(),
            string_matcher_cache: StringHashMap::new(),
        }
    }

    /// Switches caching off for good and forgets what the caches hold.
    fn deactivate_pattern_cache(&mut self)
        ensures
            final(self).wf(),
            final(self)@ == (MatcherConfig { cache_patterns: Some(false), ..old(self)@ }),
            final(self).state() == deactivated(old(self).state()),
    {
        self.cache_patterns = Some(false);
        self.tokenized_pattern_cache.clear();
        self.string_matcher_cache.clear();
        proof {
            assert(self.tokenized_keys() =~= Set::<Seq<char>>::empty());
            assert(self.matcher_keys() =~= Set::<Seq<char>>::empty());
        }
    }

    /// The tokens of `path`: pieces between separators, trimmed when the
    /// matcher trims, without the empty ones.
    fn tokenize_to_vec(&self, path: &str) -> (r: Vec<String>)
        ensures
            r.deep_view() == tokenize_spec(path@, self@.path_separator, self@.trim_tokens),
    {
        let pc = chars_of(path);
        let sc = chars_of(self.path_separator.as_str());
        tokenize(&pc, &sc, self.trim_tokens)
    }

    /// The tokens of a path.
    fn tokenize_path(&self, path: &str) -> (r: Vec<String>)
        ensures
            r.deep_view() == tokenize_spec(path@, self@.path_separator, self@.trim_tokens),
    {
        self.tokenize_to_vec(path)
    }

    /// Whether the cache policy lets the caches be used.
    fn caching(&self) -> (r: bool)
        ensures
            r == (self@.cache_patterns != Some(false)),
    {
        match self.cache_patterns {
            None => true,
            Some(b) => b,
        }
    }

    /// The tokens of a pattern, through the cache; none when caching is off.
    fn tokenize_pattern(&mut self, pattern: &str) -> (r: Vec<String>)
        requires
            old(self).wf(),
        ensures
            final(self).wf(),
            evolves(old(self)@, final(self)@),
            r.deep_view() == pattern_tokens(old(self)@, pattern@),
            final(self).state() == tokenize_step(old(self).state(), pattern@),
    {
        let mut tokenized: Vec<String> = Vec::new();
        if self.caching() {
            let cached: Option<Vec<String>> = match self.tokenized_pattern_cache.get(pattern) {
                Some(t) => Some(copy_strings(t)),
                None => None,
            };
            match cached {
                Some(t) => {
                    tokenized = t;
                },
                None => {
                    tokenized = self.tokenize_path(pattern);
                    if self.cache_patterns.is_none() && self.tokenized_pattern_cache.len()
                        >= CACHE_TURNOFF_THRESHOLD {
                        self.deactivate_pattern_cache();
                        return tokenized;
                    }
                    let key = pattern.to_owned();
                    let value = copy_strings(&tokenized);
                    let ghost keys0 = self.tokenized_keys();
                    self.tokenized_pattern_cache.insert(key, value);
                    proof {
                        assert(self.tokenized_keys() =~= keys0.insert(pattern@));
                        assert(keys0.insert(pattern@).len() == keys0.len() + 1);
                    }
                },
            }
        } else {
            assert(tokenized.deep_view() =~= Seq::<Seq<char>>::empty());
        }
        tokenized
    }

    /// The matcher of a pattern segment, through the cache; fails where the
    /// segment's regex does not compile.
    fn get_string_matcher(&mut self, pattern: &str) -> (r: Result<AntPathStringMatcher, MatchError>)
        requires
            old(self).wf(),
        ensures
            final(self).wf(),
            evolves(old(self)@, final(self)@),
            match r {
                Ok(m) => build_spec(pattern@, old(self)@.case_sensitive) == Ok::<crate::string_matcher::StringMatcherView, MatchError>(m@),
                Err(e) => build_spec(pattern@, old(self)@.case_sensitive) == Err::<crate::string_matcher::StringMatcherView, MatchError>(e),
            },
            final(self).state() == matcher_step(old(self).state(), pattern@),
    {
        if self.caching() {
            let cached: Option<AntPathStringMatcher> = match self.string_matcher_cache.get(pattern) {
                Some(m) => Some(m.clone()),
                None => None,
            };
            if let Some(m) = cached {
                return Ok(m);
            }
        }
        let matcher = match AntPathStringMatcher::new(pattern, self.case_sensitive) {
            Ok(m) => m,
            Err(e) => {
                return Err(e);
            },
        };
        if self.cache_patterns.is_none() && self.string_matcher_cache.len()
            >= CACHE_TURNOFF_THRESHOLD {
            self.deactivate_pattern_cache();
            return Ok(matcher);
        }
        if self.caching() {
            let key = pattern.to_owned();
            let value = matcher.clone();
            let ghost keys0 = self.matcher_keys();
            self.string_matcher_cache.insert(key, value);
            proof {
                assert(self.matcher_keys() =~= keys0.insert(pattern@));
                assert(keys0.insert(pattern@).len() == keys0.len() + 1);
            }
        }
        Ok(matcher)
    }

    /// Matches the pattern segment `pattern` against the path segment `s`.
    fn match_strings(&mut self, pattern: &String, s: &String, vars: &mut Option<StringHashMap<String>>) -> (r: Result<bool, MatchError>)
        requires
            old(self).wf(),
        ensures
            final(self).wf(),
            evolves(old(self)@, final(self)@),
            match r {
                Ok(b) => seg_match(old(self)@.case_sensitive, pattern@, s@, vars_view(old(vars)))
                    == Ok::<(bool, Vars), MatchError>((b, vars_view(final(vars)))),
                Err(e) => seg_match(old(self)@.case_sensitive, pattern@, s@, vars_view(old(vars)))
                    == Err::<(bool, Vars), MatchError>(e),
            },
            final(self).state() == matcher_step(old(self).state(), pattern@),
            gathered_from(vars_view(old(vars)), vars_view(final(vars)), seq![s@]),
    {
        proof {
            lemma_gathered_refl(vars_view(vars), seq![s@]);
        }
        match self.get_string_matcher(pattern.as_str()) {
            Err(e) => Err(e),
            Ok(m) => m.match_string_checked(s.as_str(), vars),
        }
    }

    /// Whether `c` ends the literal prefix of a pattern segment.
    fn is_wildcard_char(&self, c: char) -> (r: bool)
        ensures
            r == is_wildcard(c),
    {
        let wildcard_chars: [char; 3] = ['*', '?', '{'];
        let mut i: usize = 0;
        while i < 3
            invariant
                i <= 3,
                wildcard_chars@ == seq!['*', '?', '{'],
                forall|k: int| 0 <= k < i ==> wildcard_chars@[k] != c,
            decreases 3 - i,
        {
            if c == wildcard_chars[i] {
                return true;
            }
            i = i + 1;
        }
        false
    }

    /// The bytes of separators that follow byte `pos` of `path`.
    fn skip_separator(&self, path: &str, pos: usize, separator: &str) -> (r: Result<usize, MatchError>)
        requires
            pos <= encode_utf8(path@).len(),
        ensures
            match r {
                Ok(k) => skip_separator_spec(encode_utf8(path@), encode_utf8(separator@), pos as int, 0)
                    == Ok::<int, MatchError>(k as int) && pos + k <= encode_utf8(path@).len(),
                Err(e) => skip_separator_spec(encode_utf8(path@), encode_utf8(separator@), pos as int, 0)
                    == Err::<int, MatchError>(e),
            },
    {
        broadcast use {vstd::utf8::encode_utf8_valid_utf8, vstd::slice::group_slice_axioms};
        let b = path.as_bytes();
        let sb = separator.as_bytes();
        let ghost bv = encode_utf8(path@);
        let ghost sv = encode_utf8(separator@);
        let ghost target = skip_separator_spec(bv, sv, pos as int, 0);
        let blen = b.len();
        let mut skipped: usize = 0;
        loop
            invariant
                blen == bv.len(),
                b@ == bv,
                sb@ == sv,
                bv == encode_utf8(path@),
                pos + skipped <= bv.len(),
                target == skip_separator_spec(bv, sv, pos as int, skipped as int),
                target == skip_separator_spec(encode_utf8(path@), encode_utf8(separator@), pos as int, 0),
            decreases bv.len() - pos - skipped,
        {
            let x = pos + skipped;
            if !path.is_char_boundary(x) {
                return Err(MatchError::NotCharBoundary);
            }
            if !bytes_prefix_at(b, x, sb) {
                return Ok(skipped);
            }
            if sb.len() == 0 {
                return Err(MatchError::EmptySeparator);
            }
            skipped = skipped + sb.len();
        }
    }

    /// How many characters of the literal prefix of `prefix` agree with the
    /// path from character `pos` on; `blen` is the path's length in bytes.
    fn skip_segment(&self, path: &Vec<char>, blen: usize, pos: usize, prefix: &Vec<char>) -> (r: Result<usize, MatchError>)
        requires
            pos <= blen,
        ensures
            match r {
                Ok(k) => skip_segment_spec(path@, blen as int, pos as int, prefix@, 0, 0)
                    == Ok::<int, MatchError>(k as int) && pos + k <= blen,
                Err(e) => skip_segment_spec(path@, blen as int, pos as int, prefix@, 0, 0)
                    == Err::<int, MatchError>(e),
            },
    {
        let ghost target = skip_segment_spec(path@, blen as int, pos as int, prefix@, 0, 0);
        let mut skipped: usize = 0;
        let mut k: usize = 0;
        while k < prefix.len()
            invariant
                k <= prefix.len(),
                skipped <= k,
                pos + skipped <= blen,
                target == skip_segment_spec(path@, blen as int, pos as int, prefix@, k as int, skipped as int),
                target == skip_segment_spec(path@, blen as int, pos as int, prefix@, 0, 0),
            decreases prefix.len() - k,
        {
            let c = prefix[k];
            if self.is_wildcard_char(c) {
                return Ok(skipped);
            }
            let curr_pos = pos + skipped;
            if curr_pos >= blen {
                return Ok(0);
            }
            if curr_pos >= path.len() {
                return Err(MatchError::CharIndexOutOfRange);
            }
            if c == path[curr_pos] {
                skipped = skipped + 1;
            }
            k = k + 1;
        }
        Ok(skipped)
    }

    /// The quick test before a case-sensitive full match: false where the
    /// literal start of some pattern segment cannot agree with the path.
    fn is_potential_match(&self, path: &str, patt_dirs: &Vec<String>) -> (r: Result<bool, MatchError>)
        ensures
            match r {
                Ok(b) => potential_match_spec(self@, path@, patt_dirs.deep_view()) == Ok::<bool, MatchError>(b),
                Err(e) => potential_match_spec(self@, path@, patt_dirs.deep_view()) == Err::<bool, MatchError>(e),
            },
    {
        if self.trim_tokens {
            return Ok(true);
        }
        let ghost pat = patt_dirs.deep_view();
        let ghost target = potential_from(path@, self@.path_separator, pat, 0, 0);
        let pc = chars_of(path);
        let blen = byte_len(path);
        let mut pos: usize = 0;
        let mut i: usize = 0;
        while i < patt_dirs.len()
            invariant
                i <= patt_dirs.len(),
                pat == patt_dirs.deep_view(),
                pc@ == path@,
                blen == encode_utf8(path@).len(),
                pos <= blen,
                !self.trim_tokens,
                target == potential_from(path@, self@.path_separator, pat, i as int, pos as int),
                target == potential_from(path@, self@.path_separator, pat, 0, 0),
            decreases patt_dirs.len() - i,
        {
            let skipped = match self.skip_separator(path, pos, self.path_separator.as_str()) {
                Ok(k) => k,
                Err(e) => {
                    return Err(e);
                },
            };
            pos = pos + skipped;
            let pd = chars_of(patt_dirs[i].as_str());
            assert(pd@ == pat[i as int]);
            let skipped2 = match self.skip_segment(&pc, blen, pos, &pd) {
                Ok(k) => k,
                Err(e) => {
                    return Err(e);
                },
            };
            let dlen = byte_len(patt_dirs[i].as_str());
            if skipped2 < dlen {
                return Ok(skipped2 > 0 || (dlen > 0 && pd.len() > 0 && self.is_wildcard_char(pd[0])));
            }
            pos = pos + skipped2;
            i = i + 1;
        }
        Ok(true)
    }

    /// Matches segments pairwise from the front until either side runs out or
    /// the pattern reaches `**`.
    fn fwd_exec(&mut self, patt_dirs: &Vec<String>, path_dirs: &Vec<String>, vars: &mut Option<StringHashMap<String>>) -> (r: Result<Phase, MatchError>)
        requires
            old(self).wf(),
        ensures
            final(self).wf(),
            evolves(old(self)@, final(self)@),
            match r {
                Ok(p) => fwd(old(self)@.case_sensitive, patt_dirs.deep_view(), path_dirs.deep_view(), 0, patt_dirs.len() as int, 0, path_dirs.len() as int, vars_view(old(vars)))
                    == Ok::<(Step, Vars), MatchError>((phase_view(p), vars_view(final(vars)))),
                Err(e) => fwd(old(self)@.case_sensitive, patt_dirs.deep_view(), path_dirs.deep_view(), 0, patt_dirs.len() as int, 0, path_dirs.len() as int, vars_view(old(vars)))
                    == Err::<(Step, Vars), MatchError>(e),
            },
            r matches Ok(Phase::At(a, c)) ==> a <= patt_dirs.len() && c <= path_dirs.len() && (a
                < patt_dirs.len() && c < path_dirs.len() ==> patt_dirs.deep_view()[a as int]
                == double_star()),
            final(self).state() == fwd_cache(old(self).state(), old(self)@.case_sensitive, patt_dirs.deep_view(), path_dirs.deep_view(), 0, patt_dirs.len() as int, 0, path_dirs.len() as int, vars_view(old(vars))),
            gathered_from(vars_view(old(vars)), vars_view(final(vars)), path_dirs.deep_view()),
    {
        let ghost cfg0 = self@;
        let ghost pv = patt_dirs.deep_view();
        let ghost dv = path_dirs.deep_view();
        let ghost target = fwd(cfg0.case_sensitive, pv, dv, 0, pv.len() as int, 0, dv.len() as int, vars_view(vars));
        let ghost target_st = fwd_cache(self.state(), cfg0.case_sensitive, pv, dv, 0, pv.len() as int, 0, dv.len() as int, vars_view(vars));
        proof {
            lemma_gathered_refl(vars_view(vars), dv);
        }
        let pe = patt_dirs.len();
        let de = path_dirs.len();
        let mut ps: usize = 0;
        let mut ds: usize = 0;
        while ps < pe && ds < de && !is_double_star(&patt_dirs[ps])
            invariant
                self.wf(),
                evolves(cfg0, self@),
                cfg0 == old(self)@,
                pv == patt_dirs.deep_view(),
                dv == path_dirs.deep_view(),
                pe == patt_dirs.len(),
                de == path_dirs.len(),
                ps <= pe,
                ds <= de,
                target == fwd(cfg0.case_sensitive, pv, dv, ps as int, pe as int, ds as int, de as int, vars_view(vars)),
                target == fwd(cfg0.case_sensitive, pv, dv, 0, pe as int, 0, de as int, vars_view(old(vars))),
                target_st == fwd_cache(self.state(), cfg0.case_sensitive, pv, dv, ps as int, pe as int, ds as int, de as int, vars_view(vars)),
                target_st == fwd_cache(old(self).state(), cfg0.case_sensitive, pv, dv, 0, pe as int, 0, de as int, vars_view(old(vars))),
                gathered_from(vars_view(old(vars)), vars_view(vars), dv),
            decreases pe - ps,
        {
            assert(pv[ps as int] == patt_dirs[ps as int]@);
            assert(dv[ds as int] == path_dirs[ds as int]@);
            let ghost v0 = vars_view(vars);
            let res = self.match_strings(&patt_dirs[ps], &path_dirs[ds], vars);
            proof {
                lemma_gathered_widen(v0, vars_view(vars), dv, ds as int);
                lemma_gathered_trans(vars_view(old(vars)), v0, vars_view(vars), dv);
            }
            match res {
                Err(e) => {
                    return Err(e);
                },
                Ok(false) => {
                    return Ok(Phase::Done(false));
                },
                Ok(true) => {},
            }
            ps = ps + 1;
            ds = ds + 1;
        }
        proof {
            if ps < pe && ds < de {
                assert(pv[ps as int] == patt_dirs[ps as int]@);
            }
        }
        Ok(Phase::At(ps, ds))
    }

    /// Matches segments pairwise from the back, down to `ps` and `ds`, until
    /// either side runs out or the pattern reaches `**`.
    fn bwd_exec(&mut self, patt_dirs: &Vec<String>, path_dirs: &Vec<String>, ps: usize, ds: usize, vars: &mut Option<StringHashMap<String>>) -> (r: Result<Phase, MatchError>)
        requires
            old(self).wf(),
            ps <= patt_dirs.len(),
            ds <= path_dirs.len(),
        ensures
            final(self).wf(),
            evolves(old(self)@, final(self)@),
            match r {
                Ok(p) => bwd(old(self)@.case_sensitive, patt_dirs.deep_view(), path_dirs.deep_view(), ps as int, patt_dirs.len() as int, ds as int, path_dirs.len() as int, vars_view(old(vars)))
                    == Ok::<(Step, Vars), MatchError>((phase_view(p), vars_view(final(vars)))),
                Err(e) => bwd(old(self)@.case_sensitive, patt_dirs.deep_view(), path_dirs.deep_view(), ps as int, patt_dirs.len() as int, ds as int, path_dirs.len() as int, vars_view(old(vars)))
                    == Err::<(Step, Vars), MatchError>(e),
            },
            r matches Ok(Phase::At(a, c)) ==> a <= patt_dirs.len() && c <= path_dirs.len(),
            final(self).state() == bwd_cache(old(self).state(), old(self)@.case_sensitive, patt_dirs.deep_view(), path_dirs.deep_view(), ps as int, patt_dirs.len() as int, ds as int, path_dirs.len() as int, vars_view(old(vars))),
            gathered_from(vars_view(old(vars)), vars_view(final(vars)), path_dirs.deep_view()),
    {
        let ghost cfg0 = self@;
        let ghost pv = patt_dirs.deep_view();
        let ghost dv = path_dirs.deep_view();
        let ghost target = bwd(cfg0.case_sensitive, pv, dv, ps as int, pv.len() as int, ds as int, dv.len() as int, vars_view(vars));
        let ghost target_st = bwd_cache(self.state(), cfg0.case_sensitive, pv, dv, ps as int, pv.len() as int, ds as int, dv.len() as int, vars_view(vars));
        proof {
            lemma_gathered_refl(vars_view(vars), dv);
        }
        let mut pe = patt_dirs.len();
        let mut de = path_dirs.len();
        while ps < pe && ds < de && !is_double_star(&patt_dirs[pe - 1])
            invariant
                self.wf(),
                evolves(cfg0, self@),
                cfg0 == old(self)@,
                pv == patt_dirs.deep_view(),
                dv == path_dirs.deep_view(),
                pe <= patt_dirs.len(),
                de <= path_dirs.len(),
                target == bwd(cfg0.case_sensitive, pv, dv, ps as int, pe as int, ds as int, de as int, vars_view(vars)),
                target == bwd(cfg0.case_sensitive, pv, dv, ps as int, pv.len() as int, ds as int, dv.len() as int, vars_view(old(vars))),
                target_st == bwd_cache(self.state(), cfg0.case_sensitive, pv, dv, ps as int, pe as int, ds as int, de as int, vars_view(vars)),
                target_st == bwd_cache(old(self).state(), cfg0.case_sensitive, pv, dv, ps as int, pv.len() as int, ds as int, dv.len() as int, vars_view(old(vars))),
                gathered_from(vars_view(old(vars)), vars_view(vars), dv),
            decreases pe,
        {
            assert(pv[pe - 1] == patt_dirs[pe - 1]@);
            assert(dv[de - 1] == path_dirs[de - 1]@);
            let ghost v0 = vars_view(vars);
            let res = self.match_strings(&patt_dirs[pe - 1], &path_dirs[de - 1], vars);
            proof {
                lemma_gathered_widen(v0, vars_view(vars), dv, de - 1);
                lemma_gathered_trans(vars_view(old(vars)), v0, vars_view(vars), dv);
            }
            match res {
                Err(e) => {
                    return Err(e);
                },
                Ok(false) => {
                    return Ok(Phase::Done(false));
                },
                Ok(true) => {},
            }
            pe = pe - 1;
            de = de - 1;
        }
        proof {
            if ps < pe && ds < de {
                assert(pv[pe - 1] == patt_dirs[pe - 1]@);
            }
        }
        Ok(Phase::At(pe, de))
    }

    /// Matches the `len` pattern segments after `ps` against the path segments
    /// from `at`, stopping at the first that fails.
    fn try_block_exec(&mut self, patt_dirs: &Vec<String>, path_dirs: &Vec<String>, ps: usize, at: usize, len: usize, vars: &mut Option<StringHashMap<String>>) -> (r: Result<bool, MatchError>)
        requires
            old(self).wf(),
            ps + 1 + len <= patt_dirs.len(),
            at + len <= path_dirs.len(),
        ensures
            final(self).wf(),
            evolves(old(self)@, final(self)@),
            match r {
                Ok(b) => try_block(old(self)@.case_sensitive, patt_dirs.deep_view(), path_dirs.deep_view(), ps as int, at as int, 0, len as int, vars_view(old(vars)))
                    == Ok::<(bool, Vars), MatchError>((b, vars_view(final(vars)))),
                Err(e) => try_block(old(self)@.case_sensitive, patt_dirs.deep_view(), path_dirs.deep_view(), ps as int, at as int, 0, len as int, vars_view(old(vars)))
                    == Err::<(bool, Vars), MatchError>(e),
            },
            final(self).state() == try_block_cache(old(self).state(), old(self)@.case_sensitive, patt_dirs.deep_view(), path_dirs.deep_view(), ps as int, at as int, 0, len as int, vars_view(old(vars))),
            gathered_from(vars_view(old(vars)), vars_view(final(vars)), path_dirs.deep_view()),
    {
        let ghost cfg0 = self@;
        let ghost pv = patt_dirs.deep_view();
        let ghost dv = path_dirs.deep_view();
        let ghost target = try_block(cfg0.case_sensitive, pv, dv, ps as int, at as int, 0, len as int, vars_view(vars));
        let ghost target_st = try_block_cache(self.state(), cfg0.case_sensitive, pv, dv, ps as int, at as int, 0, len as int, vars_view(vars));
        proof {
            lemma_gathered_refl(vars_view(vars), dv);
        }
        let mut j: usize = 0;
        while j < len
            invariant
                self.wf(),
                evolves(cfg0, self@),
                cfg0 == old(self)@,
                pv == patt_dirs.deep_view(),
                dv == path_dirs.deep_view(),
                ps + 1 + len <= patt_dirs.len(),
                at + len <= path_dirs.len(),
                j <= len,
                target == try_block(cfg0.case_sensitive, pv, dv, ps as int, at as int, j as int, len as int, vars_view(vars)),
                target == try_block(cfg0.case_sensitive, pv, dv, ps as int, at as int, 0, len as int, vars_view(old(vars))),
                target_st == try_block_cache(self.state(), cfg0.case_sensitive, pv, dv, ps as int, at as int, j as int, len as int, vars_view(vars)),
                target_st == try_block_cache(old(self).state(), cfg0.case_sensitive, pv, dv, ps as int, at as int, 0, len as int, vars_view(old(vars))),
                gathered_from(vars_view(old(vars)), vars_view(vars), dv),
            decreases len - j,
        {
            assert(pv[ps + 1 + j] == patt_dirs[ps + 1 + j]@);
            assert(dv[at + j] == path_dirs[at + j]@);
            let ghost v0 = vars_view(vars);
            let res = self.match_strings(&patt_dirs[ps + 1 + j], &path_dirs[at + j], vars);
            proof {
                lemma_gathered_widen(v0, vars_view(vars), dv, at + j);
                lemma_gathered_trans(vars_view(old(vars)), v0, vars_view(vars), dv);
            }
            match res {
                Err(e) => {
                    return Err(e);
                },
                Ok(false) => {
                    return Ok(false);
                },
                Ok(true) => {},
            }
            j = j + 1;
        }
        Ok(true)
    }

    /// The leftmost place, from path segment `ds` on, where the block of `len`
    /// pattern segments after `ps` fits before `de`.
    fn search_exec(&mut self, patt_dirs: &Vec<String>, path_dirs: &Vec<String>, ps: usize, len: usize, ds: usize, de: usize, vars: &mut Option<StringHashMap<String>>) -> (r: Result<Option<usize>, MatchError>)
        requires
            old(self).wf(),
            ps + 1 + len <= patt_dirs.len(),
            ds <= de <= path_dirs.len(),
        ensures
            final(self).wf(),
            evolves(old(self)@, final(self)@),
            match r {
                Ok(Some(f)) => search(old(self)@.case_sensitive, patt_dirs.deep_view(), path_dirs.deep_view(), ps as int, len as int, ds as int, 0, de - ds - len, vars_view(old(vars)))
                    == Ok::<(int, Vars), MatchError>((f as int, vars_view(final(vars)))) && f + len <= de,
                Ok(None) => search(old(self)@.case_sensitive, patt_dirs.deep_view(), path_dirs.deep_view(), ps as int, len as int, ds as int, 0, de - ds - len, vars_view(old(vars)))
                    == Ok::<(int, Vars), MatchError>((-1, vars_view(final(vars)))),
                Err(e) => search(old(self)@.case_sensitive, patt_dirs.deep_view(), path_dirs.deep_view(), ps as int, len as int, ds as int, 0, de - ds - len, vars_view(old(vars)))
                    == Err::<(int, Vars), MatchError>(e),
            },
            final(self).state() == search_cache(old(self).state(), old(self)@.case_sensitive, patt_dirs.deep_view(), path_dirs.deep_view(), ps as int, len as int, ds as int, 0, de - ds - len, vars_view(old(vars))),
            gathered_from(vars_view(old(vars)), vars_view(final(vars)), path_dirs.deep_view()),
    {
        let ghost cfg0 = self@;
        let ghost pv = patt_dirs.deep_view();
        let ghost dv = path_dirs.deep_view();
        let ghost target = search(cfg0.case_sensitive, pv, dv, ps as int, len as int, ds as int, 0, de - ds - len, vars_view(vars));
        let ghost target_st = search_cache(self.state(), cfg0.case_sensitive, pv, dv, ps as int, len as int, ds as int, 0, de - ds - len, vars_view(vars));
        proof {
            lemma_gathered_refl(vars_view(vars), dv);
        }
        if de - ds < len {
            return Ok(None);
        }
        let last = de - ds - len;
        let mut i: usize = 0;
        while i <= last
            invariant
                self.wf(),
                evolves(cfg0, self@),
                cfg0 == old(self)@,
                pv == patt_dirs.deep_view(),
                dv == path_dirs.deep_view(),
                ps + 1 + len <= patt_dirs.len(),
                ds <= de <= path_dirs.len(),
                last == de - ds - len,
                i <= last + 1,
                target == search(cfg0.case_sensitive, pv, dv, ps as int, len as int, ds as int, i as int, last as int, vars_view(vars)),
                target == search(cfg0.case_sensitive, pv, dv, ps as int, len as int, ds as int, 0, de - ds - len, vars_view(old(vars))),
                target_st == search_cache(self.state(), cfg0.case_sensitive, pv, dv, ps as int, len as int, ds as int, i as int, last as int, vars_view(vars)),
                target_st == search_cache(old(self).state(), cfg0.case_sensitive, pv, dv, ps as int, len as int, ds as int, 0, de - ds - len, vars_view(old(vars))),
                gathered_from(vars_view(old(vars)), vars_view(vars), dv),
            decreases last + 1 - i,
        {
            let ghost v0 = vars_view(vars);
            let res = self.try_block_exec(patt_dirs, path_dirs, ps, ds + i, len, vars);
            proof {
                lemma_gathered_trans(vars_view(old(vars)), v0, vars_view(vars), dv);
            }
            match res {
                Err(e) => {
                    return Err(e);
                },
                Ok(true) => {
                    return Ok(Some(ds + i));
                },
                Ok(false) => {},
            }
            i = i + 1;
        }
        Ok(None)
    }

    /// Places the blocks between `**`s, each at its leftmost fit.
    fn middle_exec(&mut self, patt_dirs: &Vec<String>, path_dirs: &Vec<String>, ps: usize, pe: usize, ds: usize, de: usize, vars: &mut Option<StringHashMap<String>>) -> (r: Result<bool, MatchError>)
        requires
            old(self).wf(),
            ps < patt_dirs.len(),
            pe <= patt_dirs.len(),
            ds <= de <= path_dirs.len(),
        ensures
            final(self).wf(),
            evolves(old(self)@, final(self)@),
            match r {
                Ok(b) => middle(old(self)@.case_sensitive, patt_dirs.deep_view(), path_dirs.deep_view(), ps as int, pe as int, ds as int, de as int, vars_view(old(vars)))
                    == Ok::<(bool, Vars), MatchError>((b, vars_view(final(vars)))),
                Err(e) => middle(old(self)@.case_sensitive, patt_dirs.deep_view(), path_dirs.deep_view(), ps as int, pe as int, ds as int, de as int, vars_view(old(vars)))
                    == Err::<(bool, Vars), MatchError>(e),
            },
            final(self).state() == middle_cache(old(self).state(), old(self)@.case_sensitive, patt_dirs.deep_view(), path_dirs.deep_view(), ps as int, pe as int, ds as int, de as int, vars_view(old(vars))),
            gathered_from(vars_view(old(vars)), vars_view(final(vars)), path_dirs.deep_view()),
    {
        let ghost cfg0 = self@;
        let ghost pv = patt_dirs.deep_view();
        let ghost dv = path_dirs.deep_view();
        let ghost target = middle(cfg0.case_sensitive, pv, dv, ps as int, pe as int, ds as int, de as int, vars_view(vars));
        let ghost target_st = middle_cache(self.state(), cfg0.case_sensitive, pv, dv, ps as int, pe as int, ds as int, de as int, vars_view(vars));
        proof {
            lemma_gathered_refl(vars_view(vars), dv);
        }
        let ghost ps0 = ps;
        let ghost ds0 = ds;
        let mut cps = ps;
        let mut cds = ds;
        while cps + 1 != pe && cds < de
            invariant
                self.wf(),
                evolves(cfg0, self@),
                cfg0 == old(self)@,
                pv == patt_dirs.deep_view(),
                dv == path_dirs.deep_view(),
                cps < patt_dirs.len(),
                pe <= patt_dirs.len(),
                pv.len() == patt_dirs.len(),
                cds <= de <= path_dirs.len(),
                target == middle(cfg0.case_sensitive, pv, dv, cps as int, pe as int, cds as int, de as int, vars_view(vars)),
                target == middle(cfg0.case_sensitive, pv, dv, ps0 as int, pe as int, ds0 as int, de as int, vars_view(old(vars))),
                target_st == middle_cache(self.state(), cfg0.case_sensitive, pv, dv, cps as int, pe as int, cds as int, de as int, vars_view(vars)),
                target_st == middle_cache(old(self).state(), cfg0.case_sensitive, pv, dv, ps0 as int, pe as int, ds0 as int, de as int, vars_view(old(vars))),
                gathered_from(vars_view(old(vars)), vars_view(vars), dv),
                ps0 == ps,
                ds0 == ds,
            decreases pe - cps,
        {
            let tmp = first_double_star_exec(patt_dirs, cps + 1, pe);
            let t = match tmp {
                None => {
                    return Err(MatchError::UnexpectedPatternShape);
                },
                Some(t) => t,
            };
            if t == cps + 1 {
                cps = cps + 1;
            } else {
                let len = t - cps - 1;
                let ghost v0 = vars_view(vars);
                let res = self.search_exec(patt_dirs, path_dirs, cps, len, cds, de, vars);
                proof {
                    lemma_gathered_trans(vars_view(old(vars)), v0, vars_view(vars), dv);
                }
                match res {
                    Err(e) => {
                        return Err(e);
                    },
                    Ok(None) => {
                        return Ok(false);
                    },
                    Ok(Some(found)) => {
                        cps = t;
                        cds = found + len;
                    },
                }
            }
        }
        Ok(all_double_star_exec(patt_dirs, cps, pe))
    }

    /// The walk over the pattern segments and path segments; `patc` and
    /// `pathc` are the whole pattern and path, `sepc` the separator.
    fn walk_exec(&mut self, patc: &Vec<char>, pathc: &Vec<char>, sepc: &Vec<char>, full_path: bool, patt_dirs: &Vec<String>, path_dirs: &Vec<String>, vars: &mut Option<StringHashMap<String>>) -> (r: Result<bool, MatchError>)
        requires
            old(self).wf(),
            sepc@ == old(self)@.path_separator,
        ensures
            final(self).wf(),
            evolves(old(self)@, final(self)@),
            match r {
                Ok(b) => walk(old(self)@, patc@, pathc@, full_path, patt_dirs.deep_view(), path_dirs.deep_view(), vars_view(old(vars)))
                    == Ok::<(bool, Vars), MatchError>((b, vars_view(final(vars)))),
                Err(e) => walk(old(self)@, patc@, pathc@, full_path, patt_dirs.deep_view(), path_dirs.deep_view(), vars_view(old(vars)))
                    == Err::<(bool, Vars), MatchError>(e),
            },
            final(self).state() == walk_cache(old(self).state(), old(self)@.case_sensitive, full_path, patt_dirs.deep_view(), path_dirs.deep_view(), vars_view(old(vars))),
            gathered_from(vars_view(old(vars)), vars_view(final(vars)), path_dirs.deep_view()),
    {
        let ghost pv = patt_dirs.deep_view();
        let ghost dv = path_dirs.deep_view();
        assert(pv.len() == patt_dirs.len() && dv.len() == path_dirs.len());
        let ghost v_start = vars_view(vars);
        let front = match self.fwd_exec(patt_dirs, path_dirs, vars) {
            Err(e) => {
                return Err(e);
            },
            Ok(p) => p,
        };
        let (ps, ds) = match front {
            Phase::Done(b) => {
                return Ok(b);
            },
            Phase::At(a, c) => (a, c),
        };
        let pn = patt_dirs.len();
        if ds >= path_dirs.len() {
            if ps >= pn {
                return Ok(ends_with(patc, sepc) == ends_with(pathc, sepc));
            }
            if !full_path {
                return Ok(true);
            }
            if ps == pn - 1 && is_single_star(&patt_dirs[ps]) && ends_with(pathc, sepc) {
                assert(pv[ps as int] == patt_dirs[ps as int]@);
                return Ok(true);
            }
            assert(ps == pn - 1 ==> pv[ps as int] == patt_dirs[ps as int]@);
            return Ok(all_double_star_exec(patt_dirs, ps, pn));
        } else if ps >= pn {
            return Ok(false);
        }
        assert(pv[ps as int] == patt_dirs[ps as int]@);
        if !full_path && is_double_star(&patt_dirs[ps]) {
            return Ok(true);
        }
        let ghost v_front = vars_view(vars);
        let back_res = self.bwd_exec(patt_dirs, path_dirs, ps, ds, vars);
        proof {
            lemma_gathered_trans(v_start, v_front, vars_view(vars), dv);
        }
        let back = match back_res {
            Err(e) => {
                return Err(e);
            },
            Ok(p) => p,
        };
        match back {
            Phase::Done(b) => Ok(b),
            Phase::At(pe, de) => {
                if ds >= de {
                    Ok(all_double_star_exec(patt_dirs, ps, pe))
                } else {
                    let ghost v_back = vars_view(vars);
                    let res = self.middle_exec(patt_dirs, path_dirs, ps, pe, ds, de, vars);
                    proof {
                        lemma_gathered_trans(v_start, v_back, vars_view(vars), dv);
                    }
                    res
                }
            },
        }
    }

    /// Whether `path` matches `pattern`: all of the pattern when `full_path`,
    /// else the path may stop before the pattern does; template variables are
    /// gathered into `vars` when it is `Some`.
    fn do_match(&mut self, pattern: &str, path: &str, full_path: bool, vars: &mut Option<StringHashMap<String>>) -> (r: Result<bool, MatchError>)
        requires
            old(self).wf(),
        ensures
            final(self).wf(),
            evolves(old(self)@, final(self)@),
            match r {
                Ok(b) => crate::path_spec::do_match_spec(old(self)@, pattern@, path@, full_path, vars_view(old(vars)))
                    == Ok::<(bool, Vars), MatchError>((b, vars_view(final(vars)))),
                Err(e) => crate::path_spec::do_match_spec(old(self)@, pattern@, path@, full_path, vars_view(old(vars)))
                    == Err::<(bool, Vars), MatchError>(e),
            },
            final(self).state() == do_match_cache(old(self).state(), pattern@, path@, full_path, vars_view(old(vars))),
            gathered_from(vars_view(old(vars)), vars_view(final(vars)), tokenize_spec(path@, old(self)@.path_separator, old(self)@.trim_tokens)),
    {
        proof {
            lemma_gathered_refl(vars_view(vars), tokenize_spec(path@, self@.path_separator, self@.trim_tokens));
        }
        let sepc = chars_of(self.path_separator.as_str());
        let patc = chars_of(pattern);
        let pathc = chars_of(path);
        if starts_with(&pathc, &sepc) != starts_with(&patc, &sepc) {
            return Ok(false);
        }
        let patt_dirs = self.tokenize_pattern(pattern);
        if full_path && self.case_sensitive {
            match self.is_potential_match(path, &patt_dirs) {
                Err(e) => {
                    return Err(e);
                },
                Ok(false) => {
                    return Ok(false);
                },
                Ok(true) => {},
            }
        }
        let path_dirs = self.tokenize_path(path);
        self.walk_exec(&patc, &pathc, &sepc, full_path, &patt_dirs, &path_dirs, vars)
    }

    /// Whether `path` is a pattern; fails on a path whose bytes outnumber its
    /// characters when the scan runs past the last character.
    pub fn is_pattern_checked(&self, path: &str) -> (r: Result<bool, MatchError>)
        ensures
            match r {
                Ok(b) => is_pattern_spec(path@) == Ok::<bool, MatchError>(b),
                Err(e) => is_pattern_spec(path@) == Err::<bool, MatchError>(e),
            },
    {
        let pc = chars_of(path);
        let blen = byte_len(path);
        let ghost target = is_pattern_spec(path@);
        let mut uri_var = false;
        let mut i: usize = 0;
        while i < blen
            invariant
                pc@ == path@,
                blen == utf8_len(path@),
                i <= blen,
                target == is_pattern_from(path@, blen as int, i as int, uri_var),
                target == is_pattern_spec(path@),
            decreases blen - i,
        {
            if i >= pc.len() {
                return Err(MatchError::CharIndexOutOfRange);
            }
            let c = pc[i];
            if c == '*' || c == '?' {
                return Ok(true);
            }
            if c == '{' {
                uri_var = true;
            } else if c == '}' && uri_var {
                return Ok(true);
            }
            i = i + 1;
        }
        Ok(false)
    }

    /// The path segments that the wildcard segments of `pattern` cover; fails
    /// where `path` has segments but fewer than the pattern's last wildcard
    /// segment needs.
    pub fn extract_path_checked(&self, pattern: &str, path: &str) -> (r: Result<String, MatchError>)
        ensures
            match r {
                Ok(s) => extract_path_spec(self@, pattern@, path@) == Ok::<Seq<char>, MatchError>(s@),
                Err(e) => extract_path_spec(self@, pattern@, path@) == Err::<Seq<char>, MatchError>(e),
            },
    {
        let pattern_parts = self.tokenize_to_vec(pattern);
        let path_parts = self.tokenize_to_vec(path);
        let sepc = chars_of(self.path_separator.as_str());
        let patc = chars_of(pattern);
        let starts = starts_with(&patc, &sepc);
        let ghost pp = pattern_parts.deep_view();
        let ghost dp = path_parts.deep_view();
        let ghost target = extract_path_spec(self@, pattern@, path@);
        let mut builder: Vec<char> = Vec::new();
        let mut path_started = false;
        let mut segment: usize = 0;
        assert(pp.len() == pattern_parts.len() && dp.len() == path_parts.len());
        while segment < pattern_parts.len()
            invariant
                pp == pattern_parts.deep_view(),
                dp == path_parts.deep_view(),
                pp.len() == pattern_parts.len(),
                dp.len() == path_parts.len(),
                sepc@ == self@.path_separator,
                starts == self@.path_separator.is_prefix_of(pattern@),
                segment <= pattern_parts.len(),
                target == extract_from(sepc@, starts, pp, dp, segment as int, builder@, path_started),
                target == extract_path_spec(self@, pattern@, path@),
            decreases pattern_parts.len() - segment,
        {
            let part = chars_of(pattern_parts[segment].as_str());
            assert(part@ == pp[segment as int]);
            if crate::text::contains_char(&part, '*') || crate::text::contains_char(&part, '?') {
                let n = path_parts.len();
                if n > 0 && segment >= n {
                    return Err(MatchError::PathTooShort);
                }
                let lead = segment == 0 && !starts;
                let ghost item = dp[segment as int];
                let ghost b_before = builder@;
                let ghost st_before = path_started;
                let mut k: usize = 0;
                while k < n
                    invariant
                        k <= n,
                        n == path_parts.len(),
                        n > 0 ==> segment < n,
                        dp == path_parts.deep_view(),
                        dp.len() == n,
                        item == dp[segment as int],
                        sepc@ == self@.path_separator,
                        extract_repeat(sepc@, lead, item, n as int, 0, b_before, st_before)
                            == extract_repeat(sepc@, lead, item, n as int, k as int, builder@, path_started),
                    decreases n - k,
                {
                    if path_started || lead {
                        crate::text::push_all(&mut builder, &sepc);
                    }
                    let seg_chars = chars_of(path_parts[segment].as_str());
                    assert(seg_chars@ == item);
                    crate::text::push_all(&mut builder, &seg_chars);
                    path_started = true;
                    k = k + 1;
                }
            }
            segment = segment + 1;
        }
        Ok(string_of(&builder))
    }

    /// The template variables of a full match; fails where the path does not
    /// match the pattern.
    pub fn extract_variables_checked(&mut self, pattern: &str, path: &str) -> (r: Result<StringHashMap<String>, MatchError>)
        requires
            old(self).wf(),
        ensures
            final(self).wf(),
            evolves(old(self)@, final(self)@),
            match r {
                Ok(m) => extract_variables_spec(old(self)@, pattern@, path@) == Ok::<Map<Seq<char>, Seq<char>>, MatchError>(m@.map_values(|v: String| v@)),
                Err(e) => extract_variables_spec(old(self)@, pattern@, path@) == Err::<Map<Seq<char>, Seq<char>>, MatchError>(e),
            },
            final(self).state() == do_match_cache(old(self).state(), pattern@, path@, true, Some(Map::empty())),
            r matches Ok(m) ==> values_from_path(m@.map_values(|v: String| v@), path@, old(self)@.path_separator, tokenize_spec(path@, old(self)@.path_separator, old(self)@.trim_tokens)),
    {
        let mut variables: Option<StringHashMap<String>> = Some(StringHashMap::new());
        assert(vars_view(&variables) == Some(Map::<Seq<char>, Seq<char>>::empty())) by {
            assert(variables->Some_0@.map_values(|v: String| v@) =~= Map::<Seq<char>, Seq<char>>::empty());
        }
        let ghost toks = tokenize_spec(path@, self@.path_separator, self@.trim_tokens);
        let result = self.do_match(pattern, path, true, &mut variables);
        proof {
            if variables is Some {
                let mv = vars_view(&variables)->Some_0;
                let sep = old(self)@.path_separator;
                law_tokens_are_substrings(path@, sep, old(self)@.trim_tokens);
                if sep.len() > 0 {
                    law_tokens_hold_no_separator(path@, sep, old(self)@.trim_tokens);
                }
                assert forall|k: Seq<char>| #[trigger] mv.contains_key(k) implies {
                    &&& is_substring(mv[k], path@)
                    &&& sep.len() > 0 ==> !is_substring(sep, mv[k])
                    &&& exists|d: int| 0 <= d < toks.len() && #[trigger] is_substring(mv[k], toks[d])
                } by {
                    let d = choose|d: int| 0 <= d < toks.len() && #[trigger] is_substring(mv[k], toks[d]);
                    assert(is_substring(toks[d], path@));
                    lemma_substring_trans(mv[k], toks[d], path@);
                    if sep.len() > 0 && is_substring(sep, mv[k]) {
                        lemma_substring_trans(sep, mv[k], toks[d]);
                        assert(!is_substring(sep, toks[d]));
                    }
                }
            }
        }
        match result {
            Err(e) => Err(e),
            Ok(false) => Err(MatchError::NoMatch),
            Ok(true) => match variables {
                Some(m) => Ok(m),
                None => Err(MatchError::NoMatch),
            },
        }
    }
}

/// The changes that calls may make to the settings compose: over any
/// sequence of calls the separator, case sensitivity and trimming never
/// change, a decided cache policy stays as it is, and an undecided one can
/// only become "off".
pub proof fn law_evolves_over_calls(a: MatcherConfig, b: MatcherConfig, c: MatcherConfig)
    ensures
        evolves(a, a),
        evolves(a, b) && evolves(b, c) ==> evolves(a, c),
        evolves(a, b) && a.cache_patterns is Some ==> b.cache_patterns == a.cache_patterns,
        evolves(a, b) ==> b.cache_patterns is None ==> a.cache_patterns is None,
{
}

/// Every matcher keeps its caches finite, empty once caching is off, and no
/// larger than the threshold while caching is undecided.
pub proof fn law_cache_invariant(m: &AntPathMatcher)
    requires
        m.wf(),
    ensures
        cache_invariant(m.state()),
{
}

/// Matching of paths against patterns. Each method asks, through the
/// implementor's own predicate, for the inputs on which it can answer.
pub trait PathMatcher: Sized {
    /// The paths that `is_pattern` can scan.
    spec fn accepts_is_pattern(&self, path: &str) -> bool;

    /// The pairs that `match_` (`full_path`) and `match_start` (not `full_path`) can decide.
    spec fn accepts_match(&self, pattern: &str, path: &str, full_path: bool) -> bool;

    /// The pairs that `extract_path_within_pattern` can answer.
    spec fn accepts_extract_path(&self, pattern: &str, path: &str) -> bool;

    /// The pairs that `extract_uri_template_variables` can answer.
    spec fn accepts_extract_variables(&self, pattern: &str, path: &str) -> bool;

    /// Whether `path` holds wildcards or template variables.
    fn is_pattern(&self, path: &str) -> bool
        requires
            self.accepts_is_pattern(path),
    ;

    /// Whether all of `path` matches all of `pattern`.
    fn match_(&mut self, pattern: &str, path: &str) -> bool
        requires
            old(self).accepts_match(pattern, path, true),
    ;

    /// Whether `path` matches `pattern` as far as the path goes.
    fn match_start(&mut self, pattern: &str, path: &str) -> bool
        requires
            old(self).accepts_match(pattern, path, false),
    ;

    /// The part of `path` that the wildcard segments of `pattern` cover.
    fn extract_path_within_pattern(&mut self, pattern: &str, path: &str) -> String
        requires
            old(self).accepts_extract_path(pattern, path),
    ;

    /// The values that `path` gives the template variables of `pattern`.
    fn extract_uri_template_variables(&mut self, pattern: &str, path: &str) -> StringHashMap<String>
        requires
            old(self).accepts_extract_variables(pattern, path),
    ;
}

impl AntPathMatcher {
    /// A matcher with the same settings and empty caches.
    fn twin(&self) -> (t: Self)
        ensures
            t.wf(),
            t@ == self@,
            t.state().tokenized == Set::<Seq<char>>::empty(),
            t.state().matchers == Set::<Seq<char>>::empty(),
    {
        proof {
            assert(Map::<Seq<char>, Vec<String>>::empty().dom() =~= Set::<Seq<char>>::empty());
            assert(Map::<Seq<char>, AntPathStringMatcher>::empty().dom() =~= Set::<Seq<char>>::empty());
        }
        AntPathMatcher {
            path_separator: self.path_separator.clone(),
            case_sensitive: self.case_sensitive,
            trim_tokens: self.trim_tokens,
            cache_patterns: self.cache_patterns,
            tokenized_pattern_cache: StringHashMap::new(),
            string_matcher_cache: StringHashMap::new(),
        }
    }

    /// `is_pattern`, or why the path cannot be scanned.
    pub fn try_is_pattern(&self, path: &str) -> (r: Result<bool, MatchError>)
        ensures
            match r {
                Ok(b) => is_pattern_spec(path@) == Ok::<bool, MatchError>(b),
                Err(e) => is_pattern_spec(path@) == Err::<bool, MatchError>(e),
            },
    {
        match self.is_pattern_checked(path) {
            Err(e) => Err(e),
            Ok(_) => Ok(self.is_pattern(path)),
        }
    }

    /// `match_` (when `full_path`) or `match_start`, or why the pair cannot be
    /// decided; the matcher is left unchanged when it cannot.
    fn try_do_match(&mut self, pattern: &str, path: &str, full_path: bool) -> (r: Result<bool, MatchError>)
        requires
            old(self).wf(),
        ensures
            final(self).wf(),
            evolves(old(self)@, final(self)@),
            match r {
                Ok(b) => crate::path_spec::do_match_spec(old(self)@, pattern@, path@, full_path, None) == Ok::<(bool, Vars), MatchError>((b, None)),
                Err(e) => crate::path_spec::do_match_spec(old(self)@, pattern@, path@, full_path, None) == Err::<(bool, Vars), MatchError>(e),
            },
            r is Ok ==> final(self).state() == do_match_cache(old(self).state(), pattern@, path@, full_path, None),
            r is Err ==> *final(self) == *old(self),
    {
        let mut probe_matcher = self.twin();
        let mut probe: Option<StringHashMap<String>> = None;
        match probe_matcher.do_match(pattern, path, full_path, &mut probe) {
            Err(e) => Err(e),
            Ok(_) => if full_path {
                Ok(self.match_(pattern, path))
            } else {
                Ok(self.match_start(pattern, path))
            },
        }
    }

    /// `match_`, or why the pair cannot be decided.
    pub fn try_match(&mut self, pattern: &str, path: &str) -> (r: Result<bool, MatchError>)
        requires
            old(self).wf(),
        ensures
            final(self).wf(),
            evolves(old(self)@, final(self)@),
            match r {
                Ok(b) => crate::path_spec::do_match_spec(old(self)@, pattern@, path@, true, None) == Ok::<(bool, Vars), MatchError>((b, None)),
                Err(e) => crate::path_spec::do_match_spec(old(self)@, pattern@, path@, true, None) == Err::<(bool, Vars), MatchError>(e),
            },
            r is Ok ==> final(self).state() == do_match_cache(old(self).state(), pattern@, path@, true, None),
            r is Err ==> *final(self) == *old(self),
    {
        self.try_do_match(pattern, path, true)
    }

    /// `match_start`, or why the pair cannot be decided.
    pub fn try_match_start(&mut self, pattern: &str, path: &str) -> (r: Result<bool, MatchError>)
        requires
            old(self).wf(),
        ensures
            final(self).wf(),
            evolves(old(self)@, final(self)@),
            match r {
                Ok(b) => crate::path_spec::do_match_spec(old(self)@, pattern@, path@, false, None) == Ok::<(bool, Vars), MatchError>((b, None)),
                Err(e) => crate::path_spec::do_match_spec(old(self)@, pattern@, path@, false, None) == Err::<(bool, Vars), MatchError>(e),
            },
            r is Ok ==> final(self).state() == do_match_cache(old(self).state(), pattern@, path@, false, None),
            r is Err ==> *final(self) == *old(self),
    {
        self.try_do_match(pattern, path, false)
    }

    /// `extract_path_within_pattern`, or why the pair cannot be answered.
    pub fn try_extract_path_within_pattern(&mut self, pattern: &str, path: &str) -> (r: Result<String, MatchError>)
        ensures
            *final(self) == *old(self),
            match r {
                Ok(s) => extract_path_spec(old(self)@, pattern@, path@) == Ok::<Seq<char>, MatchError>(s@),
                Err(e) => extract_path_spec(old(self)@, pattern@, path@) == Err::<Seq<char>, MatchError>(e),
            },
    {
        match self.extract_path_checked(pattern, path) {
            Err(e) => Err(e),
            Ok(_) => Ok(self.extract_path_within_pattern(pattern, path)),
        }
    }

    /// `extract_uri_template_variables`, or why the pair cannot be answered
    /// (among others: the path does not match).
    pub fn try_extract_uri_template_variables(&mut self, pattern: &str, path: &str) -> (r: Result<StringHashMap<String>, MatchError>)
        requires
            old(self).wf(),
        ensures
            final(self).wf(),
            evolves(old(self)@, final(self)@),
            match r {
                Ok(m) => extract_variables_spec(old(self)@, pattern@, path@) == Ok::<Map<Seq<char>, Seq<char>>, MatchError>(m@.map_values(|v: String| v@)),
                Err(e) => extract_variables_spec(old(self)@, pattern@, path@) == Err::<Map<Seq<char>, Seq<char>>, MatchError>(e),
            },
            r is Ok ==> final(self).state() == do_match_cache(old(self).state(), pattern@, path@, true, Some(Map::empty())),
            r is Err ==> *final(self) == *old(self),
            r matches Ok(m) ==> values_from_path(m@.map_values(|v: String| v@), path@, old(self)@.path_separator, tokenize_spec(path@, old(self)@.path_separator, old(self)@.trim_tokens)),
    {
        let mut probe_matcher = self.twin();
        match probe_matcher.extract_variables_checked(pattern, path) {
            Err(e) => Err(e),
            Ok(_) => Ok(self.extract_uri_template_variables(pattern, path)),
        }
    }
}

impl PathMatcher for AntPathMatcher {
    open spec fn accepts_is_pattern(&self, path: &str) -> bool {
        is_pattern_spec(path@) is Ok
    }

    open spec fn accepts_match(&self, pattern: &str, path: &str, full_path: bool) -> bool {
        &&& self.wf()
        &&& crate::path_spec::do_match_spec(self@, pattern@, path@, full_path, None) is Ok
    }

    open spec fn accepts_extract_path(&self, pattern: &str, path: &str) -> bool {
        extract_path_spec(self@, pattern@, path@) is Ok
    }

    open spec fn accepts_extract_variables(&self, pattern: &str, path: &str) -> bool {
        &&& self.wf()
        &&& extract_variables_spec(self@, pattern@, path@) is Ok
    }

    fn is_pattern(&self, path: &str) -> (r: bool)
        ensures
            is_pattern_spec(path@) == Ok::<bool, MatchError>(r),
    {
        match self.is_pattern_checked(path) {
            Ok(b) => b,
            Err(_) => {
                proof {
                    assert(false);
                }
                false
            },
        }
    }

    fn match_(&mut self, pattern: &str, path: &str) -> (r: bool)
        ensures
            final(self).wf(),
            evolves(old(self)@, final(self)@),
            crate::path_spec::do_match_spec(old(self)@, pattern@, path@, true, None) == Ok::<(bool, Vars), MatchError>((r, None)),
            final(self).state() == do_match_cache(old(self).state(), pattern@, path@, true, None),
    {
        let ghost cfg0 = self@;
        proof {
            crate::laws::law_match_gathers_nothing(cfg0, pattern@, path@, true);
        }
        let mut uri_template_variables: Option<StringHashMap<String>> = None;
        match self.do_match(pattern, path, true, &mut uri_template_variables) {
            Ok(b) => b,
            Err(_) => {
                proof {
                    assert(false);
                }
                false
            },
        }
    }

    fn match_start(&mut self, pattern: &str, path: &str) -> (r: bool)
        ensures
            final(self).wf(),
            evolves(old(self)@, final(self)@),
            crate::path_spec::do_match_spec(old(self)@, pattern@, path@, false, None) == Ok::<(bool, Vars), MatchError>((r, None)),
            final(self).state() == do_match_cache(old(self).state(), pattern@, path@, false, None),
    {
        let ghost cfg0 = self@;
        proof {
            crate::laws::law_match_gathers_nothing(cfg0, pattern@, path@, false);
        }
        let mut uri_template_variables: Option<StringHashMap<String>> = None;
        match self.do_match(pattern, path, false, &mut uri_template_variables) {
            Ok(b) => b,
            Err(_) => {
                proof {
                    assert(false);
                }
                false
            },
        }
    }

    fn extract_path_within_pattern(&mut self, pattern: &str, path: &str) -> (r: String)
        ensures
            *final(self) == *old(self),
            extract_path_spec(old(self)@, pattern@, path@) == Ok::<Seq<char>, MatchError>(r@),
    {
        match self.extract_path_checked(pattern, path) {
            Ok(s) => s,
            Err(_) => {
                proof {
                    assert(false);
                }
                String::new()
            },
        }
    }

    fn extract_uri_template_variables(&mut self, pattern: &str, path: &str) -> (r: StringHashMap<String>)
        ensures
            final(self).wf(),
            evolves(old(self)@, final(self)@),
            extract_variables_spec(old(self)@, pattern@, path@) == Ok::<Map<Seq<char>, Seq<char>>, MatchError>(r@.map_values(|v: String| v@)),
            final(self).state() == do_match_cache(old(self).state(), pattern@, path@, true, Some(Map::empty())),
            values_from_path(r@.map_values(|v: String| v@), path@, old(self)@.path_separator, tokenize_spec(path@, old(self)@.path_separator, old(self)@.trim_tokens)),
    {
        match self.extract_variables_checked(pattern, path) {
            Ok(m) => m,
            Err(_) => {
                proof {
                    assert(false);
                }
                StringHashMap::new()
            },
        }
    }
}

impl Default for AntPathMatcher {
    /// A matcher on `/`, ignoring case, not trimming, caching until too many
    /// patterns are seen.
    fn default() -> (r: Self)
        ensures
            r.wf(),
            r@ == (MatcherConfig {
                path_separator: seq!['/'],
                case_sensitive: false,
                trim_tokens: false,
                cache_patterns: None,
            }),
            r.state().tokenized == Set::<Seq<char>>::empty(),
            r.state().matchers == Set::<Seq<char>>::empty(),
    {
        proof {
            assert(Map::<Seq<char>, Vec<String>>::empty().dom() =~= Set::<Seq<char>>::empty());
            assert(Map::<Seq<char>, AntPathStringMatcher>::empty().dom() =~= Set::<Seq<char>>::empty());
        }
        let sep = DEFAULT_PATH_SEPARATOR.to_owned();
        proof {
            reveal_strlit("/");
            assert(sep@ =~= seq!['/']);
        }
        AntPathMatcher {
            path_separator: sep,
            case_sensitive: false,
            trim_tokens: false,
            cache_patterns: None,
            tokenized_pattern_cache: StringHashMap::new(),
            string_matcher_cache: StringHashMap::new(),
        }
    }
}

} // verus!
