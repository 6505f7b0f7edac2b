//! What matching a whole path against a whole pattern computes, stated over
//! sequences: the pattern and the path are split into segments, segments are
//! matched in pairs from the front up to the first `**`, then from the back up
//! to the last `**`, and the blocks between `**`s are placed at the leftmost
//! position where they fit.
use vstd::prelude::*;
use vstd::utf8::{encode_utf8, is_char_boundary};
use crate::fault::MatchError;
use crate::path_matcher::CACHE_TURNOFF_THRESHOLD;
use crate::string_matcher::{build_spec, match_string_spec, utf8_len, Vars};
use crate::text::{is_substring, tokenize_spec};

verus! {

/// The settings of a matcher that decide its answers.
pub struct MatcherConfig {
    pub path_separator: Seq<char>,
    pub case_sensitive: bool,
    pub trim_tokens: bool,
    /// `None`: caching on until too many patterns are seen; `Some(b)`: on or off.
    pub cache_patterns: Option<bool>,
}

/// The segment `**`.
pub open spec fn double_star() -> Seq<char> {
    seq!['*', '*']
}

/// Characters that stop the literal prefix of a pattern segment.
pub open spec fn is_wildcard(c: char) -> bool {
    c == '*' || c == '?' || c == '{'
}

/// Matching one pattern segment against one path segment.
pub open spec fn seg_match(cs: bool, pat: Seq<char>, s: Seq<char>, vars: Vars) -> Result<(bool, Vars), MatchError> {
    match build_spec(pat, cs) {
        Err(e) => Err(e),
        Ok(m) => match_string_spec(m, s, vars),
    }
}

/// Where a phase of the walk stopped: with an answer, or at a pair of indices.
pub enum Step {
    Done(bool),
    At(int, int),
}

/// Matches segments pairwise from `ps` and `ds` forward until either runs out
/// or the pattern reaches `**`.
pub open spec fn fwd(
    cs: bool,
    pat: Seq<Seq<char>>,
    dirs: Seq<Seq<char>>,
    ps: int,
    pe: int,
    ds: int,
    de: int,
    vars: Vars,
) -> Result<(Step, Vars), MatchError>
    decreases pe - ps,
{
    if ps < pe && ds < de && 0 <= ps && 0 <= ds && pat[ps] != double_star() {
        match seg_match(cs, pat[ps], dirs[ds], vars) {
            Err(e) => Err(e),
            Ok((false, v)) => Ok((Step::Done(false), v)),
            Ok((true, v)) => fwd(cs, pat, dirs, ps + 1, pe, ds + 1, de, v),
        }
    } else {
        Ok((Step::At(ps, ds), vars))
    }
}

/// Matches segments pairwise backwards from `pe - 1` and `de - 1` until either
/// runs into the front indices or the pattern reaches `**`.
pub open spec fn bwd(
    cs: bool,
    pat: Seq<Seq<char>>,
    dirs: Seq<Seq<char>>,
    ps: int,
    pe: int,
    ds: int,
    de: int,
    vars: Vars,
) -> Result<(Step, Vars), MatchError>
    decreases pe - ps,
{
    if ps < pe && ds < de && 0 <= ps && 0 <= ds && pat[pe - 1] != double_star() {
        match seg_match(cs, pat[pe - 1], dirs[de - 1], vars) {
            Err(e) => Err(e),
            Ok((false, v)) => Ok((Step::Done(false), v)),
            Ok((true, v)) => bwd(cs, pat, dirs, ps, pe - 1, ds, de - 1, v),
        }
    } else {
        Ok((Step::At(pe, de), vars))
    }
}

/// Whether every pattern segment in `from..to` is `**`.
pub open spec fn all_double_star(pat: Seq<Seq<char>>, from: int, to: int) -> bool {
    forall|i: int| from <= i < to ==> pat[i] == double_star()
}

/// The first index in `from..to` holding `**`, or -1.
pub open spec fn first_double_star(pat: Seq<Seq<char>>, from: int, to: int) -> int
    decreases to - from,
{
    if from >= to || from < 0 {
        -1
    } else if pat[from] == double_star() {
        from
    } else {
        first_double_star(pat, from + 1, to)
    }
}

/// Matches pattern segments `ps + 1 + j ..` against path segments `at + j ..`,
/// for `j` from `j` to `len - 1`, stopping at the first that fails.
pub open spec fn try_block(
    cs: bool,
    pat: Seq<Seq<char>>,
    dirs: Seq<Seq<char>>,
    ps: int,
    at: int,
    j: int,
    len: int,
    vars: Vars,
) -> Result<(bool, Vars), MatchError>
    decreases len - j,
{
    if j >= len || j < 0 {
        Ok((true, vars))
    } else {
        match seg_match(cs, pat[ps + 1 + j], dirs[at + j], vars) {
            Err(e) => Err(e),
            Ok((false, v)) => Ok((false, v)),
            Ok((true, v)) => try_block(cs, pat, dirs, ps, at, j + 1, len, v),
        }
    }
}

/// The leftmost offset `i` in `i..=last` at which the block of `len` pattern
/// segments after `ps` matches the path segments from `ds + i`: gives `ds + i`,
/// or -1 when there is none.
pub open spec fn search(
    cs: bool,
    pat: Seq<Seq<char>>,
    dirs: Seq<Seq<char>>,
    ps: int,
    len: int,
    ds: int,
    i: int,
    last: int,
    vars: Vars,
) -> Result<(int, Vars), MatchError>
    decreases last + 1 - i,
{
    if i > last || i < 0 {
        Ok((-1, vars))
    } else {
        match try_block(cs, pat, dirs, ps, ds + i, 0, len, vars) {
            Err(e) => Err(e),
            Ok((true, v)) => Ok((ds + i, v)),
            Ok((false, v)) => search(cs, pat, dirs, ps, len, ds, i + 1, last, v),
        }
    }
}

/// Places, one after the other, the blocks of pattern segments between the
/// `**` at `ps` and the `**` at `pe - 1`, each at its leftmost fit among the
/// path segments `ds..de`.
pub open spec fn middle(
    cs: bool,
    pat: Seq<Seq<char>>,
    dirs: Seq<Seq<char>>,
    ps: int,
    pe: int,
    ds: int,
    de: int,
    vars: Vars,
) -> Result<(bool, Vars), MatchError>
    decreases pe - ps,
{
    if ps != pe - 1 && ds < de {
        let tmp = first_double_star(pat, ps + 1, pe);
        if tmp <= ps || tmp >= pe || ps < 0 || pe > pat.len() {
            Err(MatchError::UnexpectedPatternShape)
        } else if tmp == ps + 1 {
            middle(cs, pat, dirs, ps + 1, pe, ds, de, vars)
        } else {
            let len = tmp - ps - 1;
            match search(cs, pat, dirs, ps, len, ds, 0, de - ds - len, vars) {
                Err(e) => Err(e),
                Ok((found, v)) => if found < 0 {
                    Ok((false, v))
                } else {
                    middle(cs, pat, dirs, tmp, pe, found + len, de, v)
                },
            }
        }
    } else {
        Ok((all_double_star(pat, ps, pe), vars))
    }
}

/// The walk over the pattern segments `pat` and path segments `dirs`; `pattern`
/// and `path` are the whole strings, whose trailing separators decide some cases.
pub open spec fn walk(
    cfg: MatcherConfig,
    pattern: Seq<char>,
    path: Seq<char>,
    full_path: bool,
    pat: Seq<Seq<char>>,
    dirs: Seq<Seq<char>>,
    vars: Vars,
) -> Result<(bool, Vars), MatchError> {
    let cs = cfg.case_sensitive;
    let sep = cfg.path_separator;
    match fwd(cs, pat, dirs, 0, pat.len() as int, 0, dirs.len() as int, vars) {
        Err(e) => Err(e),
        Ok((Step::Done(b), v)) => Ok((b, v)),
        Ok((Step::At(ps, ds), v)) => if ds >= dirs.len() {
            if ps >= pat.len() {
                Ok((sep.is_suffix_of(pattern) == sep.is_suffix_of(path), v))
            } else if !full_path {
                Ok((true, v))
            } else if ps == pat.len() - 1 && pat[ps] == seq!['*'] && sep.is_suffix_of(path) {
                Ok((true, v))
            } else {
                Ok((all_double_star(pat, ps, pat.len() as int), v))
            }
        } else if ps >= pat.len() {
            Ok((false, v))
        } else if !full_path && pat[ps] == double_star() {
            Ok((true, v))
        } else {
            match bwd(cs, pat, dirs, ps, pat.len() as int, ds, dirs.len() as int, v) {
                Err(e) => Err(e),
                Ok((Step::Done(b), v2)) => Ok((b, v2)),
                Ok((Step::At(pe, de), v2)) => if ds >= de {
                    Ok((all_double_star(pat, ps, pe), v2))
                } else {
                    middle(cs, pat, dirs, ps, pe, ds, de, v2)
                },
            }
        }
    }
}

// ---------------------------------------------------------------------------
// The quick rejection test run before a case-sensitive full match
// ---------------------------------------------------------------------------

/// Bytes of separators skipped from byte `pos + skipped` of the path `b`
/// (`skip_separator`); fails where the offset is no character boundary and
/// where an empty separator would be skipped forever.
pub open spec fn skip_separator_spec(b: Seq<u8>, sep: Seq<u8>, pos: int, skipped: int) -> Result<int, MatchError>
    decreases b.len() + 1 - pos - skipped,
{
    let x = pos + skipped;
    if x < 0 || !is_char_boundary(b, x) {
        Err(MatchError::NotCharBoundary)
    } else if sep.is_prefix_of(b.skip(x)) {
        if sep.len() == 0 || x + sep.len() > b.len() {
            Err(MatchError::EmptySeparator)
        } else {
            skip_separator_spec(b, sep, pos, skipped + sep.len())
        }
    } else {
        Ok(skipped)
    }
}

/// How many characters of the literal prefix of the pattern segment `prefix`
/// (from its `k`-th character on) agree with the path, counting from character
/// `pos + skipped` (`skip_segment`); `blen` is the path's length in bytes.
pub open spec fn skip_segment_spec(
    path: Seq<char>,
    blen: int,
    pos: int,
    prefix: Seq<char>,
    k: int,
    skipped: int,
) -> Result<int, MatchError>
    decreases prefix.len() - k,
{
    if k >= prefix.len() || k < 0 {
        Ok(skipped)
    } else if is_wildcard(prefix[k]) {
        Ok(skipped)
    } else if pos + skipped >= blen {
        Ok(0)
    } else if pos + skipped >= path.len() || pos + skipped < 0 {
        Err(MatchError::CharIndexOutOfRange)
    } else if prefix[k] == path[pos + skipped] {
        skip_segment_spec(path, blen, pos, prefix, k + 1, skipped + 1)
    } else {
        skip_segment_spec(path, blen, pos, prefix, k + 1, skipped)
    }
}

/// Whether the path may still match the pattern segments `pat[i..]`, from
/// byte and character offset `pos` (`is_potential_match`).
pub open spec fn potential_from(
    path: Seq<char>,
    sep: Seq<char>,
    pat: Seq<Seq<char>>,
    i: int,
    pos: int,
) -> Result<bool, MatchError>
    decreases pat.len() - i,
{
    if i >= pat.len() || i < 0 {
        Ok(true)
    } else {
        match skip_separator_spec(encode_utf8(path), encode_utf8(sep), pos, 0) {
            Err(e) => Err(e),
            Ok(sk) => match skip_segment_spec(path, utf8_len(path), pos + sk, pat[i], 0, 0) {
                Err(e) => Err(e),
                Ok(sk2) => if sk2 < utf8_len(pat[i]) {
                    Ok(sk2 > 0 || (utf8_len(pat[i]) > 0 && is_wildcard(pat[i][0])))
                } else {
                    potential_from(path, sep, pat, i + 1, pos + sk + sk2)
                },
            },
        }
    }
}

/// The quick test: only where tokens are not trimmed.
pub open spec fn potential_match_spec(cfg: MatcherConfig, path: Seq<char>, pat: Seq<Seq<char>>) -> Result<bool, MatchError> {
    if cfg.trim_tokens {
        Ok(true)
    } else {
        potential_from(path, cfg.path_separator, pat, 0, 0)
    }
}

// ---------------------------------------------------------------------------
// The whole match
// ---------------------------------------------------------------------------

/// The segments that the matcher takes the pattern to have: its tokens, but
/// none once pattern caching has been switched off.
pub open spec fn pattern_tokens(cfg: MatcherConfig, pattern: Seq<char>) -> Seq<Seq<char>> {
    if cfg.cache_patterns == Some(false) {
        Seq::empty()
    } else {
        tokenize_spec(pattern, cfg.path_separator, cfg.trim_tokens)
    }
}

/// Whether `path` matches `pattern` (all of it when `full_path`, else a prefix
/// of the pattern may be left over), and the variables gathered.
pub open spec fn do_match_spec(
    cfg: MatcherConfig,
    pattern: Seq<char>,
    path: Seq<char>,
    full_path: bool,
    vars: Vars,
) -> Result<(bool, Vars), MatchError> {
    let sep = cfg.path_separator;
    if sep.is_prefix_of(path) != sep.is_prefix_of(pattern) {
        Ok((false, vars))
    } else {
        let pat = pattern_tokens(cfg, pattern);
        let quick = if full_path && cfg.case_sensitive {
            potential_match_spec(cfg, path, pat)
        } else {
            Ok(true)
        };
        match quick {
            Err(e) => Err(e),
            Ok(false) => Ok((false, vars)),
            Ok(true) => walk(
                cfg,
                pattern,
                path,
                full_path,
                pat,
                tokenize_spec(path, sep, cfg.trim_tokens),
                vars,
            ),
        }
    }
}

// ---------------------------------------------------------------------------
// Telling patterns from plain paths
// ---------------------------------------------------------------------------

/// Scans the path from character `i` while the byte count `blen` allows:
/// `*` or `?`, or a `}` after some `{`, make it a pattern (`is_pattern`).
/// Reading past the last character fails, as it does for a path whose bytes
/// outnumber its characters.
pub open spec fn is_pattern_from(path: Seq<char>, blen: int, i: int, uri_var: bool) -> Result<bool, MatchError>
    decreases blen - i,
{
    if i >= blen || i < 0 {
        Ok(false)
    } else if i >= path.len() {
        Err(MatchError::CharIndexOutOfRange)
    } else if path[i] == '*' || path[i] == '?' {
        Ok(true)
    } else if path[i] == '{' {
        is_pattern_from(path, blen, i + 1, true)
    } else if path[i] == '}' && uri_var {
        Ok(true)
    } else {
        is_pattern_from(path, blen, i + 1, uri_var)
    }
}

/// Whether `path` is a pattern rather than a plain path.
pub open spec fn is_pattern_spec(path: Seq<char>) -> Result<bool, MatchError> {
    is_pattern_from(path, utf8_len(path), 0, false)
}

// ---------------------------------------------------------------------------
// The part of a path that a pattern's wildcards cover
// ---------------------------------------------------------------------------

/// Whether a pattern segment holds `*` or `?`.
pub open spec fn has_wildcard(p: Seq<char>) -> bool {
    p.contains('*') || p.contains('?')
}

/// Appends `item`, `n - k` more times, each time after a separator once the
/// output has started (or, for segment 0 of a pattern that does not start
/// with the separator, even before).
pub open spec fn extract_repeat(
    sep: Seq<char>,
    lead_sep: bool,
    item: Seq<char>,
    n: int,
    k: int,
    builder: Seq<char>,
    started: bool,
) -> (Seq<char>, bool)
    decreases n - k,
{
    if k >= n {
        (builder, started)
    } else {
        let b1 = if started || lead_sep {
            builder + sep
        } else {
            builder
        };
        extract_repeat(sep, lead_sep, item, n, k + 1, b1 + item, true)
    }
}

/// For each pattern segment from `seg` on that holds `*` or `?`, appends the
/// path segment at the same index once per path segment; fails where the
/// path has segments but not one at that index.
pub open spec fn extract_from(
    sep: Seq<char>,
    pattern_starts_with_sep: bool,
    pp: Seq<Seq<char>>,
    dp: Seq<Seq<char>>,
    seg: int,
    builder: Seq<char>,
    started: bool,
) -> Result<Seq<char>, MatchError>
    decreases pp.len() - seg,
{
    if seg >= pp.len() || seg < 0 {
        Ok(builder)
    } else if has_wildcard(pp[seg]) {
        if dp.len() > 0 && seg >= dp.len() {
            Err(MatchError::PathTooShort)
        } else {
            let r = extract_repeat(
                sep,
                seg == 0 && !pattern_starts_with_sep,
                dp[seg],
                dp.len() as int,
                0,
                builder,
                started,
            );
            extract_from(sep, pattern_starts_with_sep, pp, dp, seg + 1, r.0, r.1)
        }
    } else {
        extract_from(sep, pattern_starts_with_sep, pp, dp, seg + 1, builder, started)
    }
}

/// What `extract_path_within_pattern` gives for `pattern` and `path`.
pub open spec fn extract_path_spec(cfg: MatcherConfig, pattern: Seq<char>, path: Seq<char>) -> Result<Seq<char>, MatchError> {
    extract_from(
        cfg.path_separator,
        cfg.path_separator.is_prefix_of(pattern),
        tokenize_spec(pattern, cfg.path_separator, cfg.trim_tokens),
        tokenize_spec(path, cfg.path_separator, cfg.trim_tokens),
        0,
        Seq::empty(),
        false,
    )
}

/// The template variables of a full match of `path` against `pattern`;
/// fails where the path does not match.
pub open spec fn extract_variables_spec(cfg: MatcherConfig, pattern: Seq<char>, path: Seq<char>) -> Result<Map<Seq<char>, Seq<char>>, MatchError> {
    match do_match_spec(cfg, pattern, path, true, Some(Map::empty())) {
        Err(e) => Err(e),
        Ok((false, _)) => Err(MatchError::NoMatch),
        Ok((true, v)) => match v {
            Some(m) => Ok(m),
            None => Err(MatchError::NoMatch),
        },
    }
}

/// Each value of `vars` is a run of the characters of the path `path` and of
/// one of its segments `segs`, and holds no separator `sep` when `sep` is not empty.
pub open spec fn values_from_path(
    vars: Map<Seq<char>, Seq<char>>,
    path: Seq<char>,
    sep: Seq<char>,
    segs: Seq<Seq<char>>,
) -> bool {
    forall|k: Seq<char>| #[trigger] vars.contains_key(k) ==> {
        &&& is_substring(vars[k], path)
        &&& sep.len() > 0 ==> !is_substring(sep, vars[k])
        &&& exists|d: int| 0 <= d < segs.len() && #[trigger] is_substring(vars[k], segs[d])
    }
}

// ---------------------------------------------------------------------------
// The caches: which patterns they hold, and when caching switches itself off
// ---------------------------------------------------------------------------

/// The state of a matcher: its settings and the patterns each cache holds.
pub struct CacheState {
    pub cfg: MatcherConfig,
    /// The patterns whose tokens are cached.
    pub tokenized: Set<Seq<char>>,
    /// The pattern segments whose matchers are cached.
    pub matchers: Set<Seq<char>>,
}

/// Whether the caches are in use: unless caching has been switched off.
pub open spec fn caching(cfg: MatcherConfig) -> bool {
    cfg.cache_patterns != Some(false)
}

/// What every reachable state keeps: the caches are finite, empty once
/// caching is off, and hold at most the threshold while caching is undecided.
pub open spec fn cache_invariant(st: CacheState) -> bool {
    &&& st.tokenized.finite()
    &&& st.matchers.finite()
    &&& st.cfg.cache_patterns == Some(false) ==> st.tokenized.is_empty() && st.matchers.is_empty()
    &&& st.cfg.cache_patterns is None ==> st.tokenized.len() <= CACHE_TURNOFF_THRESHOLD
        && st.matchers.len() <= CACHE_TURNOFF_THRESHOLD
}

/// Caching switched off for good, both caches emptied.
pub open spec fn deactivated(st: CacheState) -> CacheState {
    CacheState {
        cfg: MatcherConfig { cache_patterns: Some(false), ..st.cfg },
        tokenized: Set::empty(),
        matchers: Set::empty(),
    }
}

/// The state after the tokens of `pattern` are asked for: nothing changes when
/// caching is off or the pattern is cached; an undecided cache that already
/// holds the threshold switches caching off; else the pattern is recorded.
pub open spec fn tokenize_step(st: CacheState, pattern: Seq<char>) -> CacheState {
    if !caching(st.cfg) || st.tokenized.contains(pattern) {
        st
    } else if st.cfg.cache_patterns is None && st.tokenized.len() >= CACHE_TURNOFF_THRESHOLD {
        deactivated(st)
    } else {
        CacheState { tokenized: st.tokenized.insert(pattern), ..st }
    }
}

/// The state after the matcher of the pattern segment `pattern` is asked for:
/// nothing changes when it is cached or its regex does not compile; an
/// undecided cache that already holds the threshold switches caching off;
/// else the segment is recorded when caching is on.
pub open spec fn matcher_step(st: CacheState, pattern: Seq<char>) -> CacheState {
    if caching(st.cfg) && st.matchers.contains(pattern) {
        st
    } else if build_spec(pattern, st.cfg.case_sensitive) is Err {
        st
    } else if st.cfg.cache_patterns is None && st.matchers.len() >= CACHE_TURNOFF_THRESHOLD {
        deactivated(st)
    } else if caching(st.cfg) {
        CacheState { matchers: st.matchers.insert(pattern), ..st }
    } else {
        st
    }
}

/// The state after the forward phase (`fwd`), one `matcher_step` per segment it matches.
pub open spec fn fwd_cache(
    st: CacheState,
    cs: bool,
    pat: Seq<Seq<char>>,
    dirs: Seq<Seq<char>>,
    ps: int,
    pe: int,
    ds: int,
    de: int,
    vars: Vars,
) -> CacheState
    decreases pe - ps,
{
    if ps < pe && ds < de && 0 <= ps && 0 <= ds && pat[ps] != double_star() {
        let st1 = matcher_step(st, pat[ps]);
        match seg_match(cs, pat[ps], dirs[ds], vars) {
            Ok((true, v)) => fwd_cache(st1, cs, pat, dirs, ps + 1, pe, ds + 1, de, v),
            _ => st1,
        }
    } else {
        st
    }
}

/// The state after the backward phase (`bwd`).
pub open spec fn bwd_cache(
    st: CacheState,
    cs: bool,
    pat: Seq<Seq<char>>,
    dirs: Seq<Seq<char>>,
    ps: int,
    pe: int,
    ds: int,
    de: int,
    vars: Vars,
) -> CacheState
    decreases pe - ps,
{
    if ps < pe && ds < de && 0 <= ps && 0 <= ds && pat[pe - 1] != double_star() {
        let st1 = matcher_step(st, pat[pe - 1]);
        match seg_match(cs, pat[pe - 1], dirs[de - 1], vars) {
            Ok((true, v)) => bwd_cache(st1, cs, pat, dirs, ps, pe - 1, ds, de - 1, v),
            _ => st1,
        }
    } else {
        st
    }
}

/// The state after one block is tried (`try_block`).
pub open spec fn try_block_cache(
    st: CacheState,
    cs: bool,
    pat: Seq<Seq<char>>,
    dirs: Seq<Seq<char>>,
    ps: int,
    at: int,
    j: int,
    len: int,
    vars: Vars,
) -> CacheState
    decreases len - j,
{
    if j >= len || j < 0 {
        st
    } else {
        let st1 = matcher_step(st, pat[ps + 1 + j]);
        match seg_match(cs, pat[ps + 1 + j], dirs[at + j], vars) {
            Ok((true, v)) => try_block_cache(st1, cs, pat, dirs, ps, at, j + 1, len, v),
            _ => st1,
        }
    }
}

/// The state after the search for a block's place (`search`).
pub open spec fn search_cache(
    st: CacheState,
    cs: bool,
    pat: Seq<Seq<char>>,
    dirs: Seq<Seq<char>>,
    ps: int,
    len: int,
    ds: int,
    i: int,
    last: int,
    vars: Vars,
) -> CacheState
    decreases last + 1 - i,
{
    if i > last || i < 0 {
        st
    } else {
        let st1 = try_block_cache(st, cs, pat, dirs, ps, ds + i, 0, len, vars);
        match try_block(cs, pat, dirs, ps, ds + i, 0, len, vars) {
            Ok((false, v)) => search_cache(st1, cs, pat, dirs, ps, len, ds, i + 1, last, v),
            _ => st1,
        }
    }
}

/// The state after the blocks between `**`s are placed (`middle`).
pub open spec fn middle_cache(
    st: CacheState,
    cs: bool,
    pat: Seq<Seq<char>>,
    dirs: Seq<Seq<char>>,
    ps: int,
    pe: int,
    ds: int,
    de: int,
    vars: Vars,
) -> CacheState
    decreases pe - ps,
{
    if ps != pe - 1 && ds < de {
        let tmp = first_double_star(pat, ps + 1, pe);
        if tmp <= ps || tmp >= pe || ps < 0 || pe > pat.len() {
            st
        } else if tmp == ps + 1 {
            middle_cache(st, cs, pat, dirs, ps + 1, pe, ds, de, vars)
        } else {
            let len = tmp - ps - 1;
            let st1 = search_cache(st, cs, pat, dirs, ps, len, ds, 0, de - ds - len, vars);
            match search(cs, pat, dirs, ps, len, ds, 0, de - ds - len, vars) {
                Ok((found, v)) => if found < 0 {
                    st1
                } else {
                    middle_cache(st1, cs, pat, dirs, tmp, pe, found + len, de, v)
                },
                Err(_) => st1,
            }
        }
    } else {
        st
    }
}

/// The state after the walk (`walk`).
pub open spec fn walk_cache(
    st: CacheState,
    cs: bool,
    full_path: bool,
    pat: Seq<Seq<char>>,
    dirs: Seq<Seq<char>>,
    vars: Vars,
) -> CacheState {
    let st1 = fwd_cache(st, cs, pat, dirs, 0, pat.len() as int, 0, dirs.len() as int, vars);
    match fwd(cs, pat, dirs, 0, pat.len() as int, 0, dirs.len() as int, vars) {
        Ok((Step::At(ps, ds), v)) => if ds >= dirs.len() || ps >= pat.len() || (!full_path
            && pat[ps] == double_star()) {
            st1
        } else {
            let st2 = bwd_cache(st1, cs, pat, dirs, ps, pat.len() as int, ds, dirs.len() as int, v);
            match bwd(cs, pat, dirs, ps, pat.len() as int, ds, dirs.len() as int, v) {
                Ok((Step::At(pe, de), v2)) => if ds >= de {
                    st2
                } else {
                    middle_cache(st2, cs, pat, dirs, ps, pe, ds, de, v2)
                },
                _ => st2,
            }
        },
        _ => st1,
    }
}

/// The state after a whole match (`do_match_spec`): untouched when the
/// leading separators disagree; else the pattern's tokens are asked for, then
/// one matcher per segment pair that the walk tries.
pub open spec fn do_match_cache(
    st: CacheState,
    pattern: Seq<char>,
    path: Seq<char>,
    full_path: bool,
    vars: Vars,
) -> CacheState {
    let cfg = st.cfg;
    let sep = cfg.path_separator;
    if sep.is_prefix_of(path) != sep.is_prefix_of(pattern) {
        st
    } else {
        let st1 = tokenize_step(st, pattern);
        let pat = pattern_tokens(cfg, pattern);
        let quick = if full_path && cfg.case_sensitive {
            potential_match_spec(cfg, path, pat)
        } else {
            Ok(true)
        };
        match quick {
            Ok(true) => walk_cache(
                st1,
                cfg.case_sensitive,
                full_path,
                pat,
                tokenize_spec(path, sep, cfg.trim_tokens),
                vars,
            ),
            _ => st1,
        }
    }
}

} // verus!
