//! Properties of the matcher that hold across all inputs.
use vstd::prelude::*;
use vstd::utf8::encode_utf8;
use crate::fault::MatchError;
use crate::path_spec::{
    extract_from, extract_path_spec, has_wildcard,
    all_double_star, bwd, do_match_spec, extract_variables_spec, double_star, first_double_star, fwd, is_pattern_from,
    is_pattern_spec, middle, pattern_tokens, potential_match_spec, search, seg_match, try_block,
    walk, MatcherConfig, Step, CacheState, cache_invariant, caching, deactivated, tokenize_step,
    matcher_step, potential_from, skip_segment_spec, skip_separator_spec, extract_repeat,
};
use crate::engine::{escape_spec, regex_compiles, regex_first_match, to_upper};
use crate::string_matcher::{
    build_from_wildcards, build_start, default_variable_pattern, glob_fold, glob_piece, wildcard_regex,
    lemma_encode_concat, lemma_encode_len, quote_spec, utf8_len, match_string_spec, capture_binding,
    bind_groups,
    StringMatcherView, Vars,
};
use crate::text::{find_from, lemma_braced_name, lemma_first_colon, clean_piece, tokenize_spec, tokens_of, split_spec};

verus! {

proof fn lemma_fwd_stop(cs: bool, pat: Seq<Seq<char>>, dirs: Seq<Seq<char>>, ps: int, pe: int, ds: int, de: int, vars: Vars)
    requires
        0 <= ps,
        0 <= ds,
    ensures
        fwd(cs, pat, dirs, ps, pe, ds, de, vars) matches Ok((Step::At(a, c), _)) ==> (a < pe && c < de ==> pat[a] == double_star()),
    decreases pe - ps,
{
    if ps < pe && ds < de && pat[ps] != double_star() {
        if let Ok((true, v)) = crate::path_spec::seg_match(cs, pat[ps], dirs[ds], vars) {
            lemma_fwd_stop(cs, pat, dirs, ps + 1, pe, ds + 1, de, v);
        }
    }
}

/// A path that matches the whole of a pattern also matches it as a start:
/// `match_` answering true means `match_start` answers true, from the same
/// matcher state.
pub proof fn law_full_match_implies_start_match(cfg: MatcherConfig, pattern: Seq<char>, path: Seq<char>, vars: Vars)
    requires
        do_match_spec(cfg, pattern, path, true, vars) matches Ok((true, _)),
    ensures
        do_match_spec(cfg, pattern, path, false, vars) matches Ok((true, _)),
{
    let pat = pattern_tokens(cfg, pattern);
    let dirs = tokenize_spec(path, cfg.path_separator, cfg.trim_tokens);
    lemma_fwd_stop(cfg.case_sensitive, pat, dirs, 0, pat.len() as int, 0, dirs.len() as int, vars);
}

proof fn lemma_is_pattern_from_ok(path: Seq<char>, blen: int, i: int, uri: bool)
    requires
        blen <= path.len(),
    ensures
        is_pattern_from(path, blen, i, uri) is Ok,
    decreases blen - i,
{
    if !(i >= blen || i < 0) && i < path.len() {
        lemma_is_pattern_from_ok(path, blen, i + 1, uri || path[i] == '{');
    }
}

/// Telling patterns from paths never fails on a path whose every character
/// takes one byte.
pub proof fn law_is_pattern_total_on_single_byte_chars(path: Seq<char>)
    requires
        utf8_len(path) == path.len(),
    ensures
        is_pattern_spec(path) is Ok,
{
    lemma_is_pattern_from_ok(path, utf8_len(path), 0, false);
}

/// Whether some character before index `i` is `{`.
pub open spec fn opens_before(path: Seq<char>, i: int) -> bool {
    exists|j: int| 0 <= j < i && path[j] == '{'
}

/// Whether character `i` makes the path a pattern: a `*`, a `?`, or a `}`
/// after some `{`.
pub open spec fn marks_pattern(path: Seq<char>, i: int) -> bool {
    path[i] == '*' || path[i] == '?' || (path[i] == '}' && opens_before(path, i))
}

proof fn lemma_is_pattern_from_meaning(path: Seq<char>, blen: int, i: int, uri: bool)
    requires
        path.len() <= blen,
        0 <= i,
        uri <==> opens_before(path, i),
        forall|k: int| 0 <= k < i ==> !marks_pattern(path, k),
    ensures
        is_pattern_from(path, blen, i, uri) is Ok ==> (is_pattern_from(path, blen, i, uri)->Ok_0
            <==> exists|k: int| 0 <= k < path.len() && marks_pattern(path, k)),
    decreases blen - i,
{
    if i >= blen {
        assert forall|k: int| 0 <= k < path.len() implies !marks_pattern(path, k) by {}
    } else if i < path.len() {
        if marks_pattern(path, i) {
            assert(is_pattern_from(path, blen, i, uri) == Ok::<bool, MatchError>(true));
        } else {
            let uri2 = uri || path[i] == '{';
            assert(uri2 <==> opens_before(path, i + 1)) by {
                if path[i] == '{' {
                    assert(opens_before(path, i + 1));
                } else if opens_before(path, i + 1) {
                    let j = choose|j: int| 0 <= j < i + 1 && path[j] == '{';
                    assert(opens_before(path, i));
                }
            }
            lemma_is_pattern_from_meaning(path, blen, i + 1, uri2);
        }
    }
}

/// A path is a pattern exactly when it holds `*` or `?`, or a `}` after some `{`.
pub proof fn law_is_pattern_meaning(path: Seq<char>)
    requires
        is_pattern_spec(path) is Ok,
    ensures
        is_pattern_spec(path)->Ok_0 <==> exists|k: int| 0 <= k < path.len() && marks_pattern(path, k),
{
    lemma_encode_len(path);
    lemma_is_pattern_from_meaning(path, utf8_len(path), 0, false);
}

proof fn lemma_tokens_of_nonempty(pieces: Seq<Seq<char>>, trim: bool)
    ensures
        forall|i: int| 0 <= i < tokens_of(pieces, trim).len() ==> #[trigger] tokens_of(pieces, trim)[i].len() > 0,
    decreases pieces.len(),
{
    if pieces.len() > 0 {
        lemma_tokens_of_nonempty(pieces.drop_last(), trim);
        let rest = tokens_of(pieces.drop_last(), trim);
        let c = clean_piece(pieces.last(), trim);
        if c.len() > 0 {
            assert forall|i: int| 0 <= i < rest.push(c).len() implies #[trigger] rest.push(c)[i].len() > 0 by {
                if i < rest.len() {
                    assert(rest.push(c)[i] == rest[i]);
                }
            }
        }
    }
}

/// Splitting a path never yields an empty segment.
pub proof fn law_tokens_are_nonempty(s: Seq<char>, sep: Seq<char>, trim: bool)
    ensures
        forall|i: int| 0 <= i < tokenize_spec(s, sep, trim).len() ==> #[trigger] tokenize_spec(s, sep, trim)[i].len() > 0,
{
    if s.len() > 0 {
        lemma_tokens_of_nonempty(split_spec(s, sep), trim);
    }
}

proof fn lemma_middle_all_double_star(
    cs: bool,
    pat: Seq<Seq<char>>,
    dirs: Seq<Seq<char>>,
    ps: int,
    pe: int,
    ds: int,
    de: int,
    vars: Vars,
)
    requires
        0 <= ps < pe <= pat.len(),
        all_double_star(pat, ps, pe),
    ensures
        middle(cs, pat, dirs, ps, pe, ds, de, vars) == Ok::<(bool, Vars), MatchError>((true, vars)),
    decreases pe - ps,
{
    if ps != pe - 1 && ds < de {
        assert(pat[ps + 1] == double_star());
        assert(first_double_star(pat, ps + 1, pe) == ps + 1);
        lemma_middle_all_double_star(cs, pat, dirs, ps + 1, pe, ds, de, vars);
    }
}

/// A pattern whose segments are all `**` matches every path whose leading
/// separator agrees with it (as a whole and as a start), wherever the quick
/// test of a case-sensitive full match lets it through; no segment is matched,
/// so the variables stay as they were.
pub proof fn law_double_star_pattern_matches_every_path(
    cfg: MatcherConfig,
    pattern: Seq<char>,
    path: Seq<char>,
    full_path: bool,
    vars: Vars,
)
    requires
        cfg.path_separator.is_prefix_of(path) == cfg.path_separator.is_prefix_of(pattern),
        pattern_tokens(cfg, pattern).len() > 0,
        all_double_star(pattern_tokens(cfg, pattern), 0, pattern_tokens(cfg, pattern).len() as int),
        full_path && cfg.case_sensitive ==> potential_match_spec(cfg, path, pattern_tokens(cfg, pattern))
            == Ok::<bool, MatchError>(true),
    ensures
        do_match_spec(cfg, pattern, path, full_path, vars) == Ok::<(bool, Vars), MatchError>((true, vars)),
{
    let pat = pattern_tokens(cfg, pattern);
    let dirs = tokenize_spec(path, cfg.path_separator, cfg.trim_tokens);
    let n = pat.len() as int;
    assert(pat[0] == double_star());
    assert(pat[n - 1] == double_star());
    assert(fwd(cfg.case_sensitive, pat, dirs, 0, n, 0, dirs.len() as int, vars) == Ok::<(Step, Vars), MatchError>((Step::At(0, 0), vars)));
    if dirs.len() > 0 {
        assert(bwd(cfg.case_sensitive, pat, dirs, 0, n, 0, dirs.len() as int, vars) == Ok::<(Step, Vars), MatchError>((Step::At(n, dirs.len() as int), vars)));
        lemma_middle_all_double_star(cfg.case_sensitive, pat, dirs, 0, n, 0, dirs.len() as int, vars);
    } else {
        assert(pat[0] != seq!['*']) by {
            assert(pat[0].len() == 2);
        }
    }
}

/// Matching a segment without gathering variables gathers none.
pub proof fn lemma_seg_match_gathers_nothing(cs: bool, pat: Seq<char>, s: Seq<char>)
    ensures
        seg_match(cs, pat, s, None) matches Ok((_, v)) ==> v is None,
{
}

proof fn lemma_fwd_none(cs: bool, pat: Seq<Seq<char>>, dirs: Seq<Seq<char>>, ps: int, pe: int, ds: int, de: int)
    ensures
        fwd(cs, pat, dirs, ps, pe, ds, de, None) matches Ok((_, v)) ==> v is None,
    decreases pe - ps,
{
    if ps < pe && ds < de && 0 <= ps && 0 <= ds && pat[ps] != double_star() {
        lemma_seg_match_gathers_nothing(cs, pat[ps], dirs[ds]);
        lemma_fwd_none(cs, pat, dirs, ps + 1, pe, ds + 1, de);
    }
}

proof fn lemma_bwd_none(cs: bool, pat: Seq<Seq<char>>, dirs: Seq<Seq<char>>, ps: int, pe: int, ds: int, de: int)
    ensures
        bwd(cs, pat, dirs, ps, pe, ds, de, None) matches Ok((_, v)) ==> v is None,
    decreases pe - ps,
{
    if ps < pe && ds < de && 0 <= ps && 0 <= ds && pat[pe - 1] != double_star() {
        lemma_seg_match_gathers_nothing(cs, pat[pe - 1], dirs[de - 1]);
        lemma_bwd_none(cs, pat, dirs, ps, pe - 1, ds, de - 1);
    }
}

proof fn lemma_try_block_none(cs: bool, pat: Seq<Seq<char>>, dirs: Seq<Seq<char>>, ps: int, at: int, j: int, len: int)
    ensures
        try_block(cs, pat, dirs, ps, at, j, len, None) matches Ok((_, v)) ==> v is None,
    decreases len - j,
{
    if !(j >= len || j < 0) {
        lemma_seg_match_gathers_nothing(cs, pat[ps + 1 + j], dirs[at + j]);
        lemma_try_block_none(cs, pat, dirs, ps, at, j + 1, len);
    }
}

proof fn lemma_search_none(cs: bool, pat: Seq<Seq<char>>, dirs: Seq<Seq<char>>, ps: int, len: int, ds: int, i: int, last: int)
    ensures
        search(cs, pat, dirs, ps, len, ds, i, last, None) matches Ok((_, v)) ==> v is None,
    decreases last + 1 - i,
{
    if !(i > last || i < 0) {
        lemma_try_block_none(cs, pat, dirs, ps, ds + i, 0, len);
        lemma_search_none(cs, pat, dirs, ps, len, ds, i + 1, last);
    }
}

proof fn lemma_middle_none(cs: bool, pat: Seq<Seq<char>>, dirs: Seq<Seq<char>>, ps: int, pe: int, ds: int, de: int)
    ensures
        middle(cs, pat, dirs, ps, pe, ds, de, None) matches Ok((_, v)) ==> v is None,
    decreases pe - ps,
{
    if ps != pe - 1 && ds < de {
        let tmp = first_double_star(pat, ps + 1, pe);
        if !(tmp <= ps || tmp >= pe || ps < 0 || pe > pat.len()) {
            if tmp == ps + 1 {
                lemma_middle_none(cs, pat, dirs, ps + 1, pe, ds, de);
            } else {
                let len = tmp - ps - 1;
                lemma_search_none(cs, pat, dirs, ps, len, ds, 0, de - ds - len);
                if let Ok((found, v)) = search(cs, pat, dirs, ps, len, ds, 0, de - ds - len, None) {
                    if found >= 0 {
                        lemma_middle_none(cs, pat, dirs, tmp, pe, found + len, de);
                    }
                }
            }
        }
    }
}

/// Matching without gathering variables (`match_`, `match_start`) gathers none.
pub proof fn law_match_gathers_nothing(cfg: MatcherConfig, pattern: Seq<char>, path: Seq<char>, full_path: bool)
    ensures
        do_match_spec(cfg, pattern, path, full_path, None) matches Ok((_, v)) ==> v is None,
{
    let pat = pattern_tokens(cfg, pattern);
    let dirs = tokenize_spec(path, cfg.path_separator, cfg.trim_tokens);
    let cs = cfg.case_sensitive;
    lemma_fwd_none(cs, pat, dirs, 0, pat.len() as int, 0, dirs.len() as int);
    if let Ok((Step::At(ps, ds), v)) = fwd(cs, pat, dirs, 0, pat.len() as int, 0, dirs.len() as int, None) {
        lemma_bwd_none(cs, pat, dirs, ps, pat.len() as int, ds, dirs.len() as int);
        if let Ok((Step::At(pe, de), v2)) = bwd(cs, pat, dirs, ps, pat.len() as int, ds, dirs.len() as int, None) {
            lemma_middle_none(cs, pat, dirs, ps, pe, ds, de);
        }
    }
}

// ---------------------------------------------------------------------------
// The caches
// ---------------------------------------------------------------------------

/// Asking for a pattern's tokens or a segment's matcher keeps the caches
/// finite, empty once caching is off, and within the threshold while caching
/// is undecided; caching that is on or off stays so, and undecided caching
/// only ever turns off, emptying both caches as it does.
pub proof fn law_cache_steps(st: CacheState, pattern: Seq<char>)
    requires
        cache_invariant(st),
    ensures
        cache_invariant(tokenize_step(st, pattern)),
        cache_invariant(matcher_step(st, pattern)),
        cache_invariant(deactivated(st)),
        st.cfg.cache_patterns is Some ==> tokenize_step(st, pattern).cfg == st.cfg && matcher_step(st, pattern).cfg == st.cfg,
        tokenize_step(st, pattern).cfg == st.cfg || tokenize_step(st, pattern) == deactivated(st),
        matcher_step(st, pattern).cfg == st.cfg || matcher_step(st, pattern) == deactivated(st),
        st.cfg.cache_patterns == Some(false) ==> tokenize_step(st, pattern) == st && matcher_step(st, pattern) == st,
{
    assert(Set::<Seq<char>>::empty().len() == 0);
    if caching(st.cfg) && !st.tokenized.contains(pattern) {
        assert(st.tokenized.insert(pattern).len() == st.tokenized.len() + 1);
    }
    if caching(st.cfg) && !st.matchers.contains(pattern) {
        assert(st.matchers.insert(pattern).len() == st.matchers.len() + 1);
    }
}

// ---------------------------------------------------------------------------
// Gathering variables does not change the answer
// ---------------------------------------------------------------------------

/// A segment match that gathers variables, where it succeeds, keeps gathering
/// and gives the answer that the same match without gathering gives.
pub proof fn lemma_seg_match_gathering(cs: bool, pat: Seq<char>, s: Seq<char>, a: Vars)
    requires
        a is Some,
    ensures
        seg_match(cs, pat, s, a) matches Ok((b, v)) ==> v is Some && seg_match(cs, pat, s, None)
            == Ok::<(bool, Vars), MatchError>((b, None)),
{
}

proof fn lemma_fwd_gathering(cs: bool, pat: Seq<Seq<char>>, dirs: Seq<Seq<char>>, ps: int, pe: int, ds: int, de: int, a: Vars)
    requires
        a is Some,
    ensures
        fwd(cs, pat, dirs, ps, pe, ds, de, a) matches Ok((st, v)) ==> v is Some && fwd(cs, pat, dirs, ps, pe, ds, de, None)
            == Ok::<(Step, Vars), MatchError>((st, None)),
    decreases pe - ps,
{
    if ps < pe && ds < de && 0 <= ps && 0 <= ds && pat[ps] != double_star() {
        lemma_seg_match_gathering(cs, pat[ps], dirs[ds], a);
        if let Ok((true, v)) = seg_match(cs, pat[ps], dirs[ds], a) {
            lemma_fwd_gathering(cs, pat, dirs, ps + 1, pe, ds + 1, de, v);
        }
    }
}

proof fn lemma_bwd_gathering(cs: bool, pat: Seq<Seq<char>>, dirs: Seq<Seq<char>>, ps: int, pe: int, ds: int, de: int, a: Vars)
    requires
        a is Some,
    ensures
        bwd(cs, pat, dirs, ps, pe, ds, de, a) matches Ok((st, v)) ==> v is Some && bwd(cs, pat, dirs, ps, pe, ds, de, None)
            == Ok::<(Step, Vars), MatchError>((st, None)),
    decreases pe - ps,
{
    if ps < pe && ds < de && 0 <= ps && 0 <= ds && pat[pe - 1] != double_star() {
        lemma_seg_match_gathering(cs, pat[pe - 1], dirs[de - 1], a);
        if let Ok((true, v)) = seg_match(cs, pat[pe - 1], dirs[de - 1], a) {
            lemma_bwd_gathering(cs, pat, dirs, ps, pe - 1, ds, de - 1, v);
        }
    }
}

proof fn lemma_try_block_gathering(cs: bool, pat: Seq<Seq<char>>, dirs: Seq<Seq<char>>, ps: int, at: int, j: int, len: int, a: Vars)
    requires
        a is Some,
    ensures
        try_block(cs, pat, dirs, ps, at, j, len, a) matches Ok((b, v)) ==> v is Some && try_block(cs, pat, dirs, ps, at, j, len, None)
            == Ok::<(bool, Vars), MatchError>((b, None)),
    decreases len - j,
{
    if !(j >= len || j < 0) {
        lemma_seg_match_gathering(cs, pat[ps + 1 + j], dirs[at + j], a);
        if let Ok((true, v)) = seg_match(cs, pat[ps + 1 + j], dirs[at + j], a) {
            lemma_try_block_gathering(cs, pat, dirs, ps, at, j + 1, len, v);
        }
    }
}

proof fn lemma_search_gathering(cs: bool, pat: Seq<Seq<char>>, dirs: Seq<Seq<char>>, ps: int, len: int, ds: int, i: int, last: int, a: Vars)
    requires
        a is Some,
    ensures
        search(cs, pat, dirs, ps, len, ds, i, last, a) matches Ok((f, v)) ==> v is Some && search(cs, pat, dirs, ps, len, ds, i, last, None)
            == Ok::<(int, Vars), MatchError>((f, None)),
    decreases last + 1 - i,
{
    if !(i > last || i < 0) {
        lemma_try_block_gathering(cs, pat, dirs, ps, ds + i, 0, len, a);
        if let Ok((false, v)) = try_block(cs, pat, dirs, ps, ds + i, 0, len, a) {
            lemma_search_gathering(cs, pat, dirs, ps, len, ds, i + 1, last, v);
        }
    }
}

proof fn lemma_middle_gathering(cs: bool, pat: Seq<Seq<char>>, dirs: Seq<Seq<char>>, ps: int, pe: int, ds: int, de: int, a: Vars)
    requires
        a is Some,
    ensures
        middle(cs, pat, dirs, ps, pe, ds, de, a) matches Ok((b, v)) ==> v is Some && middle(cs, pat, dirs, ps, pe, ds, de, None)
            == Ok::<(bool, Vars), MatchError>((b, None)),
    decreases pe - ps,
{
    if ps != pe - 1 && ds < de {
        let tmp = first_double_star(pat, ps + 1, pe);
        if !(tmp <= ps || tmp >= pe || ps < 0 || pe > pat.len()) {
            if tmp == ps + 1 {
                lemma_middle_gathering(cs, pat, dirs, ps + 1, pe, ds, de, a);
            } else {
                let len = tmp - ps - 1;
                lemma_search_gathering(cs, pat, dirs, ps, len, ds, 0, de - ds - len, a);
                if let Ok((found, v)) = search(cs, pat, dirs, ps, len, ds, 0, de - ds - len, a) {
                    if found >= 0 {
                        lemma_middle_gathering(cs, pat, dirs, tmp, pe, found + len, de, v);
                    }
                }
            }
        }
    }
}

/// Gathering template variables never changes whether a path matches: where
/// a match that gathers variables answers, the same match without gathering
/// gives the same answer (and gathers nothing).
pub proof fn law_gathering_keeps_the_answer(
    cfg: MatcherConfig,
    pattern: Seq<char>,
    path: Seq<char>,
    full_path: bool,
    vars: Map<Seq<char>, Seq<char>>,
)
    ensures
        do_match_spec(cfg, pattern, path, full_path, Some(vars)) matches Ok((b, _))
            ==> do_match_spec(cfg, pattern, path, full_path, None) == Ok::<(bool, Vars), MatchError>((b, None)),
{
    let pat = pattern_tokens(cfg, pattern);
    let dirs = tokenize_spec(path, cfg.path_separator, cfg.trim_tokens);
    let cs = cfg.case_sensitive;
    let a: Vars = Some(vars);
    lemma_fwd_gathering(cs, pat, dirs, 0, pat.len() as int, 0, dirs.len() as int, a);
    if let Ok((Step::At(ps, ds), v)) = fwd(cs, pat, dirs, 0, pat.len() as int, 0, dirs.len() as int, a) {
        lemma_bwd_gathering(cs, pat, dirs, ps, pat.len() as int, ds, dirs.len() as int, v);
        if let Ok((Step::At(pe, de), v2)) = bwd(cs, pat, dirs, ps, pat.len() as int, ds, dirs.len() as int, v) {
            lemma_middle_gathering(cs, pat, dirs, ps, pe, ds, de, v2);
        }
    }
}

/// Where the template variables of a path can be extracted, the path is a
/// full match of the pattern.
pub proof fn law_extracted_variables_imply_match(cfg: MatcherConfig, pattern: Seq<char>, path: Seq<char>)
    ensures
        extract_variables_spec(cfg, pattern, path) is Ok
            ==> do_match_spec(cfg, pattern, path, true, None) == Ok::<(bool, Vars), MatchError>((true, None)),
{
    law_gathering_keeps_the_answer(cfg, pattern, path, true, Map::empty());
}

// ---------------------------------------------------------------------------
// What a full match means
// ---------------------------------------------------------------------------

/// Pattern segment `i` matches path segment `j`, gathering no variables.
pub open spec fn seg_ok(cs: bool, pat: Seq<Seq<char>>, dirs: Seq<Seq<char>>, i: int, j: int) -> bool {
    seg_match(cs, pat[i], dirs[j], None) matches Ok((true, _))
}

/// The `n` pattern segments from `i` match the `n` path segments from `j`, pair by pair.
pub open spec fn pairs_ok(cs: bool, pat: Seq<Seq<char>>, dirs: Seq<Seq<char>>, i: int, j: int, n: int) -> bool
    decreases n,
{
    if n <= 0 {
        true
    } else {
        seg_ok(cs, pat, dirs, i, j) && pairs_ok(cs, pat, dirs, i + 1, j + 1, n - 1)
    }
}

/// No pattern segment in `from..to` is `**`.
pub open spec fn no_double_star(pat: Seq<Seq<char>>, from: int, to: int) -> bool {
    forall|k: int| from <= k < to ==> #[trigger] pat[k] != double_star()
}

/// Ant-style matching of pattern segments `i..pe` against path segments
/// `j..de`: `**` stands for any number of path segments (none included),
/// any other pattern segment for exactly one path segment that it matches.
pub open spec fn ant_match(cs: bool, pat: Seq<Seq<char>>, dirs: Seq<Seq<char>>, i: int, pe: int, j: int, de: int) -> bool
    decreases pe - i, de - j,
{
    if i >= pe {
        j >= de
    } else if pat[i] == double_star() {
        ant_match(cs, pat, dirs, i + 1, pe, j, de) || (j < de && ant_match(cs, pat, dirs, i, pe, j + 1, de))
    } else {
        j < de && seg_ok(cs, pat, dirs, i, j) && ant_match(cs, pat, dirs, i + 1, pe, j + 1, de)
    }
}

/// Matching `n` literal-or-wildcard segments (no `**`) from the front is
/// matching them pair by pair and then the rest.
proof fn lemma_ant_prefix(cs: bool, pat: Seq<Seq<char>>, dirs: Seq<Seq<char>>, i: int, pe: int, j: int, de: int, n: int)
    requires
        0 <= n,
        0 <= i,
        j <= de,
        i + n <= pe,
        no_double_star(pat, i, i + n),
    ensures
        ant_match(cs, pat, dirs, i, pe, j, de) == (j + n <= de && pairs_ok(cs, pat, dirs, i, j, n)
            && ant_match(cs, pat, dirs, i + n, pe, j + n, de)),
    decreases n,
{
    if n > 0 {
        assert(pat[i] != double_star());
        if j < de {
            lemma_ant_prefix(cs, pat, dirs, i + 1, pe, j + 1, de, n - 1);
        }
    }
}

/// With no path segment left, what remains of the pattern matches exactly
/// when it is all `**`.
proof fn lemma_ant_empty_path(cs: bool, pat: Seq<Seq<char>>, dirs: Seq<Seq<char>>, i: int, pe: int, j: int, de: int)
    requires
        j >= de,
    ensures
        ant_match(cs, pat, dirs, i, pe, j, de) == all_double_star(pat, i, pe),
    decreases pe - i,
{
    if i < pe {
        lemma_ant_empty_path(cs, pat, dirs, i + 1, pe, j, de);
        if pat[i] != double_star() {
            assert(!all_double_star(pat, i, pe));
        } else if !all_double_star(pat, i, pe) {
            let k = choose|k: int| i <= k < pe && pat[k] != double_star();
            assert(i + 1 <= k);
        }
    }
}

/// `**` absorbs any number of path segments: it matches from `j` exactly
/// when the rest matches from some `k` with `j <= k <= de`.
proof fn lemma_ant_star_absorbs(cs: bool, pat: Seq<Seq<char>>, dirs: Seq<Seq<char>>, i: int, pe: int, j: int, de: int)
    requires
        0 <= i < pe,
        j <= de,
        pat[i] == double_star(),
    ensures
        ant_match(cs, pat, dirs, i, pe, j, de) == exists|k: int| j <= k <= de && #[trigger] ant_match(cs, pat, dirs, i + 1, pe, k, de),
    decreases de - j,
{
    assert(ant_match(cs, pat, dirs, i, pe, j, de) == (ant_match(cs, pat, dirs, i + 1, pe, j, de) || (j < de && ant_match(cs, pat, dirs, i, pe, j + 1, de))));
    if j < de {
        lemma_ant_star_absorbs(cs, pat, dirs, i, pe, j + 1, de);
        if exists|k: int| j <= k <= de && #[trigger] ant_match(cs, pat, dirs, i + 1, pe, k, de) {
            let k = choose|k: int| j <= k <= de && #[trigger] ant_match(cs, pat, dirs, i + 1, pe, k, de);
            if k > j {
                assert(j + 1 <= k <= de && ant_match(cs, pat, dirs, i + 1, pe, k, de));
            }
        }
        if ant_match(cs, pat, dirs, i, pe, j + 1, de) {
            let k = choose|k: int| j + 1 <= k <= de && #[trigger] ant_match(cs, pat, dirs, i + 1, pe, k, de);
            assert(j <= k <= de);
        }
    } else {
        if exists|k: int| j <= k <= de && #[trigger] ant_match(cs, pat, dirs, i + 1, pe, k, de) {
            let k = choose|k: int| j <= k <= de && #[trigger] ant_match(cs, pat, dirs, i + 1, pe, k, de);
            assert(k == j);
        }
    }
}

/// A last pattern segment that is not `**` must match the last path segment.
proof fn lemma_ant_back(cs: bool, pat: Seq<Seq<char>>, dirs: Seq<Seq<char>>, i: int, pe: int, j: int, de: int)
    requires
        0 <= i <= pe - 1,
        j <= de,
        pat[pe - 1] != double_star(),
    ensures
        ant_match(cs, pat, dirs, i, pe, j, de) == (j < de && ant_match(cs, pat, dirs, i, pe - 1, j, de - 1)
            && seg_ok(cs, pat, dirs, pe - 1, de - 1)),
    decreases pe - i, de - j,
{
    if i == pe - 1 {
        assert(ant_match(cs, pat, dirs, pe, pe, j + 1, de) == (j + 1 >= de));
        assert(ant_match(cs, pat, dirs, pe - 1, pe - 1, j, de - 1) == (j >= de - 1));
    } else if pat[i] == double_star() {
        lemma_ant_back(cs, pat, dirs, i + 1, pe, j, de);
        if j < de {
            lemma_ant_back(cs, pat, dirs, i, pe, j + 1, de);
        }
    } else {
        if j < de {
            lemma_ant_back(cs, pat, dirs, i + 1, pe, j + 1, de);
        }
    }
}

/// Two `**` in a row match what one does.
proof fn lemma_ant_collapse(cs: bool, pat: Seq<Seq<char>>, dirs: Seq<Seq<char>>, i: int, pe: int, j: int, de: int)
    requires
        0 <= i,
        i + 1 < pe,
        j <= de,
        pat[i] == double_star(),
        pat[i + 1] == double_star(),
    ensures
        ant_match(cs, pat, dirs, i, pe, j, de) == ant_match(cs, pat, dirs, i + 1, pe, j, de),
{
    lemma_ant_star_absorbs(cs, pat, dirs, i, pe, j, de);
    lemma_ant_star_absorbs(cs, pat, dirs, i + 1, pe, j, de);
    if ant_match(cs, pat, dirs, i, pe, j, de) {
        let k = choose|k: int| j <= k <= de && #[trigger] ant_match(cs, pat, dirs, i + 1, pe, k, de);
        lemma_ant_star_absorbs(cs, pat, dirs, i + 1, pe, k, de);
        let m = choose|m: int| k <= m <= de && #[trigger] ant_match(cs, pat, dirs, i + 2, pe, m, de);
        assert(j <= m <= de && ant_match(cs, pat, dirs, i + 2, pe, m, de));
    }
}

/// Past a `**`, starting further left never hurts.
proof fn lemma_ant_monotone(cs: bool, pat: Seq<Seq<char>>, dirs: Seq<Seq<char>>, t: int, pe: int, k: int, m: int, de: int)
    requires
        0 <= t < pe,
        pat[t] == double_star(),
        k <= m <= de,
        ant_match(cs, pat, dirs, t, pe, m, de),
    ensures
        ant_match(cs, pat, dirs, t, pe, k, de),
{
    lemma_ant_star_absorbs(cs, pat, dirs, t, pe, m, de);
    lemma_ant_star_absorbs(cs, pat, dirs, t, pe, k, de);
    let q = choose|q: int| m <= q <= de && #[trigger] ant_match(cs, pat, dirs, t + 1, pe, q, de);
    assert(k <= q <= de && ant_match(cs, pat, dirs, t + 1, pe, q, de));
}

/// A run of `**` matches any path segments.
proof fn lemma_ant_all_star(cs: bool, pat: Seq<Seq<char>>, dirs: Seq<Seq<char>>, i: int, pe: int, j: int, de: int)
    requires
        0 <= i < pe,
        j <= de,
        all_double_star(pat, i, pe),
    ensures
        ant_match(cs, pat, dirs, i, pe, j, de),
{
    lemma_ant_star_absorbs(cs, pat, dirs, i, pe, j, de);
    lemma_ant_empty_path(cs, pat, dirs, i + 1, pe, de, de);
    assert(all_double_star(pat, i + 1, pe));
    assert(j <= de <= de && ant_match(cs, pat, dirs, i + 1, pe, de, de));
}

proof fn lemma_pairs_ok_shorter(cs: bool, pat: Seq<Seq<char>>, dirs: Seq<Seq<char>>, i: int, j: int, n: int, m: int)
    requires
        0 <= n <= m,
        pairs_ok(cs, pat, dirs, i, j, m),
    ensures
        pairs_ok(cs, pat, dirs, i, j, n),
    decreases n,
{
    if n > 0 {
        lemma_pairs_ok_shorter(cs, pat, dirs, i + 1, j + 1, n - 1, m - 1);
    }
}

/// The forward phase fails at pair `n`: the first `n` pairs match, pair `n`
/// does not, and none of these pattern segments is `**`.
pub open spec fn fails_at(cs: bool, pat: Seq<Seq<char>>, dirs: Seq<Seq<char>>, ps: int, pe: int, ds: int, de: int, n: int) -> bool {
    &&& 0 <= n
    &&& ps + n < pe
    &&& ds + n < de
    &&& no_double_star(pat, ps, ps + n + 1)
    &&& pairs_ok(cs, pat, dirs, ps, ds, n)
    &&& !seg_ok(cs, pat, dirs, ps + n, ds + n)
}

proof fn lemma_fwd_meaning(cs: bool, pat: Seq<Seq<char>>, dirs: Seq<Seq<char>>, ps: int, pe: int, ds: int, de: int)
    requires
        0 <= ps <= pe <= pat.len(),
        0 <= ds <= de <= dirs.len(),
    ensures
        fwd(cs, pat, dirs, ps, pe, ds, de, None) matches Ok((Step::At(a, c), _)) ==> {
            &&& ps <= a <= pe
            &&& ds <= c <= de
            &&& a - ps == c - ds
            &&& pairs_ok(cs, pat, dirs, ps, ds, a - ps)
            &&& no_double_star(pat, ps, a)
            &&& (a < pe && c < de ==> pat[a] == double_star())
        },
        fwd(cs, pat, dirs, ps, pe, ds, de, None) matches Ok((Step::Done(b), _)) ==> !b && exists|n: int| #[trigger] fails_at(cs, pat, dirs, ps, pe, ds, de, n),
    decreases pe - ps,
{
    if ps < pe && ds < de && pat[ps] != double_star() {
        lemma_seg_match_gathers_nothing(cs, pat[ps], dirs[ds]);
        match seg_match(cs, pat[ps], dirs[ds], None) {
            Ok((true, v)) => {
                lemma_fwd_meaning(cs, pat, dirs, ps + 1, pe, ds + 1, de);
                if let Ok((Step::Done(b), _)) = fwd(cs, pat, dirs, ps + 1, pe, ds + 1, de, None) {
                    let n = choose|n: int| #[trigger] fails_at(cs, pat, dirs, ps + 1, pe, ds + 1, de, n);
                    assert(fails_at(cs, pat, dirs, ps, pe, ds, de, n + 1));
                }
            },
            Ok((false, _)) => {
                assert(fails_at(cs, pat, dirs, ps, pe, ds, de, 0));
            },
            Err(_) => {},
        }
    }
}

proof fn lemma_bwd_meaning(cs: bool, pat: Seq<Seq<char>>, dirs: Seq<Seq<char>>, ps: int, pe: int, ds: int, de: int)
    requires
        0 <= ps < pe <= pat.len(),
        pat[ps] == double_star(),
        0 <= ds <= de <= dirs.len(),
    ensures
        bwd(cs, pat, dirs, ps, pe, ds, de, None) matches Ok((Step::Done(b), _)) ==> !b && !ant_match(cs, pat, dirs, ps, pe, ds, de),
        bwd(cs, pat, dirs, ps, pe, ds, de, None) matches Ok((Step::At(pe2, de2), _)) ==> {
            &&& ps < pe2 <= pe
            &&& ds <= de2 <= de
            &&& (ds < de2 ==> pat[pe2 - 1] == double_star())
            &&& ant_match(cs, pat, dirs, ps, pe, ds, de) == ant_match(cs, pat, dirs, ps, pe2, ds, de2)
        },
    decreases pe - ps,
{
    if ps < pe && ds < de && pat[pe - 1] != double_star() {
        lemma_seg_match_gathers_nothing(cs, pat[pe - 1], dirs[de - 1]);
        lemma_ant_back(cs, pat, dirs, ps, pe, ds, de);
        match seg_match(cs, pat[pe - 1], dirs[de - 1], None) {
            Ok((true, v)) => {
                lemma_bwd_meaning(cs, pat, dirs, ps, pe - 1, ds, de - 1);
            },
            _ => {},
        }
    }
}

proof fn lemma_try_block_meaning(cs: bool, pat: Seq<Seq<char>>, dirs: Seq<Seq<char>>, ps: int, at: int, j: int, len: int)
    requires
        0 <= j <= len,
    ensures
        try_block(cs, pat, dirs, ps, at, j, len, None) matches Ok((b, _)) ==> b == pairs_ok(
            cs,
            pat,
            dirs,
            ps + 1 + j,
            at + j,
            len - j,
        ),
    decreases len - j,
{
    if j < len {
        lemma_seg_match_gathers_nothing(cs, pat[ps + 1 + j], dirs[at + j]);
        lemma_try_block_meaning(cs, pat, dirs, ps, at, j + 1, len);
    }
}

/// The block of `len` pattern segments after `ps` fits at path segment `ds + i`.
pub open spec fn block_fits(cs: bool, pat: Seq<Seq<char>>, dirs: Seq<Seq<char>>, ps: int, len: int, ds: int, i: int) -> bool {
    pairs_ok(cs, pat, dirs, ps + 1, ds + i, len)
}

proof fn lemma_search_meaning(cs: bool, pat: Seq<Seq<char>>, dirs: Seq<Seq<char>>, ps: int, len: int, ds: int, i: int, last: int)
    requires
        0 <= i,
        0 <= len,
        0 <= ds,
    ensures
        search(cs, pat, dirs, ps, len, ds, i, last, None) matches Ok((f, _)) ==> if f < 0 {
            forall|q: int| i <= q <= last ==> !#[trigger] block_fits(cs, pat, dirs, ps, len, ds, q)
        } else {
            &&& i <= f - ds <= last
            &&& block_fits(cs, pat, dirs, ps, len, ds, f - ds)
            &&& forall|q: int| i <= q < f - ds ==> !#[trigger] block_fits(cs, pat, dirs, ps, len, ds, q)
        },
    decreases last + 1 - i,
{
    if i <= last {
        lemma_try_block_meaning(cs, pat, dirs, ps, ds + i, 0, len);
        lemma_try_block_none(cs, pat, dirs, ps, ds + i, 0, len);
        lemma_search_meaning(cs, pat, dirs, ps, len, ds, i + 1, last);
        if let Ok((false, _)) = try_block(cs, pat, dirs, ps, ds + i, 0, len, None) {
            assert(!block_fits(cs, pat, dirs, ps, len, ds, i));
        }
    }
}

proof fn lemma_first_double_star(pat: Seq<Seq<char>>, from: int, to: int, t: int)
    requires
        0 <= from <= t < to,
        pat[t] == double_star(),
    ensures
        from <= first_double_star(pat, from, to) <= t,
        pat[first_double_star(pat, from, to)] == double_star(),
        no_double_star(pat, from, first_double_star(pat, from, to)),
    decreases to - from,
{
    if pat[from] != double_star() {
        lemma_first_double_star(pat, from + 1, to, t);
    }
}

proof fn lemma_middle_meaning(cs: bool, pat: Seq<Seq<char>>, dirs: Seq<Seq<char>>, ps: int, pe: int, ds: int, de: int)
    requires
        0 <= ps < pe <= pat.len(),
        pat[ps] == double_star(),
        pat[pe - 1] == double_star(),
        0 <= ds <= de <= dirs.len(),
    ensures
        middle(cs, pat, dirs, ps, pe, ds, de, None) matches Ok((b, _)) ==> b == ant_match(cs, pat, dirs, ps, pe, ds, de),
    decreases pe - ps,
{
    if ps != pe - 1 && ds < de {
        lemma_first_double_star(pat, ps + 1, pe, pe - 1);
        let tmp = first_double_star(pat, ps + 1, pe);
        if tmp == ps + 1 {
            lemma_middle_meaning(cs, pat, dirs, ps + 1, pe, ds, de);
            lemma_ant_collapse(cs, pat, dirs, ps, pe, ds, de);
        } else {
            let len = tmp - ps - 1;
            let last = de - ds - len;
            lemma_search_meaning(cs, pat, dirs, ps, len, ds, 0, last);
            lemma_search_none(cs, pat, dirs, ps, len, ds, 0, last);
            lemma_ant_star_absorbs(cs, pat, dirs, ps, pe, ds, de);
            if let Ok((f, _)) = search(cs, pat, dirs, ps, len, ds, 0, last, None) {
                if f < 0 {
                    if ant_match(cs, pat, dirs, ps, pe, ds, de) {
                        let k = choose|k: int| ds <= k <= de && #[trigger] ant_match(cs, pat, dirs, ps + 1, pe, k, de);
                        lemma_ant_prefix(cs, pat, dirs, ps + 1, pe, k, de, len);
                        assert(!block_fits(cs, pat, dirs, ps, len, ds, k - ds));
                    }
                } else {
                    lemma_middle_meaning(cs, pat, dirs, tmp, pe, f + len, de);
                    lemma_ant_prefix(cs, pat, dirs, ps + 1, pe, f, de, len);
                    if ant_match(cs, pat, dirs, tmp, pe, f + len, de) {
                        assert(ds <= f <= de && ant_match(cs, pat, dirs, ps + 1, pe, f, de));
                    }
                    if ant_match(cs, pat, dirs, ps, pe, ds, de) {
                        let k = choose|k: int| ds <= k <= de && #[trigger] ant_match(cs, pat, dirs, ps + 1, pe, k, de);
                        lemma_ant_prefix(cs, pat, dirs, ps + 1, pe, k, de, len);
                        if k < f {
                            assert(!block_fits(cs, pat, dirs, ps, len, ds, k - ds));
                        }
                        lemma_ant_monotone(cs, pat, dirs, tmp, pe, f + len, k + len, de);
                    }
                }
            }
        }
    } else if ps == pe - 1 {
        lemma_ant_all_star(cs, pat, dirs, ps, pe, ds, de);
    } else {
        lemma_ant_empty_path(cs, pat, dirs, ps, pe, ds, de);
    }
}

/// Whether some pattern segment is `**`.
pub open spec fn has_double_star(pat: Seq<Seq<char>>) -> bool {
    exists|k: int| 0 <= k < pat.len() && pat[k] == double_star()
}

/// What a full match of the path segments `dirs` against the pattern
/// segments `pat` answers. With a `**` somewhere, Ant-style matching. With
/// none, the segments must match pair by pair and then either both run out
/// together, and pattern and path agree on ending with the separator, or the
/// pattern has one more segment, `*`, and the path ends with the separator.
pub open spec fn full_match_meaning(
    cfg: MatcherConfig,
    pattern: Seq<char>,
    path: Seq<char>,
    pat: Seq<Seq<char>>,
    dirs: Seq<Seq<char>>,
) -> bool {
    let cs = cfg.case_sensitive;
    let sep = cfg.path_separator;
    if has_double_star(pat) {
        ant_match(cs, pat, dirs, 0, pat.len() as int, 0, dirs.len() as int)
    } else {
        ||| (pat.len() == dirs.len() && pairs_ok(cs, pat, dirs, 0, 0, pat.len() as int) && (
        sep.is_suffix_of(pattern) == sep.is_suffix_of(path)))
        ||| (pat.len() == dirs.len() + 1 && pairs_ok(cs, pat, dirs, 0, 0, dirs.len() as int)
            && pat.last() == seq!['*'] && sep.is_suffix_of(path))
    }
}

proof fn lemma_walk_meaning(cfg: MatcherConfig, pattern: Seq<char>, path: Seq<char>, pat: Seq<Seq<char>>, dirs: Seq<Seq<char>>)
    ensures
        walk(cfg, pattern, path, true, pat, dirs, None) matches Ok((b, _)) ==> b == full_match_meaning(
            cfg,
            pattern,
            path,
            pat,
            dirs,
        ),
{
    let cs = cfg.case_sensitive;
    let pn = pat.len() as int;
    let dn = dirs.len() as int;
    lemma_fwd_meaning(cs, pat, dirs, 0, pn, 0, dn);
    lemma_fwd_none(cs, pat, dirs, 0, pn, 0, dn);
    match fwd(cs, pat, dirs, 0, pn, 0, dn, None) {
        Ok((Step::Done(b), _)) => {
            let n = choose|n: int| #[trigger] fails_at(cs, pat, dirs, 0, pn, 0, dn, n);
            assert(!pairs_ok(cs, pat, dirs, 0, 0, n + 1)) by {
                lemma_pairs_ok_prefix_fails(cs, pat, dirs, 0, 0, n);
            }
            if has_double_star(pat) {
                lemma_ant_prefix(cs, pat, dirs, 0, pn, 0, dn, n + 1);
            } else {
                if pairs_ok(cs, pat, dirs, 0, 0, pn) {
                    lemma_pairs_ok_shorter(cs, pat, dirs, 0, 0, n + 1, pn);
                }
                if pairs_ok(cs, pat, dirs, 0, 0, dn) {
                    lemma_pairs_ok_shorter(cs, pat, dirs, 0, 0, n + 1, dn);
                }
            }
        },
        Ok((Step::At(a, c), _)) => {
            if c >= dn {
                if a >= pn {
                    assert(!has_double_star(pat));
                } else if a == pn - 1 && pat[a] == seq!['*'] && cfg.path_separator.is_suffix_of(path) {
                    assert(pat[a] != double_star()) by {
                        assert(pat[a].len() == 1);
                    }
                    assert(!has_double_star(pat));
                    assert(pat.last() == pat[a]);
                } else {
                    if has_double_star(pat) {
                        lemma_ant_prefix(cs, pat, dirs, 0, pn, 0, dn, a);
                        lemma_ant_empty_path(cs, pat, dirs, a, pn, c, dn);
                    } else {
                        assert(!all_double_star(pat, a, pn)) by {
                            assert(pat[a] != double_star());
                        }
                    }
                }
            } else if a >= pn {
                assert(!has_double_star(pat));
            } else {
                assert(has_double_star(pat));
                lemma_ant_prefix(cs, pat, dirs, 0, pn, 0, dn, a);
                lemma_bwd_meaning(cs, pat, dirs, a, pn, c, dn);
                lemma_bwd_none(cs, pat, dirs, a, pn, c, dn);
                if let Ok((Step::At(pe, de), _)) = bwd(cs, pat, dirs, a, pn, c, dn, None) {
                    if c >= de {
                        lemma_ant_empty_path(cs, pat, dirs, a, pe, c, de);
                    } else {
                        lemma_middle_meaning(cs, pat, dirs, a, pe, c, de);
                    }
                }
            }
        },
        Err(_) => {},
    }
}

proof fn lemma_pairs_ok_prefix_fails(cs: bool, pat: Seq<Seq<char>>, dirs: Seq<Seq<char>>, i: int, j: int, n: int)
    requires
        0 <= n,
        !seg_ok(cs, pat, dirs, i + n, j + n),
    ensures
        !pairs_ok(cs, pat, dirs, i, j, n + 1),
    decreases n,
{
    if n > 0 {
        lemma_pairs_ok_prefix_fails(cs, pat, dirs, i + 1, j + 1, n - 1);
    }
}

/// What a full match (`match_`) answers, where it answers and its quick test
/// lets the pair through: false when pattern and path disagree on starting
/// with the separator, else `full_match_meaning` of their segments (Ant-style
/// matching as soon as the pattern has a `**`).
pub proof fn law_full_match_meaning(cfg: MatcherConfig, pattern: Seq<char>, path: Seq<char>)
    requires
        do_match_spec(cfg, pattern, path, true, None) is Ok,
        cfg.case_sensitive ==> potential_match_spec(cfg, path, pattern_tokens(cfg, pattern)) == Ok::<bool, MatchError>(true),
    ensures
        do_match_spec(cfg, pattern, path, true, None)->Ok_0.0 == (cfg.path_separator.is_prefix_of(path)
            == cfg.path_separator.is_prefix_of(pattern) && full_match_meaning(
            cfg,
            pattern,
            path,
            pattern_tokens(cfg, pattern),
            tokenize_spec(path, cfg.path_separator, cfg.trim_tokens),
        )),
{
    lemma_walk_meaning(
        cfg,
        pattern,
        path,
        pattern_tokens(cfg, pattern),
        tokenize_spec(path, cfg.path_separator, cfg.trim_tokens),
    );
}

/// The index of the first `**` among the pattern segments, or their number.
pub open spec fn star_limit(pat: Seq<Seq<char>>) -> int {
    if has_double_star(pat) {
        first_double_star(pat, 0, pat.len() as int)
    } else {
        pat.len() as int
    }
}

/// What a start match (`match_start`) answers for the path segments `dirs`
/// and pattern segments `pat`: the segments before the first `**` match pair
/// by pair as far as the path goes, and either the pattern goes on, or both
/// run out together and pattern and path agree on ending with the separator.
pub open spec fn start_match_meaning(
    cfg: MatcherConfig,
    pattern: Seq<char>,
    path: Seq<char>,
    pat: Seq<Seq<char>>,
    dirs: Seq<Seq<char>>,
) -> bool {
    let k = if star_limit(pat) < dirs.len() {
        star_limit(pat)
    } else {
        dirs.len() as int
    };
    &&& pairs_ok(cfg.case_sensitive, pat, dirs, 0, 0, k)
    &&& (k < pat.len() || (dirs.len() == pat.len() && (cfg.path_separator.is_suffix_of(pattern)
        == cfg.path_separator.is_suffix_of(path))))
}

proof fn lemma_star_limit(pat: Seq<Seq<char>>, a: int)
    requires
        0 <= a <= pat.len(),
        no_double_star(pat, 0, a),
    ensures
        a <= star_limit(pat) <= pat.len(),
        a < pat.len() && pat[a] == double_star() ==> star_limit(pat) == a,
{
    if has_double_star(pat) {
        let t = choose|k: int| 0 <= k < pat.len() && pat[k] == double_star();
        lemma_first_double_star(pat, 0, pat.len() as int, t);
        let f = first_double_star(pat, 0, pat.len() as int);
        if a < pat.len() && pat[a] == double_star() {
            lemma_first_double_star(pat, 0, pat.len() as int, a);
        }
    } else {
        if a < pat.len() && pat[a] == double_star() {
            assert(has_double_star(pat));
        }
    }
}

/// What a start match (`match_start`) answers, where it answers: false when
/// pattern and path disagree on starting with the separator, else
/// `start_match_meaning` of their segments.
pub proof fn law_start_match_meaning(cfg: MatcherConfig, pattern: Seq<char>, path: Seq<char>)
    requires
        do_match_spec(cfg, pattern, path, false, None) is Ok,
    ensures
        do_match_spec(cfg, pattern, path, false, None)->Ok_0.0 == (cfg.path_separator.is_prefix_of(path)
            == cfg.path_separator.is_prefix_of(pattern) && start_match_meaning(
            cfg,
            pattern,
            path,
            pattern_tokens(cfg, pattern),
            tokenize_spec(path, cfg.path_separator, cfg.trim_tokens),
        )),
{
    let pat = pattern_tokens(cfg, pattern);
    let dirs = tokenize_spec(path, cfg.path_separator, cfg.trim_tokens);
    let cs = cfg.case_sensitive;
    let pn = pat.len() as int;
    let dn = dirs.len() as int;
    lemma_fwd_meaning(cs, pat, dirs, 0, pn, 0, dn);
    match fwd(cs, pat, dirs, 0, pn, 0, dn, None) {
        Ok((Step::Done(b), _)) => {
            let n = choose|n: int| #[trigger] fails_at(cs, pat, dirs, 0, pn, 0, dn, n);
            lemma_pairs_ok_prefix_fails(cs, pat, dirs, 0, 0, n);
            lemma_star_limit(pat, n + 1);
            let k = if star_limit(pat) < dn {
                star_limit(pat)
            } else {
                dn
            };
            if pairs_ok(cs, pat, dirs, 0, 0, k) {
                lemma_pairs_ok_shorter(cs, pat, dirs, 0, 0, n + 1, k);
            }
        },
        Ok((Step::At(a, c), _)) => {
            lemma_star_limit(pat, a);
        },
        Err(_) => {},
    }
}

proof fn lemma_extract_from_plain(
    sep: Seq<char>,
    starts: bool,
    pp: Seq<Seq<char>>,
    dp: Seq<Seq<char>>,
    seg: int,
    builder: Seq<char>,
    started: bool,
)
    requires
        0 <= seg,
        forall|k: int| seg <= k < pp.len() ==> !#[trigger] has_wildcard(pp[k]),
    ensures
        extract_from(sep, starts, pp, dp, seg, builder, started) == Ok::<Seq<char>, MatchError>(builder),
    decreases pp.len() - seg,
{
    if seg < pp.len() {
        assert(!has_wildcard(pp[seg]));
        lemma_extract_from_plain(sep, starts, pp, dp, seg + 1, builder, started);
    }
}

/// A pattern with no `*` or `?` in any segment covers nothing of the path:
/// `extract_path_within_pattern` gives the empty string.
pub proof fn law_extract_path_without_wildcards(cfg: MatcherConfig, pattern: Seq<char>, path: Seq<char>)
    requires
        forall|k: int| 0 <= k < tokenize_spec(pattern, cfg.path_separator, cfg.trim_tokens).len()
            ==> !#[trigger] has_wildcard(tokenize_spec(pattern, cfg.path_separator, cfg.trim_tokens)[k]),
    ensures
        extract_path_spec(cfg, pattern, path) == Ok::<Seq<char>, MatchError>(Seq::empty()),
{
    lemma_extract_from_plain(
        cfg.path_separator,
        cfg.path_separator.is_prefix_of(pattern),
        tokenize_spec(pattern, cfg.path_separator, cfg.trim_tokens),
        tokenize_spec(path, cfg.path_separator, cfg.trim_tokens),
        0,
        Seq::empty(),
        false,
    );
}

// ---------------------------------------------------------------------------
// The quick test lets through a segment whose literal prefix the path shows
// ---------------------------------------------------------------------------

proof fn lemma_skip_literal_prefix(path: Seq<char>, blen: int, q: int, t: Seq<char>, n: int, k: int)
    requires
        0 <= k <= n < t.len(),
        0 <= q,
        q + n <= path.len(),
        q + n <= blen,
        t[n] == '*' || t[n] == '?' || t[n] == '{',
        forall|j: int| 0 <= j < n ==> t[j] != '*' && t[j] != '?' && t[j] != '{',
        forall|j: int| 0 <= j < n ==> path[q + j] == t[j],
    ensures
        skip_segment_spec(path, blen, q, t, k, k) == Ok::<int, MatchError>(n),
    decreases n - k,
{
    if k < n {
        lemma_skip_literal_prefix(path, blen, q, t, n, k + 1);
    }
}

/// The quick test run before a case-sensitive full match never rejects at a
/// pattern segment that holds a wildcard and whose literal characters before
/// that wildcard (at least one) stand in the path where the test has got to,
/// after the separators there: it lets the pair through.
pub proof fn law_quick_test_passes_literal_prefix(
    path: Seq<char>,
    sep: Seq<char>,
    pat: Seq<Seq<char>>,
    i: int,
    pos: int,
    sk: int,
    n: int,
)
    requires
        0 <= i < pat.len(),
        0 <= pos,
        0 <= sk,
        skip_separator_spec(encode_utf8(path), encode_utf8(sep), pos, 0) == Ok::<int, MatchError>(sk),
        0 < n < pat[i].len(),
        pat[i][n] == '*' || pat[i][n] == '?' || pat[i][n] == '{',
        forall|j: int| 0 <= j < n ==> pat[i][j] != '*' && pat[i][j] != '?' && pat[i][j] != '{',
        pos + sk + n <= path.len(),
        pos + sk + n <= utf8_len(path),
        forall|j: int| 0 <= j < n ==> path[pos + sk + j] == pat[i][j],
    ensures
        potential_from(path, sep, pat, i, pos) == Ok::<bool, MatchError>(true),
{
    let t = pat[i];
    lemma_skip_literal_prefix(path, utf8_len(path), pos + sk, t, n, 0);
    lemma_encode_len(t);
}

// ---------------------------------------------------------------------------
// `?` segments are wildcard segments for extract_path_within_pattern
// ---------------------------------------------------------------------------

/// For a pattern of one segment holding `*` or `?` and a path of one segment
/// `p`, `extract_path_within_pattern` gives `p`, after the separator when the
/// pattern does not start with the separator.
pub proof fn law_extract_path_single_wildcard_segment(cfg: MatcherConfig, pattern: Seq<char>, path: Seq<char>, t: Seq<char>, p: Seq<char>)
    requires
        tokenize_spec(pattern, cfg.path_separator, cfg.trim_tokens) == seq![t],
        tokenize_spec(path, cfg.path_separator, cfg.trim_tokens) == seq![p],
        t.contains('*') || t.contains('?'),
    ensures
        extract_path_spec(cfg, pattern, path) == Ok::<Seq<char>, MatchError>(
            if cfg.path_separator.is_prefix_of(pattern) {
                p
            } else {
                cfg.path_separator + p
            },
        ),
{
    let sep = cfg.path_separator;
    let lead = !sep.is_prefix_of(pattern);
    let b1 = if lead { Seq::<char>::empty() + sep } else { Seq::<char>::empty() };
    assert(has_wildcard(t));
    assert(seq![t][0] == t);
    assert(seq![p][0] == p);
    assert(extract_repeat(sep, lead, p, 1, 1, b1 + p, true) == (b1 + p, true));
    assert(extract_repeat(sep, lead, p, 1, 0, Seq::empty(), false) == (b1 + p, true));
    assert(extract_from(sep, sep.is_prefix_of(pattern), seq![t], seq![p], 1, b1 + p, true) == Ok::<Seq<char>, MatchError>(b1 + p));
    if lead {
        assert(b1 + p =~= sep + p);
    } else {
        assert(b1 + p =~= p);
    }
}

// ---------------------------------------------------------------------------
// The regex that a pattern segment becomes
// ---------------------------------------------------------------------------

/// The regex text of the wildcard `c`: `.*` (any run of characters, the
/// empty one included) for `*`, `.` (any one character) for `?`.
pub open spec fn wildcard_text(c: char) -> Seq<char> {
    if c == '*' {
        seq!['.', '*']
    } else {
        seq!['.']
    }
}

/// The segment `l1`, a `*` or `?`, then `l2` (characters of one byte each),
/// with the glob scanner finding that one wildcard, becomes the regex made of
/// `l1` with each regex meta character escaped (so that it matches only
/// itself), the wildcard's regex (`.*` for `*`, `.` for `?`), and `l2`
/// escaped; it is no literal matcher and has no variables, and it fails only
/// where that regex does not compile.
pub proof fn law_segment_with_one_wildcard(l1: Seq<char>, c: char, l2: Seq<char>, cs: bool)
    requires
        c == '*' || c == '?',
        utf8_len(l1 + seq![c] + l2) == l1.len() + 1 + l2.len(),
    ensures
        ({
            let pattern = l1 + seq![c] + l2;
            let n = l1.len() as int;
            let raw = escape_spec(l1) + wildcard_text(c) + escape_spec(l2);
            build_from_wildcards(pattern, cs, seq![(n, n + 1, seq![c])]) == if regex_compiles(raw, !cs) {
                Ok::<StringMatcherView, MatchError>(
                    (StringMatcherView {
                        raw_pattern: raw,
                        exact_match: false,
                        case_sensitive: cs,
                        variable_names: Seq::empty(),
                    }),
                )
            } else {
                Err::<StringMatcherView, MatchError>(MatchError::InvalidRegex)
            }
        }),
{
    let pattern = l1 + seq![c] + l2;
    let n = l1.len() as int;
    let m = (n, n + 1, seq![c]);
    assert(seq![m].drop_last() =~= Seq::<(int, int, Seq<char>)>::empty());
    assert(seq![m].last() == m);
    if n > 0 {
        assert(pattern.subrange(0, n) =~= l1);
    }
    assert(quote_spec(pattern, 0, n) == escape_spec(l1));
    if l2.len() > 0 {
        assert(pattern.subrange(n + 1, pattern.len() as int) =~= l2);
    }
    assert(quote_spec(pattern, n + 1, utf8_len(pattern)) == escape_spec(l2));
    if c == '*' {
        assert(seq![c] == seq!['*']);
        assert(seq![c] != seq!['?']) by {
            assert(seq![c][0] != seq!['?'][0]);
        }
    } else {
        assert(seq![c] == seq!['?']);
    }
    assert(glob_fold(pattern, Seq::<(int, int, Seq<char>)>::empty()) == build_start());
    assert(glob_fold(pattern, seq![m]) == glob_piece(pattern, build_start(), m));
    assert(wildcard_regex(seq![c]).0 == wildcard_text(c));
    assert(wildcard_regex(seq![c]).1 is None);
    let st = glob_fold(pattern, seq![m]);
    assert(st.builder =~= Seq::<char>::empty() + escape_spec(l1) + wildcard_text(c));
    assert(st.names =~= Seq::<Seq<char>>::empty());
}

/// The segment `{name}` (a name without braces or `:`), with the glob scanner
/// finding it whole, becomes the regex `((?s).*)`: one group that takes any
/// run of characters, line breaks included, the whole path segment among
/// them; its one variable is `name`, and it fails only where that regex does
/// not compile.
pub proof fn law_segment_single_variable(name: Seq<char>, cs: bool)
    requires
        forall|j: int| 0 <= j < name.len() ==> name[j] != '{' && name[j] != '}' && name[j] != ':',
    ensures
        ({
            let pattern = seq!['{'] + name + seq!['}'];
            let raw = seq!['(', '(', '?', 's', ')', '.', '*', ')'];
            build_from_wildcards(pattern, cs, seq![(0, utf8_len(pattern), pattern)]) == if regex_compiles(raw, !cs) {
                Ok::<StringMatcherView, MatchError>(
                    (StringMatcherView {
                        raw_pattern: raw,
                        exact_match: false,
                        case_sensitive: cs,
                        variable_names: seq![name],
                    }),
                )
            } else {
                Err::<StringMatcherView, MatchError>(MatchError::InvalidRegex)
            }
        }),
{
    let pattern = seq!['{'] + name + seq!['}'];
    let m = (0int, utf8_len(pattern), pattern);
    lemma_braced_name(name);
    lemma_encode_len(pattern);
    assert(seq![m].drop_last() =~= Seq::<(int, int, Seq<char>)>::empty());
    assert(seq![m].last() == m);
    assert(pattern.len() == name.len() + 2);
    assert(pattern != seq!['?']) by {
        assert(pattern[0] == '{');
    }
    assert(pattern != seq!['*']) by {
        assert(pattern[0] == '{');
    }
    assert(pattern[0] == '{');
    assert(pattern.last() == '}');
    assert(glob_fold(pattern, Seq::<(int, int, Seq<char>)>::empty()) == build_start());
    assert(glob_fold(pattern, seq![m]) == glob_piece(pattern, build_start(), m));
    assert(find_from(pattern, seq![':'], 0) == -1);
    assert(wildcard_regex(pattern) == (default_variable_pattern(), Some(name)));
    let st = glob_fold(pattern, seq![m]);
    assert(st.builder =~= seq!['(', '(', '?', 's', ')', '.', '*', ')']);
    assert(st.names =~= seq![name]);
}

/// Where a whole sequence of characters takes one byte each, so does each part.
proof fn lemma_single_bytes_split(a: Seq<char>, b: Seq<char>)
    requires
        utf8_len(a + b) == a.len() + b.len(),
    ensures
        utf8_len(a) == a.len(),
        utf8_len(b) == b.len(),
{
    lemma_encode_concat(a, b);
    lemma_encode_len(a);
    lemma_encode_len(b);
}

/// The segment `{name:re}` (a name without braces or `:`, every character of
/// one byte), with the glob scanner finding it whole, becomes the regex
/// `(re)`: the variable's own regex as its one group; its one variable is
/// `name`, and it fails only where that regex does not compile.
pub proof fn law_segment_variable_with_regex(name: Seq<char>, re: Seq<char>, cs: bool)
    requires
        forall|j: int| 0 <= j < name.len() ==> name[j] != '{' && name[j] != '}' && name[j] != ':',
        utf8_len(seq!['{'] + name + seq![':'] + re + seq!['}']) == name.len() + re.len() + 3,
    ensures
        ({
            let pattern = seq!['{'] + name + seq![':'] + re + seq!['}'];
            let raw = seq!['('] + re + seq![')'];
            build_from_wildcards(pattern, cs, seq![(0, utf8_len(pattern), pattern)]) == if regex_compiles(raw, !cs) {
                Ok::<StringMatcherView, MatchError>(
                    (StringMatcherView {
                        raw_pattern: raw,
                        exact_match: false,
                        case_sensitive: cs,
                        variable_names: seq![name],
                    }),
                )
            } else {
                Err::<StringMatcherView, MatchError>(MatchError::InvalidRegex)
            }
        }),
{
    let pattern = seq!['{'] + name + seq![':'] + re + seq!['}'];
    let n = name.len() as int;
    let m = (0int, utf8_len(pattern), pattern);
    lemma_first_colon(name, re);
    assert(pattern.len() == n + re.len() + 3);
    assert(pattern.take(n + 1) =~= seq!['{'] + name);
    assert(pattern =~= pattern.take(n + 1) + pattern.skip(n + 1));
    lemma_single_bytes_split(pattern.take(n + 1), pattern.skip(n + 1));
    assert(utf8_len(pattern.take(n + 1)) == n + 1);
    assert(seq![m].drop_last() =~= Seq::<(int, int, Seq<char>)>::empty());
    assert(seq![m].last() == m);
    assert(pattern != seq!['?']) by {
        assert(pattern[0] == '{');
    }
    assert(pattern != seq!['*']) by {
        assert(pattern[0] == '{');
    }
    assert(pattern[0] == '{');
    assert(pattern.last() == '}');
    assert(pattern.subrange(n + 2, pattern.len() - 1) =~= re);
    assert(pattern.subrange(1, n + 1) =~= name);
    assert(glob_fold(pattern, Seq::<(int, int, Seq<char>)>::empty()) == build_start());
    assert(glob_fold(pattern, seq![m]) == glob_piece(pattern, build_start(), m));
    assert(wildcard_regex(pattern) == (seq!['('] + re + seq![')'], Some(name)));
    let st = glob_fold(pattern, seq![m]);
    assert(st.builder =~= seq!['('] + re + seq![')']);
    assert(st.names =~= seq![name]);
}

/// A segment in which the glob scanner finds no wildcard is matched
/// literally: with case counting, a path segment matches it exactly when the
/// two are equal; with case ignored, exactly when their upper-case forms are
/// equal; either way no variable changes.
pub proof fn law_segment_without_wildcards(p: Seq<char>, cs: bool, s: Seq<char>, vars: Vars)
    ensures
        build_from_wildcards(p, cs, Seq::empty()) matches Ok(m) && match_string_spec(m, s, vars)
            == Ok::<(bool, Vars), MatchError>(
            (
                if cs {
                    p == s
                } else {
                    to_upper(p) == to_upper(s)
                },
                vars,
            ),
        ),
{
    assert(glob_fold(p, Seq::<(int, int, Seq<char>)>::empty()) == build_start());
}

proof fn lemma_bind_groups_ok(
    names: Seq<Seq<char>>,
    groups: Seq<Option<Seq<char>>>,
    i: int,
    acc: Map<Seq<char>, Seq<char>>,
)
    requires
        1 <= i <= groups.len(),
        names.len() == groups.len() - 1,
        forall|j: int| 0 <= j < names.len() ==> !seq!['*', '*'].is_prefix_of(#[trigger] names[j]),
        forall|j: int| 1 <= j < groups.len() ==> #[trigger] groups[j] is Some,
        forall|a: int, b: int| 0 <= a < b < names.len() ==> names[a] != names[b],
    ensures
        bind_groups(names, groups, i, acc) matches Ok(m) && (forall|j: int|
            i - 1 <= j < names.len() ==> m.contains_key(#[trigger] names[j]) && m[names[j]]
                == groups[j + 1]->Some_0) && (forall|k: Seq<char>|
            (forall|j: int| i - 1 <= j < names.len() ==> names[j] != k) ==> (#[trigger] m.contains_key(k)
                == acc.contains_key(k) && (acc.contains_key(k) ==> m[k] == acc[k]))),
    decreases groups.len() - i,
{
    if i < groups.len() {
        assert(groups[i] is Some);
        assert(!seq!['*', '*'].is_prefix_of(names[i - 1]));
        let acc2 = acc.insert(names[i - 1], groups[i]->Some_0);
        lemma_bind_groups_ok(names, groups, i + 1, acc2);
        let m = bind_groups(names, groups, i + 1, acc2)->Ok_0;
        assert(bind_groups(names, groups, i, acc) == bind_groups(names, groups, i + 1, acc2));
        assert forall|j: int| i - 1 <= j < names.len() implies m.contains_key(#[trigger] names[j]) && m[names[j]]
            == groups[j + 1]->Some_0 by {
            if j == i - 1 {
                assert forall|jj: int| i <= jj < names.len() implies names[jj] != names[j] by {}
                assert(m.contains_key(names[j]) == acc2.contains_key(names[j]));
            }
        }
        assert forall|k: Seq<char>|
            (forall|j: int| i - 1 <= j < names.len() ==> names[j] != k) implies (#[trigger] m.contains_key(k)
                == acc.contains_key(k) && (acc.contains_key(k) ==> m[k] == acc[k])) by {
            assert(names[i - 1] != k);
            assert forall|jj: int| i <= jj < names.len() implies names[jj] != k by {}
        }
    }
}

/// Binding variables to capture groups: with one group per name besides
/// group 0, no name starting with `**`, every group taking part and the
/// names distinct, each name takes its own group's text (name `i` group
/// `i + 1`) and every other variable stays as it was; with a different
/// number of groups, binding fails.
pub proof fn law_capture_binding(
    names: Seq<Seq<char>>,
    groups: Seq<Option<Seq<char>>>,
    vars: Map<Seq<char>, Seq<char>>,
)
    ensures
        names.len() != groups.len() - 1 ==> capture_binding(names, groups, vars) == Err::<Map<Seq<char>, Seq<char>>, MatchError>(MatchError::CaptureCountMismatch),
        ({
            &&& names.len() == groups.len() - 1
            &&& groups.len() >= 1
            &&& forall|j: int| 0 <= j < names.len() ==> !seq!['*', '*'].is_prefix_of(#[trigger] names[j])
            &&& forall|j: int| 1 <= j < groups.len() ==> #[trigger] groups[j] is Some
            &&& forall|a: int, b: int| 0 <= a < b < names.len() ==> names[a] != names[b]
        }) ==> (capture_binding(names, groups, vars) matches Ok(m) && (forall|j: int|
            0 <= j < names.len() ==> m.contains_key(#[trigger] names[j]) && m[names[j]] == groups[j + 1]->Some_0)
            && (forall|k: Seq<char>| !names.contains(k) ==> (#[trigger] m.contains_key(k) == vars.contains_key(k) && (
            vars.contains_key(k) ==> m[k] == vars[k])))),
{
    if names.len() == groups.len() - 1 && groups.len() >= 1
        && (forall|j: int| 0 <= j < names.len() ==> !seq!['*', '*'].is_prefix_of(#[trigger] names[j]))
        && (forall|j: int| 1 <= j < groups.len() ==> #[trigger] groups[j] is Some)
        && (forall|a: int, b: int| 0 <= a < b < names.len() ==> names[a] != names[b]) {
        lemma_bind_groups_ok(names, groups, 1, vars);
        let m = bind_groups(names, groups, 1, vars)->Ok_0;
        assert forall|k: Seq<char>| !names.contains(k) implies (#[trigger] m.contains_key(k) == vars.contains_key(k) && (
            vars.contains_key(k) ==> m[k] == vars[k])) by {
            assert forall|j: int| 0 <= j < names.len() implies names[j] != k by {
                if names[j] == k {
                    assert(names.contains(k));
                }
            }
        }
    }
}

/// `x` written `k` times in a row.
pub open spec fn repeated(x: Seq<char>, k: nat) -> Seq<char>
    decreases k,
{
    if k == 0 {
        Seq::empty()
    } else {
        x + repeated(x, (k - 1) as nat)
    }
}

proof fn lemma_extract_repeat_started(sep: Seq<char>, lead: bool, item: Seq<char>, n: int, k: int, builder: Seq<char>)
    requires
        k <= n,
    ensures
        extract_repeat(sep, lead, item, n, k, builder, true) == (builder + repeated(sep + item, (n - k) as nat), true),
    decreases n - k,
{
    if k < n {
        lemma_extract_repeat_started(sep, lead, item, n, k + 1, builder + sep + item);
        assert(builder + sep + item + repeated(sep + item, (n - k - 1) as nat) =~= builder + repeated(
            sep + item,
            (n - k) as nat,
        ));
    } else {
        assert(builder + repeated(sep + item, 0) =~= builder);
    }
}

proof fn lemma_extract_from_plain_run(
    sep: Seq<char>,
    starts: bool,
    pp: Seq<Seq<char>>,
    dp: Seq<Seq<char>>,
    seg: int,
    to: int,
    builder: Seq<char>,
    started: bool,
)
    requires
        0 <= seg <= to <= pp.len(),
        forall|j: int| seg <= j < to ==> !(#[trigger] pp[j]).contains('*') && !pp[j].contains('?'),
    ensures
        extract_from(sep, starts, pp, dp, seg, builder, started) == extract_from(sep, starts, pp, dp, to, builder, started),
    decreases to - seg,
{
    if seg < to {
        assert(!has_wildcard(pp[seg]));
        lemma_extract_from_plain_run(sep, starts, pp, dp, seg + 1, to, builder, started);
    }
}

/// For a pattern whose only wildcard segment (holding `*` or `?`) is segment
/// `w`, and a path with more than `w` segments, `extract_path_within_pattern`
/// gives the path segment at index `w` once for each path segment, joined by
/// the separator, after a leading separator when `w` is 0 and the pattern
/// does not start with the separator.
pub proof fn law_extract_path_one_wildcard_segment(cfg: MatcherConfig, pattern: Seq<char>, path: Seq<char>, w: int)
    requires
        0 <= w < tokenize_spec(pattern, cfg.path_separator, cfg.trim_tokens).len(),
        w < tokenize_spec(path, cfg.path_separator, cfg.trim_tokens).len(),
        ({
            let pp = tokenize_spec(pattern, cfg.path_separator, cfg.trim_tokens);
            &&& pp[w].contains('*') || pp[w].contains('?')
            &&& forall|j: int| 0 <= j < pp.len() && j != w ==> !(#[trigger] pp[j]).contains('*') && !pp[j].contains('?')
        }),
    ensures
        ({
            let sep = cfg.path_separator;
            let dp = tokenize_spec(path, sep, cfg.trim_tokens);
            let item = dp[w];
            let lead = if w == 0 && !sep.is_prefix_of(pattern) {
                sep
            } else {
                Seq::empty()
            };
            extract_path_spec(cfg, pattern, path) == Ok::<Seq<char>, MatchError>(
                lead + item + repeated(sep + item, (dp.len() - 1) as nat),
            )
        }),
{
    let sep = cfg.path_separator;
    let starts = sep.is_prefix_of(pattern);
    let pp = tokenize_spec(pattern, sep, cfg.trim_tokens);
    let dp = tokenize_spec(path, sep, cfg.trim_tokens);
    let item = dp[w];
    let lead_sep = w == 0 && !starts;
    lemma_extract_from_plain_run(sep, starts, pp, dp, 0, w, Seq::empty(), false);
    assert(has_wildcard(pp[w]));
    let b1 = if lead_sep { Seq::<char>::empty() + sep } else { Seq::<char>::empty() };
    lemma_extract_repeat_started(sep, lead_sep, item, dp.len() as int, 1, b1 + item);
    let r = extract_repeat(sep, lead_sep, item, dp.len() as int, 0, Seq::empty(), false);
    assert(r == (b1 + item + repeated(sep + item, (dp.len() - 1) as nat), true));
    lemma_extract_from_plain_run(sep, starts, pp, dp, w + 1, pp.len() as int, r.0, true);
    let lead = if w == 0 && !starts { sep } else { Seq::<char>::empty() };
    assert(b1 + item + repeated(sep + item, (dp.len() - 1) as nat) =~= lead + item + repeated(sep + item, (dp.len() - 1) as nat));
}

/// A segment matcher that is a regex answers whether the regex engine's
/// leftmost-first match in the path segment runs to the segment's end (so the
/// regex must cover the rest of the segment); without gathering variables it
/// always answers and gathers nothing.
pub proof fn law_regex_segment_match(m: StringMatcherView, s: Seq<char>, vars: Vars)
    requires
        !m.exact_match,
    ensures
        match_string_spec(m, s, vars) matches Ok((b, _)) ==> (b <==> (regex_first_match(
            m.raw_pattern,
            !m.case_sensitive,
            s,
        ) matches Some(f) && f.1 == utf8_len(s))),
        vars is None ==> match_string_spec(m, s, vars) == Ok::<(bool, Vars), MatchError>(
            ((regex_first_match(m.raw_pattern, !m.case_sensitive, s) matches Some(f) && f.1 == utf8_len(s)), None),
        ),
{
}

} // verus!
