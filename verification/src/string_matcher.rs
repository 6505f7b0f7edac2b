//! Matching one path segment against one pattern segment: a segment with no
//! wildcard is compared literally, any other is turned into a regex in which
//! `?` is `.`, `*` is `.*` and `{name}` / `{name:regex}` is a capturing group.
use vstd::prelude::*;
use vstd::hash_map::StringHashMap;
use vstd::string::StrSliceExecFns;
use vstd::utf8::encode_utf8;
use crate::engine::{
    clone_regex, compile_regex, escape_spec, groups_view, matches_view, regex_captures, regex_captures_of,
    regex_compiles, regex_escape, regex_find, regex_find_all, regex_find_all_of,
    regex_first_match, substring_of, substring_spec, to_upper, uppercase_of, CompiledRegex,
    RegexMatch,
};
use crate::fault::MatchError;
use crate::text::{is_substring, byte_len, chars_of, find_from, find_sep, lemma_find_from_bounds, string_of, trim_chars, trim_spec};

verus! {

/// The regex that finds the wildcards of a pattern segment: `?`, `*`, and
/// `{...}` (which may hold one level of nested braces or escaped braces).
pub const GLOB_PATTERN: &'static str = "\\?|\\*|\\{((?:\\{[^/]+?\\}|[^/{}]|\\\\[{}])+?)\\}";

/// Template variables gathered during a match: name to value.
pub type Vars = Option<Map<Seq<char>, Seq<char>>>;

/// The variables that a map of strings holds, by the characters of each value.
pub open spec fn vars_view(o: &Option<StringHashMap<String>>) -> Vars {
    match o {
        None => None,
        Some(m) => Some(m@.map_values(|v: String| v@)),
    }
}

/// Every variable of `after` kept its value from `before`, or took a value
/// that is a run of the characters of one of `segs`.
pub open spec fn gathered_from(before: Vars, after: Vars, segs: Seq<Seq<char>>) -> bool {
    after is Some ==> forall|k: Seq<char>| #[trigger]
        after->Some_0.contains_key(k) ==> ((before is Some && before->Some_0.contains_key(k)
            && before->Some_0[k] == after->Some_0[k]) || exists|d: int|
            0 <= d < segs.len() && #[trigger] is_substring(after->Some_0[k], segs[d]))
}

/// Keeping the variables as they are gathers nothing new.
pub proof fn lemma_gathered_refl(a: Vars, segs: Seq<Seq<char>>)
    ensures
        gathered_from(a, a, segs),
{
}

/// Gathering in two stages from the same segments is gathering from them.
pub proof fn lemma_gathered_trans(a: Vars, b: Vars, c: Vars, segs: Seq<Seq<char>>)
    requires
        gathered_from(a, b, segs),
        gathered_from(b, c, segs),
    ensures
        gathered_from(a, c, segs),
{
    if c is Some {
        assert forall|k: Seq<char>| #[trigger] c->Some_0.contains_key(k) implies ((a is Some
            && a->Some_0.contains_key(k) && a->Some_0[k] == c->Some_0[k]) || exists|d: int|
            0 <= d < segs.len() && #[trigger] is_substring(c->Some_0[k], segs[d])) by {
            if b is Some && b->Some_0.contains_key(k) && b->Some_0[k] == c->Some_0[k] {
                assert(b->Some_0.contains_key(k));
            }
        }
    }
}

/// Gathering from the one segment `segs[d]` is gathering from `segs`.
pub proof fn lemma_gathered_widen(a: Vars, b: Vars, segs: Seq<Seq<char>>, d: int)
    requires
        0 <= d < segs.len(),
        gathered_from(a, b, seq![segs[d]]),
    ensures
        gathered_from(a, b, segs),
{
    if b is Some {
        assert forall|k: Seq<char>| #[trigger] b->Some_0.contains_key(k) implies ((a is Some
            && a->Some_0.contains_key(k) && a->Some_0[k] == b->Some_0[k]) || exists|e: int|
            0 <= e < segs.len() && #[trigger] is_substring(b->Some_0[k], segs[e])) by {
            if !(a is Some && a->Some_0.contains_key(k) && a->Some_0[k] == b->Some_0[k]) {
                let e = choose|e: int| 0 <= e < 1 && #[trigger] is_substring(b->Some_0[k], seq![segs[d]][e]);
                assert(seq![segs[d]][e] == segs[d]);
                assert(is_substring(b->Some_0[k], segs[d]));
            }
        }
    }
}

/// The number of bytes in the UTF-8 encoding of `s` (what `str::len` gives).
pub open spec fn utf8_len(s: Seq<char>) -> int {
    encode_utf8(s).len() as int
}

/// The regex that a `{name}` with no pattern of its own stands for: `((?s).*)`.
pub open spec fn default_variable_pattern() -> Seq<char> {
    seq!['(', '(', '?', 's', ')', '.', '*', ')']
}

/// The escaped characters `start..end` of `s`; nothing when `start == end`.
pub open spec fn quote_spec(s: Seq<char>, start: int, end: int) -> Seq<char> {
    if start == end {
        Seq::empty()
    } else {
        escape_spec(substring_spec(s, start, end))
    }
}

/// Where the building of a segment's regex stands after some wildcards.
pub struct BuildState {
    pub builder: Seq<char>,
    pub names: Seq<Seq<char>>,
    pub end: int,
}

/// The state before any wildcard.
pub open spec fn build_start() -> BuildState {
    BuildState { builder: Seq::empty(), names: Seq::empty(), end: 0 }
}

/// The regex text that a wildcard with matched text `t` becomes, and the
/// variable name it adds, if any.
pub open spec fn wildcard_regex(t: Seq<char>) -> (Seq<char>, Option<Seq<char>>) {
    if t == seq!['?'] {
        (seq!['.'], None)
    } else if t == seq!['*'] {
        (seq!['.', '*'], None)
    } else if t.len() > 0 && t[0] == '{' && t.last() == '}' {
        let k = find_from(t, seq![':'], 0);
        if k < 0 {
            (
                default_variable_pattern(),
                Some(trim_spec(trim_spec(t, Some('{')), Some('}'))),
            )
        } else {
            let idx = utf8_len(t.take(k));
            (
                seq!['('] + substring_spec(t, idx + 1, utf8_len(t) - 1) + seq![')'],
                Some(substring_spec(t, 1, idx)),
            )
        }
    } else {
        (Seq::empty(), None)
    }
}

/// One wildcard match `m` (byte start, byte end, text) folded into the state:
/// the literal text before it, quoted, then its regex.
pub open spec fn glob_piece(pattern: Seq<char>, st: BuildState, m: (int, int, Seq<char>)) -> BuildState {
    let w = wildcard_regex(m.2);
    BuildState {
        builder: st.builder + quote_spec(pattern, st.end, m.0) + w.0,
        names: match w.1 {
            Some(n) => st.names.push(n),
            None => st.names,
        },
        end: m.1,
    }
}

/// All wildcard matches `ms` folded in, in order.
pub open spec fn glob_fold(pattern: Seq<char>, ms: Seq<(int, int, Seq<char>)>) -> BuildState
    decreases ms.len(),
{
    if ms.len() == 0 {
        build_start()
    } else {
        glob_piece(pattern, glob_fold(pattern, ms.drop_last()), ms.last())
    }
}

/// What a segment matcher is: its literal text or regex source, whether it
/// compares literally, whether case counts, and its variable names in order.
pub struct StringMatcherView {
    pub raw_pattern: Seq<char>,
    pub exact_match: bool,
    pub case_sensitive: bool,
    pub variable_names: Seq<Seq<char>>,
}

/// The matcher built for the pattern segment `pattern`. A segment with no
/// wildcard ending past byte 0 compares literally; any other becomes the regex
/// of its pieces. Fails where the glob scanner or the built regex does not compile.
pub open spec fn build_spec(pattern: Seq<char>, case_sensitive: bool) -> Result<StringMatcherView, MatchError> {
    if !regex_compiles(GLOB_PATTERN@, false) {
        Err(MatchError::InvalidRegex)
    } else {
        build_from_wildcards(pattern, case_sensitive, regex_find_all(GLOB_PATTERN@, pattern))
    }
}

/// The matcher built for the pattern segment `pattern` whose wildcards the
/// glob scanner found at `ms` (byte start, byte end, text of each, in order).
pub open spec fn build_from_wildcards(
    pattern: Seq<char>,
    case_sensitive: bool,
    ms: Seq<(int, int, Seq<char>)>,
) -> Result<StringMatcherView, MatchError> {
    let st = glob_fold(pattern, ms);
    if st.end == 0 {
        Ok(
            StringMatcherView {
                raw_pattern: pattern,
                exact_match: true,
                case_sensitive,
                variable_names: st.names,
            },
        )
    } else {
        let raw = st.builder + quote_spec(pattern, st.end, utf8_len(pattern));
        if regex_compiles(raw, !case_sensitive) {
            Ok(
                StringMatcherView {
                    raw_pattern: raw,
                    exact_match: false,
                    case_sensitive,
                    variable_names: st.names,
                },
            )
        } else {
            Err(MatchError::InvalidRegex)
        }
    }
}

/// Binds `names[i - 1]` to capture group `i`, for `i` from `i` to the last group.
pub open spec fn bind_groups(
    names: Seq<Seq<char>>,
    groups: Seq<Option<Seq<char>>>,
    i: int,
    vars: Map<Seq<char>, Seq<char>>,
) -> Result<Map<Seq<char>, Seq<char>>, MatchError>
    decreases groups.len() - i,
{
    if i >= groups.len() || i < 1 {
        Ok(vars)
    } else if seq!['*', '*'].is_prefix_of(names[i - 1]) {
        Err(MatchError::CapturingVariable)
    } else {
        match groups[i] {
            None => Err(MatchError::UnmatchedGroup),
            Some(v) => bind_groups(names, groups, i + 1, vars.insert(names[i - 1], v)),
        }
    }
}

/// The variables `names` bound to the capture groups `groups` (group 0 being
/// the whole match) on top of `vars`: fails where there is not one group per
/// name besides group 0, and as `bind_groups` fails.
pub open spec fn capture_binding(
    names: Seq<Seq<char>>,
    groups: Seq<Option<Seq<char>>>,
    vars: Map<Seq<char>, Seq<char>>,
) -> Result<Map<Seq<char>, Seq<char>>, MatchError> {
    if names.len() != groups.len() - 1 {
        Err(MatchError::CaptureCountMismatch)
    } else {
        bind_groups(names, groups, 1, vars)
    }
}

/// Whether the segment `s` matches the matcher `m`, and the variables after it:
/// literal comparison (ignoring case through upper-casing where case does not
/// count), or a regex match that must end at the end of `s`; on such a match,
/// when variables are gathered, each variable takes its group's text.
pub open spec fn match_string_spec(m: StringMatcherView, s: Seq<char>, vars: Vars) -> Result<(bool, Vars), MatchError> {
    if m.exact_match {
        Ok(
            (
                if m.case_sensitive {
                    m.raw_pattern == s
                } else {
                    to_upper(m.raw_pattern) == to_upper(s)
                },
                vars,
            ),
        )
    } else {
        match regex_first_match(m.raw_pattern, !m.case_sensitive, s) {
            None => Ok((false, vars)),
            Some(found) => if found.1 != utf8_len(s) {
                Ok((false, vars))
            } else {
                match vars {
                    None => Ok((true, vars)),
                    Some(map) => match regex_captures(m.raw_pattern, !m.case_sensitive, s) {
                        None => Err(MatchError::MissingCaptures),
                        Some(groups) => match capture_binding(m.variable_names, groups, map) {
                            Ok(map2) => Ok((true, Some(map2))),
                            Err(e) => Err(e),
                        },
                    },
                }
            },
        }
    }
}

/// Whether binding the groups fails, and how, does not depend on the
/// variables bound before.
pub proof fn lemma_bind_groups_error_indep(
    names: Seq<Seq<char>>,
    groups: Seq<Option<Seq<char>>>,
    i: int,
    a: Map<Seq<char>, Seq<char>>,
    b: Map<Seq<char>, Seq<char>>,
)
    ensures
        bind_groups(names, groups, i, a) is Ok <==> bind_groups(names, groups, i, b) is Ok,
        bind_groups(names, groups, i, a) is Err ==> bind_groups(names, groups, i, a)
            == bind_groups(names, groups, i, b),
    decreases groups.len() - i,
{
    if !(i >= groups.len() || i < 1) && !seq!['*', '*'].is_prefix_of(names[i - 1]) {
        if let Some(v) = groups[i] {
            lemma_bind_groups_error_indep(
                names,
                groups,
                i + 1,
                a.insert(names[i - 1], v),
                b.insert(names[i - 1], v),
            );
        }
    }
}

/// Whether a segment match fails, and how, depends only on whether
/// variables are gathered, not on the variables gathered so far.
pub proof fn lemma_match_string_error_indep(m: StringMatcherView, s: Seq<char>, a: Vars, b: Vars)
    requires
        a is Some <==> b is Some,
    ensures
        match_string_spec(m, s, a) is Ok <==> match_string_spec(m, s, b) is Ok,
        match_string_spec(m, s, a) is Err ==> match_string_spec(m, s, a) == match_string_spec(m, s, b),
{
    if a is Some {
        if let Some(groups) = regex_captures(m.raw_pattern, !m.case_sensitive, s) {
            lemma_bind_groups_error_indep(m.variable_names, groups, 1, a->Some_0, b->Some_0);
        }
    }
}

/// The escaped characters `start..end` of `s` (character indices, as the
/// `substring` crate counts them); an empty string when `start == end`.
pub fn quote(s: &str, start: usize, end: usize) -> (r: String)
    ensures
        r@ == quote_spec(s@, start as int, end as int),
{
    if start == end {
        return String::new();
    }
    let sub = substring_of(s, start, end);
    regex_escape(sub.as_str())
}

pub proof fn lemma_encode_concat(a: Seq<char>, b: Seq<char>)
    ensures
        encode_utf8(a + b) == encode_utf8(a) + encode_utf8(b),
    decreases a.len(),
{
    if a.len() == 0 {
        assert(a + b =~= b);
        assert(encode_utf8(a) + encode_utf8(b) =~= encode_utf8(b));
    } else {
        assert((a + b).drop_first() =~= a.drop_first() + b);
        lemma_encode_concat(a.drop_first(), b);
        assert(encode_utf8(a + b) =~= encode_utf8(a) + encode_utf8(b));
    }
}

pub proof fn lemma_encode_len(a: Seq<char>)
    ensures
        encode_utf8(a).len() >= a.len(),
    decreases a.len(),
{
    if a.len() > 0 {
        lemma_encode_len(a.drop_first());
    }
}

fn append_chars(v: &mut Vec<char>, s: &str)
    ensures
        final(v)@ == old(v)@ + s@,
{
    let mut c = chars_of(s);
    v.append(&mut c);
}

/// The regex text for one wildcard match `t`, and the variable name it adds.
fn wildcard_to_regex(t: &String) -> (r: (Vec<char>, Option<String>))
    ensures
        r.0@ == wildcard_regex(t@).0,
        match r.1 {
            Some(n) => wildcard_regex(t@).1 == Some(n@),
            None => wildcard_regex(t@).1 is None,
        },
{
    let tc = chars_of(t.as_str());
    let n = tc.len();
    let mut out: Vec<char> = Vec::new();
    if n == 1 && tc[0] == '?' {
        assert(tc@ =~= seq!['?']);
        out.push('.');
        assert(out@ =~= seq!['.']);
        return (out, None);
    }
    assert(tc@ != seq!['?']);
    if n == 1 && tc[0] == '*' {
        assert(tc@ =~= seq!['*']);
        out.push('.');
        out.push('*');
        assert(out@ =~= seq!['.', '*']);
        return (out, None);
    }
    assert(tc@ != seq!['*']);
    if n > 0 && tc[0] == '{' && tc[n - 1] == '}' {
        let mut colon: Vec<char> = Vec::new();
        colon.push(':');
        assert(colon@ =~= seq![':']);
        match find_sep(&tc, &colon, 0) {
            None => {
                out.push('(');
                out.push('(');
                out.push('?');
                out.push('s');
                out.push(')');
                out.push('.');
                out.push('*');
                out.push(')');
                assert(out@ =~= default_variable_pattern());
                let inner = trim_chars(&tc, Some('{'));
                let name = trim_chars(&inner, Some('}'));
                let ns = string_of(&name);
                (out, Some(ns))
            },
            Some(k) => {
                proof {
                    lemma_find_from_bounds(tc@, colon@, 0);
                }
                let prefix = t.as_str().substring_char(0, k);
                let idx = byte_len(prefix);
                let len = byte_len(t.as_str());
                proof {
                    assert(t@ =~= t@.take(k as int) + t@.skip(k as int));
                    lemma_encode_concat(t@.take(k as int), t@.skip(k as int));
                    lemma_encode_len(t@.skip(k as int));
                    assert(prefix@ =~= t@.take(k as int));
                }
                out.push('(');
                let vp = substring_of(t.as_str(), idx + 1, len - 1);
                append_chars(&mut out, vp.as_str());
                out.push(')');
                assert(out@ =~= seq!['('] + substring_spec(t@, idx + 1, utf8_len(t@) - 1) + seq![')']);
                let name = substring_of(t.as_str(), 1, idx);
                (out, Some(name))
            },
        }
    } else {
        assert(out@ =~= Seq::<char>::empty());
        (out, None)
    }
}

/// Whether the leftmost-first match of `re` in `s` runs to the end of `s`.
pub fn matches(re: &CompiledRegex, s: &str) -> (r: bool)
    ensures
        r == (regex_first_match(re@.0, re@.1, s@) matches Some(m) && m.1 == utf8_len(s@)),
{
    match regex_find(re, s) {
        None => false,
        Some((_start, stop)) => stop == byte_len(s),
    }
}

/// Binds each of `names` to the text of its capture group, in order, into
/// `vars` (group 0, the whole match, binds nothing); fails where there is not
/// one group per name besides group 0, where a name starts with `**`, or where
/// a group took no part in the match.
pub fn bind_captures(names: &Vec<String>, groups: &Vec<Option<String>>, vars: &mut StringHashMap<String>) -> (r: Result<(), MatchError>)
    requires
        groups.len() >= 1,
    ensures
        match r {
            Ok(()) => capture_binding(names.deep_view(), groups_view(*groups), old(vars)@.map_values(|v: String| v@))
                == Ok::<Map<Seq<char>, Seq<char>>, MatchError>(final(vars)@.map_values(|v: String| v@)),
            Err(e) => capture_binding(names.deep_view(), groups_view(*groups), old(vars)@.map_values(|v: String| v@))
                == Err::<Map<Seq<char>, Seq<char>>, MatchError>(e),
        },
        forall|k: Seq<char>| #[trigger] final(vars)@.contains_key(k) ==> ((old(vars)@.contains_key(k)
            && final(vars)@[k]@ == old(vars)@[k]@) || exists|i: int|
            1 <= i < groups.len() && #[trigger] groups@[i] is Some && groups@[i]->Some_0@ == final(vars)@[k]@),
{
    if names.len() != groups.len() - 1 {
        return Err(MatchError::CaptureCountMismatch);
    }
    let ghost gv = groups_view(*groups);
    let ghost nv = names.deep_view();
    let ghost target = bind_groups(nv, gv, 1, vars@.map_values(|v: String| v@));
    let mut i: usize = 1;
    while i < groups.len()
        invariant
            1 <= i <= groups.len(),
            gv == groups_view(*groups),
            nv == names.deep_view(),
            nv.len() == names.len(),
            names.len() == groups.len() - 1,
            target == bind_groups(nv, gv, i as int, vars@.map_values(|v: String| v@)),
            target == bind_groups(nv, gv, 1, old(vars)@.map_values(|v: String| v@)),
            forall|k: Seq<char>| #[trigger] vars@.contains_key(k) ==> ((old(vars)@.contains_key(k)
                && vars@[k]@ == old(vars)@[k]@) || exists|j: int|
                1 <= j < groups.len() && #[trigger] groups@[j] is Some && groups@[j]->Some_0@ == vars@[k]@),
        decreases groups.len() - i,
    {
        let name = &names[i - 1];
        let nc = chars_of(name.as_str());
        let mut stars: Vec<char> = Vec::new();
        stars.push('*');
        stars.push('*');
        assert(stars@ =~= seq!['*', '*']);
        assert(nc@ == nv[i - 1]);
        assert(gv[i as int] == (match groups@[i as int] {
            Some(s) => Some(s@),
            None => None::<Seq<char>>,
        }));
        if crate::text::starts_with(&nc, &stars) {
            return Err(MatchError::CapturingVariable);
        }
        let value = match &groups[i] {
            None => {
                return Err(MatchError::UnmatchedGroup);
            },
            Some(v) => v.clone(),
        };
        let key = name.clone();
        let ghost before = vars@.map_values(|v: String| v@);
        let ghost vars0 = vars@;
        let ghost kv = key@;
        let ghost vv = value@;
        assert(groups@[i as int] is Some && groups@[i as int]->Some_0@ == vv);
        vars.insert(key, value);
        proof {
            assert forall|k: Seq<char>| #[trigger] vars@.contains_key(k) implies ((old(vars)@.contains_key(k)
                && vars@[k]@ == old(vars)@[k]@) || exists|j: int|
                1 <= j < groups.len() && #[trigger] groups@[j] is Some && groups@[j]->Some_0@ == vars@[k]@) by {
                if k == kv {
                    assert(groups@[i as int] is Some && groups@[i as int]->Some_0@ == vars@[k]@);
                } else {
                    assert(vars0.contains_key(k));
                }
            }
            assert(vars@.map_values(|v: String| v@) =~= before.insert(nv[i - 1], gv[i as int]->Some_0));
        }
        i = i + 1;
    }
    Ok(())
}

/// A pattern segment ready to be matched against path segments.
pub struct AntPathStringMatcher {
    raw_pattern: String,
    exact_match: bool,
    case_sensitive: bool,
    regex: Option<CompiledRegex>,
    variable_names: Vec<String>,
}

impl View for AntPathStringMatcher {
    type V = StringMatcherView;

    closed spec fn view(&self) -> StringMatcherView {
        StringMatcherView {
            raw_pattern: self.raw_pattern@,
            exact_match: self.exact_match,
            case_sensitive: self.case_sensitive,
            variable_names: self.variable_names.deep_view(),
        }
    }
}

impl Clone for AntPathStringMatcher {
    fn clone(&self) -> (r: Self)
        ensures
            r@ == self@,
            r.holds_regex() == self.holds_regex(),
    {
        proof {
            use_type_invariant(self);
        }
        let regex = match &self.regex {
            Some(re) => Some(clone_regex(re)),
            None => None,
        };
        AntPathStringMatcher {
            raw_pattern: self.raw_pattern.clone(),
            exact_match: self.exact_match,
            case_sensitive: self.case_sensitive,
            regex,
            variable_names: copy_strings(&self.variable_names),
        }
    }
}

/// A copy of `v`, string by string.
pub fn copy_strings(v: &Vec<String>) -> (r: Vec<String>)
    ensures
        r.deep_view() == v.deep_view(),
{
    let mut r: Vec<String> = Vec::new();
    let mut i: usize = 0;
    while i < v.len()
        invariant
            i <= v.len(),
            r.deep_view() == v.deep_view().take(i as int),
        decreases v.len() - i,
    {
        let c: String = v[i].clone();
        assert(c@ == v.deep_view()[i as int]);
        let ghost before = r.deep_view();
        r.push(c);
        assert(r.deep_view() =~= before.push(c@));
        i = i + 1;
        assert(r.deep_view() =~= v.deep_view().take(i as int));
    }
    assert(v.deep_view().take(v.len() as int) =~= v.deep_view());
    r
}

impl AntPathStringMatcher {
    /// A matcher that is not literal holds the regex compiled from its text;
    /// a literal one holds none.
    #[verifier::type_invariant]
    spec fn inv(&self) -> bool {
        &&& !self.exact_match ==> (self.regex matches Some(r) && r@ == (
            self.raw_pattern@,
            !self.case_sensitive,
        ))
        &&& self.exact_match ==> self.regex is None
    }

    /// Whether the matcher holds a compiled regex.
    pub closed spec fn holds_regex(&self) -> bool {
        self.regex is Some
    }

    /// Builds the matcher for the pattern segment `pattern`; fails where the
    /// regex it builds does not compile.
    pub fn new(pattern: &str, case_sensitive: bool) -> (r: Result<Self, MatchError>)
        ensures
            match r {
                Ok(m) => build_spec(pattern@, case_sensitive) == Ok::<StringMatcherView, MatchError>(m@),
                Err(e) => build_spec(pattern@, case_sensitive) == Err::<StringMatcherView, MatchError>(e),
            },
            r matches Ok(m) ==> (m.holds_regex() <==> !m@.exact_match),
    {
        match regex_find_all_of(GLOB_PATTERN, pattern) {
            None => Err(MatchError::InvalidRegex),
            Some(ms) => Self::from_wildcards(pattern, case_sensitive, &ms),
        }
    }

    /// Builds the matcher for the pattern segment `pattern` whose wildcards
    /// the glob scanner found at `ms`: the literal text between them quoted,
    /// each wildcard turned into its regex; fails where that regex does not
    /// compile.
    pub fn from_wildcards(pattern: &str, case_sensitive: bool, ms: &Vec<RegexMatch>) -> (r: Result<Self, MatchError>)
        ensures
            match r {
                Ok(m) => build_from_wildcards(pattern@, case_sensitive, matches_view(*ms)) == Ok::<StringMatcherView, MatchError>(m@),
                Err(e) => build_from_wildcards(pattern@, case_sensitive, matches_view(*ms)) == Err::<StringMatcherView, MatchError>(e),
            },
            r matches Ok(m) ==> (m.holds_regex() <==> !m@.exact_match),
    {
        let ghost all = matches_view(*ms);
        let mut builder: Vec<char> = Vec::new();
        let mut names: Vec<String> = Vec::new();
        let mut end: usize = 0;
        let mut i: usize = 0;
        proof {
            assert(all.take(0) =~= Seq::<(int, int, Seq<char>)>::empty());
            assert(names.deep_view() =~= Seq::<Seq<char>>::empty());
        }
        while i < ms.len()
            invariant
                i <= ms.len(),
                matches_view(*ms) == all,
                glob_fold(pattern@, all.take(i as int)) == (BuildState {
                    builder: builder@,
                    names: names.deep_view(),
                    end: end as int,
                }),
            decreases ms.len() - i,
        {
            let m = &ms[i];
            let q = quote(pattern, end, m.start);
            append_chars(&mut builder, q.as_str());
            let (w, name) = wildcard_to_regex(&m.text);
            crate::text::push_all(&mut builder, &w);
            let ghost names_before = names.deep_view();
            match name {
                Some(n) => {
                    names.push(n);
                    assert(names.deep_view() =~= names_before.push(wildcard_regex(m.text@).1->Some_0));
                },
                None => {},
            }
            end = m.end;
            proof {
                assert(all[i as int] == (m.start as int, m.end as int, m.text@));
                assert(all.take(i + 1).drop_last() =~= all.take(i as int));
            }
            i = i + 1;
        }
        assert(all.take(ms.len() as int) =~= all);
        if end == 0 {
            let m = AntPathStringMatcher {
                raw_pattern: pattern.to_owned(),
                exact_match: true,
                case_sensitive,
                regex: None,
                variable_names: names,
            };
            return Ok(m);
        }
        let tail = quote(pattern, end, byte_len(pattern));
        append_chars(&mut builder, tail.as_str());
        let raw = string_of(&builder);
        match compile_regex(raw.as_str(), !case_sensitive) {
            None => Err(MatchError::InvalidRegex),
            Some(re) => Ok(
                AntPathStringMatcher {
                    raw_pattern: raw,
                    exact_match: false,
                    case_sensitive,
                    regex: Some(re),
                    variable_names: names,
                },
            ),
        }
    }

    /// Whether the segment `s` matches, gathering template variables into
    /// `vars` when it is `Some`. Fails where matching cannot go on: the
    /// capture groups do not line up with the variables.
    pub fn match_string_checked(&self, s: &str, vars: &mut Option<StringHashMap<String>>) -> (r: Result<bool, MatchError>)
        ensures
            match r {
                Ok(b) => match_string_spec(self@, s@, vars_view(old(vars))) == Ok::<(bool, Vars), MatchError>((b, vars_view(final(vars)))),
                Err(e) => match_string_spec(self@, s@, vars_view(old(vars))) == Err::<(bool, Vars), MatchError>(e),
            },
            gathered_from(vars_view(old(vars)), vars_view(final(vars)), seq![s@]),
    {
        proof {
            use_type_invariant(self);
            lemma_gathered_refl(vars_view(vars), seq![s@]);
        }
        if self.exact_match {
            if self.case_sensitive {
                let sc = chars_of(s);
                let pc = chars_of(self.raw_pattern.as_str());
                return Ok(crate::text::chars_eq(&pc, &sc));
            } else {
                let a = uppercase_of(self.raw_pattern.as_str());
                let b = uppercase_of(s);
                return Ok(a == b);
            }
        }
        let re = match &self.regex {
            Some(re) => re,
            None => {
                return Ok(false);
            },
        };
        if !matches(re, s) {
            return Ok(false);
        }
        match regex_find(re, s) {
            None => Ok(false),
            Some((_start, stop)) => {
                if vars.is_none() {
                    return Ok(true);
                }
                let groups = match regex_captures_of(re, s) {
                    None => {
                        return Err(MatchError::MissingCaptures);
                    },
                    Some(g) => g,
                };
                let ghost m0 = vars->Some_0@;
                let bound = match vars {
                    Some(m) => bind_captures(&self.variable_names, &groups, m),
                    None => Ok(()),
                };
                proof {
                    let after = vars_view(vars);
                    let m1 = vars->Some_0@;
                    assert forall|k: Seq<char>| #[trigger] after->Some_0.contains_key(k) implies ((
                    vars_view(old(vars)) is Some && vars_view(old(vars))->Some_0.contains_key(k)
                        && vars_view(old(vars))->Some_0[k] == after->Some_0[k]) || exists|d: int|
                        0 <= d < 1 && #[trigger] is_substring(after->Some_0[k], seq![s@][d])) by {
                        assert(m1.contains_key(k));
                        assert(after->Some_0[k] == m1[k]@);
                        if m0.contains_key(k) && m1[k]@ == m0[k]@ {
                            assert(vars_view(old(vars))->Some_0.contains_key(k));
                            assert(vars_view(old(vars))->Some_0[k] == m0[k]@);
                        } else {
                            let j = choose|j: int|
                                1 <= j < groups.len() && #[trigger] groups@[j] is Some && groups@[j]->Some_0@
                                    == m1[k]@;
                            assert(groups@[j] is Some);
                            assert(is_substring(groups@[j]->Some_0@, s@));
                            assert(seq![s@][0] == s@);
                            assert(is_substring(after->Some_0[k], seq![s@][0]));
                        }
                    }
                }
                match bound {
                    Ok(()) => Ok(true),
                    Err(e) => Err(e),
                }
            },
        }
    }

    /// Whether the segment `s` matches, gathering template variables into
    /// `vars` when it is `Some`.
    pub fn match_string(&self, s: &str, vars: &mut Option<StringHashMap<String>>) -> (r: bool)
        requires
            match_string_spec(self@, s@, vars_view(old(vars))) is Ok,
        ensures
            match_string_spec(self@, s@, vars_view(old(vars))) == Ok::<(bool, Vars), MatchError>((r, vars_view(final(vars)))),
    {
        match self.match_string_checked(s, vars) {
            Ok(b) => b,
            Err(_) => {
                proof {
                    assert(false);
                }
                false
            },
        }
    }

    /// Like `match_string`, but reports the inputs on which it cannot answer,
    /// leaving `vars` as it was.
    pub fn try_match_string(&self, s: &str, vars: &mut Option<StringHashMap<String>>) -> (r: Result<bool, MatchError>)
        ensures
            match r {
                Ok(b) => match_string_spec(self@, s@, vars_view(old(vars))) == Ok::<(bool, Vars), MatchError>((b, vars_view(final(vars)))),
                Err(e) => match_string_spec(self@, s@, vars_view(old(vars))) == Err::<(bool, Vars), MatchError>(e) && *final(vars) == *old(vars),
            },
    {
        let mut probe: Option<StringHashMap<String>> = if vars.is_some() {
            Some(StringHashMap::new())
        } else {
            None
        };
        proof {
            lemma_match_string_error_indep(self@, s@, vars_view(&probe), vars_view(vars));
        }
        match self.match_string_checked(s, &mut probe) {
            Err(e) => Err(e),
            Ok(_) => Ok(self.match_string(s, vars)),
        }
    }
}

} // verus!
