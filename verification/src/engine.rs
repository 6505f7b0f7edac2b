//! The calls into the `regex` and `substring` crates and into std's Unicode
//! case mapping. Each function here is trusted: Verus believes its contract.
use vstd::prelude::*;
use vstd::utf8::encode_utf8;
use crate::text::is_substring;
use substring::Substring;

verus! {

#[verifier::external_type_specification]
#[verifier::external_body]
pub struct ExRegex(regex::Regex);

// ---------------------------------------------------------------------------
// Names for what the regex engine computes
// ---------------------------------------------------------------------------

/// Whether `RegexBuilder::new(source).case_insensitive(ci).build()` succeeds.
pub uninterp spec fn regex_compiles(source: Seq<char>, case_insensitive: bool) -> bool;

/// The byte range of the leftmost-first match of the compiled `source` in `hay`
/// (`Regex::find`), or `None`.
pub uninterp spec fn regex_first_match(
    source: Seq<char>,
    case_insensitive: bool,
    hay: Seq<char>,
) -> Option<(int, int)>;

/// The capture groups of the leftmost-first match of the compiled `source` in
/// `hay` (`Regex::captures`), group 0 first; a group that took no part is `None`.
pub uninterp spec fn regex_captures(
    source: Seq<char>,
    case_insensitive: bool,
    hay: Seq<char>,
) -> Option<Seq<Option<Seq<char>>>>;

/// The successive non-overlapping matches of `Regex::new(source)` in `hay`
/// (`Regex::find_iter`): byte start, byte end and matched text of each.
pub uninterp spec fn regex_find_all(source: Seq<char>, hay: Seq<char>) -> Seq<(int, int, Seq<char>)>;

/// What `str::to_uppercase` gives for `s` (Unicode upper-case mapping).
pub uninterp spec fn to_upper(s: Seq<char>) -> Seq<char>;

// ---------------------------------------------------------------------------
// A compiled regex that remembers what it was compiled from
// ---------------------------------------------------------------------------

/// A regex together with the source and case flag it was compiled from. The
/// only way to make one is `compile_regex`, which keeps the three in step.
pub struct CompiledRegex {
    source: String,
    case_insensitive: bool,
    re: regex::Regex,
}

impl View for CompiledRegex {
    type V = (Seq<char>, bool);

    closed spec fn view(&self) -> (Seq<char>, bool) {
        (self.source@, self.case_insensitive)
    }
}

/// Calls `RegexBuilder::new(source).case_insensitive(ci).build()`. Claims that it
/// gives a regex exactly when `regex_compiles(source, ci)` holds, and that the
/// regex it gives was compiled from `source` with that flag.
#[verifier::external_body]
pub(crate) fn compile_regex(source: &str, case_insensitive: bool) -> (r: Option<CompiledRegex>)
    ensures
        r is Some <==> regex_compiles(source@, case_insensitive),
        r matches Some(c) ==> c@ == (source@, case_insensitive),
{
    match regex::RegexBuilder::new(source).case_insensitive(case_insensitive).build() {
        Ok(re) => Some(CompiledRegex { source: source.to_string(), case_insensitive, re }),
        Err(_) => None,
    }
}

/// Calls `Regex::clone`; claims that the copy keeps the source and flag.
#[verifier::external_body]
pub(crate) fn clone_regex(r: &CompiledRegex) -> (c: CompiledRegex)
    ensures
        c@ == r@,
{
    CompiledRegex { source: r.source.clone(), case_insensitive: r.case_insensitive, re: r.re.clone() }
}

/// Calls `Regex::find`. Claims that the byte range it gives is
/// `regex_first_match` of the regex's source and flag on `hay`, and, as
/// `Match` documents, that it runs forwards within the haystack.
#[verifier::external_body]
pub(crate) fn regex_find(r: &CompiledRegex, hay: &str) -> (m: Option<(usize, usize)>)
    ensures
        match m {
            None => regex_first_match(r@.0, r@.1, hay@) is None,
            Some((a, b)) => regex_first_match(r@.0, r@.1, hay@) == Some((a as int, b as int)),
        },
        m matches Some((a, b)) ==> a <= b <= encode_utf8(hay@).len(),
{
    r.re.find(hay).map(|m| (m.start(), m.end()))
}

/// The view of the groups that `regex_captures_of` hands back.
pub open spec fn groups_view(v: Vec<Option<String>>) -> Seq<Option<Seq<char>>> {
    v@.map_values(|g: Option<String>| match g {
        Some(s) => Some(s@),
        None => None,
    })
}

/// Calls `Regex::captures` and hands back the text of each group. Claims that
/// the groups are `regex_captures` of the regex's source and flag on `hay`;
/// that there are some exactly when `Regex::find` finds a match (both look
/// for the same leftmost-first match); that group 0 is always there and is
/// the text of that match, as the crate documents for `Captures::len` and
/// `Captures::get`; and that each group that took part is a run of the
/// characters of `hay` (`Match::as_str` slices the haystack).
#[verifier::external_body]
pub(crate) fn regex_captures_of(r: &CompiledRegex, hay: &str) -> (c: Option<Vec<Option<String>>>)
    ensures
        match c {
            None => regex_captures(r@.0, r@.1, hay@) is None,
            Some(v) => regex_captures(r@.0, r@.1, hay@) == Some(groups_view(v)),
        },
        c is Some <==> regex_first_match(r@.0, r@.1, hay@) is Some,
        c matches Some(v) ==> v.len() >= 1,
        c matches Some(v) ==> (v@[0] matches Some(g0) && regex_first_match(r@.0, r@.1, hay@) matches Some(
            (a, b),
        ) && encode_utf8(g0@) == encode_utf8(hay@).subrange(a, b)),
        c matches Some(v) ==> forall|i: int|
            0 <= i < v.len() && #[trigger] v@[i] is Some ==> is_substring(v@[i]->Some_0@, hay@),
{
    r.re.captures(hay).map(
        |caps| caps.iter().map(|g| g.map(|m| m.as_str().to_string())).collect(),
    )
}

/// One match of `regex_find_all_of`: byte start, byte end and matched text.
pub struct RegexMatch {
    pub start: usize,
    pub end: usize,
    pub text: String,
}

/// The view of the matches that `regex_find_all_of` hands back.
pub open spec fn matches_view(v: Vec<RegexMatch>) -> Seq<(int, int, Seq<char>)> {
    v@.map_values(|m: RegexMatch| (m.start as int, m.end as int, m.text@))
}

/// Calls `Regex::new(source)` and then `Regex::find_iter` on `hay`. Claims that it
/// gives matches exactly when `regex_compiles(source, false)` holds (`Regex::new`
/// is `RegexBuilder::new(source).build()`), and that they are `regex_find_all`;
/// and, as the crate documents for `find_iter` and `Match`, that the matches
/// come in order without overlapping, each within the haystack, each text
/// being the haystack's bytes between its offsets.
#[verifier::external_body]
pub(crate) fn regex_find_all_of(source: &str, hay: &str) -> (r: Option<Vec<RegexMatch>>)
    ensures
        r is Some <==> regex_compiles(source@, false),
        r matches Some(v) ==> matches_view(v) == regex_find_all(source@, hay@),
        r matches Some(v) ==> forall|i: int|
            0 <= i < v.len() ==> #[trigger] v@[i].start <= v@[i].end <= encode_utf8(hay@).len()
                && encode_utf8(v@[i].text@) == encode_utf8(hay@).subrange(
                v@[i].start as int,
                v@[i].end as int,
            ),
        r matches Some(v) ==> forall|i: int, j: int|
            0 <= i < j < v.len() ==> #[trigger] v@[i].end <= #[trigger] v@[j].start,
{
    match regex::Regex::new(source) {
        Ok(re) => Some(
            re.find_iter(hay).map(
                |m| RegexMatch { start: m.start(), end: m.end(), text: m.as_str().to_string() },
            ).collect(),
        ),
        Err(_) => None,
    }
}

// ---------------------------------------------------------------------------
// regex::escape
// ---------------------------------------------------------------------------

/// The characters that `regex::escape` puts a backslash before
/// (`regex_syntax::is_meta_character`).
pub open spec fn is_meta_char(c: char) -> bool {
    c == '\\' || c == '.' || c == '+' || c == '*' || c == '?' || c == '(' || c == ')' || c
        == '|' || c == '[' || c == ']' || c == '{' || c == '}' || c == '^' || c == '$' || c
        == '#' || c == '&' || c == '-' || c == '~'
}

/// `s` with a backslash before each meta character.
pub open spec fn escape_spec(s: Seq<char>) -> Seq<char>
    decreases s.len(),
{
    if s.len() == 0 {
        Seq::empty()
    } else {
        escape_spec(s.drop_last()) + if is_meta_char(s.last()) {
            seq!['\\', s.last()]
        } else {
            seq![s.last()]
        }
    }
}

/// Calls `regex::escape`, which walks the characters of `s` and writes a
/// backslash before each meta character.
#[verifier::external_body]
pub(crate) fn regex_escape(s: &str) -> (r: String)
    ensures
        r@ == escape_spec(s@),
{
    regex::escape(s)
}

// ---------------------------------------------------------------------------
// substring::Substring
// ---------------------------------------------------------------------------

/// What `s.substring(start, end)` gives: the characters from index `start` to
/// index `end`, both clamped to the length, and nothing when `end <= start`.
pub open spec fn substring_spec(s: Seq<char>, start: int, end: int) -> Seq<char> {
    if end <= start {
        Seq::empty()
    } else {
        s.subrange(
            if start < s.len() {
                start
            } else {
                s.len() as int
            },
            if end < s.len() {
                end
            } else {
                s.len() as int
            },
        )
    }
}

/// Calls `Substring::substring`, which counts in characters (not bytes).
#[verifier::external_body]
pub(crate) fn substring_of(s: &str, start: usize, end: usize) -> (r: String)
    ensures
        r@ == substring_spec(s@, start as int, end as int),
{
    s.substring(start, end).to_string()
}

// ---------------------------------------------------------------------------
// str::to_uppercase
// ---------------------------------------------------------------------------

/// Calls `str::to_uppercase`; claims only that it gives `to_upper(s)`.
#[verifier::external_body]
pub(crate) fn uppercase_of(s: &str) -> (r: String)
    ensures
        r@ == to_upper(s@),
{
    s.to_uppercase()
}

} // verus!
