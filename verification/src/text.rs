//! Character-sequence operations on paths: splitting on a separator, trimming,
//! prefix and suffix tests. Every `&str` and `String` is seen through its view,
//! the sequence of its characters.
use vstd::prelude::*;

verus! {

/// Whether `c` has the Unicode `White_Space` property, as `char::is_whitespace`
/// decides it: the controls U+0009 to U+000D, the space, U+0085, the no-break
/// space, U+1680, U+2000 to U+200A, the line and paragraph separators,
/// U+202F, U+205F and U+3000.
pub open spec fn is_white_space(c: char) -> bool {
    let n = c as u32;
    ||| 0x09 <= n <= 0x0d
    ||| n == 0x20
    ||| n == 0x85
    ||| n == 0xa0
    ||| n == 0x1680
    ||| 0x2000 <= n <= 0x200a
    ||| n == 0x2028
    ||| n == 0x2029
    ||| n == 0x202f
    ||| n == 0x205f
    ||| n == 0x3000
}

/// Calls `char::is_whitespace`, which answers whether `c` has the Unicode
/// `White_Space` property; claims that it answers `is_white_space(c)`.
#[verifier::external_body]
pub(crate) fn char_is_whitespace(c: char) -> (r: bool)
    ensures
        r == is_white_space(c),
{
    c.is_whitespace()
}

/// Calls `String::from_iter` on the characters of `v`; claims that the string
/// holds exactly those characters, in order.
#[verifier::external_body]
pub(crate) fn string_of(v: &Vec<char>) -> (s: String)
    ensures
        s@ == v@,
{
    String::from_iter(v.iter())
}

/// The number of bytes of `s` (`str::len`), which is the length of its UTF-8 encoding.
pub fn byte_len(s: &str) -> (n: usize)
    ensures
        n as int == vstd::utf8::encode_utf8(s@).len(),
{
    broadcast use vstd::slice::group_slice_axioms;
    s.as_bytes().len()
}

/// The characters of `s`, in order.
pub fn chars_of(s: &str) -> (v: Vec<char>)
    ensures
        v@ == s@,
{
    let mut v: Vec<char> = Vec::new();
    for c in it: s.chars()
        invariant
            v@ == it.seq().take(it.index() as int),
    {
        v.push(c);
    }
    v
}

// ---------------------------------------------------------------------------
// Trimming
// ---------------------------------------------------------------------------

/// Which characters a trim removes: white space, or one given character.
pub open spec fn trimmed_char(c: char, only: Option<char>) -> bool {
    match only {
        None => is_white_space(c),
        Some(x) => c == x,
    }
}

/// Number of removable characters at the front of `s`.
pub open spec fn lead_count(s: Seq<char>, only: Option<char>) -> nat
    decreases s.len(),
{
    if s.len() == 0 || !trimmed_char(s[0], only) {
        0
    } else {
        1 + lead_count(s.drop_first(), only)
    }
}

/// Number of removable characters at the back of `s`.
pub open spec fn trail_count(s: Seq<char>, only: Option<char>) -> nat
    decreases s.len(),
{
    if s.len() == 0 || !trimmed_char(s.last(), only) {
        0
    } else {
        1 + trail_count(s.drop_last(), only)
    }
}

/// `s` with every removable character at either end taken off
/// (`str::trim` for white space, `str::trim_matches(c)` for one character).
pub open spec fn trim_spec(s: Seq<char>, only: Option<char>) -> Seq<char> {
    if lead_count(s, only) >= s.len() {
        Seq::empty()
    } else {
        s.subrange(lead_count(s, only) as int, s.len() - trail_count(s, only))
    }
}

proof fn lemma_lead_count(s: Seq<char>, only: Option<char>, i: int)
    requires
        0 <= i <= s.len(),
        forall|k: int| 0 <= k < i ==> trimmed_char(#[trigger] s[k], only),
        i == s.len() || !trimmed_char(s[i], only),
    ensures
        lead_count(s, only) == i,
    decreases i,
{
    if i > 0 {
        lemma_lead_count(s.drop_first(), only, i - 1);
    }
}

proof fn lemma_trail_count(s: Seq<char>, only: Option<char>, j: int)
    requires
        0 <= j <= s.len(),
        forall|k: int| j <= k < s.len() ==> trimmed_char(#[trigger] s[k], only),
        j == 0 || !trimmed_char(s[j - 1], only),
    ensures
        trail_count(s, only) == s.len() - j,
    decreases s.len() - j,
{
    if j < s.len() {
        lemma_trail_count(s.drop_last(), only, j);
    }
}

fn is_trimmed_char(c: char, only: Option<char>) -> (r: bool)
    ensures
        r == trimmed_char(c, only),
{
    match only {
        None => char_is_whitespace(c),
        Some(x) => c == x,
    }
}

/// Removes the removable characters at both ends of `v`.
pub fn trim_chars(v: &Vec<char>, only: Option<char>) -> (r: Vec<char>)
    ensures
        r@ == trim_spec(v@, only),
{
    let n = v.len();
    let mut i: usize = 0;
    while i < n && is_trimmed_char(v[i], only)
        invariant
            i <= n == v.len(),
            forall|k: int| 0 <= k < i ==> trimmed_char(#[trigger] v@[k], only),
        decreases n - i,
    {
        i = i + 1;
    }
    proof {
        lemma_lead_count(v@, only, i as int);
    }
    if i == n {
        return Vec::new();
    }
    let mut j: usize = n;
    while j > i && is_trimmed_char(v[j - 1], only)
        invariant
            i < n == v.len(),
            i <= j <= n,
            !trimmed_char(v@[i as int], only),
            forall|k: int| j <= k < n ==> trimmed_char(#[trigger] v@[k], only),
        decreases j,
    {
        j = j - 1;
    }
    proof {
        lemma_trail_count(v@, only, j as int);
    }
    let mut r: Vec<char> = Vec::new();
    let mut k: usize = i;
    while k < j
        invariant
            i <= k <= j <= n == v.len(),
            r@ == v@.subrange(i as int, k as int),
        decreases j - k,
    {
        r.push(v[k]);
        k = k + 1;
        assert(r@ == v@.subrange(i as int, k as int));
    }
    r
}

// ---------------------------------------------------------------------------
// Prefixes, suffixes, equality, search
// ---------------------------------------------------------------------------

/// Whether `v` begins with `p`.
pub fn starts_with(v: &Vec<char>, p: &Vec<char>) -> (r: bool)
    ensures
        r == p@.is_prefix_of(v@),
{
    if p.len() > v.len() {
        return false;
    }
    let mut i: usize = 0;
    while i < p.len()
        invariant
            p.len() <= v.len(),
            i <= p.len(),
            forall|k: int| 0 <= k < i ==> p@[k] == v@[k],
        decreases p.len() - i,
    {
        if p[i] != v[i] {
            return false;
        }
        i = i + 1;
    }
    true
}

/// Whether `v` ends with `p`.
pub fn ends_with(v: &Vec<char>, p: &Vec<char>) -> (r: bool)
    ensures
        r == p@.is_suffix_of(v@),
{
    if p.len() > v.len() {
        return false;
    }
    let off = v.len() - p.len();
    let mut i: usize = 0;
    while i < p.len()
        invariant
            p.len() <= v.len(),
            off == v.len() - p.len(),
            i <= p.len(),
            forall|k: int| 0 <= k < i ==> p@[k] == v@[off + k],
        decreases p.len() - i,
    {
        if p[i] != v[off + i] {
            return false;
        }
        i = i + 1;
    }
    assert(v@.subrange(off as int, v.len() as int) =~= p@);
    true
}

/// Whether `a` and `b` hold the same characters.
pub fn chars_eq(a: &Vec<char>, b: &Vec<char>) -> (r: bool)
    ensures
        r == (a@ == b@),
{
    if a.len() != b.len() {
        return false;
    }
    let mut i: usize = 0;
    while i < a.len()
        invariant
            a.len() == b.len(),
            i <= a.len(),
            forall|k: int| 0 <= k < i ==> a@[k] == b@[k],
        decreases a.len() - i,
    {
        if a[i] != b[i] {
            return false;
        }
        i = i + 1;
    }
    assert(a@ =~= b@);
    true
}

/// Appends the characters of `s` to `v`.
pub fn push_all(v: &mut Vec<char>, s: &Vec<char>)
    ensures
        final(v)@ == old(v)@ + s@,
{
    let mut i: usize = 0;
    let ghost v0 = v@;
    while i < s.len()
        invariant
            i <= s.len(),
            v@ == v0 + s@.take(i as int),
        decreases s.len() - i,
    {
        v.push(s[i]);
        i = i + 1;
        assert(v@ =~= v0 + s@.take(i as int));
    }
    assert(s@.take(s.len() as int) =~= s@);
}

/// Whether `c` occurs in `s`.
pub fn contains_char(v: &Vec<char>, c: char) -> (r: bool)
    ensures
        r == v@.contains(c),
{
    let mut i: usize = 0;
    while i < v.len()
        invariant
            i <= v.len(),
            forall|k: int| 0 <= k < i ==> v@[k] != c,
        decreases v.len() - i,
    {
        if v[i] == c {
            return true;
        }
        i = i + 1;
    }
    false
}

/// `sep` stands in `s` at index `i`.
pub open spec fn occurs_at(s: Seq<char>, sep: Seq<char>, i: int) -> bool {
    0 <= i && i + sep.len() <= s.len() && s.subrange(i, i + sep.len()) == sep
}

/// The leftmost index at or after `from` where `sep` stands in `s`, or -1.
pub open spec fn find_from(s: Seq<char>, sep: Seq<char>, from: int) -> int
    decreases s.len() + 1 - from,
{
    if from < 0 || from + sep.len() > s.len() {
        -1
    } else if occurs_at(s, sep, from) {
        from
    } else {
        find_from(s, sep, from + 1)
    }
}

pub proof fn lemma_find_from_bounds(s: Seq<char>, sep: Seq<char>, from: int)
    ensures
        find_from(s, sep, from) == -1 || (from <= find_from(s, sep, from) && occurs_at(
            s,
            sep,
            find_from(s, sep, from),
        )),
    decreases s.len() + 1 - from,
{
    if !(from < 0 || from + sep.len() > s.len()) && !occurs_at(s, sep, from) {
        lemma_find_from_bounds(s, sep, from + 1);
    }
}

proof fn lemma_find_from_skip(s: Seq<char>, sep: Seq<char>, from: int, to: int)
    requires
        0 <= from <= to,
        forall|k: int| from <= k < to ==> !occurs_at(s, sep, k),
    ensures
        find_from(s, sep, from) == find_from(s, sep, to),
    decreases to - from,
{
    if from < to {
        lemma_find_from_skip(s, sep, from + 1, to);
        if from + sep.len() > s.len() {
            assert(find_from(s, sep, to) == -1);
        }
    }
}

/// Index of the leftmost occurrence of `sep` in `s` at or after `from`, if any.
pub fn find_sep(s: &Vec<char>, sep: &Vec<char>, from: usize) -> (r: Option<usize>)
    requires
        from <= s.len(),
        sep.len() > 0,
    ensures
        match r {
            Some(i) => i as int == find_from(s@, sep@, from as int),
            None => find_from(s@, sep@, from as int) == -1,
        },
{
    let n = s.len();
    let m = sep.len();
    if m > n {
        return None;
    }
    let mut j: usize = from;
    while j <= n - m
        invariant
            from <= j,
            n == s.len(),
            m == sep.len(),
            0 < m <= n,
            forall|k: int| from <= k < j ==> !occurs_at(s@, sep@, k),
        decreases n - j,
    {
        let mut t: usize = 0;
        let mut ok = true;
        while t < m
            invariant
                j + m <= n == s.len(),
                m == sep.len(),
                t <= m,
                ok ==> forall|q: int| 0 <= q < t ==> s@[j + q] == sep@[q],
                !ok ==> !occurs_at(s@, sep@, j as int),
            decreases m - t,
        {
            if s[j + t] != sep[t] {
                ok = false;
                assert(s@.subrange(j as int, j + m)[t as int] == s@[j + t]);
            }
            t = t + 1;
        }
        if ok {
            assert(s@.subrange(j as int, j + m) =~= sep@);
            proof {
                lemma_find_from_skip(s@, sep@, from as int, j as int);
            }
            return Some(j);
        }
        j = j + 1;
    }
    proof {
        lemma_find_from_skip(s@, sep@, from as int, j as int);
    }
    None
}

// ---------------------------------------------------------------------------
// Splitting and tokenizing
// ---------------------------------------------------------------------------

/// The pieces of `s[start..]` between occurrences of a non-empty `sep`
/// (`str::split` with a string pattern).
pub open spec fn split_from(s: Seq<char>, sep: Seq<char>, start: int) -> Seq<Seq<char>>
    decreases s.len() - start,
{
    let i = find_from(s, sep, start);
    if sep.len() == 0 || start < 0 || start > s.len() || i < 0 {
        seq![s.subrange(start, s.len() as int)]
    } else {
        proof {
            lemma_find_from_bounds(s, sep, start);
        }
        seq![s.subrange(start, i)] + split_from(s, sep, i + sep.len())
    }
}

/// The pieces that `str::split` gives of `s` on `sep`: for an empty `sep`,
/// an empty piece, then each character, then an empty piece.
pub open spec fn split_spec(s: Seq<char>, sep: Seq<char>) -> Seq<Seq<char>> {
    if sep.len() == 0 {
        seq![Seq::<char>::empty()] + s.map_values(|c: char| seq![c]) + seq![Seq::<char>::empty()]
    } else {
        split_from(s, sep, 0)
    }
}

/// A piece as a token: trimmed of white space when `trim` is set.
pub open spec fn clean_piece(p: Seq<char>, trim: bool) -> Seq<char> {
    if trim {
        trim_spec(p, None)
    } else {
        p
    }
}

/// The non-empty cleaned pieces of `pieces`, in order.
pub open spec fn tokens_of(pieces: Seq<Seq<char>>, trim: bool) -> Seq<Seq<char>>
    decreases pieces.len(),
{
    if pieces.len() == 0 {
        Seq::empty()
    } else {
        let rest = tokens_of(pieces.drop_last(), trim);
        let c = clean_piece(pieces.last(), trim);
        if c.len() > 0 {
            rest.push(c)
        } else {
            rest
        }
    }
}

/// The tokens of a path: its pieces between separators, trimmed when `trim`
/// is set, without the empty ones; an empty path has none.
pub open spec fn tokenize_spec(s: Seq<char>, sep: Seq<char>, trim: bool) -> Seq<Seq<char>> {
    if s.len() == 0 {
        Seq::empty()
    } else {
        tokens_of(split_spec(s, sep), trim)
    }
}

proof fn lemma_tokens_of_push(pieces: Seq<Seq<char>>, p: Seq<char>, trim: bool)
    ensures
        tokens_of(pieces.push(p), trim) == (if clean_piece(p, trim).len() > 0 {
            tokens_of(pieces, trim).push(clean_piece(p, trim))
        } else {
            tokens_of(pieces, trim)
        }),
{
    assert(pieces.push(p).drop_last() =~= pieces);
}

proof fn lemma_split_from_unfold(s: Seq<char>, sep: Seq<char>, start: int)
    requires
        sep.len() > 0,
        0 <= start <= s.len(),
    ensures
        find_from(s, sep, start) >= 0 ==> start <= find_from(s, sep, start) && find_from(
            s,
            sep,
            start,
        ) + sep.len() <= s.len() && split_from(s, sep, start) == seq![
            s.subrange(start, find_from(s, sep, start)),
        ] + split_from(s, sep, find_from(s, sep, start) + sep.len()),
        find_from(s, sep, start) < 0 ==> split_from(s, sep, start) == seq![
            s.subrange(start, s.len() as int),
        ],
{
    lemma_find_from_bounds(s, sep, start);
}

/// Whether `t` stands in `s` as a run of consecutive characters.
pub open spec fn is_substring(t: Seq<char>, s: Seq<char>) -> bool {
    exists|i: int, j: int| 0 <= i <= j <= s.len() && #[trigger] s.subrange(i, j) == t
}

/// A run of a run of `s` is a run of `s`.
pub proof fn lemma_substring_trans(u: Seq<char>, t: Seq<char>, s: Seq<char>)
    requires
        is_substring(u, t),
        is_substring(t, s),
    ensures
        is_substring(u, s),
{
    let (a, b) = choose|a: int, b: int| 0 <= a <= b <= t.len() && #[trigger] t.subrange(a, b) == u;
    let (i, j) = choose|i: int, j: int| 0 <= i <= j <= s.len() && #[trigger] s.subrange(i, j) == t;
    assert(s.subrange(i + a, i + b) =~= u);
}

proof fn lemma_lead_facts(s: Seq<char>, only: Option<char>)
    ensures
        lead_count(s, only) <= s.len(),
        lead_count(s, only) < s.len() ==> !trimmed_char(s[lead_count(s, only) as int], only),
    decreases s.len(),
{
    if s.len() > 0 && trimmed_char(s[0], only) {
        lemma_lead_facts(s.drop_first(), only);
    }
}

proof fn lemma_trail_facts(s: Seq<char>, only: Option<char>)
    ensures
        trail_count(s, only) <= s.len(),
        forall|k: int| s.len() - trail_count(s, only) <= k < s.len() ==> trimmed_char(#[trigger] s[k], only),
        trail_count(s, only) < s.len() ==> !trimmed_char(s[s.len() - trail_count(s, only) - 1], only),
    decreases s.len(),
{
    if s.len() > 0 && trimmed_char(s.last(), only) {
        lemma_trail_facts(s.drop_last(), only);
        if trail_count(s, only) < s.len() {
            assert(s[s.len() - trail_count(s, only) - 1] == s.drop_last()[s.drop_last().len() - trail_count(s.drop_last(), only) - 1]);
        }
        assert forall|k: int| s.len() - trail_count(s, only) <= k < s.len() implies trimmed_char(#[trigger] s[k], only) by {
            if k < s.len() - 1 {
                assert(s[k] == s.drop_last()[k]);
            }
        }
    }
}

/// Trimming keeps a run of the characters.
pub proof fn lemma_trim_substring(p: Seq<char>, only: Option<char>)
    ensures
        is_substring(trim_spec(p, only), p),
{
    lemma_lead_facts(p, only);
    lemma_trail_facts(p, only);
    let i = lead_count(p, only) as int;
    if i >= p.len() {
        assert(p.subrange(0, 0) =~= trim_spec(p, only));
    } else {
        let j = p.len() - trail_count(p, only);
        if j <= i {
            assert(trimmed_char(p[i], only));
        }
        assert(p.subrange(i, j) == trim_spec(p, only));
    }
}

proof fn lemma_split_from_substrings(s: Seq<char>, sep: Seq<char>, start: int)
    requires
        sep.len() > 0,
        0 <= start <= s.len(),
    ensures
        forall|p: int| 0 <= p < split_from(s, sep, start).len() ==> is_substring(#[trigger] split_from(s, sep, start)[p], s),
    decreases s.len() - start,
{
    lemma_split_from_unfold(s, sep, start);
    let i = find_from(s, sep, start);
    if i >= 0 {
        lemma_split_from_substrings(s, sep, i + sep.len());
        let rest = split_from(s, sep, i + sep.len());
        assert forall|p: int| 0 <= p < split_from(s, sep, start).len() implies is_substring(#[trigger] split_from(s, sep, start)[p], s) by {
            if p == 0 {
                assert(s.subrange(start, i) == split_from(s, sep, start)[p]);
            } else {
                assert(split_from(s, sep, start)[p] == rest[p - 1]);
            }
        }
    } else {
        assert(s.subrange(start, s.len() as int) == split_from(s, sep, start)[0]);
    }
}

proof fn lemma_split_substrings(s: Seq<char>, sep: Seq<char>)
    ensures
        forall|p: int| 0 <= p < split_spec(s, sep).len() ==> is_substring(#[trigger] split_spec(s, sep)[p], s),
{
    if sep.len() == 0 {
        let pieces = split_spec(s, sep);
        assert forall|p: int| 0 <= p < pieces.len() implies is_substring(#[trigger] pieces[p], s) by {
            if p == 0 || p == pieces.len() - 1 {
                assert(s.subrange(0, 0) =~= pieces[p]);
            } else {
                assert(s.subrange(p - 1, p) =~= pieces[p]);
            }
        }
    } else {
        lemma_split_from_substrings(s, sep, 0);
    }
}

proof fn lemma_tokens_of_substrings(pieces: Seq<Seq<char>>, trim: bool, s: Seq<char>)
    requires
        forall|p: int| 0 <= p < pieces.len() ==> is_substring(#[trigger] pieces[p], s),
    ensures
        forall|d: int| 0 <= d < tokens_of(pieces, trim).len() ==> is_substring(#[trigger] tokens_of(pieces, trim)[d], s),
    decreases pieces.len(),
{
    if pieces.len() > 0 {
        let rest = pieces.drop_last();
        assert forall|p: int| 0 <= p < rest.len() implies is_substring(#[trigger] rest[p], s) by {
            assert(rest[p] == pieces[p]);
        }
        lemma_tokens_of_substrings(rest, trim, s);
        let last = pieces.last();
        assert(is_substring(last, s)) by {
            assert(last == pieces[pieces.len() - 1]);
        }
        if trim {
            lemma_trim_substring(last, None);
            lemma_substring_trans(clean_piece(last, trim), last, s);
        }
        let toks = tokens_of(pieces, trim);
        let before = tokens_of(rest, trim);
        assert forall|d: int| 0 <= d < toks.len() implies is_substring(#[trigger] toks[d], s) by {
            if d < before.len() {
                assert(toks[d] == before[d]);
            } else {
                assert(toks[d] == clean_piece(last, trim));
            }
        }
    }
}

/// Each token of a path is a run of the path's characters.
pub proof fn law_tokens_are_substrings(s: Seq<char>, sep: Seq<char>, trim: bool)
    ensures
        forall|d: int| 0 <= d < tokenize_spec(s, sep, trim).len() ==> is_substring(#[trigger] tokenize_spec(s, sep, trim)[d], s),
{
    if s.len() > 0 {
        lemma_split_substrings(s, sep);
        lemma_tokens_of_substrings(split_spec(s, sep), trim, s);
    }
}

proof fn lemma_find_from_first(s: Seq<char>, sep: Seq<char>, from: int)
    requires
        0 <= from,
    ensures
        forall|k: int| from <= k && (find_from(s, sep, from) < 0 || k < find_from(s, sep, from)) ==> !occurs_at(s, sep, k),
    decreases s.len() + 1 - from,
{
    if !(from + sep.len() > s.len()) && !occurs_at(s, sep, from) {
        lemma_find_from_first(s, sep, from + 1);
    }
}

proof fn lemma_run_without_sep(s: Seq<char>, sep: Seq<char>, i: int, j: int)
    requires
        sep.len() > 0,
        0 <= i <= j <= s.len(),
        forall|k: int| i <= k && k + sep.len() <= j ==> !occurs_at(s, sep, k),
    ensures
        !is_substring(sep, s.subrange(i, j)),
{
    let p = s.subrange(i, j);
    if is_substring(sep, p) {
        let (a, b) = choose|a: int, b: int| 0 <= a <= b <= p.len() && #[trigger] p.subrange(a, b) == sep;
        assert(s.subrange(i + a, i + a + sep.len()) =~= p.subrange(a, b));
        assert(occurs_at(s, sep, i + a));
    }
}

proof fn lemma_split_from_no_sep(s: Seq<char>, sep: Seq<char>, start: int)
    requires
        sep.len() > 0,
        0 <= start <= s.len(),
    ensures
        forall|p: int| 0 <= p < split_from(s, sep, start).len() ==> !is_substring(sep, #[trigger] split_from(s, sep, start)[p]),
    decreases s.len() - start,
{
    lemma_split_from_unfold(s, sep, start);
    lemma_find_from_first(s, sep, start);
    let i = find_from(s, sep, start);
    if i >= 0 {
        lemma_split_from_no_sep(s, sep, i + sep.len());
        lemma_run_without_sep(s, sep, start, i);
        let rest = split_from(s, sep, i + sep.len());
        assert forall|p: int| 0 <= p < split_from(s, sep, start).len() implies !is_substring(sep, #[trigger] split_from(s, sep, start)[p]) by {
            if p > 0 {
                assert(split_from(s, sep, start)[p] == rest[p - 1]);
            }
        }
    } else {
        lemma_run_without_sep(s, sep, start, s.len() as int);
    }
}

proof fn lemma_tokens_of_no_sep(pieces: Seq<Seq<char>>, trim: bool, sep: Seq<char>)
    requires
        forall|p: int| 0 <= p < pieces.len() ==> !is_substring(sep, #[trigger] pieces[p]),
    ensures
        forall|d: int| 0 <= d < tokens_of(pieces, trim).len() ==> !is_substring(sep, #[trigger] tokens_of(pieces, trim)[d]),
    decreases pieces.len(),
{
    if pieces.len() > 0 {
        let rest = pieces.drop_last();
        assert forall|p: int| 0 <= p < rest.len() implies !is_substring(sep, #[trigger] rest[p]) by {
            assert(rest[p] == pieces[p]);
        }
        lemma_tokens_of_no_sep(rest, trim, sep);
        let last = pieces.last();
        assert(!is_substring(sep, last)) by {
            assert(last == pieces[pieces.len() - 1]);
        }
        if trim {
            lemma_trim_substring(last, None);
            if is_substring(sep, clean_piece(last, trim)) {
                lemma_substring_trans(sep, clean_piece(last, trim), last);
            }
        }
        let toks = tokens_of(pieces, trim);
        let before = tokens_of(rest, trim);
        assert forall|d: int| 0 <= d < toks.len() implies !is_substring(sep, #[trigger] toks[d]) by {
            if d < before.len() {
                assert(toks[d] == before[d]);
            } else {
                assert(toks[d] == clean_piece(last, trim));
            }
        }
    }
}

/// With a non-empty separator, no token of a path holds the separator.
pub proof fn law_tokens_hold_no_separator(s: Seq<char>, sep: Seq<char>, trim: bool)
    requires
        sep.len() > 0,
    ensures
        forall|d: int| 0 <= d < tokenize_spec(s, sep, trim).len() ==> !is_substring(sep, #[trigger] tokenize_spec(s, sep, trim)[d]),
{
    if s.len() > 0 {
        lemma_split_from_no_sep(s, sep, 0);
        lemma_tokens_of_no_sep(split_spec(s, sep), trim, sep);
    }
}

proof fn lemma_find_from_none(s: Seq<char>, sep: Seq<char>, from: int)
    requires
        forall|k: int| from <= k ==> !occurs_at(s, sep, k),
    ensures
        find_from(s, sep, from) == -1,
    decreases s.len() + 1 - from,
{
    if !(from < 0 || from + sep.len() > s.len()) {
        lemma_find_from_none(s, sep, from + 1);
    }
}

/// `{name}`, for a `name` without braces, trimmed of `{` and then of `}` is
/// `name`; it holds no `:` when `name` holds none.
pub proof fn lemma_braced_name(name: Seq<char>)
    requires
        forall|j: int| 0 <= j < name.len() ==> name[j] != '{' && name[j] != '}',
    ensures
        trim_spec(trim_spec(seq!['{'] + name + seq!['}'], Some('{')), Some('}')) == name,
        (forall|j: int| 0 <= j < name.len() ==> name[j] != ':') ==> find_from(
            seq!['{'] + name + seq!['}'],
            seq![':'],
            0,
        ) == -1,
{
    let t = seq!['{'] + name + seq!['}'];
    let n = name.len() as int;
    assert(t.len() == n + 2);
    assert(t[0] == '{');
    assert(t[n + 1] == '}');
    assert forall|j: int| 0 <= j < n implies t[j + 1] == name[j] by {}
    lemma_lead_count(t, Some('{'), 1);
    lemma_trail_count(t, Some('{'), t.len() as int);
    let u = trim_spec(t, Some('{'));
    assert(u =~= name + seq!['}']);
    if n == 0 {
        lemma_lead_count(u, Some('}'), 1);
        assert(trim_spec(u, Some('}')) =~= name);
    } else {
        assert(u[0] == name[0]);
        lemma_lead_count(u, Some('}'), 0);
        assert(u[n - 1] == name[n - 1]);
        lemma_trail_count(u, Some('}'), n);
        assert(trim_spec(u, Some('}')) =~= name);
    }
    if forall|j: int| 0 <= j < name.len() ==> name[j] != ':' {
        assert forall|k: int| 0 <= k implies !occurs_at(t, seq![':'], k) by {
            if occurs_at(t, seq![':'], k) {
                assert(t.subrange(k, k + 1)[0] == t[k]);
                if 1 <= k <= n {
                    assert(t[k] == name[k - 1]);
                }
            }
        }
        lemma_find_from_none(t, seq![':'], 0);
    }
}

/// In `{name:re}`, for a `name` without `:`, the first `:` is the one right
/// after `name`.
pub proof fn lemma_first_colon(name: Seq<char>, re: Seq<char>)
    requires
        forall|j: int| 0 <= j < name.len() ==> name[j] != ':',
    ensures
        find_from(seq!['{'] + name + seq![':'] + re + seq!['}'], seq![':'], 0) == name.len() + 1,
{
    let t = seq!['{'] + name + seq![':'] + re + seq!['}'];
    let k: int = name.len() as int + 1;
    assert forall|i: int| 0 <= i < k implies !occurs_at(t, seq![':'], i) by {
        if occurs_at(t, seq![':'], i) {
            assert(t.subrange(i, i + 1)[0] == t[i]);
            if i >= 1 {
                assert(t[i] == name[i - 1]);
            }
        }
    }
    lemma_find_from_skip(t, seq![':'], 0, k);
    assert(t.subrange(k, k + 1) =~= seq![':']);
}

/// A trimmed piece that is not empty neither starts nor ends with a
/// character that trimming removes.
pub proof fn lemma_trim_ends(p: Seq<char>, only: Option<char>)
    ensures
        trim_spec(p, only).len() > 0 ==> !trimmed_char(trim_spec(p, only)[0], only) && !trimmed_char(
            trim_spec(p, only).last(),
            only,
        ),
{
    lemma_lead_facts(p, only);
    lemma_trail_facts(p, only);
    let i = lead_count(p, only) as int;
    if i < p.len() {
        let j = p.len() - trail_count(p, only);
        if j <= i {
            assert(trimmed_char(p[i], only));
        }
    }
}

proof fn lemma_tokens_of_trimmed(pieces: Seq<Seq<char>>)
    ensures
        forall|d: int| 0 <= d < tokens_of(pieces, true).len() ==> !is_white_space(#[trigger] tokens_of(pieces, true)[d][0])
            && !is_white_space(tokens_of(pieces, true)[d].last()),
    decreases pieces.len(),
{
    if pieces.len() > 0 {
        lemma_tokens_of_trimmed(pieces.drop_last());
        lemma_trim_ends(pieces.last(), None);
        let toks = tokens_of(pieces, true);
        let before = tokens_of(pieces.drop_last(), true);
        assert forall|d: int| 0 <= d < toks.len() implies !is_white_space(#[trigger] toks[d][0]) && !is_white_space(toks[d].last()) by {
            if d < before.len() {
                assert(toks[d] == before[d]);
            } else {
                assert(toks[d] == clean_piece(pieces.last(), true));
            }
        }
    }
}

/// With trimming on, no token starts or ends with white space.
pub proof fn law_trimmed_tokens_have_no_outer_space(s: Seq<char>, sep: Seq<char>)
    ensures
        forall|d: int| 0 <= d < tokenize_spec(s, sep, true).len() ==> !is_white_space(#[trigger] tokenize_spec(s, sep, true)[d][0])
            && !is_white_space(tokenize_spec(s, sep, true)[d].last()),
{
    if s.len() > 0 {
        lemma_tokens_of_trimmed(split_spec(s, sep));
    }
}

proof fn lemma_tokens_of_singletons(s: Seq<char>)
    ensures
        tokens_of(seq![Seq::<char>::empty()] + s.map_values(|c: char| seq![c]), false) == s.map_values(|c: char| seq![c]),
    decreases s.len(),
{
    let pieces = seq![Seq::<char>::empty()] + s.map_values(|c: char| seq![c]);
    if s.len() == 0 {
        assert(pieces.drop_last() =~= Seq::<Seq<char>>::empty());
        assert(pieces.last() =~= Seq::<char>::empty());
        assert(tokens_of(Seq::<Seq<char>>::empty(), false) == Seq::<Seq<char>>::empty());
        assert(s.map_values(|c: char| seq![c]) =~= Seq::<Seq<char>>::empty());
    } else {
        let s0 = s.drop_last();
        lemma_tokens_of_singletons(s0);
        assert(pieces.drop_last() =~= seq![Seq::<char>::empty()] + s0.map_values(|c: char| seq![c]));
        assert(pieces.last() == seq![s.last()]);
        assert(clean_piece(pieces.last(), false).len() == 1);
        assert(s.map_values(|c: char| seq![c]) =~= s0.map_values(|c: char| seq![c]).push(seq![s.last()]));
    }
}

/// With an empty separator and no trimming, the tokens of a path are its
/// characters, one token each, in order.
pub proof fn law_empty_separator_tokens(s: Seq<char>)
    ensures
        tokenize_spec(s, Seq::empty(), false).len() == s.len(),
        forall|i: int| 0 <= i < s.len() ==> #[trigger] tokenize_spec(s, Seq::empty(), false)[i] == seq![s[i]],
{
    if s.len() > 0 {
        let pieces = split_spec(s, Seq::empty());
        let mid = seq![Seq::<char>::empty()] + s.map_values(|c: char| seq![c]);
        assert(pieces == mid + seq![Seq::<char>::empty()]);
        assert(pieces.drop_last() =~= mid);
        lemma_tokens_of_singletons(s);
    } else {
        assert(tokenize_spec(s, Seq::empty(), false) =~= Seq::<Seq<char>>::empty());
    }
}

/// Appends the cleaned piece `piece` to `tokens` when it is not empty.
fn push_token(tokens: &mut Vec<String>, piece: Vec<char>, trim: bool)
    ensures
        final(tokens).deep_view() == (if clean_piece(piece@, trim).len() > 0 {
            old(tokens).deep_view().push(clean_piece(piece@, trim))
        } else {
            old(tokens).deep_view()
        }),
{
    let c = if trim {
        trim_chars(&piece, None)
    } else {
        piece
    };
    if c.len() > 0 {
        let s = string_of(&c);
        let ghost before = tokens.deep_view();
        tokens.push(s);
        assert(tokens.deep_view() =~= before.push(c@));
    }
}

/// Splits `s` on `sep`, trims the pieces when `trim` is set and keeps the
/// non-empty ones.
pub fn tokenize(s: &Vec<char>, sep: &Vec<char>, trim: bool) -> (tokens: Vec<String>)
    ensures
        tokens.deep_view() == tokenize_spec(s@, sep@, trim),
{
    let mut tokens: Vec<String> = Vec::new();
    if s.len() == 0 {
        assert(tokens.deep_view() =~= Seq::<Seq<char>>::empty());
        return tokens;
    }
    if sep.len() == 0 {
        let ghost pieces = split_spec(s@, sep@);
        let ghost mut done: Seq<Seq<char>> = seq![Seq::<char>::empty()];
        proof {
            assert(done.drop_last() =~= Seq::<Seq<char>>::empty());
            assert(lead_count(Seq::<char>::empty(), None) == 0);
            assert(clean_piece(Seq::<char>::empty(), trim) =~= Seq::<char>::empty());
            assert(tokens_of(Seq::<Seq<char>>::empty(), trim) =~= Seq::<Seq<char>>::empty());
            assert(done.last() == Seq::<char>::empty());
            assert(tokens.deep_view() =~= tokens_of(done, trim));
        }
        let mut i: usize = 0;
        while i < s.len()
            invariant
                i <= s.len(),
                done == seq![Seq::<char>::empty()] + s@.take(i as int).map_values(
                    |c: char| seq![c],
                ),
                tokens.deep_view() == tokens_of(done, trim),
            decreases s.len() - i,
        {
            let mut piece: Vec<char> = Vec::new();
            piece.push(s[i]);
            proof {
                lemma_tokens_of_push(done, piece@, trim);
            }
            push_token(&mut tokens, piece, trim);
            proof {
                done = done.push(seq![s@[i as int]]);
                assert(done =~= seq![Seq::<char>::empty()] + s@.take(i + 1).map_values(
                    |c: char| seq![c],
                ));
            }
            i = i + 1;
        }
        proof {
            lemma_tokens_of_push(done, Seq::<char>::empty(), trim);
            assert(s@.take(s.len() as int) =~= s@);
            assert(pieces =~= done.push(Seq::<char>::empty()));
            assert(clean_piece(Seq::<char>::empty(), trim) =~= Seq::<char>::empty()) by {
                if trim {
                    assert(lead_count(Seq::<char>::empty(), None) == 0);
                }
            }
        }
        return tokens;
    }
    let ghost mut done: Seq<Seq<char>> = Seq::empty();
    proof {
        assert(tokens.deep_view() =~= Seq::<Seq<char>>::empty());
        assert(done + split_from(s@, sep@, 0) =~= split_from(s@, sep@, 0));
    }
    let mut start: usize = 0;
    loop
        invariant
            start <= s.len(),
            sep.len() > 0,
            s.len() > 0,
            done + split_from(s@, sep@, start as int) == split_from(s@, sep@, 0),
            tokens.deep_view() == tokens_of(done, trim),
        decreases s.len() - start,
    {
        proof {
            lemma_split_from_unfold(s@, sep@, start as int);
        }
        match find_sep(s, sep, start) {
            Some(i) => {
                let mut piece: Vec<char> = Vec::new();
                let mut k: usize = start;
                while k < i
                    invariant
                        start <= k <= i,
                        i <= s.len(),
                        piece@ == s@.subrange(start as int, k as int),
                    decreases i - k,
                {
                    piece.push(s[k]);
                    k = k + 1;
                    assert(piece@ =~= s@.subrange(start as int, k as int));
                }
                proof {
                    lemma_tokens_of_push(done, piece@, trim);
                    assert(done.push(piece@) + split_from(s@, sep@, i + sep.len()) =~= done + (
                    seq![piece@] + split_from(s@, sep@, i + sep.len())));
                    done = done.push(piece@);
                }
                push_token(&mut tokens, piece, trim);
                start = i + sep.len();
            },
            None => {
                let mut piece: Vec<char> = Vec::new();
                let mut k: usize = start;
                while k < s.len()
                    invariant
                        start <= k <= s.len(),
                        piece@ == s@.subrange(start as int, k as int),
                    decreases s.len() - k,
                {
                    piece.push(s[k]);
                    k = k + 1;
                    assert(piece@ =~= s@.subrange(start as int, k as int));
                }
                proof {
                    lemma_tokens_of_push(done, piece@, trim);
                    assert(done.push(piece@) =~= done + seq![piece@]);
                }
                push_token(&mut tokens, piece, trim);
                return tokens;
            },
        }
    }
}

} // verus!
