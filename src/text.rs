//! Character-level helpers: whitespace trimming, inline-comment detection,
//! and conversions between `str` and character vectors.

use vstd::prelude::*;

verus! {

/// Whether `c` has the Unicode White_Space property, as `char::is_whitespace` reports it.
pub uninterp spec fn white_space(c: char) -> bool;

/// Relies on `char::is_whitespace`.
#[verifier::external_body]
pub(crate) fn is_ws(c: char) -> (r: bool)
    ensures
        r == white_space(c),
{
    c.is_whitespace()
}

/// What `str::to_lowercase` makes of a text.
pub uninterp spec fn lower_of(s: Seq<char>) -> Seq<char>;

/// Relies on `str::to_lowercase`: the lower-case form of `v`, which depends on
/// its characters alone.
#[verifier::external_body]
pub fn lowercase(v: &[char]) -> (r: Vec<char>)
    ensures
        r@ == lower_of(v@),
{
    let s: String = v.iter().collect();
    s.to_lowercase().chars().collect()
}

/// Relies on `str::chars`: the characters of `s`, in order.
#[verifier::external_body]
pub fn chars_of(s: &str) -> (r: Vec<char>)
    ensures
        r@ == s@,
{
    s.chars().collect()
}

/// Relies on `String`'s `FromIterator<char>`: a string holding exactly the characters of `v`.
#[verifier::external_body]
pub fn text_of(v: &[char]) -> (r: String)
    ensures
        r@ == v@,
{
    v.iter().collect()
}

/// The texts held by a sequence of character vectors.
pub open spec fn views(v: Seq<Vec<char>>) -> Seq<Seq<char>> {
    v.map_values(|l: Vec<char>| l@)
}

/// Index of the first character at or after `i` that is not whitespace (or `s.len()`).
pub open spec fn skip_ws(s: Seq<char>, i: int) -> int
    decreases s.len() - i,
{
    if 0 <= i < s.len() && white_space(s[i]) {
        skip_ws(s, i + 1)
    } else {
        i
    }
}

/// End of `s.take(j)` once trailing whitespace is dropped.
pub open spec fn back_ws(s: Seq<char>, j: int) -> int
    decreases j,
{
    if 0 < j <= s.len() && white_space(s[j - 1]) {
        back_ws(s, j - 1)
    } else {
        j
    }
}

/// `s` without leading whitespace.
pub open spec fn trim_start(s: Seq<char>) -> Seq<char> {
    s.subrange(skip_ws(s, 0), s.len() as int)
}

/// `s` without leading or trailing whitespace.
pub open spec fn trim(s: Seq<char>) -> Seq<char> {
    let t = trim_start(s);
    t.subrange(0, back_ws(t, t.len() as int))
}

proof fn lemma_skip_ws_bounds(s: Seq<char>, i: int)
    requires
        0 <= i <= s.len(),
    ensures
        i <= skip_ws(s, i) <= s.len(),
        skip_ws(s, i) < s.len() ==> !white_space(s[skip_ws(s, i)]),
    decreases s.len() - i,
{
    if i < s.len() && white_space(s[i]) {
        lemma_skip_ws_bounds(s, i + 1);
    }
}

proof fn lemma_back_ws_bounds(s: Seq<char>, j: int)
    requires
        0 <= j <= s.len(),
    ensures
        0 <= back_ws(s, j) <= j,
        back_ws(s, j) > 0 ==> !white_space(s[back_ws(s, j) - 1]),
    decreases j,
{
    if j > 0 && white_space(s[j - 1]) {
        lemma_back_ws_bounds(s, j - 1);
    }
}

/// Start and end of `s[from..to]` once surrounding whitespace is dropped.
fn trim_bounds(s: &[char], from: usize, to: usize) -> (r: (usize, usize))
    requires
        from <= to <= s@.len(),
    ensures
        r.0 <= r.1 <= to,
        from <= r.0,
        s@.subrange(r.0 as int, r.1 as int) == trim(s@.subrange(from as int, to as int)),
{
    let ghost t = s@.subrange(from as int, to as int);
    let mut a: usize = from;
    while a < to && is_ws(s[a])
        invariant
            from <= a <= to <= s@.len(),
            t == s@.subrange(from as int, to as int),
            skip_ws(t, (a - from) as int) == skip_ws(t, 0),
        decreases to - a,
    {
        a = a + 1;
    }
    proof {
        lemma_skip_ws_bounds(t, (a - from) as int);
    }
    let ghost u = trim_start(t);
    assert(u =~= s@.subrange(a as int, to as int));
    let mut b: usize = to;
    while b > a && is_ws(s[b - 1])
        invariant
            from <= a <= b <= to <= s@.len(),
            u =~= s@.subrange(a as int, to as int),
            back_ws(u, (b - a) as int) == back_ws(u, u.len() as int),
        decreases b,
    {
        b = b - 1;
    }
    proof {
        lemma_back_ws_bounds(u, (b - a) as int);
    }
    assert(s@.subrange(a as int, b as int) =~= u.subrange(0, (b - a) as int));
    (a, b)
}

/// `s[from..to]` without surrounding whitespace, as a new vector.
pub fn trimmed(s: &[char], from: usize, to: usize) -> (r: Vec<char>)
    requires
        from <= to <= s@.len(),
    ensures
        r@ == trim(s@.subrange(from as int, to as int)),
{
    let (a, b) = trim_bounds(s, from, to);
    slice_of(s, a, b)
}

/// Appends the characters of `s` to `v`.
pub fn extend(v: &mut Vec<char>, s: &[char])
    ensures
        final(v)@ == old(v)@ + s@,
{
    let ghost v0 = v@;
    let mut j: usize = 0;
    while j < s.len()
        invariant
            j <= s@.len(),
            v@ == v0 + s@.take(j as int),
        decreases s.len() - j,
    {
        v.push(s[j]);
        j = j + 1;
        assert(v@ =~= v0 + s@.take(j as int));
    }
    assert(s@.take(s@.len() as int) =~= s@);
}

/// A copy of `s`.
pub fn dup(s: &[char]) -> (r: Vec<char>)
    ensures
        r@ == s@,
{
    let r = slice_of(s, 0, s.len());
    assert(s@.subrange(0, s@.len() as int) =~= s@);
    r
}

/// A copy of `s[from..to]`.
pub fn slice_of(s: &[char], from: usize, to: usize) -> (r: Vec<char>)
    requires
        from <= to <= s@.len(),
    ensures
        r@ == s@.subrange(from as int, to as int),
{
    let mut r: Vec<char> = Vec::new();
    let mut i: usize = from;
    while i < to
        invariant
            from <= i <= to <= s@.len(),
            r@ == s@.subrange(from as int, i as int),
        decreases to - i,
    {
        r.push(s[i]);
        i = i + 1;
    }
    r
}


/// Whether `c` is one of `set`.
pub fn contains_char(set: &[char], c: char) -> (r: bool)
    ensures
        r == set@.contains(c),
{
    let mut i: usize = 0;
    while i < set.len()
        invariant
            i <= set@.len(),
            forall|k: int| 0 <= k < i ==> set@[k] != c,
        decreases set.len() - i,
    {
        if set[i] == c {
            return true;
        }
        i = i + 1;
    }
    false
}

/// Whether an inline comment starts at `i`: a prefix character right after whitespace.
pub open spec fn comment_at(s: Seq<char>, i: int, prefixes: Seq<char>) -> bool {
    0 < i < s.len() && white_space(s[i - 1]) && prefixes.contains(s[i])
}

/// First index at or after `i` holding `target` or, when `allow` holds, starting
/// an inline comment; `s.len()` if there is none.
pub open spec fn scan_for(s: Seq<char>, target: char, prefixes: Seq<char>, allow: bool, i: int) -> int
    decreases s.len() - i,
{
    if i < 0 || i >= s.len() {
        s.len() as int
    } else if s[i] == target || (allow && comment_at(s, i, prefixes)) {
        i
    } else {
        scan_for(s, target, prefixes, allow, i + 1)
    }
}

/// Position of the first `target` in `s`, unless an inline comment (when `allow`)
/// starts before it; then, or when there is no `target`, `None`.
pub open spec fn find_spec(s: Seq<char>, target: char, prefixes: Seq<char>, allow: bool) -> Option<int> {
    let k = scan_for(s, target, prefixes, allow, 0);
    if k < s.len() && s[k] == target {
        Some(k)
    } else {
        None
    }
}

/// First index at or after `i` where an inline comment starts; `s.len()` if none does.
pub open spec fn comment_from(s: Seq<char>, prefixes: Seq<char>, i: int) -> int
    decreases s.len() - i,
{
    if i < 0 || i >= s.len() {
        s.len() as int
    } else if comment_at(s, i, prefixes) {
        i
    } else {
        comment_from(s, prefixes, i + 1)
    }
}

/// `s` cut at its first inline comment, then trimmed.
pub open spec fn strip_comment(s: Seq<char>, prefixes: Seq<char>) -> Seq<char> {
    trim(s.take(comment_from(s, prefixes, 0)))
}

/// Finds `target` in `s`; the search gives up at an inline comment when
/// `allow_inline_comments` is set (a prefix character counts only after whitespace).
pub fn find_char_or_comment(s: &[char], target: char, comment_prefixes: &[char], allow_inline_comments: bool) -> (r: Option<usize>)
    ensures
        find_spec(s@, target, comment_prefixes@, allow_inline_comments) == (match r {
            Some(k) => Some(k as int),
            None => None,
        }),
        r matches Some(k) ==> k < s@.len(),
{
    let mut was_space = false;
    let mut i: usize = 0;
    while i < s.len()
        invariant
            i <= s@.len(),
            was_space == (i > 0 && white_space(s@[i - 1])),
            scan_for(s@, target, comment_prefixes@, allow_inline_comments, i as int)
                == scan_for(s@, target, comment_prefixes@, allow_inline_comments, 0),
        decreases s.len() - i,
    {
        let ch = s[i];
        if ch == target {
            return Some(i);
        }
        if allow_inline_comments && was_space && contains_char(comment_prefixes, ch) {
            return None;
        }
        was_space = is_ws(ch);
        i = i + 1;
    }
    None
}

/// Cuts `s` at its first inline comment (a prefix character right after
/// whitespace) and trims what is left.
pub fn remove_inline_comment(s: &[char], comment_prefixes: &[char]) -> (r: Vec<char>)
    ensures
        r@ == strip_comment(s@, comment_prefixes@),
{
    let mut was_space = false;
    let mut i: usize = 0;
    while i < s.len()
        invariant
            i <= s@.len(),
            was_space == (i > 0 && white_space(s@[i - 1])),
            comment_from(s@, comment_prefixes@, i as int) == comment_from(s@, comment_prefixes@, 0),
        decreases s.len() - i,
    {
        let ch = s[i];
        if was_space && contains_char(comment_prefixes, ch) {
            assert(s@.take(i as int) =~= s@.subrange(0, i as int));
            return trimmed(s, 0, i);
        }
        was_space = is_ws(ch);
        i = i + 1;
    }
    assert(s@.take(s@.len() as int) =~= s@.subrange(0, s@.len() as int));
    trimmed(s, 0, s.len())
}

} // verus!
