//! Character-level text handling: the model of strings as `Seq<char>`, and
//! the trimming, searching, splitting and joining that the configuration
//! formats are built from.
use vstd::prelude::*;

verus! {

broadcast use vstd::string::group_string_axioms;

// ---------------------------------------------------------------------------
// Character classes
// ---------------------------------------------------------------------------

/// The characters with the Unicode `White_Space` property.
pub open spec fn is_ws(c: char) -> bool {
    let n = c as u32;
    (0x9 <= n && n <= 0xd) || n == 0x20 || n == 0x85 || n == 0xa0 || n == 0x1680 || (0x2000 <= n
        && n <= 0x200a) || n == 0x2028 || n == 0x2029 || n == 0x202f || n == 0x205f || n == 0x3000
}

/// Whether `c` has the Unicode `Alphabetic` property (`char::is_alphabetic`).
pub uninterp spec fn unicode_alphabetic(c: char) -> bool;

/// Whether `c` is Unicode alphabetic or numeric (`char::is_alphanumeric`).
pub uninterp spec fn unicode_alphanumeric(c: char) -> bool;

/// The Unicode lowercase mapping of a whole string (`str::to_lowercase`).
pub uninterp spec fn unicode_lower(s: Seq<char>) -> Seq<char>;

/// The Unicode uppercase mapping of a whole string (`str::to_uppercase`).
pub uninterp spec fn unicode_upper(s: Seq<char>) -> Seq<char>;

/// `char::is_whitespace`: true exactly for the characters with the Unicode
/// `White_Space` property, which `is_ws` lists.
pub(crate) fn is_whitespace(c: char) -> (r: bool)
    ensures
        r == is_ws(c),
{
    let n = c as u32;
    (0x9 <= n && n <= 0xd) || n == 0x20 || n == 0x85 || n == 0xa0 || n == 0x1680 || (0x2000 <= n && n
        <= 0x200a) || n == 0x2028 || n == 0x2029 || n == 0x202f || n == 0x205f || n == 0x3000
}

/// An ASCII letter.
pub open spec fn ascii_letter(c: char) -> bool {
    ('a' <= c && c <= 'z') || ('A' <= c && c <= 'Z')
}

/// An ASCII character.
pub open spec fn is_ascii_char(c: char) -> bool {
    (c as u32) < 128
}

/// Every character of `s` is ASCII.
pub open spec fn all_ascii(s: Seq<char>) -> bool {
    forall|i: int| 0 <= i < s.len() ==> is_ascii_char(#[trigger] s[i])
}

/// `c` with an ASCII uppercase letter made lowercase.
pub open spec fn ascii_to_lower(c: char) -> char {
    if 'A' <= c && c <= 'Z' {
        ((c as u32) + 32) as char
    } else {
        c
    }
}

/// `c` with an ASCII lowercase letter made uppercase.
pub open spec fn ascii_to_upper(c: char) -> char {
    if 'a' <= c && c <= 'z' {
        ((c as u32) - 32) as char
    } else {
        c
    }
}

/// `char::is_alphabetic`: the ASCII letters among the ASCII characters,
/// the Unicode `Alphabetic` property beyond them.
#[verifier::opaque]
pub open spec fn alphabetic(c: char) -> bool {
    if is_ascii_char(c) {
        ascii_letter(c)
    } else {
        unicode_alphabetic(c)
    }
}

/// Among the ASCII characters, the alphabetic ones are the letters.
pub proof fn lemma_ascii_alphabetic(c: char)
    ensures
        is_ascii_char(c) ==> (alphabetic(c) == ascii_letter(c)),
{
    reveal(alphabetic);
}

/// `char::is_alphanumeric`: the ASCII letters and digits among the ASCII
/// characters, the Unicode alphabetic and numeric ones beyond them.
pub open spec fn alphanumeric(c: char) -> bool {
    if is_ascii_char(c) {
        ascii_letter(c) || ('0' <= c && c <= '9')
    } else {
        unicode_alphanumeric(c)
    }
}

/// `str::to_lowercase`: an ASCII text with its uppercase letters made
/// lowercase; any other text by the Unicode mapping.
pub open spec fn lowercase(s: Seq<char>) -> Seq<char> {
    if all_ascii(s) {
        s.map_values(|c: char| ascii_to_lower(c))
    } else {
        unicode_lower(s)
    }
}

/// `str::to_uppercase`: an ASCII text with its lowercase letters made
/// uppercase; any other text by the Unicode mapping.
pub open spec fn uppercase(s: Seq<char>) -> Seq<char> {
    if all_ascii(s) {
        s.map_values(|c: char| ascii_to_upper(c))
    } else {
        unicode_upper(s)
    }
}

/// `char::is_alphabetic`; its result is named, and for ASCII it is true
/// exactly of the letters (std matches `'a'..='z' | 'A'..='Z'` and tests
/// the Unicode table only above `'\x7f'`).
#[verifier::external_body]
pub(crate) fn is_alphabetic(c: char) -> (r: bool)
    ensures
        r == alphabetic(c),
        is_ascii_char(c) ==> r == ascii_letter(c),
        !is_ascii_char(c) ==> r == unicode_alphabetic(c),
{
    c.is_alphabetic()
}

/// `char::is_alphanumeric`; its result is named, and for ASCII it is true
/// exactly of the letters and the digits `0`..`9`.
#[verifier::external_body]
pub(crate) fn is_alphanumeric(c: char) -> (r: bool)
    ensures
        r == alphanumeric(c),
        !is_ascii_char(c) ==> r == unicode_alphanumeric(c),
{
    c.is_alphanumeric()
}

/// `str::to_lowercase`; its result is named; a text of ASCII characters
/// has each ASCII uppercase letter made lowercase and keeps the rest.
#[verifier::external_body]
fn str_to_lowercase(s: &str) -> (r: String)
    ensures
        r@ == lowercase(s@),
        !all_ascii(s@) ==> r@ == unicode_lower(s@),
{
    s.to_lowercase()
}

/// `str::to_uppercase`; its result is named; a text of ASCII characters
/// has each ASCII lowercase letter made uppercase and keeps the rest.
#[verifier::external_body]
fn str_to_uppercase(s: &str) -> (r: String)
    ensures
        r@ == uppercase(s@),
        !all_ascii(s@) ==> r@ == unicode_upper(s@),
{
    s.to_uppercase()
}

/// `String::push`: the string grows by one character at its end.
#[verifier::external_body]
fn push_char(s: &mut String, c: char)
    ensures
        final(s)@ == old(s)@.push(c),
{
    s.push(c);
}

// ---------------------------------------------------------------------------
// Conversions
// ---------------------------------------------------------------------------

/// The characters of `s`, in order.
pub fn chars_of(s: &str) -> (v: Vec<char>)
    ensures
        v@ == s@,
{
    let mut v: Vec<char> = Vec::new();
    for c in it: s.chars()
        invariant
            v@ == it.seq().take(it.index() as int),
    {
        v.push(c);
    }
    v
}

/// The string made of the characters `v`.
pub fn string_of(v: &[char]) -> (s: String)
    ensures
        s@ == v@,
{
    let mut s = String::new();
    let mut i: usize = 0;
    while i < v.len()
        invariant
            i <= v@.len(),
            s@ == v@.take(i as int),
        decreases v@.len() - i,
    {
        push_char(&mut s, v[i]);
        assert(v@.take(i as int + 1) == v@.take(i as int).push(v@[i as int]));
        i = i + 1;
    }
    assert(v@.take(v@.len() as int) == v@);
    s
}

/// The lowercase form of `v`.
pub fn lower_chars(v: &[char]) -> (r: Vec<char>)
    ensures
        r@ == lowercase(v@),
{
    let s = string_of(v);
    let l = str_to_lowercase(s.as_str());
    chars_of(l.as_str())
}

/// The uppercase form of `v`.
pub fn upper_chars(v: &[char]) -> (r: Vec<char>)
    ensures
        r@ == uppercase(v@),
{
    let s = string_of(v);
    let l = str_to_uppercase(s.as_str());
    chars_of(l.as_str())
}

// ---------------------------------------------------------------------------
// Trimming
// ---------------------------------------------------------------------------

/// The first index at or after `i` that holds no whitespace (or the length).
pub open spec fn lead_from(s: Seq<char>, i: int) -> int
    decreases s.len() - i,
{
    if 0 <= i < s.len() && is_ws(s[i]) {
        lead_from(s, i + 1)
    } else {
        i
    }
}

/// The end of `s.take(j)` once whitespace is dropped from its end, never
/// going below `lo`.
pub open spec fn trail_down(s: Seq<char>, j: int, lo: int) -> int
    decreases j - lo,
{
    if lo < j && j <= s.len() && is_ws(s[j - 1]) {
        trail_down(s, j - 1, lo)
    } else {
        j
    }
}

/// `str::trim_start`.
pub open spec fn trim_start(s: Seq<char>) -> Seq<char> {
    s.skip(lead_from(s, 0))
}

/// `str::trim_end`.
pub open spec fn trim_end(s: Seq<char>) -> Seq<char> {
    s.take(trail_down(s, s.len() as int, 0))
}

/// `str::trim`: leading whitespace dropped, then trailing whitespace.
pub open spec fn trim(s: Seq<char>) -> Seq<char> {
    s.subrange(lead_from(s, 0), trail_down(s, s.len() as int, lead_from(s, 0)))
}

pub proof fn lemma_lead_from_bounds(s: Seq<char>, i: int)
    requires
        0 <= i <= s.len(),
    ensures
        i <= lead_from(s, i) <= s.len(),
        forall|k: int| i <= k < lead_from(s, i) ==> is_ws(#[trigger] s[k]),
        lead_from(s, i) < s.len() ==> !is_ws(s[lead_from(s, i)]),
    decreases s.len() - i,
{
    if i < s.len() && is_ws(s[i]) {
        lemma_lead_from_bounds(s, i + 1);
    }
}

pub proof fn lemma_trail_down_bounds(s: Seq<char>, j: int, lo: int)
    requires
        0 <= lo <= j <= s.len(),
    ensures
        lo <= trail_down(s, j, lo) <= j,
        forall|k: int| trail_down(s, j, lo) <= k < j ==> is_ws(#[trigger] s[k]),
        trail_down(s, j, lo) > lo ==> !is_ws(s[trail_down(s, j, lo) - 1]),
    decreases j - lo,
{
    if lo < j && is_ws(s[j - 1]) {
        lemma_trail_down_bounds(s, j - 1, lo);
    }
}

/// The index of the first non-whitespace character of `s` at or after `i`.
pub fn skip_ws(s: &[char], i: usize) -> (r: usize)
    requires
        i <= s@.len(),
    ensures
        r == lead_from(s@, i as int),
        i <= r <= s@.len(),
{
    proof {
        lemma_lead_from_bounds(s@, i as int);
    }
    let mut k = i;
    while k < s.len() && is_whitespace(s[k])
        invariant
            i <= k <= s@.len(),
            lead_from(s@, k as int) == lead_from(s@, i as int),
        decreases s@.len() - k,
    {
        k = k + 1;
    }
    k
}

/// Where whitespace at the end of `s.take(j)` begins, never below `lo`.
pub fn back_ws(s: &[char], j: usize, lo: usize) -> (r: usize)
    requires
        lo <= j <= s@.len(),
    ensures
        r == trail_down(s@, j as int, lo as int),
        lo <= r <= j,
{
    proof {
        lemma_trail_down_bounds(s@, j as int, lo as int);
    }
    let mut k = j;
    while lo < k && is_whitespace(s[k - 1])
        invariant
            lo <= k <= j,
            j <= s@.len(),
            trail_down(s@, k as int, lo as int) == trail_down(s@, j as int, lo as int),
        decreases k - lo,
    {
        k = k - 1;
    }
    k
}

/// The characters `s[a..b]`.
pub fn slice(s: &[char], a: usize, b: usize) -> (r: Vec<char>)
    requires
        a <= b <= s@.len(),
    ensures
        r@ == s@.subrange(a as int, b as int),
{
    let mut r: Vec<char> = Vec::new();
    let mut i = a;
    while i < b
        invariant
            a <= i <= b,
            b <= s@.len(),
            r@ == s@.subrange(a as int, i as int),
        decreases b - i,
    {
        r.push(s[i]);
        assert(s@.subrange(a as int, i + 1) == s@.subrange(a as int, i as int).push(s@[i as int]));
        i = i + 1;
    }
    r
}

/// A copy of `s`.
pub fn copy_chars(s: &[char]) -> (r: Vec<char>)
    ensures
        r@ == s@,
{
    assert(s@.subrange(0, s@.len() as int) == s@);
    slice(s, 0, s.len())
}

/// `str::trim`.
pub fn trim_chars(s: &[char]) -> (r: Vec<char>)
    ensures
        r@ == trim(s@),
{
    let a = skip_ws(s, 0);
    let b = back_ws(s, s.len(), a);
    slice(s, a, b)
}

/// `str::trim_start`.
pub fn trim_start_chars(s: &[char]) -> (r: Vec<char>)
    ensures
        r@ == trim_start(s@),
{
    let a = skip_ws(s, 0);
    slice(s, a, s.len())
}

/// `str::trim_end`.
pub fn trim_end_chars(s: &[char]) -> (r: Vec<char>)
    ensures
        r@ == trim_end(s@),
{
    let b = back_ws(s, s.len(), 0);
    slice(s, 0, b)
}

// ---------------------------------------------------------------------------
// Searching
// ---------------------------------------------------------------------------

/// `s` begins with `p`.
pub open spec fn starts_with(s: Seq<char>, p: Seq<char>) -> bool {
    p.len() <= s.len() && s.take(p.len() as int) == p
}

/// `s` ends with `p`.
pub open spec fn ends_with(s: Seq<char>, p: Seq<char>) -> bool {
    p.len() <= s.len() && s.skip(s.len() - p.len()) == p
}

/// `p` occurs in `s` at index `i`.
pub open spec fn occurs_at(s: Seq<char>, p: Seq<char>, i: int) -> bool {
    0 <= i && i + p.len() <= s.len() && s.subrange(i, i + p.len()) == p
}

/// The first index at or after `i` where `p` occurs in `s`.
pub open spec fn find_from(s: Seq<char>, p: Seq<char>, i: int) -> Option<int>
    decreases s.len() + 1 - i,
{
    if i < 0 || i > s.len() {
        None
    } else if occurs_at(s, p, i) {
        Some(i)
    } else {
        find_from(s, p, i + 1)
    }
}

/// `str::find` of a pattern.
pub open spec fn find(s: Seq<char>, p: Seq<char>) -> Option<int> {
    find_from(s, p, 0)
}

/// `str::find` of a single character.
pub open spec fn find_char(s: Seq<char>, c: char) -> Option<int> {
    find_from(s, seq![c], 0)
}

/// `str::contains` of a pattern.
pub open spec fn contains(s: Seq<char>, p: Seq<char>) -> bool {
    find(s, p) is Some
}

pub proof fn lemma_find_from(s: Seq<char>, p: Seq<char>, i: int)
    requires
        0 <= i <= s.len() + 1,
    ensures
        find_from(s, p, i) matches Some(k) ==> i <= k <= s.len() && occurs_at(s, p, k) && forall|
            m: int,
        |
            i <= m < k ==> !occurs_at(s, p, m),
        find_from(s, p, i) is None ==> forall|m: int| i <= m ==> !occurs_at(s, p, m),
    decreases s.len() + 1 - i,
{
    if i <= s.len() && !occurs_at(s, p, i) {
        lemma_find_from(s, p, i + 1);
    }
}

/// Whether `p` occurs in `s` at `i`.
pub fn occurs_at_exec(s: &[char], p: &[char], i: usize) -> (r: bool)
    ensures
        r == occurs_at(s@, p@, i as int),
{
    if i > s.len() || p.len() > s.len() - i {
        return false;
    }
    let mut k: usize = 0;
    while k < p.len()
        invariant
            i + p@.len() <= s@.len(),
            i + p@.len() <= s.len(),
            k <= p@.len(),
            forall|m: int| 0 <= m < k ==> s@[i + m] == p@[m],
        decreases p@.len() - k,
    {
        if s[i + k] != p[k] {
            assert(s@.subrange(i as int, i + p@.len())[k as int] != p@[k as int]);
            return false;
        }
        k = k + 1;
    }
    assert(s@.subrange(i as int, i + p@.len()) =~= p@);
    true
}

/// `str::find` of a pattern, starting the search at `from`.
pub fn find_from_exec(s: &[char], p: &[char], from: usize) -> (r: Option<usize>)
    requires
        from <= s@.len(),
    ensures
        r matches Some(k) ==> find_from(s@, p@, from as int) == Some(k as int),
        r is None ==> find_from(s@, p@, from as int) is None,
{
    let mut i = from;
    while i < s.len()
        invariant
            from <= i <= s@.len(),
            find_from(s@, p@, i as int) == find_from(s@, p@, from as int),
        decreases s@.len() - i,
    {
        if occurs_at_exec(s, p, i) {
            return Some(i);
        }
        i = i + 1;
    }
    if occurs_at_exec(s, p, i) {
        return Some(i);
    }
    assert(find_from(s@, p@, i + 1) is None);
    None
}

/// `str::find` of a pattern.
pub fn find_exec(s: &[char], p: &[char]) -> (r: Option<usize>)
    ensures
        r matches Some(k) ==> find(s@, p@) == Some(k as int),
        r is None ==> find(s@, p@) is None,
{
    find_from_exec(s, p, 0)
}

/// `str::find` of a single character.
pub fn find_char_exec(s: &[char], c: char) -> (r: Option<usize>)
    ensures
        r matches Some(k) ==> find_char(s@, c) == Some(k as int),
        r is None ==> find_char(s@, c) is None,
{
    let p = vec![c];
    assert(p@ == seq![c]);
    find_from_exec(s, &p, 0)
}

/// `str::starts_with`.
pub fn starts_with_exec(s: &[char], p: &[char]) -> (r: bool)
    ensures
        r == starts_with(s@, p@),
{
    let r = occurs_at_exec(s, p, 0);
    proof {
        if starts_with(s@, p@) {
            assert(s@.subrange(0, p@.len() as int) == s@.take(p@.len() as int));
        }
        if r {
            assert(s@.subrange(0, p@.len() as int) == s@.take(p@.len() as int));
        }
    }
    r
}

/// `str::ends_with`.
pub fn ends_with_exec(s: &[char], p: &[char]) -> (r: bool)
    ensures
        r == ends_with(s@, p@),
{
    if p.len() > s.len() {
        return false;
    }
    let r = occurs_at_exec(s, p, s.len() - p.len());
    proof {
        assert(s@.subrange(s@.len() - p@.len(), s@.len() as int) == s@.skip(
            s@.len() - p@.len(),
        ));
    }
    r
}

/// Equality of character sequences.
pub fn eq_chars(a: &[char], b: &[char]) -> (r: bool)
    ensures
        r == (a@ == b@),
{
    if a.len() != b.len() {
        return false;
    }
    let r = occurs_at_exec(a, b, 0);
    proof {
        assert(a@.subrange(0, b@.len() as int) =~= a@);
    }
    r
}

/// Equality of strings.
pub fn str_eq(a: &str, b: &str) -> (r: bool)
    ensures
        r == (a@ == b@),
{
    eq_chars(&chars_of(a), &chars_of(b))
}

/// Whether `c` occurs in `s`.
pub fn contains_char_exec(s: &[char], c: char) -> (r: bool)
    ensures
        r == contains(s@, seq![c]),
{
    find_char_exec(s, c).is_some()
}

/// Whether `p` occurs in `s`.
pub fn contains_exec(s: &[char], p: &[char]) -> (r: bool)
    ensures
        r == contains(s@, p@),
{
    find_exec(s, p).is_some()
}

/// The part of `s` before the first `c` (all of `s` without one): `s.split(c).next()`.
pub open spec fn before_char(s: Seq<char>, c: char) -> Seq<char> {
    match find_char(s, c) {
        Some(i) => s.take(i),
        None => s,
    }
}

/// `s.split(c).next().unwrap()`.
pub fn before_char_exec(s: &[char], c: char) -> (r: Vec<char>)
    ensures
        r@ == before_char(s@, c),
{
    match find_char_exec(s, c) {
        Some(i) => {
            proof {
                lemma_find_from(s@, seq![c], 0);
            }
            slice(s, 0, i)
        },
        None => {
            assert(s@.subrange(0, s@.len() as int) == s@);
            slice(s, 0, s.len())
        },
    }
}

/// `a + b`.
pub fn concat(a: &[char], b: &[char]) -> (r: Vec<char>)
    ensures
        r@ == a@ + b@,
{
    let mut r = slice(a, 0, a.len());
    let mut i: usize = 0;
    assert(a@.subrange(0, a@.len() as int) == a@);
    while i < b.len()
        invariant
            i <= b@.len(),
            r@ == a@ + b@.take(i as int),
        decreases b@.len() - i,
    {
        r.push(b[i]);
        assert(b@.take(i + 1) == b@.take(i as int).push(b@[i as int]));
        i = i + 1;
    }
    assert(b@.take(b@.len() as int) == b@);
    r
}

/// Appends `b` to `a`.
pub fn append(a: &mut Vec<char>, b: &[char])
    ensures
        final(a)@ == old(a)@ + b@,
{
    let mut i: usize = 0;
    while i < b.len()
        invariant
            i <= b@.len(),
            a@ == old(a)@ + b@.take(i as int),
        decreases b@.len() - i,
    {
        a.push(b[i]);
        assert(b@.take(i + 1) == b@.take(i as int).push(b@[i as int]));
        i = i + 1;
    }
    assert(b@.take(b@.len() as int) == b@);
}


// ---------------------------------------------------------------------------
// Lines, words and joining
// ---------------------------------------------------------------------------

/// A line as `str::lines` yields it: a `\r` that preceded the `\n` is dropped.
pub open spec fn strip_cr(l: Seq<char>) -> Seq<char> {
    if l.len() > 0 && l.last() == '\r' {
        l.drop_last()
    } else {
        l
    }
}

/// The lines of `s` from index `i` on, split at `\n` (`str::lines`): a final
/// line ending is optional, and a `\r` before a `\n` is dropped.
pub open spec fn lines_from(s: Seq<char>, i: int) -> Seq<Seq<char>>
    decreases s.len() - i,
{
    if i < 0 || i >= s.len() {
        seq![]
    } else {
        match find_from(s, seq!['\n'], i) {
            Some(k) => {
                proof {
                    lemma_find_from(s, seq!['\n'], i);
                }
                seq![strip_cr(s.subrange(i, k))] + lines_from(s, k + 1)
            },
            None => seq![s.subrange(i, s.len() as int)],
        }
    }
}

/// `str::lines`.
pub open spec fn lines(s: Seq<char>) -> Seq<Seq<char>> {
    lines_from(s, 0)
}

/// The elements of `parts` with `sep` between each two.
pub open spec fn join(parts: Seq<Seq<char>>, sep: Seq<char>) -> Seq<char>
    decreases parts.len(),
{
    if parts.len() == 0 {
        seq![]
    } else if parts.len() == 1 {
        parts[0]
    } else {
        join(parts.drop_last(), sep) + sep + parts.last()
    }
}

/// Drops a final `\r` from `l`.
fn strip_cr_exec(l: Vec<char>) -> (r: Vec<char>)
    ensures
        r@ == strip_cr(l@),
{
    let mut l = l;
    if l.len() > 0 && l[l.len() - 1] == '\r' {
        l.pop();
    }
    l
}

/// `str::lines`, each line as its characters.
pub fn lines_exec(s: &[char]) -> (r: Vec<Vec<char>>)
    ensures
        r@.map_values(|l: Vec<char>| l@) == lines(s@),
{
    let mut r: Vec<Vec<char>> = Vec::new();
    let mut i: usize = 0;
    let nl = vec!['\n'];
    assert(nl@ == seq!['\n']);
    while i < s.len()
        invariant
            i <= s@.len(),
            nl@ == seq!['\n'],
            r@.map_values(|l: Vec<char>| l@) + lines_from(s@, i as int) == lines(s@),
        decreases s@.len() - i,
    {
        proof {
            lemma_find_from(s@, seq!['\n'], i as int);
        }
        match find_from_exec(s, &nl, i) {
            Some(k) => {
                let l = strip_cr_exec(slice(s, i, k));
                let ghost old_r = r@;
                r.push(l);
                assert(r@.map_values(|l: Vec<char>| l@) == old_r.map_values(|l: Vec<char>| l@).push(
                    l@,
                ));
                i = k + 1;
            },
            None => {
                let l = slice(s, i, s.len());
                let ghost old_r = r@;
                r.push(l);
                assert(r@.map_values(|l: Vec<char>| l@) == old_r.map_values(|l: Vec<char>| l@).push(
                    l@,
                ));
                i = s.len();
            },
        }
    }
    assert(r@.map_values(|l: Vec<char>| l@) + lines_from(s@, i as int) == r@.map_values(
        |l: Vec<char>| l@,
    ));
    r
}

/// The characters of each string of `v`.
pub open spec fn views(v: Seq<Vec<char>>) -> Seq<Seq<char>> {
    v.map_values(|l: Vec<char>| l@)
}

/// `parts.join(sep)`.
pub fn join_exec(parts: &Vec<Vec<char>>, sep: &[char]) -> (r: Vec<char>)
    ensures
        r@ == join(views(parts@), sep@),
{
    let mut r: Vec<char> = Vec::new();
    let mut i: usize = 0;
    while i < parts.len()
        invariant
            i <= parts@.len(),
            r@ == join(views(parts@).take(i as int), sep@),
        decreases parts@.len() - i,
    {
        let ghost pre = views(parts@).take(i as int);
        assert(views(parts@).take(i + 1).drop_last() == pre);
        if i > 0 {
            append(&mut r, sep);
        } else {
            assert(views(parts@).take(1) == seq![parts@[0]@]);
        }
        append(&mut r, &parts[i]);
        i = i + 1;
    }
    assert(views(parts@).take(parts@.len() as int) == views(parts@));
    r
}

/// The whitespace-separated words of `s` from index `i` on (`str::split_whitespace`).
pub open spec fn words_from(s: Seq<char>, i: int) -> Seq<Seq<char>>
    decreases s.len() - i,
{
    if i < 0 || i > s.len() {
        seq![]
    } else {
        let a = lead_from(s, i);
        if a >= s.len() {
            seq![]
        } else {
            let b = word_end(s, a);
            proof {
                lemma_lead_from_bounds(s, i);
                lemma_word_end(s, a);
            }
            seq![s.subrange(a, b)] + words_from(s, b)
        }
    }
}

/// `str::split_whitespace`.
pub open spec fn words(s: Seq<char>) -> Seq<Seq<char>> {
    words_from(s, 0)
}

/// The first whitespace index at or after `i` (or the length).
pub open spec fn word_end(s: Seq<char>, i: int) -> int
    decreases s.len() - i,
{
    if 0 <= i < s.len() && !is_ws(s[i]) {
        word_end(s, i + 1)
    } else {
        i
    }
}

pub proof fn lemma_word_end(s: Seq<char>, i: int)
    requires
        0 <= i < s.len(),
        !is_ws(s[i]),
    ensures
        i < word_end(s, i) <= s.len(),
        forall|k: int| i <= k < word_end(s, i) ==> !is_ws(#[trigger] s[k]),
        word_end(s, i) < s.len() ==> is_ws(s[word_end(s, i)]),
    decreases s.len() - i,
{
    assert(word_end(s, i) == word_end(s, i + 1));
    if i + 1 < s.len() && !is_ws(s[i + 1]) {
        lemma_word_end(s, i + 1);
    } else {
        assert(word_end(s, i + 1) == i + 1);
    }
}

/// `str::split_whitespace`, each word as its characters.
pub fn words_exec(s: &[char]) -> (r: Vec<Vec<char>>)
    ensures
        views(r@) == words(s@),
{
    let mut r: Vec<Vec<char>> = Vec::new();
    let mut i: usize = 0;
    loop
        invariant
            i <= s@.len(),
            views(r@) + words_from(s@, i as int) == words(s@),
        decreases s@.len() - i,
    {
        let a = skip_ws(s, i);
        if a >= s.len() {
            assert(words_from(s@, i as int) == Seq::<Seq<char>>::empty());
            assert(views(r@) + words_from(s@, i as int) == views(r@));
            return r;
        }
        proof {
            lemma_lead_from_bounds(s@, i as int);
            lemma_word_end(s@, a as int);
        }
        let mut b = a;
        while b < s.len() && !is_whitespace(s[b])
            invariant
                a <= b <= s@.len(),
                word_end(s@, b as int) == word_end(s@, a as int),
            decreases s@.len() - b,
        {
            b = b + 1;
        }
        let w = slice(s, a, b);
        let ghost old_r = r@;
        r.push(w);
        assert(views(r@) == views(old_r).push(w@));
        i = b;
    }
}


// ---------------------------------------------------------------------------
// Trimming a given character
// ---------------------------------------------------------------------------

/// The first index at or after `i` that does not hold `c` (or the length).
pub open spec fn lead_char_from(s: Seq<char>, c: char, i: int) -> int
    decreases s.len() - i,
{
    if 0 <= i < s.len() && s[i] == c {
        lead_char_from(s, c, i + 1)
    } else {
        i
    }
}

/// The end of `s.take(j)` once `c` is dropped from its end, never below `lo`.
pub open spec fn trail_char_down(s: Seq<char>, c: char, j: int, lo: int) -> int
    decreases j - lo,
{
    if lo < j && j <= s.len() && s[j - 1] == c {
        trail_char_down(s, c, j - 1, lo)
    } else {
        j
    }
}

/// `str::trim_start_matches(c)`.
pub open spec fn trim_start_char(s: Seq<char>, c: char) -> Seq<char> {
    s.skip(lead_char_from(s, c, 0))
}

/// `str::trim_matches(c)`.
pub open spec fn trim_char(s: Seq<char>, c: char) -> Seq<char> {
    s.subrange(lead_char_from(s, c, 0), trail_char_down(s, c, s.len() as int, lead_char_from(s, c, 0)))
}

pub proof fn lemma_lead_char_from(s: Seq<char>, c: char, i: int)
    requires
        0 <= i <= s.len(),
    ensures
        i <= lead_char_from(s, c, i) <= s.len(),
    decreases s.len() - i,
{
    if i < s.len() && s[i] == c {
        lemma_lead_char_from(s, c, i + 1);
    }
}

pub proof fn lemma_trail_char_down(s: Seq<char>, c: char, j: int, lo: int)
    requires
        0 <= lo <= j <= s.len(),
    ensures
        lo <= trail_char_down(s, c, j, lo) <= j,
    decreases j - lo,
{
    if lo < j && s[j - 1] == c {
        lemma_trail_char_down(s, c, j - 1, lo);
    }
}

fn lead_char_exec(s: &[char], c: char, i: usize) -> (r: usize)
    requires
        i <= s@.len(),
    ensures
        r == lead_char_from(s@, c, i as int),
        i <= r <= s@.len(),
{
    proof {
        lemma_lead_char_from(s@, c, i as int);
    }
    let mut k = i;
    while k < s.len() && s[k] == c
        invariant
            i <= k <= s@.len(),
            lead_char_from(s@, c, k as int) == lead_char_from(s@, c, i as int),
        decreases s@.len() - k,
    {
        k = k + 1;
    }
    k
}

fn trail_char_exec(s: &[char], c: char, j: usize, lo: usize) -> (r: usize)
    requires
        lo <= j <= s@.len(),
    ensures
        r == trail_char_down(s@, c, j as int, lo as int),
        lo <= r <= j,
{
    proof {
        lemma_trail_char_down(s@, c, j as int, lo as int);
    }
    let mut k = j;
    while lo < k && s[k - 1] == c
        invariant
            lo <= k <= j,
            j <= s@.len(),
            trail_char_down(s@, c, k as int, lo as int) == trail_char_down(
                s@,
                c,
                j as int,
                lo as int,
            ),
        decreases k - lo,
    {
        k = k - 1;
    }
    k
}

/// `str::trim_start_matches(c)`.
pub fn trim_start_char_exec(s: &[char], c: char) -> (r: Vec<char>)
    ensures
        r@ == trim_start_char(s@, c),
{
    let a = lead_char_exec(s, c, 0);
    slice(s, a, s.len())
}

/// `str::trim_end_matches(c)`.
pub open spec fn trim_end_char(s: Seq<char>, c: char) -> Seq<char> {
    s.take(trail_char_down(s, c, s.len() as int, 0))
}

/// `str::trim_end_matches(c)`.
pub fn trim_end_char_exec(s: &[char], c: char) -> (r: Vec<char>)
    ensures
        r@ == trim_end_char(s@, c),
{
    let b = trail_char_exec(s, c, s.len(), 0);
    let r = slice(s, 0, b);
    assert(s@.subrange(0, b as int) =~= s@.take(b as int));
    r
}

/// `str::trim_matches(c)`.
pub fn trim_char_exec(s: &[char], c: char) -> (r: Vec<char>)
    ensures
        r@ == trim_char(s@, c),
{
    let a = lead_char_exec(s, c, 0);
    let b = trail_char_exec(s, c, s.len(), a);
    slice(s, a, b)
}


// ---------------------------------------------------------------------------
// Lines of joined text
// ---------------------------------------------------------------------------

/// Searching for a pattern in `p + y` from inside `y` finds what searching in
/// `y` finds, shifted by `p`'s length.
pub proof fn lemma_find_from_shift(p: Seq<char>, y: Seq<char>, pat: Seq<char>, j: int)
    requires
        0 <= j,
    ensures
        find_from(p + y, pat, p.len() + j) == match find_from(y, pat, j) {
            Some(k) => Some(k + p.len()),
            None => None,
        },
    decreases y.len() + 1 - j,
{
    let s = p + y;
    if j <= y.len() {
        assert(occurs_at(s, pat, p.len() + j) == occurs_at(y, pat, j)) by {
            if j + pat.len() <= y.len() {
                assert(s.subrange(p.len() + j, p.len() + j + pat.len()) =~= y.subrange(
                    j,
                    j + pat.len(),
                ));
            }
        }
        if !occurs_at(y, pat, j) {
            lemma_find_from_shift(p, y, pat, j + 1);
        }
    }
}

/// The lines of `p + y` from inside `y` are the lines of `y`.
pub proof fn lemma_lines_from_shift(p: Seq<char>, y: Seq<char>, j: int)
    requires
        0 <= j,
    ensures
        lines_from(p + y, p.len() + j) == lines_from(y, j),
    decreases y.len() - j,
{
    let s = p + y;
    if j < y.len() {
        lemma_find_from_shift(p, y, seq!['\n'], j);
        lemma_find_from(y, seq!['\n'], j);
        match find_from(y, seq!['\n'], j) {
            Some(k) => {
                lemma_lines_from_shift(p, y, k + 1);
                assert(s.subrange(p.len() + j, p.len() + k) =~= y.subrange(j, k));
                assert(p.len() + k + 1 == p.len() + (k + 1));
            },
            None => {
                assert(s.subrange(p.len() + j, s.len() as int) =~= y.subrange(j, y.len() as int));
            },
        }
    }
}

/// A line without `\n`, then `\n`, then more text: the line comes first.
pub proof fn lemma_lines_cons(a: Seq<char>, b: Seq<char>)
    requires
        !a.contains('\n'),
    ensures
        lines(a + seq!['\n'] + b) == seq![strip_cr(a)] + lines(b),
{
    let s = a + seq!['\n'] + b;
    assert forall|m: int| 0 <= m < a.len() implies !occurs_at(s, seq!['\n'], m) by {
        if occurs_at(s, seq!['\n'], m) {
            assert(s.subrange(m, m + 1)[0] == s[m]);
            assert(a[m] == '\n');
        }
    }
    assert(occurs_at(s, seq!['\n'], a.len() as int)) by {
        assert(s.subrange(a.len() as int, a.len() + 1int) =~= seq!['\n']);
    }
    lemma_find_first(s, seq!['\n'], 0, a.len() as int);
    assert(s.subrange(0, a.len() as int) =~= a);
    lemma_lines_from_shift(a + seq!['\n'], b, 0);
    assert((a + seq!['\n']).len() + 0 == a.len() + 1);
    assert(a + seq!['\n'] + b == (a + seq!['\n']) + b);
}

/// Joining a first part to the others puts the separator after it.
pub proof fn lemma_join_cons(x: Seq<char>, rest: Seq<Seq<char>>, sep: Seq<char>)
    requires
        rest.len() > 0,
    ensures
        join(seq![x] + rest, sep) == x + sep + join(rest, sep),
    decreases rest.len(),
{
    let all = seq![x] + rest;
    if rest.len() == 1 {
        assert(all.drop_last() =~= seq![x]);
        assert(all.last() == rest[0]);
        assert(join(seq![x], sep) == x);
        assert(join(rest, sep) == rest[0]);
        assert(join(all, sep) == join(all.drop_last(), sep) + sep + all.last());
    } else {
        lemma_join_cons(x, rest.drop_last(), sep);
        assert(all.drop_last() =~= seq![x] + rest.drop_last());
        assert(all.last() == rest.last());
        assert(join(all, sep) == join(all.drop_last(), sep) + sep + all.last());
        assert(join(rest, sep) == join(rest.drop_last(), sep) + sep + rest.last());
        assert(x + sep + join(rest.drop_last(), sep) + sep + rest.last() =~= x + sep + (join(
            rest.drop_last(),
            sep,
        ) + sep + rest.last()));
    }
}

/// The lines of lines joined by line breaks are those lines, when none
/// holds a line break or ends in a carriage return, and the last is not
/// empty.
pub proof fn lemma_lines_of_join(ls: Seq<Seq<char>>)
    requires
        ls.len() > 0,
        forall|i: int| 0 <= i < ls.len() ==> !(#[trigger] ls[i]).contains('\n'),
        forall|i: int| 0 <= i < ls.len() ==> strip_cr(#[trigger] ls[i]) == ls[i],
        ls.last().len() > 0,
    ensures
        lines(join(ls, seq!['\n'])) == ls,
    decreases ls.len(),
{
    if ls.len() == 1 {
        let a = ls[0];
        assert(join(ls, seq!['\n']) == a);
        lemma_find_from(a, seq!['\n'], 0);
        assert(find_from(a, seq!['\n'], 0) is None) by {
            if let Some(k) = find_from(a, seq!['\n'], 0) {
                assert(a.subrange(k, k + 1)[0] == a[k]);
            }
        }
        assert(a.subrange(0, a.len() as int) =~= a);
        assert(lines(a) =~= seq![a]);
        assert(ls =~= seq![a]);
    } else {
        let rest = ls.drop_first();
        assert(ls =~= seq![ls[0]] + rest);
        lemma_join_cons(ls[0], rest, seq!['\n']);
        assert forall|i: int| 0 <= i < rest.len() implies !(#[trigger] rest[i]).contains('\n') && strip_cr(
            rest[i],
        ) == rest[i] by {
            assert(rest[i] == ls[i + 1]);
        }
        lemma_lines_of_join(rest);
        assert(!ls[0].contains('\n'));
        lemma_lines_cons(ls[0], join(rest, seq!['\n']));
    }
}

/// With no occurrence before `k` and one at `k`, the search finds `k`.
pub proof fn lemma_find_first(s: Seq<char>, pat: Seq<char>, i: int, k: int)
    requires
        0 <= i <= k <= s.len(),
        occurs_at(s, pat, k),
        forall|m: int| i <= m < k ==> !occurs_at(s, pat, m),
    ensures
        find_from(s, pat, i) == Some(k),
    decreases k - i,
{
    if i < k {
        lemma_find_first(s, pat, i + 1, k);
    }
}

/// A text that is already trimmed ends in no whitespace.
pub proof fn lemma_trimmed_ends(s: Seq<char>)
    requires
        trim(s) == s,
        s.len() > 0,
    ensures
        !is_ws(s.last()),
        !is_ws(s[0]),
{
    let a = lead_from(s, 0);
    lemma_lead_from_bounds(s, 0);
    lemma_trail_down_bounds(s, s.len() as int, a);
    let b = trail_down(s, s.len() as int, a);
    assert(trim(s).len() == b - a);
    if is_ws(s.last()) {
        if a < s.len() {
            assert(trail_down(s, s.len() as int, a) == trail_down(s, s.len() - 1, a));
            lemma_trail_down_bounds(s, s.len() - 1, a);
        }
    }
    if is_ws(s[0]) {
        assert(lead_from(s, 0) == lead_from(s, 1));
        lemma_lead_from_bounds(s, 1);
    }
}

// ---------------------------------------------------------------------------
// Replacing
// ---------------------------------------------------------------------------

/// The part of `str::replace` from index `i` on, for a nonempty pattern:
/// each occurrence, leftmost first and not overlapping, becomes `rep`.
pub open spec fn replace_from(s: Seq<char>, pat: Seq<char>, rep: Seq<char>, i: int) -> Seq<char>
    decreases s.len() + 1 - i,
{
    if i < 0 || i > s.len() || pat.len() == 0 {
        seq![]
    } else {
        match find_from(s, pat, i) {
            Some(k) => {
                proof {
                    lemma_find_from(s, pat, i);
                }
                s.subrange(i, k) + rep + replace_from(s, pat, rep, k + pat.len())
            },
            None => s.subrange(i, s.len() as int),
        }
    }
}

/// `str::replace` with an empty pattern: `rep` before each character and at
/// the end.
pub open spec fn replace_empty(s: Seq<char>, rep: Seq<char>) -> Seq<char>
    decreases s.len(),
{
    if s.len() == 0 {
        rep
    } else {
        rep + seq![s[0]] + replace_empty(s.drop_first(), rep)
    }
}

/// `str::replace`: every occurrence of `pat` in `s` replaced by `rep`.
pub open spec fn replace_all(s: Seq<char>, pat: Seq<char>, rep: Seq<char>) -> Seq<char> {
    if pat.len() == 0 {
        replace_empty(s, rep)
    } else {
        replace_from(s, pat, rep, 0)
    }
}

/// `str::replace`.
pub fn replace_all_exec(s: &[char], pat: &[char], rep: &[char]) -> (r: Vec<char>)
    ensures
        r@ == replace_all(s@, pat@, rep@),
{
    let mut out: Vec<char> = Vec::new();
    if pat.len() == 0 {
        let mut i: usize = 0;
        assert(s@.skip(0) =~= s@);
        while i < s.len()
            invariant
                i <= s@.len(),
                pat@.len() == 0,
                out@ + replace_empty(s@.skip(i as int), rep@) == replace_all(s@, pat@, rep@),
            decreases s@.len() - i,
        {
            assert(s@.skip(i as int).drop_first() =~= s@.skip(i + 1));
            append(&mut out, rep);
            out.push(s[i]);
            assert(out@ + replace_empty(s@.skip(i + 1), rep@) =~= replace_all(s@, pat@, rep@));
            i = i + 1;
        }
        assert(s@.skip(i as int) =~= Seq::<char>::empty());
        append(&mut out, rep);
        return out;
    }
    let mut i: usize = 0;
    loop
        invariant
            i <= s@.len(),
            pat@.len() > 0,
            out@ + replace_from(s@, pat@, rep@, i as int) == replace_all(s@, pat@, rep@),
        decreases s@.len() - i,
    {
        proof {
            lemma_find_from(s@, pat@, i as int);
        }
        match find_from_exec(s, pat, i) {
            Some(k) => {
                assert(occurs_at(s@, pat@, k as int));
                assert(k + pat.len() <= s.len());
                append(&mut out, &slice(s, i, k));
                append(&mut out, rep);
                assert(out@ + replace_from(s@, pat@, rep@, k + pat@.len()) =~= replace_all(
                    s@,
                    pat@,
                    rep@,
                ));
                i = k + pat.len();
            },
            None => {
                append(&mut out, &slice(s, i, s.len()));
                assert(out@ =~= replace_all(s@, pat@, rep@));
                return out;
            },
        }
    }
}

/// Replacing inside `p + y` from inside `y` is replacing inside `y`.
pub proof fn lemma_replace_from_shift(p: Seq<char>, y: Seq<char>, pat: Seq<char>, rep: Seq<char>, j: int)
    requires
        0 <= j,
        pat.len() > 0,
    ensures
        replace_from(p + y, pat, rep, p.len() + j) == replace_from(y, pat, rep, j),
    decreases y.len() + 1 - j,
{
    let s = p + y;
    if j <= y.len() {
        lemma_find_from_shift(p, y, pat, j);
        lemma_find_from(y, pat, j);
        match find_from(y, pat, j) {
            Some(k) => {
                lemma_replace_from_shift(p, y, pat, rep, k + pat.len());
                assert(s.subrange(p.len() + j, p.len() + k) =~= y.subrange(j, k));
                assert(p.len() + k + pat.len() == p.len() + (k + pat.len()));
            },
            None => {
                assert(s.subrange(p.len() + j, s.len() as int) =~= y.subrange(j, y.len() as int));
            },
        }
    }
}

/// Replacing in a text that begins with the pattern begins with the
/// replacement; in one that does not, it begins with the first character.
pub proof fn lemma_replace_cons(s: Seq<char>, pat: Seq<char>, rep: Seq<char>)
    requires
        pat.len() > 0,
    ensures
        occurs_at(s, pat, 0) ==> replace_all(s, pat, rep) == rep + replace_all(
            s.skip(pat.len() as int),
            pat,
            rep,
        ),
        !occurs_at(s, pat, 0) && s.len() > 0 ==> replace_all(s, pat, rep) == seq![s[0]]
            + replace_all(s.skip(1), pat, rep),
        s.len() == 0 ==> replace_all(s, pat, rep) == s,
{
    if s.len() == 0 {
        assert(!occurs_at(s, pat, 0));
        assert(find_from(s, pat, 1) is None);
        assert(replace_all(s, pat, rep) =~= s);
    } else if occurs_at(s, pat, 0) {
        let n = pat.len() as int;
        let a = s.take(n);
        let b = s.skip(n);
        assert(s =~= a + b);
        lemma_replace_from_shift(a, b, pat, rep, 0);
        assert(s.subrange(0, 0) =~= Seq::<char>::empty());
        assert(replace_all(s, pat, rep) =~= rep + replace_all(b, pat, rep));
    } else {
        let a = s.take(1);
        let b = s.skip(1);
        assert(s =~= a + b);
        lemma_find_from_shift(a, b, pat, 0);
        lemma_find_from(b, pat, 0);
        assert(find_from(s, pat, 0) == find_from(s, pat, 1));
        match find_from(b, pat, 0) {
            Some(k) => {
                lemma_replace_from_shift(a, b, pat, rep, k + pat.len());
                assert(s.subrange(0, k + 1) =~= seq![s[0]] + b.subrange(0, k));
                assert(1 + (k + pat.len()) == k + 1 + pat.len());
                assert(replace_all(s, pat, rep) =~= seq![s[0]] + replace_all(b, pat, rep));
            },
            None => {
                assert(s.subrange(0, s.len() as int) =~= seq![s[0]] + b.subrange(0, b.len() as int));
            },
        }
    }
}

/// A text that begins and ends with non-whitespace is its own trim.
pub proof fn lemma_trim_fixed(s: Seq<char>)
    requires
        s.len() > 0 ==> !is_ws(s[0]) && !is_ws(s.last()),
    ensures
        trim(s) == s,
{
    if s.len() > 0 {
        assert(lead_from(s, 0) == 0);
        assert(trail_down(s, s.len() as int, 0) == s.len());
    }
    assert(s.subrange(0, s.len() as int) =~= s);
}

/// Skipping whitespace from `i` stops at `j` when everything between is
/// whitespace and `j` is not.
pub proof fn lemma_lead_run(s: Seq<char>, i: int, j: int)
    requires
        0 <= i <= j <= s.len(),
        forall|k: int| i <= k < j ==> is_ws(#[trigger] s[k]),
        j < s.len() ==> !is_ws(s[j]),
    ensures
        lead_from(s, i) == j,
    decreases j - i,
{
    if i < j {
        lemma_lead_run(s, i + 1, j);
    }
}

/// Dropping whitespace from the end at `j` stops at `m` when everything
/// between is whitespace and the character before `m` is not.
pub proof fn lemma_trail_run(s: Seq<char>, j: int, lo: int, m: int)
    requires
        0 <= lo < m <= j <= s.len(),
        forall|k: int| m <= k < j ==> is_ws(#[trigger] s[k]),
        !is_ws(s[m - 1]),
    ensures
        trail_down(s, j, lo) == m,
    decreases j - m,
{
    if m < j {
        lemma_trail_run(s, j - 1, lo, m);
    }
}

/// Trimming whitespace put around a text that begins and ends with
/// something else gives the text.
pub proof fn lemma_trim_pad(pre: Seq<char>, u: Seq<char>, post: Seq<char>)
    requires
        u.len() > 0,
        !is_ws(u[0]),
        !is_ws(u.last()),
        forall|k: int| 0 <= k < pre.len() ==> is_ws(#[trigger] pre[k]),
        forall|k: int| 0 <= k < post.len() ==> is_ws(#[trigger] post[k]),
    ensures
        trim(pre + u + post) == u,
{
    let s = pre + u + post;
    let a = pre.len() as int;
    let b = a + u.len();
    assert forall|k: int| 0 <= k < a implies is_ws(#[trigger] s[k]) by {
        assert(s[k] == pre[k]);
    }
    assert(s[a] == u[0]);
    lemma_lead_run(s, 0, a);
    assert forall|k: int| b <= k < s.len() implies is_ws(#[trigger] s[k]) by {
        assert(s[k] == post[k - b]);
    }
    assert(s[b - 1] == u.last());
    if b < s.len() {
        lemma_trail_run(s, s.len() as int, a, b);
    } else {
        assert(trail_down(s, s.len() as int, a) == b);
    }
    assert(s.subrange(a, b) =~= u);
}

/// The trim of a text begins and ends with non-whitespace.
pub proof fn lemma_trim_ends(s: Seq<char>)
    ensures
        trim(s).len() > 0 ==> !is_ws(trim(s)[0]) && !is_ws(trim(s).last()),
{
    let a = lead_from(s, 0);
    lemma_lead_from_bounds(s, 0);
    lemma_trail_down_bounds(s, s.len() as int, a);
}

/// Trimming a space put before a text that is its own trim gives the text.
pub proof fn lemma_trim_after_space(s: Seq<char>)
    requires
        s.len() > 0,
        !is_ws(s[0]),
        !is_ws(s.last()),
    ensures
        trim(seq![' '] + s) == s,
{
    let t = seq![' '] + s;
    assert(is_ws(t[0]));
    assert(lead_from(t, 0) == lead_from(t, 1));
    assert(lead_from(t, 1) == 1);
    assert(trail_down(t, t.len() as int, 1) == t.len());
    assert(t.subrange(1, t.len() as int) =~= s);
}

/// A character that does not occur is not found.
pub proof fn lemma_find_char_absent(s: Seq<char>, c: char)
    requires
        !s.contains(c),
    ensures
        find_char(s, c) is None,
{
    lemma_find_from(s, seq![c], 0);
    if let Some(k) = find_char(s, c) {
        assert(s.subrange(k, k + 1)[0] == s[k]);
        assert(s[k] == c);
    }
}

// ---------------------------------------------------------------------------
// Splitting at a character
// ---------------------------------------------------------------------------

/// The pieces of `s` between occurrences of `c` (`str::split` on a
/// character): empty pieces included, one more piece than separators.
pub open spec fn split_on(s: Seq<char>, c: char) -> Seq<Seq<char>>
    decreases s.len(),
{
    match find_char(s, c) {
        Some(k) => {
            proof {
                lemma_find_from(s, seq![c], 0);
            }
            seq![s.take(k)] + split_on(s.skip(k + 1), c)
        },
        None => seq![s],
    }
}

/// `str::split` on a character.
pub fn split_on_exec(s: &[char], c: char) -> (r: Vec<Vec<char>>)
    ensures
        views(r@) == split_on(s@, c),
{
    let mut r: Vec<Vec<char>> = Vec::new();
    let mut rest = copy_chars(s);
    loop
        invariant
            views(r@) + split_on(rest@, c) == split_on(s@, c),
        decreases rest@.len(),
    {
        proof {
            lemma_find_from(rest@, seq![c], 0);
        }
        match find_char_exec(&rest, c) {
            Some(k) => {
                assert(occurs_at(rest@, seq![c], k as int));
                assert(k < rest.len());
                let piece = slice(&rest, 0, k);
                let tail = slice(&rest, k + 1, rest.len());
                assert(piece@ =~= rest@.take(k as int));
                assert(tail@ =~= rest@.skip(k + 1));
                let ghost old_r = views(r@);
                r.push(piece);
                assert(views(r@) =~= old_r + seq![rest@.take(k as int)]);
                rest = tail;
            },
            None => {
                let ghost old_r = views(r@);
                let ghost last = rest@;
                r.push(rest);
                assert(views(r@) =~= old_r + seq![last]);
                return r;
            },
        }
    }
}

/// `p` stands somewhere in `s`.
pub open spec fn occurs_in(s: Seq<char>, p: Seq<char>) -> bool {
    exists|i: int| 0 <= i && i + p.len() <= s.len() && #[trigger] s.subrange(i, i + p.len()) == p
}

/// `str::contains` holds exactly when the pattern stands somewhere in the text.
pub proof fn lemma_contains_occurs(s: Seq<char>, p: Seq<char>)
    ensures
        contains(s, p) == occurs_in(s, p),
{
    lemma_find_from(s, p, 0);
    match find_from(s, p, 0) {
        Some(k) => {
            assert(s.subrange(k, k + p.len()) == p);
        },
        None => {
            if occurs_in(s, p) {
                let i = choose|i: int| 0 <= i && i + p.len() <= s.len() && #[trigger] s.subrange(i, i + p.len()) == p;
                assert(occurs_at(s, p, i));
            }
        },
    }
}

} // verus!
