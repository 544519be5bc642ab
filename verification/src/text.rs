//! Character-sequence primitives: the string operations that the document
//! logic is built from, each with a specification over `Seq<char>`.
use vstd::prelude::*;

verus! {

// ---------------------------------------------------------------------------
// Conversions between `str`/`String` and `Vec<char>`
// ---------------------------------------------------------------------------

/// The characters of a string slice, in order.
pub fn chars_of(s: &str) -> (r: Vec<char>)
    ensures
        r@ == s@,
{
    let mut r: Vec<char> = Vec::new();
    for c in it: s.chars()
        invariant
            r@ == it.seq().take(it.index() as int),
    {
        r.push(c);
    }
    r
}

/// `String::push` appends one character to the end of the string.
pub assume_specification[ String::push ](s: &mut String, ch: char)
    ensures
        final(s)@ == old(s)@.push(ch),
;

/// The string made of the given characters.
pub fn string_of(v: &Vec<char>) -> (r: String)
    ensures
        r@ == v@,
{
    let mut r = String::new();
    for i in 0..v.len()
        invariant
            r@ == v@.take(i as int),
    {
        r.push(v[i]);
        assert(v@.take(i + 1) =~= v@.take(i as int).push(v@[i as int]));
    }
    assert(v@.take(v.len() as int) =~= v@);
    r
}

/// The characters `s[a..b]`.
pub fn sub_vec(s: &Vec<char>, a: usize, b: usize) -> (r: Vec<char>)
    requires
        a <= b <= s.len(),
    ensures
        r@ == s@.subrange(a as int, b as int),
{
    let mut r: Vec<char> = Vec::new();
    let mut i = a;
    while i < b
        invariant
            a <= i <= b <= s.len(),
            r@ == s@.subrange(a as int, i as int),
        decreases b - i,
    {
        r.push(s[i]);
        assert(s@.subrange(a as int, i + 1) =~= s@.subrange(a as int, i as int).push(s@[i as int]));
        i += 1;
    }
    r
}

/// `a` followed by `b`.
pub fn concat(a: &Vec<char>, b: &Vec<char>) -> (r: Vec<char>)
    ensures
        r@ == a@ + b@,
{
    let mut r = a.clone();
    for i in 0..b.len()
        invariant
            r@ == a@ + b@.take(i as int),
    {
        r.push(b[i]);
        assert(a@ + b@.take(i + 1) =~= (a@ + b@.take(i as int)).push(b@[i as int]));
    }
    assert(b@.take(b.len() as int) =~= b@);
    r
}

/// Whether two character vectors hold the same characters.
pub fn chars_eq(a: &Vec<char>, b: &Vec<char>) -> (r: bool)
    ensures
        r == (a@ == b@),
{
    if a.len() != b.len() {
        return false;
    }
    for i in 0..a.len()
        invariant
            a.len() == b.len(),
            forall|j: int| 0 <= j < i ==> a@[j] == b@[j],
    {
        if a[i] != b[i] {
            return false;
        }
    }
    assert(a@ =~= b@);
    true
}

// ---------------------------------------------------------------------------
// Character classes
// ---------------------------------------------------------------------------

/// Whether a character has the Unicode `White_Space` property, as
/// `char::is_whitespace` decides: tab, line feed, vertical tab, form feed,
/// carriage return, space, next line, no-break space, Ogham space mark, the
/// spaces from en quad to hair space, line and paragraph separators, narrow
/// no-break space, medium mathematical space and ideographic space.
#[verifier::opaque]
pub open spec fn white_space(c: char) -> bool {
    ||| ('\u{9}' <= c && c <= '\u{d}')
    ||| c == ' '
    ||| c == '\u{85}'
    ||| c == '\u{a0}'
    ||| c == '\u{1680}'
    ||| ('\u{2000}' <= c && c <= '\u{200a}')
    ||| c == '\u{2028}'
    ||| c == '\u{2029}'
    ||| c == '\u{202f}'
    ||| c == '\u{205f}'
    ||| c == '\u{3000}'
}

/// What `char::is_alphanumeric` returns: whether the character is Unicode
/// `Alphabetic` or has a numeric general category.
pub uninterp spec fn alphanumeric(c: char) -> bool;

/// Whether a character is whitespace (`char::is_whitespace`).
pub fn is_whitespace(c: char) -> (r: bool)
    ensures
        r == white_space(c),
{
    proof {
        reveal(white_space);
    }
    ('\u{9}' <= c && c <= '\u{d}') || c == ' ' || c == '\u{85}' || c == '\u{a0}' || c
        == '\u{1680}' || ('\u{2000}' <= c && c <= '\u{200a}') || c == '\u{2028}' || c
        == '\u{2029}' || c == '\u{202f}' || c == '\u{205f}' || c == '\u{3000}'
}

/// Calls `char::is_alphanumeric`; its result is named `alphanumeric`.
/// Nothing more is stated of it.
#[verifier::external_body]
pub(crate) fn is_alphanumeric(c: char) -> (r: bool)
    ensures
        r == alphanumeric(c),
{
    c.is_alphanumeric()
}

/// ASCII decimal digit, as `char::is_ascii_digit`.
pub open spec fn ascii_digit(c: char) -> bool {
    '0' <= c && c <= '9'
}

pub fn is_ascii_digit(c: char) -> (r: bool)
    ensures
        r == ascii_digit(c),
{
    '0' <= c && c <= '9'
}

/// A class of characters that the trimming and searching functions use.
#[derive(Clone, Copy)]
pub enum CharClass {
    Space,
    NotSpace,
    Is(char),
    IsNot(char),
}

pub open spec fn in_class(k: CharClass, c: char) -> bool {
    match k {
        CharClass::Space => white_space(c),
        CharClass::NotSpace => !white_space(c),
        CharClass::Is(x) => c == x,
        CharClass::IsNot(x) => c != x,
    }
}

pub fn class_has(k: CharClass, c: char) -> (r: bool)
    ensures
        r == in_class(k, c),
{
    match k {
        CharClass::Space => is_whitespace(c),
        CharClass::NotSpace => !is_whitespace(c),
        CharClass::Is(x) => c == x,
        CharClass::IsNot(x) => c != x,
    }
}

// ---------------------------------------------------------------------------
// Leading and trailing runs
// ---------------------------------------------------------------------------

/// Length of the longest prefix of `s` whose characters are all in `k`.
pub open spec fn lead(s: Seq<char>, k: CharClass) -> nat
    decreases s.len(),
{
    if s.len() > 0 && in_class(k, s[0]) {
        1 + lead(s.drop_first(), k)
    } else {
        0
    }
}

/// Length of the longest suffix of `s` whose characters are all in `k`.
pub open spec fn trail(s: Seq<char>, k: CharClass) -> nat
    decreases s.len(),
{
    if s.len() > 0 && in_class(k, s.last()) {
        1 + trail(s.drop_last(), k)
    } else {
        0
    }
}

/// `s` without its leading characters of class `k` (`trim_start_matches`).
pub open spec fn strip_start(s: Seq<char>, k: CharClass) -> Seq<char> {
    s.skip(lead(s, k) as int)
}

/// `s` without its trailing characters of class `k` (`trim_end_matches`).
pub open spec fn strip_end(s: Seq<char>, k: CharClass) -> Seq<char> {
    s.take(s.len() - trail(s, k))
}

/// `s` without leading and trailing characters of class `k` (`trim_matches`).
pub open spec fn strip(s: Seq<char>, k: CharClass) -> Seq<char> {
    strip_end(strip_start(s, k), k)
}

/// `str::trim_start`.
pub open spec fn trim_start(s: Seq<char>) -> Seq<char> {
    strip_start(s, CharClass::Space)
}

/// `str::trim`.
pub open spec fn trim(s: Seq<char>) -> Seq<char> {
    strip(s, CharClass::Space)
}

/// Index of the first occurrence of `c` in `s`, or `s.len()` when there is none.
pub open spec fn find(s: Seq<char>, c: char) -> nat {
    lead(s, CharClass::IsNot(c))
}

pub proof fn lemma_lead(s: Seq<char>, k: CharClass)
    ensures
        lead(s, k) <= s.len(),
        forall|j: int| 0 <= j < lead(s, k) ==> in_class(k, #[trigger] s[j]),
        lead(s, k) < s.len() ==> !in_class(k, s[lead(s, k) as int]),
    decreases s.len(),
{
    if s.len() > 0 && in_class(k, s[0]) {
        lemma_lead(s.drop_first(), k);
        assert forall|j: int| 0 <= j < lead(s, k) implies in_class(k, #[trigger] s[j]) by {
            if j > 0 {
                assert(s[j] == s.drop_first()[j - 1]);
            }
        }
    }
}

/// The run length is characterised by its two properties.
pub proof fn lemma_lead_unique(s: Seq<char>, k: CharClass, n: int)
    requires
        0 <= n <= s.len(),
        forall|j: int| 0 <= j < n ==> in_class(k, #[trigger] s[j]),
        n < s.len() ==> !in_class(k, s[n]),
    ensures
        lead(s, k) == n,
    decreases s.len(),
{
    if n > 0 {
        assert(in_class(k, s[0]));
        assert forall|j: int| 0 <= j < n - 1 implies in_class(k, #[trigger] s.drop_first()[j]) by {
            assert(s.drop_first()[j] == s[j + 1]);
        }
        lemma_lead_unique(s.drop_first(), k, n - 1);
    }
}

pub proof fn lemma_trail(s: Seq<char>, k: CharClass)
    ensures
        trail(s, k) <= s.len(),
        forall|j: int| s.len() - trail(s, k) <= j < s.len() ==> in_class(k, #[trigger] s[j]),
        trail(s, k) < s.len() ==> !in_class(k, s[s.len() - trail(s, k) - 1]),
    decreases s.len(),
{
    if s.len() > 0 && in_class(k, s.last()) {
        lemma_trail(s.drop_last(), k);
        assert forall|j: int| s.len() - trail(s, k) <= j < s.len() implies in_class(
            k,
            #[trigger] s[j],
        ) by {
            if j < s.len() - 1 {
                assert(s[j] == s.drop_last()[j]);
            }
        }
    }
}

pub proof fn lemma_trail_unique(s: Seq<char>, k: CharClass, n: int)
    requires
        0 <= n <= s.len(),
        forall|j: int| s.len() - n <= j < s.len() ==> in_class(k, #[trigger] s[j]),
        n < s.len() ==> !in_class(k, s[s.len() - n - 1]),
    ensures
        trail(s, k) == n,
    decreases s.len(),
{
    if n > 0 {
        assert(in_class(k, s[s.len() - 1]));
        assert forall|j: int| s.len() - 1 - (n - 1) <= j < s.len() - 1 implies in_class(
            k,
            #[trigger] s.drop_last()[j],
        ) by {
            assert(s.drop_last()[j] == s[j]);
        }
        lemma_trail_unique(s.drop_last(), k, n - 1);
    }
}

/// `find` is the first occurrence; `s` holds `c` exactly when `find` is in range.
pub proof fn lemma_find(s: Seq<char>, c: char)
    ensures
        find(s, c) <= s.len(),
        forall|j: int| 0 <= j < find(s, c) ==> #[trigger] s[j] != c,
        find(s, c) < s.len() ==> s[find(s, c) as int] == c,
        s.contains(c) <==> find(s, c) < s.len(),
{
    lemma_lead(s, CharClass::IsNot(c));
    if s.contains(c) {
        let j = choose|j: int| 0 <= j < s.len() && s[j] == c;
        if find(s, c) >= s.len() {
            assert(s[j] != c);
        }
    }
}

/// Number of leading characters of `s[from..]` in class `k`.
pub fn lead_len(s: &Vec<char>, k: CharClass) -> (n: usize)
    ensures
        n == lead(s@, k),
{
    let mut i: usize = 0;
    while i < s.len() && class_has(k, s[i])
        invariant
            i <= s.len(),
            forall|j: int| 0 <= j < i ==> in_class(k, #[trigger] s@[j]),
        decreases s.len() - i,
    {
        i += 1;
    }
    proof {
        lemma_lead_unique(s@, k, i as int);
    }
    i
}

pub fn trail_len(s: &Vec<char>, k: CharClass) -> (n: usize)
    ensures
        n == trail(s@, k),
{
    let mut n: usize = 0;
    while n < s.len() && class_has(k, s[s.len() - 1 - n])
        invariant
            n <= s.len(),
            forall|j: int| s.len() - n <= j < s.len() ==> in_class(k, #[trigger] s@[j]),
        decreases s.len() - n,
    {
        n += 1;
    }
    proof {
        lemma_trail_unique(s@, k, n as int);
    }
    n
}

pub fn strip_start_of(s: &Vec<char>, k: CharClass) -> (r: Vec<char>)
    ensures
        r@ == strip_start(s@, k),
{
    let a = lead_len(s, k);
    proof {
        lemma_lead(s@, k);
    }
    sub_vec(s, a, s.len())
}

pub fn strip_end_of(s: &Vec<char>, k: CharClass) -> (r: Vec<char>)
    ensures
        r@ == strip_end(s@, k),
{
    let b = trail_len(s, k);
    proof {
        lemma_trail(s@, k);
    }
    sub_vec(s, 0, s.len() - b)
}

pub fn strip_of(s: &Vec<char>, k: CharClass) -> (r: Vec<char>)
    ensures
        r@ == strip(s@, k),
{
    let t = strip_start_of(s, k);
    strip_end_of(&t, k)
}

pub fn trim_of(s: &Vec<char>) -> (r: Vec<char>)
    ensures
        r@ == trim(s@),
{
    strip_of(s, CharClass::Space)
}

pub fn trim_start_of(s: &Vec<char>) -> (r: Vec<char>)
    ensures
        r@ == trim_start(s@),
{
    strip_start_of(s, CharClass::Space)
}

/// Index of the first `c` in `s`, or `s.len()`.
pub fn find_char(s: &Vec<char>, c: char) -> (n: usize)
    ensures
        n == find(s@, c),
{
    lead_len(s, CharClass::IsNot(c))
}

pub fn contains_char(s: &Vec<char>, c: char) -> (r: bool)
    ensures
        r == s@.contains(c),
{
    proof {
        lemma_find(s@, c);
    }
    find_char(s, c) < s.len()
}

// ---------------------------------------------------------------------------
// Prefixes and suffixes
// ---------------------------------------------------------------------------

pub open spec fn starts_with(s: Seq<char>, p: Seq<char>) -> bool {
    p.len() <= s.len() && s.take(p.len() as int) == p
}

pub open spec fn ends_with(s: Seq<char>, p: Seq<char>) -> bool {
    p.len() <= s.len() && s.skip(s.len() - p.len()) == p
}

pub fn starts_with_chars(s: &Vec<char>, p: &Vec<char>) -> (r: bool)
    ensures
        r == starts_with(s@, p@),
{
    if p.len() > s.len() {
        return false;
    }
    for i in 0..p.len()
        invariant
            p.len() <= s.len(),
            forall|j: int| 0 <= j < i ==> s@[j] == p@[j],
    {
        if s[i] != p[i] {
            assert(s@.take(p.len() as int)[i as int] != p@[i as int]);
            return false;
        }
    }
    assert(s@.take(p.len() as int) =~= p@);
    true
}

pub fn ends_with_chars(s: &Vec<char>, p: &Vec<char>) -> (r: bool)
    ensures
        r == ends_with(s@, p@),
{
    if p.len() > s.len() {
        return false;
    }
    let off = s.len() - p.len();
    for i in 0..p.len()
        invariant
            p.len() <= s.len(),
            off == s.len() - p.len(),
            forall|j: int| 0 <= j < i ==> s@[off + j] == p@[j],
    {
        if s[off + i] != p[i] {
            assert(s@.skip(off as int)[i as int] != p@[i as int]);
            return false;
        }
    }
    assert(s@.skip(off as int) =~= p@);
    true
}

/// `s` with every `from` replaced by `to`.
pub open spec fn replace_char(s: Seq<char>, from: char, to: char) -> Seq<char> {
    s.map_values(|c: char| if c == from { to } else { c })
}

pub fn replace_char_of(s: &Vec<char>, from: char, to: char) -> (r: Vec<char>)
    ensures
        r@ == replace_char(s@, from, to),
{
    let mut r: Vec<char> = Vec::new();
    for i in 0..s.len()
        invariant
            r@ == replace_char(s@.take(i as int), from, to),
    {
        let c = s[i];
        r.push(if c == from { to } else { c });
        assert(replace_char(s@.take(i + 1), from, to) =~= replace_char(
            s@.take(i as int),
            from,
            to,
        ).push(if c == from { to } else { c }));
    }
    assert(s@.take(s.len() as int) =~= s@);
    r
}

} // verus!
