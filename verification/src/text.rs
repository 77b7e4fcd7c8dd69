//! Text helpers over `str` and `String`: UTF-8 decoding, trimming, comparison
//! and building strings a character at a time.
use vstd::prelude::*;
use vstd::utf8::*;

verus! {

/// A character with the Unicode `White_Space` property, the set that
/// `char::is_whitespace` and `str::trim` use.
pub open spec fn is_white(c: char) -> bool {
    let u = c as u32;
    (9 <= u <= 13) || u == 32 || u == 0x85 || u == 0xA0 || u == 0x1680 || (0x2000 <= u <= 0x200A)
        || u == 0x2028 || u == 0x2029 || u == 0x202F || u == 0x205F || u == 0x3000
}

/// What a trim removes: whitespace for `None`, the given character otherwise.
pub open spec fn drops(x: char, pat: Option<char>) -> bool {
    match pat {
        None => is_white(x),
        Some(c) => x == c,
    }
}

/// Number of removable characters at the start of `s`.
pub open spec fn lead_count(s: Seq<char>, pat: Option<char>) -> nat
    decreases s.len(),
{
    if s.len() > 0 && drops(s[0], pat) {
        1 + lead_count(s.skip(1), pat)
    } else {
        0
    }
}

/// Number of removable characters at the end of `s`.
pub open spec fn trail_count(s: Seq<char>, pat: Option<char>) -> nat
    decreases s.len(),
{
    if s.len() > 0 && drops(s.last(), pat) {
        1 + trail_count(s.drop_last(), pat)
    } else {
        0
    }
}

/// `s` without its removable characters at both ends.
pub open spec fn trimmed(s: Seq<char>, pat: Option<char>) -> Seq<char> {
    let a = lead_count(s, pat);
    if a >= s.len() {
        Seq::empty()
    } else {
        s.subrange(a as int, s.len() - trail_count(s, pat))
    }
}

/// The text of `bytes` as `String::from_utf8_lossy` decodes it, each invalid
/// sequence replaced by U+FFFD.
pub uninterp spec fn lossy_utf8(bytes: Seq<u8>) -> Seq<char>;

/// Appends `c` to `s` (`String::push`).
#[verifier::external_body]
pub(crate) fn push_char(s: &mut String, c: char)
    ensures
        final(s)@ == old(s)@.push(c),
{
    s.push(c);
}

/// `std::str::from_utf8`: the bytes as a string slice when they are valid
/// UTF-8, `None` otherwise.
#[verifier::external_body]
pub(crate) fn utf8(bytes: &[u8]) -> (r: Option<&str>)
    ensures
        r is Some <==> valid_utf8(bytes@),
        r matches Some(s) ==> s@ == decode_utf8(bytes@),
{
    std::str::from_utf8(bytes).ok()
}

/// `String::from_utf8_lossy`, made an owned `String`. On valid UTF-8 it is
/// the plain decoding.
#[verifier::external_body]
pub(crate) fn utf8_lossy(bytes: &[u8]) -> (r: String)
    ensures
        r@ == lossy_utf8(bytes@),
        valid_utf8(bytes@) ==> r@ == decode_utf8(bytes@),
{
    String::from_utf8_lossy(bytes).into_owned()
}

/// A character with the Unicode `White_Space` property.
pub fn is_whitespace(c: char) -> (r: bool)
    ensures
        r == is_white(c),
{
    let u = c as u32;
    (9 <= u && u <= 13) || u == 32 || u == 0x85 || u == 0xA0 || u == 0x1680 || (0x2000 <= u && u
        <= 0x200A) || u == 0x2028 || u == 0x2029 || u == 0x202F || u == 0x205F || u == 0x3000
}

fn drops_exec(x: char, pat: Option<char>) -> (r: bool)
    ensures
        r == drops(x, pat),
{
    match pat {
        None => is_whitespace(x),
        Some(c) => x == c,
    }
}

proof fn lemma_lead(s: Seq<char>, pat: Option<char>, i: int)
    requires
        0 <= i <= s.len(),
        forall|k: int| 0 <= k < i ==> drops(#[trigger] s[k], pat),
        i == s.len() || !drops(s[i], pat),
    ensures
        lead_count(s, pat) == i,
    decreases i,
{
    if i > 0 {
        let t = s.skip(1);
        assert forall|k: int| 0 <= k < i - 1 implies drops(#[trigger] t[k], pat) by {
            assert(t[k] == s[k + 1]);
        }
        lemma_lead(t, pat, i - 1);
    }
}

proof fn lemma_trail(s: Seq<char>, pat: Option<char>, j: int)
    requires
        0 <= j <= s.len(),
        forall|k: int| s.len() - j <= k < s.len() ==> drops(#[trigger] s[k], pat),
        j == s.len() || !drops(s[s.len() - 1 - j], pat),
    ensures
        trail_count(s, pat) == j,
    decreases j,
{
    if j > 0 {
        let t = s.drop_last();
        assert forall|k: int| t.len() - (j - 1) <= k < t.len() implies drops(#[trigger] t[k], pat) by {
            assert(t[k] == s[k]);
        }
        if j - 1 < t.len() {
            assert(t[t.len() - 1 - (j - 1)] == s[s.len() - 1 - j]);
        }
        lemma_trail(t, pat, j - 1);
    }
}

/// `s` with the characters that `pat` names removed from both ends:
/// whitespace for `None` (`str::trim`), one character for `Some(c)`
/// (`str::trim_matches(c)`).
pub fn trim_by<'a>(s: &'a str, pat: Option<char>) -> (r: &'a str)
    ensures
        r@ == trimmed(s@, pat),
{
    let n = s.unicode_len();
    let mut i: usize = 0;
    while i < n && drops_exec(s.get_char(i), pat)
        invariant
            n == s@.len(),
            i <= n,
            forall|k: int| 0 <= k < i ==> drops(#[trigger] s@[k], pat),
        decreases n - i,
    {
        i = i + 1;
    }
    proof {
        lemma_lead(s@, pat, i as int);
    }
    if i == n {
        return s.substring_char(0, 0);
    }
    let mut j: usize = 0;
    while j < n - i && drops_exec(s.get_char(n - 1 - j), pat)
        invariant
            n == s@.len(),
            i < n,
            j <= n - i,
            forall|k: int| n - j <= k < n ==> drops(#[trigger] s@[k], pat),
        decreases n - i - j,
    {
        j = j + 1;
    }
    if j == n - i {
        assert(!drops(s@[i as int], pat));
        assert(false);
    }
    proof {
        lemma_trail(s@, pat, j as int);
    }
    s.substring_char(i, n - j)
}

/// `s` without leading and trailing whitespace (`str::trim`).
pub fn trim<'a>(s: &'a str) -> (r: &'a str)
    ensures
        r@ == trimmed(s@, None),
{
    trim_by(s, None)
}

/// Two strings hold the same characters.
pub fn str_eq(a: &str, b: &str) -> (r: bool)
    ensures
        r == (a@ == b@),
{
    let n = a.unicode_len();
    if n != b.unicode_len() {
        return false;
    }
    let mut i: usize = 0;
    while i < n
        invariant
            n == a@.len(),
            n == b@.len(),
            i <= n,
            forall|k: int| 0 <= k < i ==> a@[k] == b@[k],
        decreases n - i,
    {
        if a.get_char(i) != b.get_char(i) {
            return false;
        }
        i = i + 1;
    }
    assert(a@ =~= b@);
    true
}

/// `s` begins with the characters of `p`.
pub fn str_starts_with(s: &str, p: &str) -> (r: bool)
    ensures
        r == (p@.len() <= s@.len() && s@.take(p@.len() as int) == p@),
{
    let n = p.unicode_len();
    if n > s.unicode_len() {
        return false;
    }
    let mut i: usize = 0;
    while i < n
        invariant
            n == p@.len(),
            n <= s@.len(),
            i <= n,
            forall|k: int| 0 <= k < i ==> s@[k] == p@[k],
        decreases n - i,
    {
        if s.get_char(i) != p.get_char(i) {
            assert(s@.take(n as int)[i as int] != p@[i as int]);
            return false;
        }
        i = i + 1;
    }
    assert(s@.take(n as int) =~= p@);
    true
}

} // verus!
