//! The byte-signature pattern language: whitespace-separated tokens, each
//! either two hex digits (one exact byte, upper or lower case) or `?` (any
//! byte). A pattern must hold at least one token; anything else is rejected
//! before a scan is attempted.

use vstd::prelude::*;
use vstd::string::StringSliceAdditionalSpecFns;

verus! {

/// One token of a byte-signature pattern: one exact byte, or a wildcard that
/// matches any byte.
#[derive(Clone, Copy, PartialEq, Eq, Structural, Debug)]
pub enum PatByte {
    Exact(u8),
    Wildcard,
}

/// Whether one pattern token accepts the byte `b`.
pub open spec fn token_matches(t: PatByte, b: u8) -> bool {
    match t {
        PatByte::Exact(v) => v == b,
        PatByte::Wildcard => true,
    }
}

/// Whether the pattern `pat` matches the bytes of `img` starting at index `i`.
pub open spec fn pattern_matches_at(img: Seq<u8>, pat: Seq<PatByte>, i: int) -> bool {
    &&& 0 <= i
    &&& i + pat.len() <= img.len()
    &&& forall|j: int| 0 <= j < pat.len() ==> token_matches(pat[j], img[i + j])
}

/// ASCII whitespace, the token separator.
pub open spec fn is_space(c: u8) -> bool {
    c == 32 || c == 9 || c == 10 || c == 12 || c == 13
}

/// ASCII hex digit, either case.
pub open spec fn is_hex_digit(c: u8) -> bool {
    (48 <= c <= 57) || (65 <= c <= 70) || (97 <= c <= 102)
}

/// The value of one hex digit.
pub open spec fn hex_val(c: u8) -> u8
    recommends
        is_hex_digit(c),
{
    if 48 <= c <= 57 {
        (c - 48) as u8
    } else if 65 <= c <= 70 {
        (c - 55) as u8
    } else {
        (c - 87) as u8
    }
}

/// The tokens encoded by the byte string `s` from position `i` on, or `None`
/// if the remainder is not a whitespace-separated sequence of valid tokens.
/// The empty remainder encodes the empty token sequence.
pub open spec fn spec_parse_from(s: Seq<u8>, i: int) -> Option<Seq<PatByte>>
    decreases s.len() - i,
{
    if i < 0 || i >= s.len() {
        Some(Seq::empty())
    } else if is_space(s[i]) {
        spec_parse_from(s, i + 1)
    } else if s[i] == 63 {
        // a `?` token, which must end at whitespace or at the end
        if i + 1 == s.len() || is_space(s[i + 1]) {
            match spec_parse_from(s, i + 1) {
                Some(rest) => Some(seq![PatByte::Wildcard] + rest),
                None => None,
            }
        } else {
            None
        }
    } else if is_hex_digit(s[i]) && i + 1 < s.len() && is_hex_digit(s[i + 1]) && (i + 2 == s.len()
        || is_space(s[i + 2])) {
        match spec_parse_from(s, i + 2) {
            Some(rest) => Some(
                seq![PatByte::Exact((16 * hex_val(s[i]) + hex_val(s[i + 1])) as u8)] + rest,
            ),
            None => None,
        }
    } else {
        None
    }
}

/// The tokens encoded by the whole byte string `s`, or `None` if `s` is not a
/// valid pattern. A pattern must hold at least one token.
pub open spec fn spec_parse(s: Seq<u8>) -> Option<Seq<PatByte>> {
    match spec_parse_from(s, 0) {
        Some(toks) => if toks.len() > 0 {
            Some(toks)
        } else {
            None
        },
        None => None,
    }
}

/// The least position at or after `i` where `pat` matches `img`, if any.
pub open spec fn spec_find_from(img: Seq<u8>, pat: Seq<PatByte>, i: int) -> Option<int>
    decreases img.len() - i,
{
    if i + pat.len() > img.len() {
        None
    } else if pattern_matches_at(img, pat, i) {
        Some(i)
    } else {
        spec_find_from(img, pat, i + 1)
    }
}

/// A match at `m` with no earlier match is what `spec_find_from` returns.
pub proof fn lemma_find_from_some(img: Seq<u8>, pat: Seq<PatByte>, start: int, m: int)
    requires
        0 <= start <= m,
        pattern_matches_at(img, pat, m),
        forall|j: int| start <= j < m ==> !pattern_matches_at(img, pat, j),
    ensures
        spec_find_from(img, pat, start) == Some(m),
    decreases m - start,
{
    if start < m {
        lemma_find_from_some(img, pat, start + 1, m);
    }
}

/// What `spec_find_from` returns is a match at or after `start`.
pub proof fn lemma_find_from_bounds(img: Seq<u8>, pat: Seq<PatByte>, start: int)
    ensures
        spec_find_from(img, pat, start) matches Some(m) ==> start <= m && pattern_matches_at(
            img,
            pat,
            m,
        ),
    decreases img.len() - start,
{
    if start + pat.len() <= img.len() && !pattern_matches_at(img, pat, start) {
        lemma_find_from_bounds(img, pat, start + 1);
    }
}

/// With no match anywhere at or after `start`, `spec_find_from` returns `None`.
pub proof fn lemma_find_from_none(img: Seq<u8>, pat: Seq<PatByte>, start: int)
    requires
        0 <= start,
        forall|j: int| start <= j ==> !pattern_matches_at(img, pat, j),
    ensures
        spec_find_from(img, pat, start) is None,
    decreases img.len() - start,
{
    if start + pat.len() <= img.len() {
        lemma_find_from_none(img, pat, start + 1);
    }
}

fn byte_is_space(c: u8) -> (r: bool)
    ensures
        r == is_space(c),
{
    c == 32 || c == 9 || c == 10 || c == 12 || c == 13
}

fn byte_is_hex_digit(c: u8) -> (r: bool)
    ensures
        r == is_hex_digit(c),
{
    (48 <= c && c <= 57) || (65 <= c && c <= 70) || (97 <= c && c <= 102)
}

fn byte_hex_val(c: u8) -> (r: u8)
    requires
        is_hex_digit(c),
    ensures
        r == hex_val(c),
{
    if 48 <= c && c <= 57 {
        c - 48
    } else if 65 <= c && c <= 70 {
        c - 55
    } else {
        c - 87
    }
}

fn parse_from(s: &[u8], i: usize) -> (r: Option<Vec<PatByte>>)
    requires
        i <= s@.len(),
    ensures
        match r {
            Some(toks) => spec_parse_from(s@, i as int) == Some(toks@),
            None => spec_parse_from(s@, i as int) is None,
        },
    decreases s@.len() - i,
{
    if i >= s.len() {
        Some(Vec::new())
    } else {
        let c = s[i];
        if byte_is_space(c) {
            parse_from(s, i + 1)
        } else if c == 63 {
            if i + 1 == s.len() || byte_is_space(s[i + 1]) {
                match parse_from(s, i + 1) {
                    Some(mut rest) => {
                        rest.insert(0, PatByte::Wildcard);
                        Some(rest)
                    },
                    None => None,
                }
            } else {
                None
            }
        } else if byte_is_hex_digit(c) && i + 1 < s.len() && byte_is_hex_digit(s[i + 1]) && (i + 2
            == s.len() || byte_is_space(s[i + 2])) {
            let v = 16 * byte_hex_val(c) + byte_hex_val(s[i + 1]);
            match parse_from(s, i + 2) {
                Some(mut rest) => {
                    rest.insert(0, PatByte::Exact(v));
                    Some(rest)
                },
                None => None,
            }
        } else {
            None
        }
    }
}

/// Parses a pattern string into its tokens: `Some` exactly when the string is
/// a valid, non-empty pattern.
pub fn parse_pattern(pattern: &str) -> (r: Option<Vec<PatByte>>)
    ensures
        match r {
            Some(toks) => spec_parse(pattern.spec_bytes()) == Some(toks@) && toks@.len() > 0,
            None => spec_parse(pattern.spec_bytes()) is None,
        },
{
    let bytes = pattern.as_bytes();
    match parse_from(bytes, 0) {
        Some(toks) => if toks.len() > 0 {
            Some(toks)
        } else {
            None
        },
        None => None,
    }
}

/// Compares two token vectors for equality of their contents.
pub fn pat_eq(a: &Vec<PatByte>, b: &Vec<PatByte>) -> (r: bool)
    ensures
        r == (a@ == b@),
{
    if a.len() != b.len() {
        proof {
            assert(a@.len() != b@.len());
        }
        return false;
    }
    let n = a.len();
    let mut i: usize = 0;
    while i < n
        invariant
            n == a@.len(),
            n == b@.len(),
            i <= n,
            forall|j: int| 0 <= j < i ==> a@[j] == b@[j],
        decreases n - i,
    {
        if a[i] != b[i] {
            return false;
        }
        i += 1;
    }
    proof {
        assert(a@ =~= b@);
    }
    true
}

/// Whether `pat` matches `img` at position `i`.
fn matches_at(img: &[u8], pat: &Vec<PatByte>, i: usize) -> (r: bool)
    requires
        i + pat@.len() <= img@.len(),
    ensures
        r == pattern_matches_at(img@, pat@, i as int),
{
    let n = img.len();
    let mut j: usize = 0;
    while j < pat.len()
        invariant
            n == img@.len(),
            i + pat@.len() <= img@.len(),
            j <= pat@.len(),
            forall|k: int| 0 <= k < j ==> token_matches(pat@[k], img@[i + k]),
        decreases pat@.len() - j,
    {
        let ok = match pat[j] {
            PatByte::Exact(v) => v == img[i + j],
            PatByte::Wildcard => true,
        };
        if !ok {
            return false;
        }
        j += 1;
    }
    true
}

/// Finds the first position at or after `start` where `pat` matches `img`.
/// Returns the least such position; `None` exactly when there is none.
pub fn find_first_match(img: &[u8], pat: &Vec<PatByte>, start: usize) -> (r: Option<usize>)
    ensures
        match r {
            Some(i) => start <= i && pattern_matches_at(img@, pat@, i as int) && forall|j: int|
                start <= j < i ==> !pattern_matches_at(img@, pat@, j),
            None => forall|j: int| start <= j ==> !pattern_matches_at(img@, pat@, j),
        },
{
    if img.len() < pat.len() || start > img.len() - pat.len() {
        return None;
    }
    if pat.len() == 0 {
        return Some(start);
    }
    let last: usize = img.len() - pat.len();
    let mut i: usize = start;
    while i <= last
        invariant
            pat@.len() >= 1,
            pat@.len() + last == img@.len(),
            img@.len() <= usize::MAX,
            start <= i <= last + 1,
            forall|j: int| start <= j < i ==> !pattern_matches_at(img@, pat@, j),
        decreases last + 1 - i,
    {
        if matches_at(img, pat, i) {
            return Some(i);
        }
        i += 1;
    }
    None
}

} // verus!
