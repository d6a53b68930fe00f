//! The bridge between byte-level results and Rust strings.
//!
//! The engine computes over byte vectors; these helpers turn them into
//! `String` values and are the only places that lean on the standard
//! library's UTF-8 machinery.

use vstd::prelude::*;
use vstd::utf8::{decode_utf8, valid_utf8};
use crate::biguint::ascii_chars;

verus! {

/// Whether `needle` occurs contiguously inside `haystack`.
pub open spec fn contains_seq(haystack: Seq<char>, needle: Seq<char>) -> bool {
    exists|i: int|
        0 <= i <= haystack.len() - needle.len() && #[trigger] haystack.subrange(
            i,
            i + needle.len(),
        ) == needle
}

/// Whether `needle` occurs at position `i` of `haystack`.
fn match_at(haystack: &str, needle: &str, i: usize) -> (r: bool)
    requires
        i + needle@.len() <= haystack@.len(),
        i + needle@.len() <= usize::MAX,
    ensures
        r == (haystack@.subrange(i as int, i + needle@.len()) == needle@),
{
    let n = needle.unicode_len();
    let mut j: usize = 0;
    while j < n
        invariant
            j <= n,
            n == needle@.len(),
            i + n <= haystack@.len(),
            i + n <= usize::MAX,
            forall|l: int| 0 <= l < j ==> haystack@[i + l] == needle@[l],
        decreases n - j,
    {
        let hc = haystack.get_char(i + j);
        let nc = needle.get_char(j);
        if hc != nc {
            proof {
                let sub = haystack@.subrange(i as int, i + needle@.len());
                assert(sub[j as int] != needle@[j as int]);
            }
            return false;
        }
        j = j + 1;
    }
    proof {
        assert(haystack@.subrange(i as int, i + needle@.len()) =~= needle@);
    }
    true
}

/// Whether one string contains another, scanning every position.
pub fn str_contains(haystack: &str, needle: &str) -> (r: bool)
    ensures
        r == contains_seq(haystack@, needle@),
{
    let hn = haystack.unicode_len();
    let nn = needle.unicode_len();
    if nn > hn {
        return false;
    }
    if nn == 0 {
        proof {
            assert(haystack@.subrange(0, 0 + needle@.len() as int) =~= needle@);
        }
        return true;
    }
    let mut i: usize = 0;
    while i <= hn - nn
        invariant
            1 <= nn <= hn,
            hn == haystack@.len(),
            nn == needle@.len(),
            i <= hn - nn + 1,
            forall|k: int|
                0 <= k < i ==> #[trigger] haystack@.subrange(k, k + needle@.len()) != needle@,
        decreases hn + 1 - i,
    {
        if match_at(haystack, needle, i) {
            return true;
        }
        i = i + 1;
    }
    false
}


/// The upper-case form of an ASCII letter; anything else is unchanged.
pub open spec fn upper_char(c: char) -> char {
    if 97 <= c as int <= 122 {
        ((c as u8) - 32) as char
    } else {
        c
    }
}

/// The lower-case form of an ASCII letter; anything else is unchanged.
pub open spec fn lower_char(c: char) -> char {
    if 65 <= c as int <= 90 {
        ((c as u8) + 32) as char
    } else {
        c
    }
}

/// The string with its ASCII letters upper-cased; a string with characters
/// beyond ASCII is returned unchanged.
pub fn ascii_uppercase(s: &str) -> (r: String)
    ensures
        r@ == if vstd::utf8::is_ascii_chars(s@) {
            s@.map_values(|c: char| upper_char(c))
        } else {
            s@
        },
{
    broadcast use vstd::string::is_ascii_spec_bytes;

    if !s.is_ascii() {
        return s.to_owned();
    }
    let bytes = s.as_bytes_vec();
    let n = bytes.len();
    let mut out: Vec<u8> = Vec::new();
    let mut i: usize = 0;
    while i < n
        invariant
            i <= n,
            n == bytes@.len(),
            n == s@.len(),
            bytes@ == Seq::new(s@.len(), |k: int| s@[k] as u8),
            vstd::utf8::is_ascii_chars(s@),
            out@.len() == i,
            forall|k: int| 0 <= k < i ==> #[trigger] out@[k] < 128,
            forall|k: int| 0 <= k < i ==> #[trigger] out@[k] as char == upper_char(s@[k]),
        decreases n - i,
    {
        let b = bytes[i];
        let u = if 97 <= b && b <= 122 {
            b - 32
        } else {
            b
        };
        proof {
            assert(s@[i as int] as u8 == b);
            assert(u as char == upper_char(s@[i as int]));
        }
        out.push(u);
        i = i + 1;
    }
    let r = string_from_ascii_bytes(out);
    proof {
        assert(r@ =~= s@.map_values(|c: char| upper_char(c)));
    }
    r
}

/// The string with its ASCII letters lower-cased; a string with characters
/// beyond ASCII is returned unchanged.
pub fn ascii_lowercase(s: &str) -> (r: String)
    ensures
        r@ == if vstd::utf8::is_ascii_chars(s@) {
            s@.map_values(|c: char| lower_char(c))
        } else {
            s@
        },
{
    broadcast use vstd::string::is_ascii_spec_bytes;

    if !s.is_ascii() {
        return s.to_owned();
    }
    let bytes = s.as_bytes_vec();
    let n = bytes.len();
    let mut out: Vec<u8> = Vec::new();
    let mut i: usize = 0;
    while i < n
        invariant
            i <= n,
            n == bytes@.len(),
            n == s@.len(),
            bytes@ == Seq::new(s@.len(), |k: int| s@[k] as u8),
            vstd::utf8::is_ascii_chars(s@),
            out@.len() == i,
            forall|k: int| 0 <= k < i ==> #[trigger] out@[k] < 128,
            forall|k: int| 0 <= k < i ==> #[trigger] out@[k] as char == lower_char(s@[k]),
        decreases n - i,
    {
        let b = bytes[i];
        let u = if 65 <= b && b <= 90 {
            b + 32
        } else {
            b
        };
        proof {
            assert(s@[i as int] as u8 == b);
            assert(u as char == lower_char(s@[i as int]));
        }
        out.push(u);
        i = i + 1;
    }
    let r = string_from_ascii_bytes(out);
    proof {
        assert(r@ =~= s@.map_values(|c: char| lower_char(c)));
    }
    r
}

/// Relies on `String::from_utf8`: ASCII bytes are valid UTF-8 and decode to
/// one character per byte.
#[verifier::external_body]
pub fn string_from_ascii_bytes(bytes: Vec<u8>) -> (r: String)
    requires
        forall|i: int| 0 <= i < bytes@.len() ==> #[trigger] bytes@[i] < 128,
    ensures
        r@ == ascii_chars(bytes@),
        r@.len() == bytes@.len(),
{
    String::from_utf8(bytes).unwrap_or_default()
}

/// Relies on `String::from_utf8`: it succeeds exactly on valid UTF-8 input
/// and then decodes it.
#[verifier::external_body]
pub fn utf8_to_string(bytes: Vec<u8>) -> (r: Option<String>)
    ensures
        r is Some <==> valid_utf8(bytes@),
        r matches Some(s) ==> s@ == decode_utf8(bytes@),
{
    String::from_utf8(bytes).ok()
}

} // verus!
