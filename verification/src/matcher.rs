//! The boundary to the regex engine and to the UTF-8 conversions of std.
//!
//! Everything the rest of the crate knows about regular-expression matching
//! is stated here, over byte sequences: a pattern either compiles or it does
//! not (`regex_ok`), a compiled matcher remembers the bytes it was built from
//! (`regex_source`), and matching and capturing are pure functions of the
//! pattern bytes and the text bytes (`pattern_matches`, `capture_span`,
//! `group_names`).

use vstd::prelude::*;
use vstd::string::StringSliceAdditionalSpecFns;
use vstd::utf8::decode_utf8;
use vstd::utf8::encode_utf8;
use vstd::utf8::valid_utf8;

verus! {

#[verifier::external_type_specification]
#[verifier::external_body]
pub struct ExRegex(regex::Regex);

/// Whether `regex::Regex::new` accepts the pattern whose UTF-8 bytes these are.
pub uninterp spec fn regex_ok(pattern: Seq<u8>) -> bool;

/// The bytes of the pattern string a `regex::Regex` was compiled from
/// (what `Regex::as_str` hands back).
pub uninterp spec fn regex_source(re: regex::Regex) -> Seq<u8>;

/// Whether the regex compiled from `pattern` matches anywhere in `text`
/// (both as UTF-8 bytes).
pub uninterp spec fn pattern_matches(pattern: Seq<u8>, text: Seq<u8>) -> bool;

/// The byte span of the capture group called `name` in the leftmost match of
/// the regex compiled from `pattern` against `text`; `None` when there is no
/// match, no group of that name, or the group did not take part in the match.
pub uninterp spec fn capture_span(pattern: Seq<u8>, text: Seq<u8>, name: Seq<u8>) -> Option<
    (int, int),
>;

/// The capture groups of the regex compiled from `pattern`, in order of their
/// opening parentheses, each either named (its name's bytes) or unnamed.
pub uninterp spec fn group_names(pattern: Seq<u8>) -> Seq<Option<Seq<u8>>>;

/// What `String::from_utf8_lossy` makes of bytes that are not valid UTF-8.
pub uninterp spec fn lossy_fallback(bytes: Seq<u8>) -> Seq<char>;

/// What `String::from_utf8_lossy` decodes the given bytes to: the decoded
/// characters where the bytes are valid UTF-8, and otherwise a best effort
/// that depends on the bytes alone.
pub open spec fn lossy_decode(bytes: Seq<u8>) -> Seq<char> {
    if valid_utf8(bytes) {
        decode_utf8(bytes)
    } else {
        lossy_fallback(bytes)
    }
}

/// Relies on `str::from_utf8` and `regex::Regex::new`: compilation succeeds
/// or fails as a function of the pattern string alone, and `Regex::as_str`
/// returns that string unchanged.
#[verifier::external_body]
pub fn regex_new(pattern: &str) -> (r: Option<regex::Regex>)
    ensures
        r is Some <==> regex_ok(pattern.spec_bytes()),
        r matches Some(re) ==> regex_source(re) == pattern.spec_bytes(),
{
    regex::Regex::new(pattern).ok()
}

/// Relies on `regex::Regex::is_match`: true iff the regex matches anywhere in
/// the haystack, a function of the pattern and the haystack alone.
#[verifier::external_body]
pub fn regex_is_match(re: &regex::Regex, text: &str) -> (b: bool)
    ensures
        b == pattern_matches(regex_source(*re), text.spec_bytes()),
{
    re.is_match(text)
}

/// Relies on `regex::Regex::captures` and `regex::Captures::name`: the named
/// group's `Match` carries byte offsets into the haystack that lie on UTF-8
/// boundaries, and `Match::as_str` is exactly the haystack slice between them.
#[verifier::external_body]
pub fn regex_capture(re: &regex::Regex, text: &str, name: &str) -> (r: Option<
    (usize, usize, String),
>)
    ensures
        r is Some <==> capture_span(
            regex_source(*re),
            text.spec_bytes(),
            name.spec_bytes(),
        ) is Some,
        r matches Some(m) ==> {
            &&& capture_span(regex_source(*re), text.spec_bytes(), name.spec_bytes()) == Some(
                (m.0 as int, m.1 as int),
            )
            &&& m.0 <= m.1 <= text.spec_bytes().len()
            &&& encode_utf8(m.2@) == text.spec_bytes().subrange(m.0 as int, m.1 as int)
            &&& pattern_matches(regex_source(*re), text.spec_bytes())
        },
{
    re.captures(text).and_then(|c| c.name(name)).map(|m| (m.start(), m.end(), m.as_str().to_string()))
}

/// Relies on `regex::Regex::capture_names`: yields every capture group in
/// order of its opening parenthesis, `None` for an unnamed group.
#[verifier::external_body]
pub fn regex_capture_names(re: &regex::Regex) -> (names: Vec<Option<String>>)
    ensures
        names@.len() == group_names(regex_source(*re)).len(),
        forall|i: int|
            #![auto]
            0 <= i < names@.len() ==> {
                &&& (names@[i] is Some <==> group_names(regex_source(*re))[i] is Some)
                &&& (names@[i] matches Some(s) ==> group_names(regex_source(*re))[i] == Some(
                    encode_utf8(s@),
                ))
            },
{
    re.capture_names().map(|n| n.map(|s| s.to_string())).collect()
}

/// Relies on `regex::Regex`'s `Clone`: the clone is a regex for the same
/// pattern string.
#[verifier::external_body]
pub fn regex_clone(re: &regex::Regex) -> (r: regex::Regex)
    ensures
        regex_source(r) == regex_source(*re),
{
    re.clone()
}

/// Relies on `str::from_utf8` (then `to_string`): succeeds exactly on valid
/// UTF-8 and decodes it losslessly.
#[verifier::external_body]
pub fn string_from_utf8(v: &[u8]) -> (r: Option<String>)
    ensures
        r is Some <==> valid_utf8(v@),
        r matches Some(s) ==> encode_utf8(s@) == v@,
{
    match std::str::from_utf8(v) {
        Ok(s) => Some(s.to_string()),
        Err(_) => None,
    }
}

/// Relies on `String::from_utf8_lossy`: a pure function of the bytes, and
/// the identity on valid UTF-8.
#[verifier::external_body]
pub fn string_from_utf8_lossy(v: &[u8]) -> (r: String)
    ensures
        r@ == lossy_decode(v@),
        !valid_utf8(v@) ==> r@ == lossy_fallback(v@),
{
    String::from_utf8_lossy(v).to_string()
}

} // verus!
