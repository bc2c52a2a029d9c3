//! Text primitives of the standard library, with the contracts that the
//! parser is proved against.

use vstd::prelude::*;
use vstd::utf8::{decode_utf8, valid_utf8};

verus! {

/// Whether `c` has the Unicode property `White_Space`.
pub open spec fn is_whitespace(c: char) -> bool {
    let v = c as u32;
    ||| 0x09 <= v <= 0x0d
    ||| v == 0x20
    ||| v == 0x85
    ||| v == 0xa0
    ||| v == 0x1680
    ||| 0x2000 <= v <= 0x200a
    ||| v == 0x2028
    ||| v == 0x2029
    ||| v == 0x202f
    ||| v == 0x205f
    ||| v == 0x3000
}

/// `s` without its leading whitespace.
pub open spec fn trim_start(s: Seq<char>) -> Seq<char>
    decreases s.len(),
{
    if s.len() > 0 && is_whitespace(s.first()) {
        trim_start(s.drop_first())
    } else {
        s
    }
}

/// `s` without its trailing whitespace.
pub open spec fn trim_end(s: Seq<char>) -> Seq<char>
    decreases s.len(),
{
    if s.len() > 0 && is_whitespace(s.last()) {
        trim_end(s.drop_last())
    } else {
        s
    }
}

/// `s` without the whitespace that surrounds it.
pub open spec fn trimmed(s: Seq<char>) -> Seq<char> {
    trim_end(trim_start(s))
}

/// Whether `pattern` occurs somewhere in `s` as a contiguous run: whether
/// what is left of `s` after some of its characters starts with `pattern`.
pub open spec fn occurs_in(pattern: Seq<char>, s: Seq<char>) -> bool {
    exists|i: int| 0 <= i <= s.len() && pattern.is_prefix_of(#[trigger] s.skip(i))
}

/// `str::trim`. Trusted: the result is the argument without its leading and
/// trailing characters of the Unicode property `White_Space`.
#[verifier::external_body]
pub(crate) fn trim(line: &str) -> (text: &str)
    ensures
        text@ == trimmed(line@),
{
    line.trim()
}

/// `str::starts_with` for a string pattern. Trusted: the result says whether
/// the characters of `prefix` are the first characters of `line`.
#[verifier::external_body]
pub(crate) fn starts_with(line: &str, prefix: &str) -> (found: bool)
    ensures
        found == prefix@.is_prefix_of(line@),
{
    line.starts_with(prefix)
}

/// `str::contains` for a string pattern. Trusted: the result says whether
/// the characters of `pattern` occur in `line` as a contiguous run.
#[verifier::external_body]
pub(crate) fn contains(line: &str, pattern: &str) -> (found: bool)
    ensures
        found == occurs_in(pattern@, line@),
{
    line.contains(pattern)
}

/// `core::str::from_utf8`. Trusted: the bytes are accepted exactly when they
/// are well-formed UTF-8, and the text that comes back is their decoding.
#[verifier::external_body]
pub(crate) fn decode(bytes: &[u8]) -> (text: Option<&str>)
    ensures
        text is Some <==> valid_utf8(bytes@),
        text matches Some(s) ==> s@ == decode_utf8(bytes@),
{
    core::str::from_utf8(bytes).ok()
}

} // verus!
