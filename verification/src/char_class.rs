//! Character classes from the standard library that the reshaper relies on,
//! each stated over its code point, plus the Unicode alphanumeric test
//! that is taken from `char` itself.
use vstd::prelude::*;

verus! {

/// The Unicode `White_Space` property, the class that `char::is_whitespace`,
/// `str::trim` and `str::trim_end` go by.
pub open spec fn spec_is_white_space(c: char) -> bool {
    let u = c as u32;
    ||| 0x0009 <= u <= 0x000D
    ||| u == 0x0020
    ||| u == 0x0085
    ||| u == 0x00A0
    ||| u == 0x1680
    ||| 0x2000 <= u <= 0x200A
    ||| u == 0x2028
    ||| u == 0x2029
    ||| u == 0x202F
    ||| u == 0x205F
    ||| u == 0x3000
}

/// Whether `c` is Unicode white space (the behaviour of `char::is_whitespace`).
pub fn is_white_space(c: char) -> (r: bool)
    ensures
        r == spec_is_white_space(c),
{
    let u: u32 = c as u32;
    (0x0009 <= u && u <= 0x000D) || u == 0x0020 || u == 0x0085 || u == 0x00A0 || u == 0x1680
        || (0x2000 <= u && u <= 0x200A) || u == 0x2028 || u == 0x2029 || u == 0x202F
        || u == 0x205F || u == 0x3000
}

/// ASCII punctuation: `! " # $ % & ' ( ) * + , - . /`, `: ; < = > ? @`,
/// `[ \ ] ^ _ \``, `{ | } ~` (the behaviour of `char::is_ascii_punctuation`).
pub open spec fn spec_is_ascii_punct(c: char) -> bool {
    let u = c as u32;
    ||| 0x21 <= u <= 0x2F
    ||| 0x3A <= u <= 0x40
    ||| 0x5B <= u <= 0x60
    ||| 0x7B <= u <= 0x7E
}

pub fn is_ascii_punct(c: char) -> (r: bool)
    ensures
        r == spec_is_ascii_punct(c),
{
    let u: u32 = c as u32;
    (0x21 <= u && u <= 0x2F) || (0x3A <= u && u <= 0x40) || (0x5B <= u && u <= 0x60) || (0x7B
        <= u && u <= 0x7E)
}

/// `0-9`, `A-Z` and `a-z` (the behaviour of `char::is_ascii_alphanumeric`).
pub open spec fn spec_is_ascii_alnum(c: char) -> bool {
    let u = c as u32;
    ||| 0x30 <= u <= 0x39
    ||| 0x41 <= u <= 0x5A
    ||| 0x61 <= u <= 0x7A
}

pub fn is_ascii_alnum(c: char) -> (r: bool)
    ensures
        r == spec_is_ascii_alnum(c),
{
    let u: u32 = c as u32;
    (0x30 <= u && u <= 0x39) || (0x41 <= u && u <= 0x5A) || (0x61 <= u && u <= 0x7A)
}

/// Code points below 128 (the behaviour of `char::is_ascii`).
pub open spec fn spec_is_ascii(c: char) -> bool {
    (c as u32) < 0x80
}

pub fn is_ascii(c: char) -> (r: bool)
    ensures
        r == spec_is_ascii(c),
{
    (c as u32) < 0x80
}

/// What `char::is_alphanumeric` answers for `c`: whether it has the Unicode
/// `Alphabetic` property or a numeric general category. The tables behind it
/// are Unicode's and are not restated here.
pub uninterp spec fn unicode_alphanumeric(c: char) -> bool;

/// Calls `char::is_alphanumeric`. Claimed: the answer depends on `c` alone and
/// is the value named `unicode_alphanumeric(c)`.
#[verifier::external_body]
pub(crate) fn char_is_alphanumeric(c: char) -> (r: bool)
    ensures
        r == unicode_alphanumeric(c),
{
    c.is_alphanumeric()
}

} // verus!
