//! Recognising Arabic letters, Arabic numerals, diacritics and bidi marks.
use vstd::prelude::*;

verus! {

/// Arabic-Indic digits (U+0660..U+0669) and extended Arabic-Indic digits
/// (U+06F0..U+06F9). They are written left to right.
pub open spec fn spec_is_arabic_numeral(c: char) -> bool {
    let u = c as u32;
    (0x0660 <= u <= 0x0669) || (0x06F0 <= u <= 0x06F9)
}

pub fn is_arabic_numeral(c: char) -> (r: bool)
    ensures
        r == spec_is_arabic_numeral(c),
{
    let u: u32 = c as u32;
    (0x0660 <= u && u <= 0x0669) || (0x06F0 <= u && u <= 0x06F9)
}

/// The Arabic blocks (Arabic, Arabic Supplement, Arabic Extended-A,
/// Presentation Forms-A and -B).
pub open spec fn in_arabic_blocks(c: char) -> bool {
    let u = c as u32;
    ||| 0x0600 <= u <= 0x06FF
    ||| 0x0750 <= u <= 0x077F
    ||| 0x08A0 <= u <= 0x08FF
    ||| 0xFB50 <= u <= 0xFDFF
    ||| 0xFE70 <= u <= 0xFEFF
}

/// An Arabic letter or shape-shifting character: in one of the Arabic blocks
/// and not an Arabic numeral.
pub open spec fn spec_is_arabic_char(c: char) -> bool {
    in_arabic_blocks(c) && !spec_is_arabic_numeral(c)
}

pub fn is_arabic_char(c: char) -> (r: bool)
    ensures
        r == spec_is_arabic_char(c),
{
    let u: u32 = c as u32;
    let is_in_range: bool = (0x0600 <= u && u <= 0x06FF) || (0x0750 <= u && u <= 0x077F) || (
    0x08A0 <= u && u <= 0x08FF) || (0xFB50 <= u && u <= 0xFDFF) || (0xFE70 <= u && u <= 0xFEFF);
    is_in_range && !is_arabic_numeral(c)
}

/// LRM, RLM, the embedding and override controls U+202A..U+202E and the
/// isolates U+2066..U+2069.
pub open spec fn spec_is_bidi_mark(c: char) -> bool {
    let u = c as u32;
    u == 0x200E || u == 0x200F || (0x202A <= u <= 0x202E) || (0x2066 <= u <= 0x2069)
}

pub fn is_bidi_mark(c: char) -> (r: bool)
    ensures
        r == spec_is_bidi_mark(c),
{
    let u: u32 = c as u32;
    u == 0x200E || u == 0x200F || (0x202A <= u && u <= 0x202E) || (0x2066 <= u && u <= 0x2069)
}

/// Harakat, shadda, maddah and the other marks U+064B..U+065F, and the
/// superscript alef U+0670.
pub open spec fn spec_is_diacritic(c: char) -> bool {
    let u = c as u32;
    (0x064B <= u <= 0x065F) || u == 0x0670
}

pub fn is_diacritic(c: char) -> (r: bool)
    ensures
        r == spec_is_diacritic(c),
{
    let u: u32 = c as u32;
    (0x064B <= u && u <= 0x065F) || u == 0x0670
}

/// Some character of `s` is an Arabic letter.
pub open spec fn has_arabic_letter(s: Seq<char>) -> bool {
    exists|i: int| 0 <= i < s.len() && #[trigger] spec_is_arabic_char(s[i])
}

/// Whether `s` holds at least one Arabic letter.
pub fn contains_arabic_letters(s: &str) -> (r: bool)
    ensures
        r == has_arabic_letter(s@),
{
    let v: Vec<char> = crate::text::chars_of(s);
    chars_contain_arabic(&v)
}

pub fn chars_contain_arabic(v: &Vec<char>) -> (r: bool)
    ensures
        r == has_arabic_letter(v@),
{
    let n: usize = v.len();
    for i in 0..n
        invariant
            n == v@.len(),
            forall|k: int| 0 <= k < i ==> !spec_is_arabic_char(#[trigger] v@[k]),
    {
        if is_arabic_char(v[i]) {
            return true;
        }
    }
    false
}

} // verus!
