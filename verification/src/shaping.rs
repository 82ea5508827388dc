//! Contextual shaping of Arabic letters into presentation forms, with the
//! mandatory Lam-Alef ligatures.
use vstd::prelude::*;
use crate::detection::{is_diacritic, spec_is_diacritic};

verus! {

/// The presentation forms of a base Arabic letter, as
/// (isolated, final, initial, medial, connects to the letter after it).
pub open spec fn spec_arabic_form(c: char) -> Option<(char, char, char, char, bool)> {
    match c {
        'ء' => Some(('\u{FE80}', '\u{FE80}', '\u{FE80}', '\u{FE80}', false)),
        'آ' => Some(('\u{FE81}', '\u{FE82}', '\u{FE81}', '\u{FE82}', false)),
        'أ' => Some(('\u{FE83}', '\u{FE84}', '\u{FE83}', '\u{FE84}', false)),
        'ؤ' => Some(('\u{FE85}', '\u{FE86}', '\u{FE85}', '\u{FE86}', false)),
        'إ' => Some(('\u{FE87}', '\u{FE88}', '\u{FE87}', '\u{FE88}', false)),
        'ئ' => Some(('\u{FE89}', '\u{FE8A}', '\u{FE8B}', '\u{FE8C}', true)),
        'ا' => Some(('\u{FE8D}', '\u{FE8E}', '\u{FE8D}', '\u{FE8E}', false)),
        'ب' => Some(('\u{FE8F}', '\u{FE90}', '\u{FE91}', '\u{FE92}', true)),
        'ة' => Some(('\u{FE93}', '\u{FE94}', '\u{FE93}', '\u{FE94}', false)),
        'ت' => Some(('\u{FE95}', '\u{FE96}', '\u{FE97}', '\u{FE98}', true)),
        'ث' => Some(('\u{FE99}', '\u{FE9A}', '\u{FE9B}', '\u{FE9C}', true)),
        'ج' => Some(('\u{FE9D}', '\u{FE9E}', '\u{FE9F}', '\u{FEA0}', true)),
        'ح' => Some(('\u{FEA1}', '\u{FEA2}', '\u{FEA3}', '\u{FEA4}', true)),
        'خ' => Some(('\u{FEA5}', '\u{FEA6}', '\u{FEA7}', '\u{FEA8}', true)),
        'د' => Some(('\u{FEA9}', '\u{FEAA}', '\u{FEA9}', '\u{FEAA}', false)),
        'ذ' => Some(('\u{FEAB}', '\u{FEAC}', '\u{FEAB}', '\u{FEAC}', false)),
        'ر' => Some(('\u{FEAD}', '\u{FEAE}', '\u{FEAD}', '\u{FEAE}', false)),
        'ز' => Some(('\u{FEAF}', '\u{FEB0}', '\u{FEAF}', '\u{FEB0}', false)),
        'س' => Some(('\u{FEB1}', '\u{FEB2}', '\u{FEB3}', '\u{FEB4}', true)),
        'ش' => Some(('\u{FEB5}', '\u{FEB6}', '\u{FEB7}', '\u{FEB8}', true)),
        'ص' => Some(('\u{FEB9}', '\u{FEBA}', '\u{FEBB}', '\u{FEBC}', true)),
        'ض' => Some(('\u{FEBD}', '\u{FEBE}', '\u{FEBF}', '\u{FEC0}', true)),
        'ط' => Some(('\u{FEC1}', '\u{FEC2}', '\u{FEC3}', '\u{FEC4}', true)),
        'ظ' => Some(('\u{FEC5}', '\u{FEC6}', '\u{FEC7}', '\u{FEC8}', true)),
        'ع' => Some(('\u{FEC9}', '\u{FECA}', '\u{FECB}', '\u{FECC}', true)),
        'غ' => Some(('\u{FECD}', '\u{FECE}', '\u{FECF}', '\u{FED0}', true)),
        'ف' => Some(('\u{FED1}', '\u{FED2}', '\u{FED3}', '\u{FED4}', true)),
        'ق' => Some(('\u{FED5}', '\u{FED6}', '\u{FED7}', '\u{FED8}', true)),
        'ك' => Some(('\u{FED9}', '\u{FEDA}', '\u{FEDB}', '\u{FEDC}', true)),
        'ل' => Some(('\u{FEDD}', '\u{FEDE}', '\u{FEDF}', '\u{FEE0}', true)),
        'م' => Some(('\u{FEE1}', '\u{FEE2}', '\u{FEE3}', '\u{FEE4}', true)),
        'ن' => Some(('\u{FEE5}', '\u{FEE6}', '\u{FEE7}', '\u{FEE8}', true)),
        'ه' => Some(('\u{FEE9}', '\u{FEEA}', '\u{FEEB}', '\u{FEEC}', true)),
        'و' => Some(('\u{FEED}', '\u{FEEE}', '\u{FEED}', '\u{FEEE}', false)),
        'ى' => Some(('\u{FEEF}', '\u{FEF0}', '\u{FEEF}', '\u{FEF0}', false)),
        'ي' => Some(('\u{FEF1}', '\u{FEF2}', '\u{FEF3}', '\u{FEF4}', true)),
        _ => None,
    }
}

/// Shaping forms for base Arabic letters:
/// (Isolated, Final, Initial, Medial, ConnectsToLeft), all in Unicode Arabic
/// Presentation Forms-B. `None` for every other character.
pub fn get_arabic_form(c: char) -> (r: Option<(char, char, char, char, bool)>)
    ensures
        r == spec_arabic_form(c),
{
    match c {
        'ء' => Some(('\u{FE80}', '\u{FE80}', '\u{FE80}', '\u{FE80}', false)),
        'آ' => Some(('\u{FE81}', '\u{FE82}', '\u{FE81}', '\u{FE82}', false)),
        'أ' => Some(('\u{FE83}', '\u{FE84}', '\u{FE83}', '\u{FE84}', false)),
        'ؤ' => Some(('\u{FE85}', '\u{FE86}', '\u{FE85}', '\u{FE86}', false)),
        'إ' => Some(('\u{FE87}', '\u{FE88}', '\u{FE87}', '\u{FE88}', false)),
        'ئ' => Some(('\u{FE89}', '\u{FE8A}', '\u{FE8B}', '\u{FE8C}', true)),
        'ا' => Some(('\u{FE8D}', '\u{FE8E}', '\u{FE8D}', '\u{FE8E}', false)),
        'ب' => Some(('\u{FE8F}', '\u{FE90}', '\u{FE91}', '\u{FE92}', true)),
        'ة' => Some(('\u{FE93}', '\u{FE94}', '\u{FE93}', '\u{FE94}', false)),
        'ت' => Some(('\u{FE95}', '\u{FE96}', '\u{FE97}', '\u{FE98}', true)),
        'ث' => Some(('\u{FE99}', '\u{FE9A}', '\u{FE9B}', '\u{FE9C}', true)),
        'ج' => Some(('\u{FE9D}', '\u{FE9E}', '\u{FE9F}', '\u{FEA0}', true)),
        'ح' => Some(('\u{FEA1}', '\u{FEA2}', '\u{FEA3}', '\u{FEA4}', true)),
        'خ' => Some(('\u{FEA5}', '\u{FEA6}', '\u{FEA7}', '\u{FEA8}', true)),
        'د' => Some(('\u{FEA9}', '\u{FEAA}', '\u{FEA9}', '\u{FEAA}', false)),
        'ذ' => Some(('\u{FEAB}', '\u{FEAC}', '\u{FEAB}', '\u{FEAC}', false)),
        'ر' => Some(('\u{FEAD}', '\u{FEAE}', '\u{FEAD}', '\u{FEAE}', false)),
        'ز' => Some(('\u{FEAF}', '\u{FEB0}', '\u{FEAF}', '\u{FEB0}', false)),
        'س' => Some(('\u{FEB1}', '\u{FEB2}', '\u{FEB3}', '\u{FEB4}', true)),
        'ش' => Some(('\u{FEB5}', '\u{FEB6}', '\u{FEB7}', '\u{FEB8}', true)),
        'ص' => Some(('\u{FEB9}', '\u{FEBA}', '\u{FEBB}', '\u{FEBC}', true)),
        'ض' => Some(('\u{FEBD}', '\u{FEBE}', '\u{FEBF}', '\u{FEC0}', true)),
        'ط' => Some(('\u{FEC1}', '\u{FEC2}', '\u{FEC3}', '\u{FEC4}', true)),
        'ظ' => Some(('\u{FEC5}', '\u{FEC6}', '\u{FEC7}', '\u{FEC8}', true)),
        'ع' => Some(('\u{FEC9}', '\u{FECA}', '\u{FECB}', '\u{FECC}', true)),
        'غ' => Some(('\u{FECD}', '\u{FECE}', '\u{FECF}', '\u{FED0}', true)),
        'ف' => Some(('\u{FED1}', '\u{FED2}', '\u{FED3}', '\u{FED4}', true)),
        'ق' => Some(('\u{FED5}', '\u{FED6}', '\u{FED7}', '\u{FED8}', true)),
        'ك' => Some(('\u{FED9}', '\u{FEDA}', '\u{FEDB}', '\u{FEDC}', true)),
        'ل' => Some(('\u{FEDD}', '\u{FEDE}', '\u{FEDF}', '\u{FEE0}', true)),
        'م' => Some(('\u{FEE1}', '\u{FEE2}', '\u{FEE3}', '\u{FEE4}', true)),
        'ن' => Some(('\u{FEE5}', '\u{FEE6}', '\u{FEE7}', '\u{FEE8}', true)),
        'ه' => Some(('\u{FEE9}', '\u{FEEA}', '\u{FEEB}', '\u{FEEC}', true)),
        'و' => Some(('\u{FEED}', '\u{FEEE}', '\u{FEED}', '\u{FEEE}', false)),
        'ى' => Some(('\u{FEEF}', '\u{FEF0}', '\u{FEEF}', '\u{FEF0}', false)),
        'ي' => Some(('\u{FEF1}', '\u{FEF2}', '\u{FEF3}', '\u{FEF4}', true)),
        _ => None,
    }
}

/// `c` is a base letter that joins the letter that follows it.
pub open spec fn spec_connects_to_left(c: char) -> bool {
    match spec_arabic_form(c) {
        Some(f) => f.4,
        None => false,
    }
}

fn connects_to_left(c: char) -> (r: bool)
    ensures
        r == spec_connects_to_left(c),
{
    match get_arabic_form(c) {
        Some(f) => f.4,
        None => false,
    }
}

/// The (isolated, final) Lam-Alef ligature for Lam followed by `alef`, for
/// the four alef variants ا أ إ آ.
pub open spec fn spec_lam_alef(alef: char) -> Option<(char, char)> {
    if alef == 'ا' {
        Some(('\u{FEFB}', '\u{FEFC}'))
    } else if alef == 'أ' {
        Some(('\u{FEF7}', '\u{FEF8}'))
    } else if alef == 'إ' {
        Some(('\u{FEF9}', '\u{FEFA}'))
    } else if alef == 'آ' {
        Some(('\u{FEF5}', '\u{FEF6}'))
    } else {
        None
    }
}

fn lam_alef(alef: char) -> (r: Option<(char, char)>)
    ensures
        r == spec_lam_alef(alef),
{
    if alef == 'ا' {
        Some(('\u{FEFB}', '\u{FEFC}'))
    } else if alef == 'أ' {
        Some(('\u{FEF7}', '\u{FEF8}'))
    } else if alef == 'إ' {
        Some(('\u{FEF9}', '\u{FEFA}'))
    } else if alef == 'آ' {
        Some(('\u{FEF5}', '\u{FEF6}'))
    } else {
        None
    }
}

/// The nearest character before position `i` that is not a diacritic joins
/// to the left (false when there is none).
pub open spec fn prev_base_connects(s: Seq<char>, i: int) -> bool
    decreases i,
{
    if i <= 0 || i > s.len() {
        false
    } else if spec_is_diacritic(s[i - 1]) {
        prev_base_connects(s, i - 1)
    } else {
        spec_connects_to_left(s[i - 1])
    }
}

/// The first character at or after position `j` that is not a diacritic is a
/// base Arabic letter (false when there is none).
pub open spec fn next_base_is_letter(s: Seq<char>, j: int) -> bool
    decreases s.len() - j,
{
    if j < 0 || j >= s.len() {
        false
    } else if spec_is_diacritic(s[j]) {
        next_base_is_letter(s, j + 1)
    } else {
        spec_arabic_form(s[j]) is Some
    }
}

/// The ligature that replaces the Lam at `i` and the alef after it: final
/// form when the base letter before the Lam joins to the left, else isolated.
pub open spec fn ligature_at(s: Seq<char>, i: int) -> Option<char> {
    if 0 <= i && i + 1 < s.len() && s[i] == 'ل' {
        match spec_lam_alef(s[i + 1]) {
            Some((iso, fin)) => Some(if prev_base_connects(s, i) { fin } else { iso }),
            None => None,
        }
    } else {
        None
    }
}

/// The shaped form of the character at `i`: a base letter takes its final
/// form when the base letter before it (diacritics skipped) joins to the
/// left, and its initial form when it joins to the left itself and the next
/// base letter (diacritics skipped) is an Arabic letter; medial when both
/// hold, isolated when neither. Every other character, diacritics among
/// them, stays as it is.
pub open spec fn letter_form(s: Seq<char>, i: int) -> char {
    match spec_arabic_form(s[i]) {
        Some((iso, fin, ini, med, joins)) => {
            let p = prev_base_connects(s, i);
            let n = joins && next_base_is_letter(s, i + 1);
            if !p && !n {
                iso
            } else if p && !n {
                fin
            } else if !p && n {
                ini
            } else {
                med
            }
        },
        None => s[i],
    }
}

/// The shaped text of `s` from position `i` on.
pub open spec fn shape_from(s: Seq<char>, i: int) -> Seq<char>
    decreases s.len() - i,
{
    if i < 0 || i >= s.len() {
        Seq::empty()
    } else {
        match ligature_at(s, i) {
            Some(l) => seq![l] + shape_from(s, i + 2),
            None => seq![letter_form(s, i)] + shape_from(s, i + 1),
        }
    }
}

/// `s` after contextual shaping.
pub open spec fn spec_shape(s: Seq<char>) -> Seq<char> {
    shape_from(s, 0)
}

fn prev_connects_skipping_diacritics(chars: &Vec<char>, i: usize) -> (r: bool)
    requires
        i <= chars@.len(),
    ensures
        r == prev_base_connects(chars@, i as int),
{
    let mut j: usize = i;
    while j > 0
        invariant
            j <= i <= chars@.len(),
            prev_base_connects(chars@, j as int) == prev_base_connects(chars@, i as int),
        decreases j,
    {
        if is_diacritic(chars[j - 1]) {
            j -= 1;
        } else {
            return connects_to_left(chars[j - 1]);
        }
    }
    false
}

fn next_is_letter_skipping_diacritics(chars: &Vec<char>, from: usize) -> (r: bool)
    requires
        from <= chars@.len(),
    ensures
        r == next_base_is_letter(chars@, from as int),
{
    let n: usize = chars.len();
    let mut j: usize = from;
    while j < n
        invariant
            n == chars@.len(),
            from <= j <= n,
            next_base_is_letter(chars@, j as int) == next_base_is_letter(chars@, from as int),
        decreases n - j,
    {
        if is_diacritic(chars[j]) {
            j += 1;
        } else {
            return get_arabic_form(chars[j]).is_some();
        }
    }
    false
}

/// Shapes a character sequence (see `spec_shape`).
pub fn shape_chars(chars: &Vec<char>) -> (r: Vec<char>)
    ensures
        r@ == spec_shape(chars@),
{
    let n: usize = chars.len();
    let mut shaped: Vec<char> = Vec::new();
    let mut i: usize = 0;
    while i < n
        invariant
            n == chars@.len(),
            i <= n,
            shaped@ + shape_from(chars@, i as int) == spec_shape(chars@),
        decreases n - i,
    {
        let c: char = chars[i];
        if c == 'ل' && i + 1 < n {
            let prev_connects: bool = prev_connects_skipping_diacritics(chars, i);
            if let Some((iso, fin)) = lam_alef(chars[i + 1]) {
                let l: char = if prev_connects { fin } else { iso };
                assert(ligature_at(chars@, i as int) == Some(l));
                assert(shaped@.push(l) + shape_from(chars@, i + 2) =~= shaped@ + shape_from(chars@, i as int));
                shaped.push(l);
                i += 2;
                continue;
            }
        }
        assert(ligature_at(chars@, i as int) is None);
        let form: char = match get_arabic_form(c) {
            Some((iso, fin, ini, med, joins)) => {
                let prev_connects: bool = prev_connects_skipping_diacritics(chars, i);
                let next_connects: bool = next_is_letter_skipping_diacritics(chars, i + 1);
                let n_conn: bool = joins && next_connects;
                if !prev_connects && !n_conn {
                    iso
                } else if prev_connects && !n_conn {
                    fin
                } else if !prev_connects && n_conn {
                    ini
                } else {
                    med
                }
            },
            None => c,
        };
        assert(form == letter_form(chars@, i as int));
        assert(shaped@.push(form) + shape_from(chars@, i + 1) =~= shaped@ + shape_from(chars@, i as int));
        shaped.push(form);
        i += 1;
    }
    assert(shaped@ =~= spec_shape(chars@));
    shaped
}

/// Applies contextual Arabic shaping (isolated / initial / medial / final
/// forms) plus the mandatory Lam-Alef ligatures. Diacritics and every
/// character without presentation forms pass through unchanged.
pub fn apply_arabic_shaping(text: &str) -> (r: String)
    ensures
        r@ == spec_shape(text@),
{
    let chars: Vec<char> = crate::text::chars_of(text);
    let shaped: Vec<char> = shape_chars(&chars);
    crate::text::string_of(&shaped)
}

} // verus!
