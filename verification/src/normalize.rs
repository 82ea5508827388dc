//! Post-processing of visually ordered text: white space, slashes, quote
//! entities and trailing step markers.
use vstd::prelude::*;
use crate::char_class::{is_white_space, spec_is_white_space};
use crate::text::copy_range;

verus! {

/// The position that trailing white space in `s[..n]` starts at.
pub open spec fn trailing_cut(s: Seq<char>, n: int) -> int
    decreases n,
{
    if 0 < n <= s.len() && spec_is_white_space(s[n - 1]) {
        trailing_cut(s, n - 1)
    } else {
        n
    }
}

/// The position that leading white space in `s[i..]` ends at.
pub open spec fn leading_cut(s: Seq<char>, i: int) -> int
    decreases s.len() - i,
{
    if 0 <= i < s.len() && spec_is_white_space(s[i]) {
        leading_cut(s, i + 1)
    } else {
        i
    }
}

/// `s` without trailing white space (`str::trim_end`).
pub open spec fn spec_trim_end(s: Seq<char>) -> Seq<char> {
    s.take(trailing_cut(s, s.len() as int))
}

/// `s` without leading white space (`str::trim_start`).
pub open spec fn spec_trim_start(s: Seq<char>) -> Seq<char> {
    s.skip(leading_cut(s, 0))
}

/// `s` without leading and trailing white space (`str::trim`).
pub open spec fn spec_trim(s: Seq<char>) -> Seq<char> {
    spec_trim_start(spec_trim_end(s))
}

pub proof fn lemma_trailing_cut_bounds(s: Seq<char>, n: int)
    requires
        0 <= n <= s.len(),
    ensures
        0 <= trailing_cut(s, n) <= n,
    decreases n,
{
    if 0 < n && spec_is_white_space(s[n - 1]) {
        lemma_trailing_cut_bounds(s, n - 1);
    }
}

pub proof fn lemma_leading_cut_bounds(s: Seq<char>, i: int)
    requires
        0 <= i <= s.len(),
    ensures
        i <= leading_cut(s, i) <= s.len(),
    decreases s.len() - i,
{
    if i < s.len() && spec_is_white_space(s[i]) {
        lemma_leading_cut_bounds(s, i + 1);
    }
}

pub fn trim_end_chars(v: &Vec<char>) -> (r: Vec<char>)
    ensures
        r@ == spec_trim_end(v@),
{
    proof {
        lemma_trailing_cut_bounds(v@, v@.len() as int);
    }
    let mut e: usize = v.len();
    while e > 0 && is_white_space(v[e - 1])
        invariant
            e <= v@.len(),
            trailing_cut(v@, e as int) == trailing_cut(v@, v@.len() as int),
        decreases e,
    {
        e -= 1;
    }
    copy_range(v, 0, e)
}

pub fn trim_start_chars(v: &Vec<char>) -> (r: Vec<char>)
    ensures
        r@ == spec_trim_start(v@),
{
    proof {
        lemma_leading_cut_bounds(v@, 0);
    }
    let n: usize = v.len();
    let mut i: usize = 0;
    while i < n && is_white_space(v[i])
        invariant
            n == v@.len(),
            i <= n,
            leading_cut(v@, i as int) == leading_cut(v@, 0),
        decreases n - i,
    {
        i += 1;
    }
    copy_range(v, i, n)
}

pub fn trim_chars(v: &Vec<char>) -> (r: Vec<char>)
    ensures
        r@ == spec_trim(v@),
{
    let t: Vec<char> = trim_end_chars(v);
    trim_start_chars(&t)
}

/// The digit `d` of a step marker `d)` (`d` from 1 to 9) that `t` ends with;
/// a digit right before `d` makes it part of a longer number, and then
/// there is no marker (`11)` is none).
pub open spec fn step_marker(t: Seq<char>) -> Option<char> {
    if t.len() >= 2 && t.last() == ')' && 0x31 <= t[t.len() - 2] as u32 <= 0x39 && !(t.len()
        >= 3 && 0x30 <= t[t.len() - 3] as u32 <= 0x39) {
        Some(t[t.len() - 2])
    } else {
        None
    }
}

/// A trailing step marker `1)` … `9)` of `s` (trailing white space ignored)
/// and the text before it; when there is none, no marker and `s` itself.
pub open spec fn split_step_marker(s: Seq<char>) -> (Option<char>, Seq<char>) {
    let t = spec_trim_end(s);
    match step_marker(t) {
        Some(d) => (Some(d), t.take(t.len() - 2)),
        None => (None, s),
    }
}

/// The XML entity `&quot;`.
pub open spec fn quot_entity() -> Seq<char> {
    seq!['&', 'q', 'u', 'o', 't', ';']
}

/// `s` holds `&quot;` at position `k`.
pub open spec fn quot_at(s: Seq<char>, k: int) -> bool {
    0 <= k && k + 6 <= s.len() && s.subrange(k, k + 6) == quot_entity()
}

/// The output `r` after the character at `k` of `body` is handled: other
/// characters are kept; a white space character becomes one space, except
/// that it is dropped after a space, next to a `/` (before or after it),
/// when it is a space that starts ` &quot;`, and right after `&quot;`.
/// No space is left right before a `/` or an `&quot;` either: when one is
/// written right after a space, that space is taken out.
pub open spec fn collapse_step(r: Seq<char>, body: Seq<char>, k: int) -> Seq<char> {
    let c = body[k];
    if !spec_is_white_space(c) {
        let r2 = r.push(c);
        if c == '/' && r.len() > 0 && r.last() == ' ' {
            r2.remove(r2.len() - 2)
        } else if r2.len() >= 7 && r2[r2.len() - 7] == ' ' && quot_at(r2, r2.len() - 6) {
            r2.remove(r2.len() - 7)
        } else {
            r2
        }
    } else if r.len() > 0 && r.last() == ' ' {
        r
    } else if (k + 1 < body.len() && body[k + 1] == '/') || (r.len() > 0 && r.last() == '/') {
        r
    } else if c == ' ' && quot_at(body, k + 1) {
        r
    } else if r.len() >= 6 && quot_at(r, r.len() - 6) {
        r
    } else {
        r.push(' ')
    }
}

/// The output after the first `n` characters of `body` are handled.
pub open spec fn collapse(body: Seq<char>, n: int) -> Seq<char>
    decreases n,
{
    if n <= 0 || n > body.len() {
        Seq::empty()
    } else {
        collapse_step(collapse(body, n - 1), body, n - 1)
    }
}

/// `s` after post-processing: a trailing step marker `d)` moves to the
/// front (followed by a space when anything else is left), and the rest,
/// trimmed, has white space collapsed as `collapse_step` says and is
/// trimmed again.
pub open spec fn spec_normalize(s: Seq<char>) -> Seq<char> {
    if s.len() == 0 {
        Seq::empty()
    } else {
        let (m, rest) = split_step_marker(s);
        let body = spec_trim(rest);
        let t = spec_trim(collapse(body, body.len() as int));
        match m {
            Some(d) => if t.len() == 0 {
                seq![d, ')']
            } else {
                seq![d, ')', ' '] + t
            },
            None => t,
        }
    }
}

fn has_quot_at(v: &Vec<char>, k: usize) -> (r: bool)
    ensures
        r == quot_at(v@, k as int),
{
    if k <= v.len() && v.len() - k >= 6 {
        let r: bool = v[k] == '&' && v[k + 1] == 'q' && v[k + 2] == 'u' && v[k + 3] == 'o' && v[k
            + 4] == 't' && v[k + 5] == ';';
        assert(r == (v@.subrange(k as int, k + 6) =~= quot_entity()));
        r
    } else {
        false
    }
}

fn split_marker(v: &Vec<char>) -> (r: (Option<char>, Vec<char>))
    ensures
        r.0 == split_step_marker(v@).0,
        r.1@ == split_step_marker(v@).1,
{
    let t: Vec<char> = trim_end_chars(v);
    let n: usize = t.len();
    if n >= 2 && t[n - 1] == ')' {
        let d: char = t[n - 2];
        let longer: bool = n >= 3 && 0x30 <= t[n - 3] as u32 && t[n - 3] as u32 <= 0x39;
        if 0x31 <= d as u32 && d as u32 <= 0x39 && !longer {
            return (Some(d), copy_range(&t, 0, n - 2));
        }
    }
    (None, copy_range(v, 0, v.len()))
}

/// Post-processing after reordering (see `spec_normalize`), on characters.
pub fn normalize_chars(v: &Vec<char>) -> (r: Vec<char>)
    ensures
        r@ == spec_normalize(v@),
{
    if v.len() == 0 {
        return Vec::new();
    }
    let (marker, rest) = split_marker(v);
    let body: Vec<char> = trim_chars(&rest);
    let n: usize = body.len();
    let mut result: Vec<char> = Vec::new();
    for k in 0..n
        invariant
            n == body@.len(),
            result@ == collapse(body@, k as int),
    {
        let c: char = body[k];
        let ghost before = result@;
        if is_white_space(c) {
            let m: usize = result.len();
            if m > 0 && result[m - 1] == ' ' {
            } else if (k + 1 < n && body[k + 1] == '/') || (m > 0 && result[m - 1] == '/') {
            } else if c == ' ' && has_quot_at(&body, k + 1) {
            } else if m >= 6 && has_quot_at(&result, m - 6) {
            } else {
                result.push(' ');
            }
        } else {
            result.push(c);
            let m2: usize = result.len();
            if c == '/' && m2 >= 2 && result[m2 - 2] == ' ' {
                result.remove(m2 - 2);
            } else if m2 >= 7 && result[m2 - 7] == ' ' && has_quot_at(&result, m2 - 6) {
                result.remove(m2 - 7);
            }
        }
        assert(result@ == collapse_step(before, body@, k as int));
    }
    let t: Vec<char> = trim_chars(&result);
    match marker {
        Some(d) => {
            if t.len() == 0 {
                let mut out: Vec<char> = Vec::new();
                out.push(d);
                out.push(')');
                assert(out@ =~= seq![d, ')']);
                out
            } else {
                let mut out: Vec<char> = Vec::new();
                out.push(d);
                out.push(')');
                out.push(' ');
                let tn: usize = t.len();
                for k in 0..tn
                    invariant
                        tn == t@.len(),
                        out@ == seq![d, ')', ' '] + t@.take(k as int),
                {
                    out.push(t[k]);
                    assert(out@ =~= seq![d, ')', ' '] + t@.take(k + 1));
                }
                assert(t@.take(tn as int) =~= t@);
                out
            }
        },
        None => t,
    }
}

/// Post-processing to clean up common visual artifacts after reordering:
/// moves a trailing step marker `1)` … `9)` to the front, collapses white
/// space into single spaces, removes spaces around slashes and around
/// `&quot;`, and trims the ends.
pub fn normalize_visual_rtl_output(s: &str) -> (r: String)
    ensures
        r@ == spec_normalize(s@),
{
    let v: Vec<char> = crate::text::chars_of(s);
    let out: Vec<char> = normalize_chars(&v);
    crate::text::string_of(&out)
}

} // verus!
