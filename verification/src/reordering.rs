//! Visual right-to-left reordering for engines that render left to right:
//! token order is reversed per line, right-to-left runs are reversed
//! character by character, and a space keeps direction changes apart.
use vstd::prelude::*;
use crate::text::copy_range;
use crate::char_class::{is_ascii_punct, is_white_space, spec_is_ascii_punct, spec_is_white_space};
use crate::detection::{chars_contain_arabic, has_arabic_letter};
use crate::normalize::{normalize_chars, spec_normalize};
use crate::shaping::{shape_chars, spec_shape};
use crate::tokens::{
    spans_view, spans_within, tokenize, tokenize_chars, Span, TokenKind, TokenSpan,
};

verus! {

/// How a token shows: right-to-left runs reversed, everything else as is.
pub open spec fn span_text(s: Seq<char>, t: TokenSpan) -> Seq<char> {
    if t.kind == TokenKind::Rtl {
        s.subrange(t.start, t.end).reverse()
    } else {
        s.subrange(t.start, t.end)
    }
}

/// Going from `prev` to `kind` changes direction: right-to-left against a
/// left-to-right run or a tag, either way round.
pub open spec fn crossing(prev: TokenKind, kind: TokenKind) -> bool {
    (prev == TokenKind::Rtl && (kind == TokenKind::Ltr || kind == TokenKind::Tag)) || ((prev
        == TokenKind::Ltr || prev == TokenKind::Tag) && kind == TokenKind::Rtl)
}

/// The text starts with ASCII punctuation other than a quote mark.
pub open spec fn starts_with_punctuation(r: Seq<char>) -> bool {
    r.len() > 0 && spec_is_ascii_punct(r[0]) && r[0] != '"' && r[0] != '\''
}

/// A space goes between the output so far (`acc`, after a token of kind
/// `prev`) and the next token (`kind`, shown as `r`): at a direction change
/// where neither side already has white space and `r` does not start with
/// punctuation.
pub open spec fn needs_space(acc: Seq<char>, prev: Option<TokenKind>, kind: TokenKind, r: Seq<char>) -> bool {
    match prev {
        Some(pk) => crossing(pk, kind) && !(acc.len() > 0 && spec_is_white_space(acc.last())) && !(
        r.len() > 0 && spec_is_white_space(r[0])) && !starts_with_punctuation(r),
        None => false,
    }
}

/// `acc` followed by the tokens of `line` in the order given, each after a
/// space where `needs_space` asks for one.
pub open spec fn render_line(s: Seq<char>, acc: Seq<char>, prev: Option<TokenKind>, line: Seq<TokenSpan>) -> Seq<char>
    decreases line.len(),
{
    if line.len() == 0 {
        acc
    } else {
        let t = line[0];
        let r = span_text(s, t);
        let acc2 = if needs_space(acc, prev, t.kind, r) {
            acc.push(' ')
        } else {
            acc
        };
        render_line(s, acc2 + r, Some(t.kind), line.drop_first())
    }
}

/// Index of the first line break at or after `i` (the length when none).
pub open spec fn next_newline(ts: Seq<TokenSpan>, i: int) -> int
    decreases ts.len() - i,
{
    if i < 0 || i >= ts.len() {
        ts.len() as int
    } else if ts[i].kind == TokenKind::Newline {
        i
    } else {
        next_newline(ts, i + 1)
    }
}

pub proof fn lemma_next_newline_bounds(ts: Seq<TokenSpan>, i: int)
    requires
        0 <= i <= ts.len(),
    ensures
        i <= next_newline(ts, i) <= ts.len(),
    decreases ts.len() - i,
{
    if i < ts.len() && ts[i].kind != TokenKind::Newline {
        lemma_next_newline_bounds(ts, i + 1);
    }
}

/// `acc` followed by the lines of `ts` from token `i` on: each line is the
/// tokens up to the next line break, shown in reverse order, and lines are
/// separated by a newline.
pub open spec fn render_from(s: Seq<char>, ts: Seq<TokenSpan>, i: int, acc: Seq<char>) -> Seq<char>
    decreases ts.len() - i,
{
    if i < 0 || i > ts.len() {
        acc
    } else {
        let j = next_newline(ts, i);
        proof {
            lemma_next_newline_bounds(ts, i);
        }
        let out = render_line(s, acc, None, ts.subrange(i, j).reverse());
        if j >= ts.len() {
            out
        } else {
            render_from(s, ts, j + 1, out.push('\n'))
        }
    }
}

/// The visual (left-to-right) order of `s`, or `None` when tokenizing `s`
/// never ends.
pub open spec fn spec_visual(s: Seq<char>) -> Option<Seq<char>> {
    match tokenize(s) {
        Some(ts) => Some(render_from(s, ts, 0, Seq::empty())),
        None => None,
    }
}

fn push_span_text(v: &Vec<char>, t: Span, acc: &mut Vec<char>)
    requires
        t.start <= t.end <= v@.len(),
    ensures
        final(acc)@ == old(acc)@ + span_text(v@, t@),
{
    if t.kind == TokenKind::Rtl {
        let mut k: usize = t.end;
        while k > t.start
            invariant
                t.start <= k <= t.end <= v@.len(),
                acc@ == old(acc)@ + v@.subrange(k as int, t.end as int).reverse(),
            decreases k,
        {
            acc.push(v[k - 1]);
            assert(v@.subrange(k - 1, t.end as int).reverse() =~= v@.subrange(
                k as int,
                t.end as int,
            ).reverse().push(v@[k - 1]));
            k -= 1;
        }
    } else {
        let mut k: usize = t.start;
        while k < t.end
            invariant
                t.start <= k <= t.end <= v@.len(),
                acc@ == old(acc)@ + v@.subrange(t.start as int, k as int),
            decreases t.end - k,
        {
            acc.push(v[k]);
            assert(v@.subrange(t.start as int, k + 1) =~= v@.subrange(
                t.start as int,
                k as int,
            ).push(v@[k as int]));
            k += 1;
        }
    }
}

fn is_crossing(prev: TokenKind, kind: TokenKind) -> (r: bool)
    ensures
        r == crossing(prev, kind),
{
    (prev == TokenKind::Rtl && (kind == TokenKind::Ltr || kind == TokenKind::Tag)) || ((prev
        == TokenKind::Ltr || prev == TokenKind::Tag) && kind == TokenKind::Rtl)
}

/// Renders the tokens `i..j` of `ts` in reverse order onto `acc`.
fn render_line_into(v: &Vec<char>, ts: &Vec<Span>, i: usize, j: usize, acc: &mut Vec<char>)
    requires
        i <= j <= ts@.len(),
        spans_within(spans_view(ts@), v@.len() as int),
    ensures
        final(acc)@ == render_line(
            v@,
            old(acc)@,
            None,
            spans_view(ts@).subrange(i as int, j as int).reverse(),
        ),
{
    let ghost line = spans_view(ts@).subrange(i as int, j as int).reverse();
    let mut prev: Option<TokenKind> = None;
    let mut k: usize = j;
    assert(line.skip(0) =~= line);
    while k > i
        invariant
            i <= k <= j <= ts@.len(),
            spans_within(spans_view(ts@), v@.len() as int),
            line == spans_view(ts@).subrange(i as int, j as int).reverse(),
            render_line(v@, old(acc)@, None, line) == render_line(v@, acc@, prev, line.skip(j - k)),
        decreases k,
    {
        let t: Span = ts[k - 1];
        let ghost rest = line.skip(j - k);
        assert(rest[0] == t@);
        assert(rest.drop_first() =~= line.skip(j - k + 1));
        assert(0 <= spans_view(ts@)[k - 1].start <= spans_view(ts@)[k - 1].end <= v@.len());
        let ghost r = span_text(v@, t@);
        let has_first: bool = t.start < t.end;
        let mut sep: bool = false;
        if let Some(pk) = prev {
            if is_crossing(pk, t.kind) {
                let acc_ws: bool = acc.len() > 0 && is_white_space(acc[acc.len() - 1]);
                let mut first_ws: bool = false;
                let mut puncty: bool = false;
                if has_first {
                    let first: char = if t.kind == TokenKind::Rtl {
                        v[t.end - 1]
                    } else {
                        v[t.start]
                    };
                    assert(first == r[0]);
                    first_ws = is_white_space(first);
                    puncty = is_ascii_punct(first) && first != '"' && first != '\'';
                }
                sep = !acc_ws && !first_ws && !puncty;
            }
        }
        assert(sep == needs_space(acc@, prev, t.kind, r));
        if sep {
            acc.push(' ');
        }
        push_span_text(v, t, acc);
        prev = Some(t.kind);
        k -= 1;
    }
    assert(line.skip(j - i) =~= Seq::<TokenSpan>::empty());
}

fn find_newline(ts: &Vec<Span>, i: usize) -> (j: usize)
    requires
        i <= ts@.len(),
    ensures
        j == next_newline(spans_view(ts@), i as int),
{
    proof {
        lemma_next_newline_bounds(spans_view(ts@), i as int);
    }
    let n: usize = ts.len();
    let mut j: usize = i;
    while j < n
        invariant
            n == ts@.len(),
            i <= j <= n,
            next_newline(spans_view(ts@), j as int) == next_newline(spans_view(ts@), i as int),
        decreases n - j,
    {
        if ts[j].kind == TokenKind::Newline {
            return j;
        }
        j += 1;
    }
    n
}

/// Renders all lines of `ts` (see `render_from`).
fn render_tokens(v: &Vec<char>, ts: &Vec<Span>) -> (out: Vec<char>)
    requires
        spans_within(spans_view(ts@), v@.len() as int),
    ensures
        out@ == render_from(v@, spans_view(ts@), 0, Seq::empty()),
{
    let mut acc: Vec<char> = Vec::new();
    let n: usize = ts.len();
    let mut i: usize = 0;
    loop
        invariant
            n == ts@.len(),
            i <= n,
            spans_within(spans_view(ts@), v@.len() as int),
            render_from(v@, spans_view(ts@), 0, Seq::empty()) == render_from(
                v@,
                spans_view(ts@),
                i as int,
                acc@,
            ),
        decreases n - i,
    {
        let j: usize = find_newline(ts, i);
        proof {
            lemma_next_newline_bounds(spans_view(ts@), i as int);
        }
        render_line_into(v, ts, i, j, &mut acc);
        if j >= n {
            return acc;
        }
        acc.push('\n');
        i = j + 1;
    }
}

/// The visual order of `v` (see `spec_visual`); `None` exactly when
/// tokenizing `v` never ends.
pub fn visual_chars(v: &Vec<char>) -> (r: Option<Vec<char>>)
    ensures
        match r {
            Some(out) => spec_visual(v@) == Some(out@),
            None => spec_visual(v@) is None,
        },
{
    match tokenize_chars(v) {
        Some(ts) => Some(render_tokens(v, &ts)),
        None => None,
    }
}

/// Tokenizes the text, reverses token order per line (logical right-to-left
/// to visual left-to-right), reverses Arabic runs character by character,
/// and keeps game tags, entities, escapes and left-to-right words intact.
pub fn manual_rtl_for_unity(text: &str) -> (r: String)
    requires
        spec_visual(text@) is Some,
    ensures
        spec_visual(text@) == Some(r@),
{
    let v: Vec<char> = crate::text::chars_of(text);
    match visual_chars(&v) {
        Some(out) => crate::text::string_of(&out),
        // Ruled out by the precondition.
        None => String::new(),
    }
}

/// `manual_rtl_for_unity` for any text: `None` exactly on the texts where
/// reordering would never end (an `&` that opens no entity, or a `\` that
/// opens no escape, where a token would start).
pub fn try_manual_rtl_for_unity(text: &str) -> (r: Option<String>)
    ensures
        match r {
            Some(o) => spec_visual(text@) == Some(o@),
            None => spec_visual(text@) is None,
        },
{
    let v: Vec<char> = crate::text::chars_of(text);
    match visual_chars(&v) {
        Some(out) => Some(crate::text::string_of(&out)),
        None => None,
    }
}

/// One line reshaped: shaped, put in visual order and post-processed; an
/// empty line stays empty. `None` when reordering the line never ends.
pub open spec fn spec_reshape_line(p: Seq<char>) -> Option<Seq<char>> {
    if p.len() == 0 {
        Some(Seq::empty())
    } else {
        match spec_visual(spec_shape(p)) {
            Some(v) => Some(spec_normalize(v)),
            None => None,
        }
    }
}

/// The length of the line separator that starts at `i`: 2 for an escaped
/// `\n` (a backslash followed by `n`), 1 for a real newline, 0 for none.
pub open spec fn sep_len_at(s: Seq<char>, i: int) -> int {
    if 0 <= i && i + 1 < s.len() && s[i] == '\\' && s[i + 1] == 'n' {
        2
    } else if 0 <= i < s.len() && s[i] == '\n' {
        1
    } else {
        0
    }
}

/// The first position at or after `i` where a line separator starts, or -1.
pub open spec fn next_sep(s: Seq<char>, i: int) -> int
    decreases s.len() - i,
{
    if i < 0 || i >= s.len() {
        -1
    } else if sep_len_at(s, i) > 0 {
        i
    } else {
        next_sep(s, i + 1)
    }
}

pub proof fn lemma_next_sep_props(s: Seq<char>, i: int)
    requires
        0 <= i,
    ensures
        next_sep(s, i) == -1 || (i <= next_sep(s, i) < s.len() && sep_len_at(s, next_sep(s, i))
            > 0),
        forall|j: int|
            i <= j < (if next_sep(s, i) >= 0 {
                next_sep(s, i)
            } else {
                s.len() as int
            }) ==> #[trigger] sep_len_at(s, j) == 0,
    decreases s.len() - i,
{
    if i < s.len() && sep_len_at(s, i) == 0 {
        lemma_next_sep_props(s, i + 1);
    }
}

/// `s` from `start` on, cut at every line separator (escaped `\n` or real
/// newline, left to right), each piece reshaped as one line and the pieces
/// joined again with the separators as they were. `None` when reshaping
/// some piece never ends.
pub open spec fn reshape_pieces(s: Seq<char>, start: int) -> Option<Seq<char>>
    decreases s.len() - start,
{
    if start < 0 || start > s.len() {
        None
    } else {
        let k = next_sep(s, start);
        proof {
            lemma_next_sep_props(s, start);
        }
        if k < 0 {
            spec_reshape_line(s.subrange(start, s.len() as int))
        } else {
            let e = k + sep_len_at(s, k);
            match (spec_reshape_line(s.subrange(start, k)), reshape_pieces(s, e)) {
                (Some(a), Some(b)) => Some(a + s.subrange(k, e) + b),
                _ => None,
            }
        }
    }
}

/// `s` reshaped: unchanged when it has no Arabic letter; otherwise reshaped
/// line by line, lines being cut at escaped `\n` and at real newlines, each
/// separator kept in its own form. `None` when reshaping never ends.
pub open spec fn spec_reshape(s: Seq<char>) -> Option<Seq<char>> {
    if !has_arabic_letter(s) {
        Some(s)
    } else {
        reshape_pieces(s, 0)
    }
}

fn reshape_line_chars(p: &Vec<char>) -> (r: Option<Vec<char>>)
    ensures
        match r {
            Some(o) => spec_reshape_line(p@) == Some(o@),
            None => spec_reshape_line(p@) is None,
        },
{
    if p.len() == 0 {
        return Some(Vec::new());
    }
    let shaped: Vec<char> = shape_chars(p);
    match visual_chars(&shaped) {
        Some(v) => Some(normalize_chars(&v)),
        None => None,
    }
}

fn sep_len(v: &Vec<char>, i: usize) -> (r: usize)
    requires
        i <= v@.len(),
    ensures
        r as int == sep_len_at(v@, i as int),
{
    let n: usize = v.len();
    if i < n && n - i > 1 && v[i] == '\\' && v[i + 1] == 'n' {
        2
    } else if i < n && v[i] == '\n' {
        1
    } else {
        0
    }
}

fn find_next_sep(v: &Vec<char>, i: usize) -> (r: Option<usize>)
    requires
        i <= v@.len(),
    ensures
        match r {
            Some(k) => next_sep(v@, i as int) == k as int,
            None => next_sep(v@, i as int) == -1,
        },
{
    let n: usize = v.len();
    let mut j: usize = i;
    while j < n
        invariant
            n == v@.len(),
            i <= j <= n,
            next_sep(v@, j as int) == next_sep(v@, i as int),
        decreases n - j,
    {
        if sep_len(v, j) > 0 {
            return Some(j);
        }
        j += 1;
    }
    None
}

fn append_chars(out: &mut Vec<char>, a: &Vec<char>)
    ensures
        final(out)@ == old(out)@ + a@,
{
    let n: usize = a.len();
    for k in 0..n
        invariant
            n == a@.len(),
            out@ == old(out)@ + a@.take(k as int),
    {
        out.push(a[k]);
        assert(out@ =~= old(out)@ + a@.take(k + 1));
    }
    assert(a@.take(n as int) =~= a@);
}

fn reshape_pieces_chars(v: &Vec<char>) -> (r: Option<Vec<char>>)
    ensures
        match r {
            Some(o) => reshape_pieces(v@, 0) == Some(o@),
            None => reshape_pieces(v@, 0) is None,
        },
{
    let n: usize = v.len();
    let mut out: Vec<char> = Vec::new();
    let mut start: usize = 0;
    assert(out@ + Seq::<char>::empty() =~= Seq::<char>::empty());
    loop
        invariant
            n == v@.len(),
            start <= n,
            reshape_pieces(v@, 0) == match reshape_pieces(v@, start as int) {
                Some(x) => Some(out@ + x),
                None => None,
            },
        decreases n - start,
    {
        proof {
            lemma_next_sep_props(v@, start as int);
        }
        match find_next_sep(v, start) {
            None => {
                let piece: Vec<char> = copy_range(v, start, n);
                match reshape_line_chars(&piece) {
                    Some(a) => {
                        append_chars(&mut out, &a);
                        return Some(out);
                    },
                    None => {
                        return None;
                    },
                }
            },
            Some(k) => {
                let e: usize = k + sep_len(v, k);
                let piece: Vec<char> = copy_range(v, start, k);
                match reshape_line_chars(&piece) {
                    Some(a) => {
                        let ghost old_out = out@;
                        let sep: Vec<char> = copy_range(v, k, e);
                        append_chars(&mut out, &a);
                        append_chars(&mut out, &sep);
                        proof {
                            match reshape_pieces(v@, e as int) {
                                Some(b) => {
                                    assert(old_out + (a@ + sep@ + b) =~= out@ + b);
                                },
                                None => {},
                            }
                        }
                        start = e;
                    },
                    None => {
                        return None;
                    },
                }
            },
        }
    }
}

/// Reshapes characters (see `spec_reshape`); `None` exactly when reshaping
/// never ends.
pub fn reshape_chars(v: &Vec<char>) -> (r: Option<Vec<char>>)
    ensures
        match r {
            Some(o) => spec_reshape(v@) == Some(o@),
            None => spec_reshape(v@) is None,
        },
{
    if !chars_contain_arabic(v) {
        return Some(copy_range(v, 0, v.len()));
    }
    reshape_pieces_chars(v)
}

/// Main entry point: shapes Arabic letters into presentation forms and
/// puts the text in visual right-to-left order for left-to-right engines,
/// line by line, keeping tags, escapes, entities and left-to-right words
/// intact. Text without Arabic letters comes back unchanged.
pub fn reshape_arabic(text: &str) -> (r: String)
    requires
        spec_reshape(text@) is Some,
    ensures
        spec_reshape(text@) == Some(r@),
        !has_arabic_letter(text@) ==> r@ == text@,
{
    let v: Vec<char> = crate::text::chars_of(text);
    match reshape_chars(&v) {
        Some(out) => crate::text::string_of(&out),
        // Ruled out by the precondition.
        None => String::new(),
    }
}

/// `reshape_arabic` for any text: `None` exactly on the texts where
/// reshaping would never end (an `&` that opens no entity, or a `\` that
/// opens no escape, where a token would start).
pub fn try_reshape_arabic(text: &str) -> (r: Option<String>)
    ensures
        match r {
            Some(o) => spec_reshape(text@) == Some(o@),
            None => spec_reshape(text@) is None,
        },
{
    let v: Vec<char> = crate::text::chars_of(text);
    match reshape_chars(&v) {
        Some(out) => Some(crate::text::string_of(&out)),
        None => None,
    }
}

} // verus!
