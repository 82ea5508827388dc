//! Properties of the reshaper as a whole, proved over the specifications of
//! its functions.
use vstd::prelude::*;
use crate::char_class::{
    spec_is_ascii, spec_is_ascii_alnum, spec_is_ascii_punct, spec_is_white_space,
};
use crate::detection::{has_arabic_letter, spec_is_arabic_char, spec_is_bidi_mark, spec_is_diacritic};
use crate::normalize::{
    collapse, collapse_step, leading_cut, quot_at, quot_entity, spec_normalize, spec_trim,
    spec_trim_end, split_step_marker, step_marker, trailing_cut,
};
use crate::reordering::{
    lemma_next_sep_props, needs_space, next_newline, next_sep, render_from, render_line, reshape_pieces,
    sep_len_at, span_text, spec_reshape, spec_reshape_line, spec_visual,
};
use crate::shaping::{
    letter_form, ligature_at, prev_base_connects, shape_from, spec_arabic_form,
    spec_connects_to_left, spec_lam_alef, spec_shape,
};
use crate::tokens::{
    balanced_end, cons_tokens, entity_end, escape_at, flush, is_tag_open,
    lemma_balanced_end_bounds, lemma_ltr_run_end_bounds, lemma_neutral_end_bounds,
    lemma_quote_close_bounds, ltr_continues, ltr_run_end, ltr_start, neutral_continues,
    neutral_end, quote_close, quoted_end, run_kind, scan, tag_close, tokenize, TokenKind,
    TokenSpan,
};

verus! {

/// Every character of `s` satisfies `pred`.
pub open spec fn all_chars(s: Seq<char>, pred: spec_fn(char) -> bool) -> bool {
    forall|i: int| 0 <= i < s.len() ==> #[trigger] pred(s[i])
}

/// A presentation form: U+FE70..U+FEFF.
pub open spec fn is_presentation_form(c: char) -> bool {
    0xFE70 <= c as u32 <= 0xFEFF
}

/// Shaping only ever writes characters of its input or presentation forms,
/// so any class of characters that takes in every presentation form and
/// every character of the input takes in every character of the output.
pub proof fn lemma_shape_from_keeps(s: Seq<char>, i: int, pred: spec_fn(char) -> bool)
    requires
        all_chars(s, pred),
        forall|c: char| is_presentation_form(c) ==> #[trigger] pred(c),
    ensures
        all_chars(shape_from(s, i), pred),
    decreases s.len() - i,
{
    if 0 <= i < s.len() {
        match ligature_at(s, i) {
            Some(l) => {
                lemma_shape_from_keeps(s, i + 2, pred);
                assert(is_presentation_form(l));
                assert forall|k: int| 0 <= k < shape_from(s, i).len() implies #[trigger] pred(
                    shape_from(s, i)[k],
                ) by {
                    if k > 0 {
                        assert(shape_from(s, i)[k] == shape_from(s, i + 2)[k - 1]);
                    }
                }
            },
            None => {
                lemma_shape_from_keeps(s, i + 1, pred);
                let f = letter_form(s, i);
                assert(pred(f)) by {
                    assert(pred(s[i]));
                    if spec_arabic_form(s[i]) is Some {
                        assert(is_presentation_form(f));
                    }
                }
                assert forall|k: int| 0 <= k < shape_from(s, i).len() implies #[trigger] pred(
                    shape_from(s, i)[k],
                ) by {
                    if k > 0 {
                        assert(shape_from(s, i)[k] == shape_from(s, i + 1)[k - 1]);
                    }
                }
            },
        }
    }
}


/// Neither `&` nor a backslash: the only characters at which tokenizing can stall.
pub open spec fn not_stalling(c: char) -> bool {
    c != '&' && c != '\\'
}

/// The class of characters at which tokenizing cannot stall.
pub open spec fn stall_free() -> spec_fn(char) -> bool {
    |c: char| not_stalling(c)
}

proof fn lemma_scan_ends(s: Seq<char>, p: int, b: int)
    requires
        0 <= b <= p <= s.len(),
        all_chars(s, stall_free()),
    ensures
        scan(s, p, b) is Some,
    decreases s.len() - p,
{
    if p < s.len() {
        let c = s[p];
        assert(stall_free()(s[p]));
        if is_tag_open(c) {
            lemma_balanced_end_bounds(s, p, 0, c, tag_close(c));
            let e = balanced_end(s, p, 0, c, tag_close(c));
            lemma_scan_ends(s, e, e);
        } else if c == '\n' {
            lemma_scan_ends(s, p + 1, p + 1);
        } else if spec_is_arabic_char(c) || spec_is_bidi_mark(c) {
            lemma_scan_ends(s, p + 1, b);
        } else if c == '"' && quoted_end(s, p) is Some {
            lemma_quote_close_bounds(s, p + 1);
            let e = quoted_end(s, p)->0;
            lemma_scan_ends(s, e, e);
        } else if ltr_start(c) {
            lemma_ltr_run_end_bounds(s, p);
            let e = ltr_run_end(s, p);
            lemma_scan_ends(s, e, e);
        } else if spec_is_white_space(c) || spec_is_ascii_punct(c) {
            lemma_neutral_end_bounds(s, p);
            assert(neutral_continues(c));
            let e = neutral_end(s, p);
            lemma_scan_ends(s, e, e);
        } else {
            lemma_scan_ends(s, p + 1, b);
        }
    }
}

/// Putting a text without `&` and backslashes in visual order always ends.
pub proof fn law_visual_ends(s: Seq<char>)
    requires
        all_chars(s, stall_free()),
    ensures
        spec_visual(s) is Some,
{
    lemma_scan_ends(s, 0, 0);
}

proof fn lemma_reshape_line_ends(p: Seq<char>)
    requires
        all_chars(p, stall_free()),
    ensures
        spec_reshape_line(p) is Some,
{
    if p.len() > 0 {
        lemma_shape_from_keeps(p, 0, stall_free());
        law_visual_ends(spec_shape(p));
    }
}

proof fn lemma_reshape_pieces_end(s: Seq<char>, start: int)
    requires
        0 <= start <= s.len(),
        all_chars(s, stall_free()),
    ensures
        reshape_pieces(s, start) is Some,
    decreases s.len() - start,
{
    lemma_next_sep_props(s, start);
    let k = next_sep(s, start);
    if k < 0 {
        lemma_reshape_line_ends(s.subrange(start, s.len() as int));
    } else {
        lemma_reshape_line_ends(s.subrange(start, k));
        lemma_reshape_pieces_end(s, k + sep_len_at(s, k));
    }
}

/// Reshaping a text without `&` and backslashes always ends, so `reshape_arabic`
/// accepts every such text.
pub proof fn law_reshape_ends(s: Seq<char>)
    requires
        all_chars(s, stall_free()),
    ensures
        spec_reshape(s) is Some,
{
    lemma_reshape_pieces_end(s, 0);
}


/// The class of Arabic letters.
pub open spec fn arabic_letter() -> spec_fn(char) -> bool {
    |c: char| spec_is_arabic_char(c)
}

/// The class of characters that are not white space.
pub open spec fn not_white_space() -> spec_fn(char) -> bool {
    |c: char| !spec_is_white_space(c)
}

proof fn lemma_scan_arabic_run(s: Seq<char>, p: int, b: int)
    requires
        0 <= b <= p <= s.len(),
        forall|i: int| p <= i < s.len() ==> #[trigger] spec_is_arabic_char(s[i]),
    ensures
        scan(s, p, b) == Some(flush(s, b, s.len() as int)),
    decreases s.len() - p,
{
    if p < s.len() {
        assert(spec_is_arabic_char(s[p]));
        lemma_scan_arabic_run(s, p + 1, b);
    }
}

/// A text made only of Arabic letters comes out of visual reordering as the
/// same letters in reverse order.
pub proof fn law_arabic_text_reversed(s: Seq<char>)
    requires
        all_chars(s, arabic_letter()),
    ensures
        spec_visual(s) == Some(s.reverse()),
{
    assert forall|i: int| 0 <= i < s.len() implies #[trigger] spec_is_arabic_char(s[i]) by {
        assert(arabic_letter()(s[i]));
    }
    lemma_scan_arabic_run(s, 0, 0);
    let n = s.len() as int;
    if n == 0 {
        assert(s.reverse() =~= Seq::<char>::empty());
        assert(tokenize(s) == Some(Seq::<TokenSpan>::empty()));
        let e = Seq::<TokenSpan>::empty();
        assert(next_newline(e, 0) == 0);
        assert(e.subrange(0, 0).reverse() =~= e);
        assert(render_from(s, e, 0, Seq::empty()) == Seq::<char>::empty());
    } else {
        assert(spec_is_arabic_char(s.subrange(0, n)[0]));
        assert(run_kind(s.subrange(0, n)) == TokenKind::Rtl);
        let t = TokenSpan { kind: TokenKind::Rtl, start: 0, end: n };
        let ts = seq![t];
        assert(tokenize(s) == Some(ts));
        assert(next_newline(ts, 1) == 1);
        assert(next_newline(ts, 0) == 1);
        assert(ts.subrange(0, 1).reverse() =~= ts);
        assert(s.subrange(0, n) =~= s);
        assert(span_text(s, t) == s.reverse());
        assert(ts.drop_first() =~= Seq::<TokenSpan>::empty());
        assert(Seq::<char>::empty() + s.reverse() =~= s.reverse());
        assert(render_line(s, Seq::empty(), None, ts) == render_line(
            s,
            s.reverse(),
            Some(TokenKind::Rtl),
            Seq::empty(),
        ));
    }
}

proof fn lemma_collapse_no_space(x: Seq<char>, k: int)
    requires
        0 <= k <= x.len(),
        forall|i: int| 0 <= i < x.len() ==> !#[trigger] spec_is_white_space(x[i]),
    ensures
        collapse(x, k) == x.take(k),
    decreases k,
{
    if k > 0 {
        lemma_collapse_no_space(x, k - 1);
        assert(!spec_is_white_space(x[k - 1]));
        assert(spec_is_white_space(' '));
        let y = x.take(k);
        assert(x.take(k - 1).push(x[k - 1]) =~= y);
        assert forall|i: int| 0 <= i < y.len() implies #[trigger] y[i] != ' ' by {
            assert(y[i] == x[i]);
        }
        if k >= 2 {
            assert(x.take(k - 1).last() == y[k - 2]);
        }
        if k >= 7 {
            assert(y[k - 7] != ' ');
        }
    }
}

proof fn lemma_trim_no_space(x: Seq<char>)
    requires
        forall|i: int| 0 <= i < x.len() ==> !#[trigger] spec_is_white_space(x[i]),
    ensures
        spec_trim_end(x) == x,
        spec_trim(x) == x,
{
    if x.len() > 0 {
        assert(!spec_is_white_space(x[x.len() - 1]));
        assert(!spec_is_white_space(x[0]));
    }
    assert(trailing_cut(x, x.len() as int) == x.len());
    assert(x.take(x.len() as int) =~= x);
    assert(leading_cut(x, 0) == 0);
    assert(x.skip(0) =~= x);
}

/// Post-processing leaves a text alone when it holds no white space and
/// does not end with a step marker.
pub proof fn law_normalize_keeps_plain_text(x: Seq<char>)
    requires
        all_chars(x, not_white_space()),
        step_marker(x) is None,
    ensures
        spec_normalize(x) == x,
{
    assert forall|i: int| 0 <= i < x.len() implies !#[trigger] spec_is_white_space(x[i]) by {
        assert(not_white_space()(x[i]));
    }
    if x.len() > 0 {
        lemma_trim_no_space(x);
        assert(split_step_marker(x) == (None::<char>, x));
        lemma_collapse_no_space(x, x.len() as int);
        assert(x.take(x.len() as int) =~= x);
    }
}

proof fn lemma_next_sep_absent(s: Seq<char>, i: int)
    requires
        0 <= i,
        forall|j: int| 0 <= j < s.len() ==> #[trigger] s[j] != '\\' && s[j] != '\n',
    ensures
        next_sep(s, i) == -1,
    decreases s.len() - i,
{
    if i < s.len() {
        assert(s[i] != '\\' && s[i] != '\n');
        lemma_next_sep_absent(s, i + 1);
    }
}

/// A word made only of Arabic letters is reshaped into its shaped form,
/// reversed: the shaping, the visual order and nothing else.
pub proof fn law_arabic_word_reshaped(s: Seq<char>)
    requires
        s.len() > 0,
        all_chars(s, arabic_letter()),
    ensures
        spec_reshape(s) == Some(spec_shape(s).reverse()),
{
    assert(arabic_letter()(s[0]));
    assert(has_arabic_letter(s));
    assert forall|j: int| 0 <= j < s.len() implies #[trigger] s[j] != '\\' && s[j] != '\n' by {
        assert(arabic_letter()(s[j]));
    }
    lemma_next_sep_absent(s, 0);
    assert(s.subrange(0, s.len() as int) =~= s);
    lemma_shape_from_keeps(s, 0, arabic_letter());
    let t = spec_shape(s);
    law_arabic_text_reversed(t);
    let r = t.reverse();
    assert(t.len() > 0);
    assert forall|i: int| 0 <= i < r.len() implies #[trigger] not_white_space()(r[i]) by {
        assert(arabic_letter()(t[t.len() - 1 - i]));
    }
    assert(arabic_letter()(t[0]));
    assert(r.last() == t[0]);
    law_normalize_keeps_plain_text(r);
}


/// Every white space character of `r` is a plain space.
pub open spec fn spaces_only(r: Seq<char>) -> bool {
    forall|i: int| 0 <= i < r.len() && #[trigger] spec_is_white_space(r[i]) ==> r[i] == ' '
}

/// No two spaces in a row.
pub open spec fn no_double_space(r: Seq<char>) -> bool {
    forall|i: int| 0 <= i && i + 1 < r.len() && #[trigger] r[i] == ' ' ==> r[i + 1] != ' '
}

/// No space right after a `/`.
pub open spec fn no_space_after_slash(r: Seq<char>) -> bool {
    forall|i: int| 0 <= i && i + 1 < r.len() && #[trigger] r[i] == '/' ==> r[i + 1] != ' '
}

/// No space right after `&quot;`.
pub open spec fn no_space_after_quot(r: Seq<char>) -> bool {
    forall|i: int| 0 <= i && i + 6 < r.len() && #[trigger] quot_at(r, i) ==> r[i + 6] != ' '
}

/// No space right before a `/`.
pub open spec fn no_space_before_slash(r: Seq<char>) -> bool {
    forall|i: int| 0 <= i && i + 1 < r.len() && #[trigger] r[i] == ' ' ==> r[i + 1] != '/'
}

/// No space right before `&quot;`.
pub open spec fn no_space_before_quot(r: Seq<char>) -> bool {
    forall|i: int| 0 <= i && i + 1 < r.len() && #[trigger] r[i] == ' ' ==> !quot_at(r, i + 1)
}

/// `tidy`, and no space right before a `/` or `&quot;` either.
pub open spec fn tidy_all(r: Seq<char>) -> bool {
    &&& tidy(r)
    &&& no_space_before_slash(r)
    &&& no_space_before_quot(r)
}

pub open spec fn tidy(r: Seq<char>) -> bool {
    &&& spaces_only(r)
    &&& no_double_space(r)
    &&& no_space_after_slash(r)
    &&& no_space_after_quot(r)
}

/// Neither starts nor ends with white space.
pub open spec fn trimmed(r: Seq<char>) -> bool {
    r.len() > 0 ==> !spec_is_white_space(r[0]) && !spec_is_white_space(r.last())
}

proof fn lemma_quot_at_char(r: Seq<char>, i: int, k: int)
    requires
        quot_at(r, i),
        0 <= k < 6,
    ensures
        r[i + k] == quot_entity()[k],
        r[i + k] != ' ',
{
    assert(r.subrange(i, i + 6)[k] == r[i + k]);
}

proof fn lemma_push_char_tidy(x: Seq<char>, c: char)
    requires
        tidy_all(x),
        !spec_is_white_space(c),
        !(c == '/' && x.len() > 0 && x.last() == ' '),
        !(x.push(c).len() >= 7 && x.push(c)[x.push(c).len() - 7] == ' ' && quot_at(
            x.push(c),
            x.push(c).len() - 6,
        )),
    ensures
        tidy_all(x.push(c)),
{
    let y = x.push(c);
    assert(spec_is_white_space(' '));
    assert forall|i: int| 0 <= i && i + 1 < y.len() && #[trigger] y[i] == ' ' implies y[i + 1] != ' ' by {
        if i + 1 < x.len() {
            assert(x[i] == ' ');
        }
    }
    assert forall|i: int| 0 <= i && i + 1 < y.len() && #[trigger] y[i] == '/' implies y[i + 1] != ' ' by {
        if i + 1 < x.len() {
            assert(x[i] == '/');
        }
    }
    assert forall|i: int| 0 <= i && i + 1 < y.len() && #[trigger] y[i] == ' ' implies y[i + 1] != '/' by {
        if i + 1 < x.len() {
            assert(x[i] == ' ');
        } else {
            assert(x.last() == x[i]);
        }
    }
    assert forall|i: int| 0 <= i && i + 6 < y.len() && #[trigger] quot_at(y, i) implies y[i + 6] != ' ' by {
        if i + 6 < y.len() - 1 {
            assert(y.subrange(i, i + 6) =~= x.subrange(i, i + 6));
            assert(quot_at(x, i));
        }
    }
    assert forall|i: int| 0 <= i && i + 1 < y.len() && #[trigger] y[i] == ' ' implies !quot_at(y, i + 1) by {
        if quot_at(y, i + 1) {
            if i + 7 < y.len() {
                assert(y.subrange(i + 1, i + 7) =~= x.subrange(i + 1, i + 7));
                assert(quot_at(x, i + 1));
                assert(x[i] == ' ');
            }
        }
    }
}

proof fn lemma_push_space_tidy(x: Seq<char>)
    requires
        tidy_all(x),
        !(x.len() > 0 && x.last() == ' '),
        !(x.len() > 0 && x.last() == '/'),
        !(x.len() >= 6 && quot_at(x, x.len() - 6)),
    ensures
        tidy_all(x.push(' ')),
{
    let y = x.push(' ');
    assert forall|i: int| 0 <= i < y.len() && #[trigger] spec_is_white_space(y[i]) implies y[i] == ' ' by {
        if i < x.len() {
            assert(x[i] == y[i]);
        }
    }
    assert forall|i: int| 0 <= i && i + 1 < y.len() && #[trigger] y[i] == ' ' implies y[i + 1] != ' ' by {
        if i + 1 < x.len() {
            assert(x[i] == ' ');
        } else {
            assert(x.last() == x[i]);
        }
    }
    assert forall|i: int| 0 <= i && i + 1 < y.len() && #[trigger] y[i] == '/' implies y[i + 1] != ' ' by {
        if i + 1 < x.len() {
            assert(x[i] == '/');
        } else {
            assert(x.last() == x[i]);
        }
    }
    assert forall|i: int| 0 <= i && i + 1 < y.len() && #[trigger] y[i] == ' ' implies y[i + 1] != '/' by {
        assert(x[i] == ' ');
    }
    assert forall|i: int| 0 <= i && i + 6 < y.len() && #[trigger] quot_at(y, i) implies y[i + 6] != ' ' by {
        assert(y.subrange(i, i + 6) =~= x.subrange(i, i + 6));
        assert(quot_at(x, i));
    }
    assert forall|i: int| 0 <= i && i + 1 < y.len() && #[trigger] y[i] == ' ' implies !quot_at(y, i + 1) by {
        if quot_at(y, i + 1) {
            lemma_quot_at_char(y, i + 1, 5);
            assert(y.subrange(i + 1, i + 7) =~= x.subrange(i + 1, i + 7));
            assert(quot_at(x, i + 1));
            assert(x[i] == ' ');
        }
    }
}

proof fn lemma_collapse_tidy(body: Seq<char>, k: int)
    requires
        0 <= k <= body.len(),
    ensures
        tidy_all(collapse(body, k)),
    decreases k,
{
    if k > 0 {
        lemma_collapse_tidy(body, k - 1);
        let r = collapse(body, k - 1);
        let r2 = collapse(body, k);
        assert(r2 == collapse_step(r, body, k - 1));
        let c = body[k - 1];
        assert(spec_is_white_space(' '));
        if !spec_is_white_space(c) {
            let y = r.push(c);
            if c == '/' && r.len() > 0 && r.last() == ' ' {
                let x = r.drop_last();
                lemma_tidy_all_subrange(r, 0, r.len() - 1);
                assert(x == r.subrange(0, r.len() - 1));
                if x.len() > 0 {
                    assert(r[r.len() - 2] == ' ' ==> r[r.len() - 1] != ' ');
                    assert(x.last() == r[r.len() - 2]);
                }
                assert(y.remove(y.len() - 2) =~= x.push('/'));
                assert(!quot_at(x.push('/'), x.push('/').len() - 6)) by {
                    if x.push('/').len() >= 6 && quot_at(x.push('/'), x.push('/').len() - 6) {
                        lemma_quot_at_char(x.push('/'), x.push('/').len() - 6, 5);
                    }
                }
                lemma_push_char_tidy(x, '/');
            } else if y.len() >= 7 && y[y.len() - 7] == ' ' && quot_at(y, y.len() - 6) {
                let n = r.len() as int;
                let x = r.subrange(0, n - 6);
                lemma_tidy_all_subrange(r, 0, n - 6);
                lemma_quot_at_char(y, n - 5, 0);
                lemma_quot_at_char(y, n - 5, 1);
                lemma_quot_at_char(y, n - 5, 2);
                lemma_quot_at_char(y, n - 5, 3);
                lemma_quot_at_char(y, n - 5, 4);
                lemma_quot_at_char(y, n - 5, 5);
                if x.len() > 0 {
                    assert(r[n - 6] == ' ');
                    assert(x.last() == r[n - 7]);
                }
                let x1 = x.push('&');
                let x2 = x1.push('q');
                let x3 = x2.push('u');
                let x4 = x3.push('o');
                let x5 = x4.push('t');
                let x6 = x5.push(';');
                assert(y.remove(y.len() - 7) =~= x6);
                assert forall|z: Seq<char>, d: char| d != ';' && #[trigger] z.push(d).len() >= 6 implies !quot_at(
                    z.push(d),
                    z.push(d).len() - 6,
                ) by {
                    if quot_at(z.push(d), z.push(d).len() - 6) {
                        lemma_quot_at_char(z.push(d), z.push(d).len() - 6, 5);
                    }
                }
                lemma_push_char_tidy(x, '&');
                lemma_push_char_tidy(x1, 'q');
                lemma_push_char_tidy(x2, 'u');
                lemma_push_char_tidy(x3, 'o');
                lemma_push_char_tidy(x4, 't');
                if x.len() > 0 {
                    assert(x6[x6.len() - 7] == x[x.len() - 1]);
                }
                lemma_push_char_tidy(x5, ';');
            } else {
                lemma_push_char_tidy(r, c);
            }
        } else if r2 != r {
            assert(r2 == r.push(' '));
            lemma_push_space_tidy(r);
        }
    }
}

proof fn lemma_trailing_cut_props(x: Seq<char>, n: int)
    requires
        0 <= n <= x.len(),
    ensures
        0 <= trailing_cut(x, n) <= n,
        trailing_cut(x, n) > 0 ==> !spec_is_white_space(x[trailing_cut(x, n) - 1]),
        forall|j: int| trailing_cut(x, n) <= j < n ==> #[trigger] spec_is_white_space(x[j]),
    decreases n,
{
    if n > 0 && spec_is_white_space(x[n - 1]) {
        lemma_trailing_cut_props(x, n - 1);
    }
}

proof fn lemma_leading_cut_props(x: Seq<char>, i: int)
    requires
        0 <= i <= x.len(),
    ensures
        i <= leading_cut(x, i) <= x.len(),
        leading_cut(x, i) < x.len() ==> !spec_is_white_space(x[leading_cut(x, i)]),
        forall|j: int| i <= j < leading_cut(x, i) ==> #[trigger] spec_is_white_space(x[j]),
    decreases x.len() - i,
{
    if i < x.len() && spec_is_white_space(x[i]) {
        lemma_leading_cut_props(x, i + 1);
    }
}

/// `spec_trim(x)` is a stretch `l..e` of `x` that neither starts nor ends
/// with white space.
proof fn lemma_trim_range(x: Seq<char>) -> (le: (int, int))
    ensures
        0 <= le.0 <= le.1 <= x.len(),
        spec_trim(x) == x.subrange(le.0, le.1),
        trimmed(spec_trim(x)),
{
    let e = trailing_cut(x, x.len() as int);
    lemma_trailing_cut_props(x, x.len() as int);
    let y = x.take(e);
    let l = leading_cut(y, 0);
    lemma_leading_cut_props(y, 0);
    assert(spec_trim(x) =~= x.subrange(l, e));
    let t = spec_trim(x);
    if t.len() > 0 {
        assert(t[0] == y[l]);
        assert(t.last() == x[e - 1]);
    }
    (l, e)
}

proof fn lemma_tidy_subrange(r: Seq<char>, l: int, e: int)
    requires
        0 <= l <= e <= r.len(),
        tidy(r),
    ensures
        tidy(r.subrange(l, e)),
{
    let t = r.subrange(l, e);
    assert forall|i: int| 0 <= i < t.len() && #[trigger] spec_is_white_space(t[i]) implies t[i] == ' ' by {
        assert(t[i] == r[l + i]);
    }
    assert forall|i: int| 0 <= i && i + 1 < t.len() && #[trigger] t[i] == ' ' implies t[i + 1] != ' ' by {
        assert(t[i] == r[l + i]);
        assert(t[i + 1] == r[l + i + 1]);
    }
    assert forall|i: int| 0 <= i && i + 1 < t.len() && #[trigger] t[i] == '/' implies t[i + 1] != ' ' by {
        assert(t[i] == r[l + i]);
        assert(t[i + 1] == r[l + i + 1]);
    }
    assert forall|i: int| 0 <= i && i + 6 < t.len() && #[trigger] quot_at(t, i) implies t[i + 6] != ' ' by {
        assert(t.subrange(i, i + 6) =~= r.subrange(l + i, l + i + 6));
        assert(quot_at(r, l + i));
        assert(t[i + 6] == r[l + i + 6]);
    }
}

proof fn lemma_tidy_all_subrange(r: Seq<char>, l: int, e: int)
    requires
        0 <= l <= e <= r.len(),
        tidy_all(r),
    ensures
        tidy_all(r.subrange(l, e)),
{
    lemma_tidy_subrange(r, l, e);
    let t = r.subrange(l, e);
    assert forall|i: int| 0 <= i && i + 1 < t.len() && #[trigger] t[i] == ' ' implies t[i + 1] != '/' by {
        assert(t[i] == r[l + i]);
        assert(t[i + 1] == r[l + i + 1]);
    }
    assert forall|i: int| 0 <= i && i + 1 < t.len() && #[trigger] t[i] == ' ' implies !quot_at(t, i + 1) by {
        assert(t[i] == r[l + i]);
        if quot_at(t, i + 1) {
            assert(t.subrange(i + 1, i + 7) =~= r.subrange(l + i + 1, l + i + 7));
            assert(quot_at(r, l + i + 1));
        }
    }
}

/// The post-processed text is tidy: its white space is plain spaces, never
/// two in a row, never right after a `/` or after `&quot;`, and never at
/// its start or end.
pub proof fn law_normalize_tidy(s: Seq<char>)
    ensures
        spaces_only(spec_normalize(s)),
        no_double_space(spec_normalize(s)),
        no_space_after_slash(spec_normalize(s)),
        no_space_after_quot(spec_normalize(s)),
        trimmed(spec_normalize(s)),
{
    if s.len() > 0 {
        let (m, rest) = split_step_marker(s);
        let body = spec_trim(rest);
        let r = collapse(body, body.len() as int);
        lemma_collapse_tidy(body, body.len() as int);
        let (l, e) = lemma_trim_range(r);
        lemma_tidy_subrange(r, l, e);
        let t = spec_trim(r);
        match m {
            Some(d) => {
                assert(0x31 <= d as u32 <= 0x39) by {
                    let te = spec_trim_end(s);
                    assert(step_marker(te) == Some(d));
                }
                if t.len() > 0 {
                    let o = seq![d, ')', ' '] + t;
                    assert(o == spec_normalize(s));
                    assert(!spec_is_white_space(t[0]));
                    assert forall|i: int| 0 <= i < o.len() && #[trigger] spec_is_white_space(o[i]) implies o[i] == ' ' by {
                        if i >= 3 {
                            assert(o[i] == t[i - 3]);
                        }
                    }
                    assert forall|i: int| 0 <= i && i + 1 < o.len() && #[trigger] o[i] == ' ' implies o[i + 1] != ' ' by {
                        if i >= 3 {
                            assert(o[i] == t[i - 3]);
                            assert(o[i + 1] == t[i - 2]);
                        } else {
                            assert(o[3] == t[0]);
                        }
                    }
                    assert forall|i: int| 0 <= i && i + 1 < o.len() && #[trigger] o[i] == '/' implies o[i + 1] != ' ' by {
                        if i >= 3 {
                            assert(o[i] == t[i - 3]);
                            assert(o[i + 1] == t[i - 2]);
                        }
                    }
                    assert forall|i: int| 0 <= i && i + 6 < o.len() && #[trigger] quot_at(o, i) implies o[i + 6] != ' ' by {
                        if i >= 3 {
                            assert(o.subrange(i, i + 6) =~= t.subrange(i - 3, i + 3));
                            assert(quot_at(t, i - 3));
                            assert(o[i + 6] == t[i + 3]);
                        } else {
                            lemma_quot_at_char(o, i, 2 - i);
                        }
                    }
                    assert(o.last() == t.last());
                } else {
                    assert(spec_normalize(s) == seq![d, ')']);
                }
            },
            None => {},
        }
    }
}

/// Without a trailing step marker, the post-processed text has no space
/// right before or right after a `/` or an `&quot;`.
pub proof fn law_no_space_around_slash_or_quot(s: Seq<char>)
    requires
        split_step_marker(s).0 is None,
    ensures
        no_space_before_slash(spec_normalize(s)),
        no_space_after_slash(spec_normalize(s)),
        no_space_before_quot(spec_normalize(s)),
        no_space_after_quot(spec_normalize(s)),
{
    if s.len() > 0 {
        let rest = split_step_marker(s).1;
        let body = spec_trim(rest);
        let r = collapse(body, body.len() as int);
        lemma_collapse_tidy(body, body.len() as int);
        let (l, e) = lemma_trim_range(r);
        lemma_tidy_all_subrange(r, l, e);
    }
}

/// A step marker `1)` … `9)` at the end of the text (trailing white space
/// ignored) comes first in the post-processed text.
pub proof fn law_step_marker_first(s: Seq<char>)
    requires
        step_marker(spec_trim_end(s)) is Some,
    ensures
        spec_normalize(s).len() >= 2,
        spec_normalize(s)[0] == step_marker(spec_trim_end(s))->0,
        spec_normalize(s)[1] == ')',
{
    lemma_trailing_cut_props(s, s.len() as int);
    assert(s.len() > 0);
}


/// `w` occurs in `x` as a contiguous stretch.
pub open spec fn occurs_in(w: Seq<char>, x: Seq<char>) -> bool {
    exists|a: int| 0 <= a && a + w.len() <= x.len() && #[trigger] x.subrange(a, a + w.len()) == w
}

proof fn lemma_occurs_in_extension(w: Seq<char>, x: Seq<char>, y: Seq<char>)
    requires
        occurs_in(w, x),
        x.len() <= y.len(),
        y.subrange(0, x.len() as int) == x,
    ensures
        occurs_in(w, y),
{
    let a = choose|a: int| 0 <= a && a + w.len() <= x.len() && #[trigger] x.subrange(a, a + w.len()) == w;
    assert(y.subrange(a, a + w.len()) =~= x.subrange(a, a + w.len()));
}

proof fn lemma_render_line_prefix(s: Seq<char>, acc: Seq<char>, prev: Option<TokenKind>, line: Seq<TokenSpan>)
    ensures
        acc.len() <= render_line(s, acc, prev, line).len(),
        render_line(s, acc, prev, line).subrange(0, acc.len() as int) == acc,
    decreases line.len(),
{
    if line.len() > 0 {
        let t = line[0];
        let r = span_text(s, t);
        let acc2 = if crate::reordering::needs_space(acc, prev, t.kind, r) {
            acc.push(' ')
        } else {
            acc
        };
        lemma_render_line_prefix(s, acc2 + r, Some(t.kind), line.drop_first());
        let out = render_line(s, acc, prev, line);
        assert(out.subrange(0, acc.len() as int) =~= out.subrange(0, (acc2 + r).len() as int).subrange(
            0,
            acc.len() as int,
        ));
        assert((acc2 + r).subrange(0, acc.len() as int) =~= acc);
    }
}

proof fn lemma_render_line_shows(s: Seq<char>, acc: Seq<char>, prev: Option<TokenKind>, line: Seq<TokenSpan>, m: int)
    requires
        0 <= m < line.len(),
    ensures
        occurs_in(span_text(s, line[m]), render_line(s, acc, prev, line)),
    decreases line.len(),
{
    let t = line[0];
    let r = span_text(s, t);
    let acc2 = if crate::reordering::needs_space(acc, prev, t.kind, r) {
        acc.push(' ')
    } else {
        acc
    };
    let out = render_line(s, acc, prev, line);
    if m == 0 {
        lemma_render_line_prefix(s, acc2 + r, Some(t.kind), line.drop_first());
        let a = acc2.len() as int;
        assert(out.subrange(a, a + r.len()) =~= (acc2 + r).subrange(a, a + r.len()));
        assert((acc2 + r).subrange(a, a + r.len()) =~= r);
    } else {
        assert(line.drop_first()[m - 1] == line[m]);
        lemma_render_line_shows(s, acc2 + r, Some(t.kind), line.drop_first(), m - 1);
    }
}

proof fn lemma_next_newline_props(ts: Seq<TokenSpan>, i: int)
    requires
        0 <= i <= ts.len(),
    ensures
        i <= next_newline(ts, i) <= ts.len(),
        next_newline(ts, i) < ts.len() ==> ts[next_newline(ts, i)].kind == TokenKind::Newline,
        forall|k: int| i <= k < next_newline(ts, i) ==> #[trigger] ts[k].kind != TokenKind::Newline,
    decreases ts.len() - i,
{
    if i < ts.len() && ts[i].kind != TokenKind::Newline {
        lemma_next_newline_props(ts, i + 1);
    }
}

proof fn lemma_render_from_prefix(s: Seq<char>, ts: Seq<TokenSpan>, i: int, acc: Seq<char>)
    requires
        0 <= i <= ts.len(),
    ensures
        acc.len() <= render_from(s, ts, i, acc).len(),
        render_from(s, ts, i, acc).subrange(0, acc.len() as int) == acc,
    decreases ts.len() - i,
{
    lemma_next_newline_props(ts, i);
    let j = next_newline(ts, i);
    let line = ts.subrange(i, j).reverse();
    let out = render_line(s, acc, None, line);
    lemma_render_line_prefix(s, acc, None, line);
    if j < ts.len() {
        lemma_render_from_prefix(s, ts, j + 1, out.push('\n'));
        let fin = render_from(s, ts, i, acc);
        assert(fin.subrange(0, acc.len() as int) =~= fin.subrange(0, out.push('\n').len() as int).subrange(
            0,
            acc.len() as int,
        ));
        assert(out.push('\n').subrange(0, acc.len() as int) =~= out.subrange(0, acc.len() as int));
    }
}

proof fn lemma_render_from_shows(s: Seq<char>, ts: Seq<TokenSpan>, i: int, acc: Seq<char>, k: int)
    requires
        0 <= i <= k < ts.len(),
        ts[k].kind != TokenKind::Newline,
    ensures
        occurs_in(span_text(s, ts[k]), render_from(s, ts, i, acc)),
    decreases ts.len() - i,
{
    lemma_next_newline_props(ts, i);
    let j = next_newline(ts, i);
    let line = ts.subrange(i, j).reverse();
    let out = render_line(s, acc, None, line);
    if k < j {
        assert(line[j - 1 - k] == ts[k]);
        lemma_render_line_shows(s, acc, None, line, j - 1 - k);
        if j < ts.len() {
            assert(out.push('\n').subrange(0, out.len() as int) =~= out);
            lemma_occurs_in_extension(span_text(s, ts[k]), out, out.push('\n'));
            lemma_render_from_prefix(s, ts, j + 1, out.push('\n'));
            lemma_occurs_in_extension(span_text(s, ts[k]), out.push('\n'), render_from(s, ts, i, acc));
        }
    } else {
        assert(k != j);
        lemma_render_from_shows(s, ts, j + 1, out.push('\n'), k);
    }
}

/// Every token of the text other than a line break shows up whole in the
/// visual order: tags, entities, escapes and left-to-right runs exactly as
/// written, right-to-left runs reversed.
pub proof fn law_tokens_kept_whole(s: Seq<char>, k: int)
    requires
        tokenize(s) is Some,
        0 <= k < tokenize(s)->0.len(),
        tokenize(s)->0[k].kind != TokenKind::Newline,
    ensures
        occurs_in(span_text(s, tokenize(s)->0[k]), spec_visual(s)->0),
{
    lemma_render_from_shows(s, tokenize(s)->0, 0, Seq::empty(), k);
}


/// Every presentation form that shaping writes lies in Presentation
/// Forms-B (U+FE70..U+FEFF) and counts as an Arabic letter itself.
pub proof fn law_forms_are_presentation_forms(c: char)
    ensures
        spec_arabic_form(c) matches Some((iso, fin, ini, med, _)) ==> is_presentation_form(iso)
            && is_presentation_form(fin) && is_presentation_form(ini) && is_presentation_form(med)
            && spec_is_arabic_char(iso) && spec_is_arabic_char(fin) && spec_is_arabic_char(ini)
            && spec_is_arabic_char(med),
        spec_lam_alef(c) matches Some((iso, fin)) ==> is_presentation_form(iso)
            && is_presentation_form(fin) && spec_is_arabic_char(iso) && spec_is_arabic_char(fin),
{
}

proof fn lemma_shape_from_plain(s: Seq<char>, i: int)
    requires
        0 <= i <= s.len(),
        forall|j: int| 0 <= j < s.len() ==> #[trigger] spec_arabic_form(s[j]) is None,
    ensures
        shape_from(s, i) == s.skip(i),
    decreases s.len() - i,
{
    if i < s.len() {
        assert(spec_arabic_form(s[i]) is None);
        assert(spec_arabic_form('ل') is Some);
        lemma_shape_from_plain(s, i + 1);
        assert(seq![s[i]] + s.skip(i + 1) =~= s.skip(i));
    } else {
        assert(s.skip(i) =~= Seq::<char>::empty());
    }
}

/// Text in which no character has presentation forms (no base Arabic
/// letter) is left as it is by shaping.
pub proof fn law_shape_keeps_text_without_letters(s: Seq<char>)
    requires
        forall|j: int| 0 <= j < s.len() ==> #[trigger] spec_arabic_form(s[j]) is None,
    ensures
        spec_shape(s) == s,
{
    lemma_shape_from_plain(s, 0);
    assert(s.skip(0) =~= s);
}

/// Some Lam at `i` is followed by one of the four alef variants.
pub open spec fn lam_alef_at(s: Seq<char>, i: int) -> bool {
    0 <= i && i + 1 < s.len() && s[i] == 'ل' && spec_lam_alef(s[i + 1]) is Some
}

proof fn lemma_shape_from_in_place(s: Seq<char>, i: int)
    requires
        0 <= i <= s.len(),
        forall|j: int| !#[trigger] lam_alef_at(s, j),
    ensures
        shape_from(s, i).len() == s.len() - i,
        forall|k: int| 0 <= k < s.len() - i ==> #[trigger] shape_from(s, i)[k] == letter_form(s, i + k),
    decreases s.len() - i,
{
    if i < s.len() {
        assert(!lam_alef_at(s, i));
        assert(ligature_at(s, i) is None);
        lemma_shape_from_in_place(s, i + 1);
        assert forall|k: int| 0 <= k < s.len() - i implies #[trigger] shape_from(s, i)[k] == letter_form(s, i + k) by {
            if k > 0 {
                assert(shape_from(s, i)[k] == shape_from(s, i + 1)[k - 1]);
            }
        }
    }
}

/// Without a Lam followed by an alef, shaping works character by character
/// and in place: a base Arabic letter becomes one of its own four
/// presentation forms, and every other character (diacritics among them)
/// stays exactly as it is.
pub proof fn law_shape_in_place(s: Seq<char>)
    requires
        forall|j: int| !#[trigger] lam_alef_at(s, j),
    ensures
        spec_shape(s).len() == s.len(),
        forall|i: int|
            0 <= i < s.len() ==> match spec_arabic_form(s[i]) {
                Some((iso, fin, ini, med, _)) => {
                    let f = #[trigger] spec_shape(s)[i];
                    f == iso || f == fin || f == ini || f == med
                },
                None => spec_shape(s)[i] == s[i],
            },
{
    lemma_shape_from_in_place(s, 0);
    assert forall|i: int| 0 <= i < s.len() implies match spec_arabic_form(s[i]) {
        Some((iso, fin, ini, med, _)) => {
            let f = #[trigger] spec_shape(s)[i];
            f == iso || f == fin || f == ini || f == med
        },
        None => spec_shape(s)[i] == s[i],
    } by {
        assert(spec_shape(s)[i] == letter_form(s, i));
    }
}

proof fn lemma_shape_from_len(s: Seq<char>, i: int)
    requires
        0 <= i <= s.len(),
    ensures
        shape_from(s, i).len() <= s.len() - i,
        i < s.len() ==> shape_from(s, i).len() > 0,
    decreases s.len() - i,
{
    if i < s.len() {
        if ligature_at(s, i) is Some {
            lemma_shape_from_len(s, i + 2);
        } else {
            lemma_shape_from_len(s, i + 1);
        }
    }
}

/// Shaping never makes text longer (each Lam-Alef pair becomes one
/// ligature), and keeps non-empty text non-empty.
pub proof fn law_shape_not_longer(s: Seq<char>)
    ensures
        spec_shape(s).len() <= s.len(),
        s.len() > 0 ==> spec_shape(s).len() > 0,
{
    lemma_shape_from_len(s, 0);
}


/// How many times `c` occurs in `s`.
pub open spec fn count_char(s: Seq<char>, c: char) -> nat
    decreases s.len(),
{
    if s.len() == 0 {
        0
    } else {
        count_char(s.drop_last(), c) + if s.last() == c {
            1nat
        } else {
            0nat
        }
    }
}

proof fn lemma_count_concat(a: Seq<char>, b: Seq<char>, c: char)
    ensures
        count_char(a + b, c) == count_char(a, c) + count_char(b, c),
    decreases b.len(),
{
    if b.len() == 0 {
        assert(a + b =~= a);
    } else {
        lemma_count_concat(a, b.drop_last(), c);
        assert((a + b).drop_last() =~= a + b.drop_last());
    }
}

proof fn lemma_count_absent(s: Seq<char>, c: char)
    requires
        forall|i: int| 0 <= i < s.len() ==> #[trigger] s[i] != c,
    ensures
        count_char(s, c) == 0,
    decreases s.len(),
{
    if s.len() > 0 {
        assert(s.last() == s[s.len() - 1]);
        lemma_count_absent(s.drop_last(), c);
    }
}

proof fn lemma_reshape_line_no_newline(p: Seq<char>)
    requires
        spec_reshape_line(p) is Some,
    ensures
        count_char(spec_reshape_line(p)->0, '\n') == 0,
{
    let o = spec_reshape_line(p)->0;
    if p.len() == 0 {
        lemma_count_absent(o, '\n');
    } else {
        let v = spec_visual(spec_shape(p))->0;
        law_normalize_tidy(v);
        assert forall|i: int| 0 <= i < o.len() implies #[trigger] o[i] != '\n' by {
            if o[i] == '\n' {
                assert(spec_is_white_space(o[i]));
            }
        }
        lemma_count_absent(o, '\n');
    }
}

proof fn lemma_pieces_newlines(s: Seq<char>, start: int)
    requires
        0 <= start <= s.len(),
        reshape_pieces(s, start) is Some,
    ensures
        count_char(reshape_pieces(s, start)->0, '\n') == count_char(
            s.subrange(start, s.len() as int),
            '\n',
        ),
    decreases s.len() - start,
{
    lemma_next_sep_props(s, start);
    let k = next_sep(s, start);
    let o = reshape_pieces(s, start)->0;
    let end = if k < 0 {
        s.len() as int
    } else {
        k
    };
    let piece = s.subrange(start, end);
    assert forall|q: int| 0 <= q < piece.len() implies #[trigger] piece[q] != '\n' by {
        assert(piece[q] == s[start + q]);
        assert(sep_len_at(s, start + q) == 0);
    }
    lemma_count_absent(piece, '\n');
    lemma_reshape_line_no_newline(piece);
    if k < 0 {
        assert(s.subrange(start, s.len() as int) == piece);
    } else {
        let e = k + sep_len_at(s, k);
        let sep = s.subrange(k, e);
        let a = spec_reshape_line(piece)->0;
        let b = reshape_pieces(s, e)->0;
        assert(o == a + sep + b);
        lemma_pieces_newlines(s, e);
        lemma_count_concat(a + sep, b, '\n');
        lemma_count_concat(a, sep, '\n');
        let rest = s.subrange(e, s.len() as int);
        assert(s.subrange(start, s.len() as int) =~= piece + sep + rest);
        lemma_count_concat(piece + sep, rest, '\n');
        lemma_count_concat(piece, sep, '\n');
    }
}

/// Real line breaks are kept: the reshaped text has exactly as many
/// newlines as the text it came from.
pub proof fn law_real_newlines_kept(s: Seq<char>)
    requires
        spec_reshape(s) is Some,
    ensures
        count_char(spec_reshape(s)->0, '\n') == count_char(s, '\n'),
{
    if has_arabic_letter(s) {
        assert(s.subrange(0, s.len() as int) =~= s);
        lemma_pieces_newlines(s, 0);
    }
}


/// A letter or digit of a left-to-right word: an ASCII letter or digit, or
/// an Arabic-Indic digit.
pub open spec fn word_char(c: char) -> bool {
    spec_is_ascii_alnum(c) || crate::detection::spec_is_arabic_numeral(c)
}

/// An Arabic letter right next to a left-to-right letter or digit (Arabic-Indic
/// digits included) at `i`, `i + 1`.
pub open spec fn glued_at(x: Seq<char>, i: int) -> bool {
    (spec_is_arabic_char(x[i]) && word_char(x[i + 1])) || (word_char(x[i])
        && spec_is_arabic_char(x[i + 1]))
}

/// No Arabic letter is right next to a left-to-right letter or digit.
pub open spec fn glue_free(x: Seq<char>) -> bool {
    forall|i: int| 0 <= i && i + 1 < x.len() ==> !#[trigger] glued_at(x, i)
}

/// Characters that can sit in the pending run of letters and other
/// characters: no white space and no ASCII letter or digit.
pub open spec fn pending_char(c: char) -> bool {
    !spec_is_white_space(c) && !word_char(c)
}

/// What a token can hold: right-to-left runs only pending-run characters,
/// left-to-right and neutral runs no Arabic letter, neutral runs no ASCII
/// letter or digit; and no token is empty.
pub open spec fn token_class_ok(s: Seq<char>, t: TokenSpan) -> bool {
    &&& 0 <= t.start < t.end <= s.len()
    &&& t.kind == TokenKind::Rtl ==> forall|j: int| t.start <= j < t.end ==> #[trigger] pending_char(s[j])
    &&& (t.kind == TokenKind::Ltr || t.kind == TokenKind::Neutral) ==> forall|j: int|
        t.start <= j < t.end ==> !#[trigger] spec_is_arabic_char(s[j])
    &&& t.kind == TokenKind::Neutral ==> forall|j: int|
        t.start <= j < t.end ==> !#[trigger] word_char(s[j])
}

pub open spec fn all_tokens_ok(s: Seq<char>, ts: Seq<TokenSpan>) -> bool {
    forall|k: int| 0 <= k < ts.len() ==> #[trigger] token_class_ok(s, ts[k])
}

proof fn lemma_ltr_run_content(s: Seq<char>, j: int)
    requires
        0 <= j <= s.len(),
    ensures
        forall|m: int| j <= m < ltr_run_end(s, j) ==> #[trigger] ltr_continues(s[m]),
    decreases s.len() - j,
{
    if j < s.len() && ltr_continues(s[j]) {
        lemma_ltr_run_content(s, j + 1);
    }
}

proof fn lemma_neutral_content(s: Seq<char>, j: int)
    requires
        0 <= j <= s.len(),
    ensures
        forall|m: int| j <= m < neutral_end(s, j) ==> #[trigger] neutral_continues(s[m]),
    decreases s.len() - j,
{
    if j < s.len() && neutral_continues(s[j]) {
        lemma_neutral_content(s, j + 1);
    }
}

proof fn lemma_quote_close_content(s: Seq<char>, j: int)
    ensures
        quote_close(s, j) matches Some(q) ==> forall|m: int| j <= m < q ==> #[trigger] spec_is_ascii(s[m]),
    decreases s.len() - j,
{
    if 0 <= j < s.len() && s[j] != '"' && spec_is_ascii(s[j]) {
        lemma_quote_close_content(s, j + 1);
    }
}

proof fn lemma_cons_ok(s: Seq<char>, prefix: Seq<TokenSpan>, rest: Option<Seq<TokenSpan>>)
    requires
        all_tokens_ok(s, prefix),
        rest matches Some(t) ==> all_tokens_ok(s, t),
    ensures
        cons_tokens(prefix, rest) matches Some(u) ==> all_tokens_ok(s, u),
{
    if let Some(t) = rest {
        let u = prefix + t;
        assert forall|k: int| 0 <= k < u.len() implies #[trigger] token_class_ok(s, u[k]) by {
            if k < prefix.len() {
                assert(u[k] == prefix[k]);
            } else {
                assert(u[k] == t[k - prefix.len()]);
            }
        }
    }
}

proof fn lemma_flush_push_ok(s: Seq<char>, b: int, p: int, t: TokenSpan)
    requires
        0 <= b <= p <= s.len(),
        forall|j: int| b <= j < p ==> #[trigger] pending_char(s[j]),
        token_class_ok(s, t),
    ensures
        all_tokens_ok(s, flush(s, b, p).push(t)),
{
    let f = flush(s, b, p).push(t);
    if b < p {
        let run = s.subrange(b, p);
        let ft = flush(s, b, p)[0];
        assert(ft.kind == run_kind(run));
        assert forall|j: int| b <= j < p implies !#[trigger] spec_is_arabic_char(s[j]) || ft.kind == TokenKind::Rtl by {
            if spec_is_arabic_char(s[j]) {
                assert(spec_is_arabic_char(run[j - b]));
            }
        }
        assert forall|j: int| b <= j < p implies !#[trigger] word_char(s[j]) by {
            assert(pending_char(s[j]));
        }
        assert(token_class_ok(s, ft));
        assert(f[0] == ft);
        assert(f[1] == t);
    } else {
        assert(f[0] == t);
    }
}

proof fn lemma_scan_classes(s: Seq<char>, p: int, b: int)
    requires
        0 <= b <= p <= s.len(),
        forall|j: int| b <= j < p ==> #[trigger] pending_char(s[j]),
    ensures
        scan(s, p, b) matches Some(ts) ==> all_tokens_ok(s, ts),
    decreases s.len() - p,
{
    if p >= s.len() {
        let f = flush(s, b, p);
        if b < p {
            let run = s.subrange(b, p);
            let ft = f[0];
            assert forall|j: int| b <= j < p implies !#[trigger] spec_is_arabic_char(s[j]) || ft.kind == TokenKind::Rtl by {
                if spec_is_arabic_char(s[j]) {
                    assert(spec_is_arabic_char(run[j - b]));
                }
            }
            assert forall|j: int| b <= j < p implies !#[trigger] word_char(s[j]) by {
                assert(pending_char(s[j]));
            }
            assert(token_class_ok(s, ft));
        }
    } else {
        let c = s[p];
        if is_tag_open(c) {
            lemma_balanced_end_bounds(s, p, 0, c, tag_close(c));
            let e = balanced_end(s, p, 0, c, tag_close(c));
            let t = TokenSpan { kind: TokenKind::Tag, start: p, end: e };
            lemma_flush_push_ok(s, b, p, t);
            lemma_scan_classes(s, e, e);
            lemma_cons_ok(s, flush(s, b, p).push(t), scan(s, e, e));
        } else if c == '&' && entity_end(s, p, p + 1) is Some {
            crate::tokens::lemma_entity_end_bounds(s, p, p + 1);
            let e = entity_end(s, p, p + 1)->0;
            let t = TokenSpan { kind: TokenKind::Tag, start: p, end: e };
            lemma_flush_push_ok(s, b, p, t);
            lemma_scan_classes(s, e, e);
            lemma_cons_ok(s, flush(s, b, p).push(t), scan(s, e, e));
        } else if c == '\\' && escape_at(s, p) {
            let k = if s[p + 1] == 'n' {
                TokenKind::Newline
            } else {
                TokenKind::Tag
            };
            let t = TokenSpan { kind: k, start: p, end: p + 2 };
            lemma_flush_push_ok(s, b, p, t);
            lemma_scan_classes(s, p + 2, p + 2);
            lemma_cons_ok(s, flush(s, b, p).push(t), scan(s, p + 2, p + 2));
        } else if c == '\n' {
            let t = TokenSpan { kind: TokenKind::Newline, start: p, end: p + 1 };
            lemma_flush_push_ok(s, b, p, t);
            lemma_scan_classes(s, p + 1, p + 1);
            lemma_cons_ok(s, flush(s, b, p).push(t), scan(s, p + 1, p + 1));
        } else if spec_is_arabic_char(c) || spec_is_bidi_mark(c) {
            assert(pending_char(c));
            lemma_scan_classes(s, p + 1, b);
        } else if c == '"' && quoted_end(s, p) is Some {
            lemma_quote_close_bounds(s, p + 1);
            lemma_quote_close_content(s, p + 1);
            let e = quoted_end(s, p)->0;
            let t = TokenSpan { kind: TokenKind::Ltr, start: p, end: e };
            assert forall|j: int| p <= j < e implies !#[trigger] spec_is_arabic_char(s[j]) by {
                if p < j < e - 1 {
                    assert(spec_is_ascii(s[j]));
                }
            }
            lemma_flush_push_ok(s, b, p, t);
            lemma_scan_classes(s, e, e);
            lemma_cons_ok(s, flush(s, b, p).push(t), scan(s, e, e));
        } else if ltr_start(c) {
            lemma_ltr_run_end_bounds(s, p);
            lemma_ltr_run_content(s, p);
            let e = ltr_run_end(s, p);
            let t = TokenSpan { kind: TokenKind::Ltr, start: p, end: e };
            assert forall|j: int| p <= j < e implies !#[trigger] spec_is_arabic_char(s[j]) by {
                assert(ltr_continues(s[j]));
            }
            lemma_flush_push_ok(s, b, p, t);
            lemma_scan_classes(s, e, e);
            lemma_cons_ok(s, flush(s, b, p).push(t), scan(s, e, e));
        } else if spec_is_white_space(c) || spec_is_ascii_punct(c) {
            lemma_neutral_end_bounds(s, p);
            lemma_neutral_content(s, p);
            let e = neutral_end(s, p);
            if e != p {
                let t = TokenSpan { kind: TokenKind::Neutral, start: p, end: e };
                assert forall|j: int| p <= j < e implies !#[trigger] spec_is_arabic_char(s[j]) by {
                    assert(neutral_continues(s[j]));
                }
                assert forall|j: int| p <= j < e implies !#[trigger] word_char(s[j]) by {
                    assert(neutral_continues(s[j]));
                }
                lemma_flush_push_ok(s, b, p, t);
                lemma_scan_classes(s, e, e);
                lemma_cons_ok(s, flush(s, b, p).push(t), scan(s, e, e));
            }
        } else {
            assert(pending_char(c));
            lemma_scan_classes(s, p + 1, b);
        }
    }
}


/// No tag token of `ts` holds an Arabic letter.
pub open spec fn tags_free_of_arabic(s: Seq<char>, ts: Seq<TokenSpan>) -> bool {
    forall|k: int, j: int|
        0 <= k < ts.len() && #[trigger] ts[k].kind == TokenKind::Tag && ts[k].start <= j < ts[k].end
            ==> !#[trigger] spec_is_arabic_char(s[j])
}

/// What the output so far ends with, given the kind of the last token.
pub open spec fn tail_ok(acc: Seq<char>, prev: Option<TokenKind>) -> bool {
    match prev {
        None => acc.len() == 0 || (!spec_is_arabic_char(acc.last()) && !word_char(
            acc.last(),
        )),
        Some(k) => k != TokenKind::Newline && acc.len() > 0 && if k == TokenKind::Rtl {
            pending_char(acc.last())
        } else if k == TokenKind::Neutral {
            !spec_is_arabic_char(acc.last()) && !word_char(acc.last())
        } else {
            !spec_is_arabic_char(acc.last())
        },
    }
}

/// A token that may stand in a rendered line: well formed, not a line
/// break, and free of Arabic letters when it is a tag.
pub open spec fn line_token_ok(s: Seq<char>, t: TokenSpan) -> bool {
    &&& token_class_ok(s, t)
    &&& t.kind != TokenKind::Newline
    &&& t.kind == TokenKind::Tag ==> forall|j: int|
        t.start <= j < t.end ==> !#[trigger] spec_is_arabic_char(s[j])
}

proof fn lemma_char_classes_apart(c: char)
    ensures
        spec_is_white_space(c) ==> !spec_is_arabic_char(c) && !word_char(c),
        spec_is_ascii_punct(c) ==> !spec_is_arabic_char(c) && !word_char(c),
        spec_is_arabic_char(c) ==> !word_char(c),
{
}

proof fn lemma_span_text_chars(s: Seq<char>, t: TokenSpan)
    requires
        line_token_ok(s, t),
    ensures
        span_text(s, t).len() == t.end - t.start,
        span_text(s, t).len() > 0,
        forall|i: int|
            0 <= i < span_text(s, t).len() ==> {
                let c = #[trigger] span_text(s, t)[i];
                &&& t.kind == TokenKind::Rtl ==> pending_char(c)
                &&& t.kind != TokenKind::Rtl ==> !spec_is_arabic_char(c)
                &&& t.kind == TokenKind::Neutral ==> !word_char(c)
            },
{
    let r = span_text(s, t);
    assert forall|i: int| 0 <= i < r.len() implies {
        let c = #[trigger] r[i];
        &&& t.kind == TokenKind::Rtl ==> pending_char(c)
        &&& t.kind != TokenKind::Rtl ==> !spec_is_arabic_char(c)
        &&& t.kind == TokenKind::Neutral ==> !word_char(c)
    } by {
        if t.kind == TokenKind::Rtl {
            assert(r[i] == s[t.end - 1 - i]);
            assert(pending_char(s[t.end - 1 - i]));
        } else {
            assert(r[i] == s[t.start + i]);
            assert(!spec_is_arabic_char(s[t.start + i]));
            if t.kind == TokenKind::Neutral {
                assert(!word_char(s[t.start + i]));
            }
        }
    }
}

proof fn lemma_render_line_glue(s: Seq<char>, acc: Seq<char>, prev: Option<TokenKind>, line: Seq<TokenSpan>)
    requires
        glue_free(acc),
        tail_ok(acc, prev),
        forall|m: int| 0 <= m < line.len() ==> #[trigger] line_token_ok(s, line[m]),
    ensures
        glue_free(render_line(s, acc, prev, line)),
    decreases line.len(),
{
    if line.len() > 0 {
        let t = line[0];
        assert(line_token_ok(s, t));
        let r = span_text(s, t);
        lemma_span_text_chars(s, t);
        let sep = crate::reordering::needs_space(acc, prev, t.kind, r);
        let acc2 = if sep {
            acc.push(' ')
        } else {
            acc
        };
        let out = acc2 + r;
        assert(r[0] == span_text(s, t)[0]);
        // The boundary between what was there and the new token.
        assert(acc2.len() > 0 ==> !glued_at(out, acc2.len() - 1)) by {
            if acc2.len() > 0 {
                let a = acc2.last();
                let f = r[0];
                lemma_char_classes_apart(a);
                lemma_char_classes_apart(f);
                assert(out[acc2.len() - 1] == a);
                assert(out[acc2.len() as int] == f);
                if sep {
                    assert(a == ' ');
                    assert(spec_is_white_space(a));
                } else {
                    assert(a == acc.last());
                    match prev {
                        None => {
                            assert(!spec_is_arabic_char(a) && !word_char(a));
                        },
                        Some(pk) => {
                            if pk == TokenKind::Rtl {
                                assert(!word_char(a));
                                assert(!spec_is_white_space(a));
                                if t.kind == TokenKind::Ltr || t.kind == TokenKind::Tag {
                                    assert(crate::reordering::crossing(pk, t.kind));
                                    assert(spec_is_white_space(f)
                                        || crate::reordering::starts_with_punctuation(r));
                                    assert(!word_char(f));
                                } else {
                                    assert(!word_char(f));
                                }
                                assert(!glued_at(out, acc2.len() - 1));
                            } else if pk == TokenKind::Neutral {
                                assert(!spec_is_arabic_char(a) && !word_char(a));
                            } else {
                                assert(!spec_is_arabic_char(a));
                                if t.kind == TokenKind::Rtl {
                                    assert(crate::reordering::crossing(pk, t.kind));
                                    assert(spec_is_white_space(a) || spec_is_white_space(f)
                                        || crate::reordering::starts_with_punctuation(r));
                                    assert(!word_char(a) || !spec_is_arabic_char(f));
                                } else {
                                    assert(!spec_is_arabic_char(f));
                                }
                                assert(!glued_at(out, acc2.len() - 1));
                            }
                        },
                    }
                }
            }
        }
        assert forall|i: int| 0 <= i && i + 1 < out.len() implies !#[trigger] glued_at(out, i) by {
            if i + 1 < acc2.len() {
                assert(out[i] == acc2[i]);
                assert(out[i + 1] == acc2[i + 1]);
                if sep && i + 1 == acc.len() {
                } else {
                    assert(acc2[i] == acc[i]);
                    assert(acc2[i + 1] == acc[i + 1]);
                    assert(!glued_at(acc, i));
                }
            } else if i >= acc2.len() {
                assert(out[i] == r[i - acc2.len()]);
                assert(out[i + 1] == r[i + 1 - acc2.len()]);
            }
        }
        assert(out.last() == r[r.len() - 1]);
        assert(tail_ok(out, Some(t.kind)));
        assert forall|m: int| 0 <= m < line.drop_first().len() implies #[trigger] line_token_ok(
            s,
            line.drop_first()[m],
        ) by {
            assert(line.drop_first()[m] == line[m + 1]);
        }
        lemma_render_line_glue(s, out, Some(t.kind), line.drop_first());
    }
}


proof fn lemma_render_from_glue(s: Seq<char>, ts: Seq<TokenSpan>, i: int, acc: Seq<char>)
    requires
        0 <= i <= ts.len(),
        all_tokens_ok(s, ts),
        tags_free_of_arabic(s, ts),
        glue_free(acc),
        tail_ok(acc, None),
    ensures
        glue_free(render_from(s, ts, i, acc)),
    decreases ts.len() - i,
{
    lemma_next_newline_props(ts, i);
    let j = next_newline(ts, i);
    let line = ts.subrange(i, j).reverse();
    assert forall|m: int| 0 <= m < line.len() implies #[trigger] line_token_ok(s, line[m]) by {
        let k = j - 1 - m;
        assert(line[m] == ts[k]);
        assert(token_class_ok(s, ts[k]));
        assert(ts[k].kind != TokenKind::Newline);
        if ts[k].kind == TokenKind::Tag {
            assert forall|q: int| ts[k].start <= q < ts[k].end implies !#[trigger] spec_is_arabic_char(s[q]) by {
                assert(ts[k].kind == TokenKind::Tag);
            }
        }
    }
    lemma_render_line_glue(s, acc, None, line);
    let out = render_line(s, acc, None, line);
    if j < ts.len() {
        let out2 = out.push('\n');
        lemma_char_classes_apart('\n');
        assert forall|q: int| 0 <= q && q + 1 < out2.len() implies !#[trigger] glued_at(out2, q) by {
            if q + 1 < out.len() {
                assert(out2[q] == out[q]);
                assert(out2[q + 1] == out[q + 1]);
                assert(!glued_at(out, q));
            } else {
                assert(out2[q + 1] == '\n');
            }
        }
        assert(out2.last() == '\n');
        lemma_render_from_glue(s, ts, j + 1, out2);
    }
}

/// Arabic words and left-to-right words never end up glued together: in
/// the visual order no Arabic letter stands right next to an ASCII letter or
/// digit or an Arabic-Indic digit, as long as no tag of the text holds an
/// Arabic letter itself.
pub proof fn law_no_glued_words(s: Seq<char>)
    requires
        tokenize(s) is Some,
        tags_free_of_arabic(s, tokenize(s)->0),
    ensures
        glue_free(spec_visual(s)->0),
{
    lemma_scan_classes(s, 0, 0);
    lemma_render_from_glue(s, tokenize(s)->0, 0, Seq::empty());
}


/// Characters other than the backslash.
pub open spec fn no_backslash() -> spec_fn(char) -> bool {
    |c: char| c != '\\'
}

proof fn lemma_render_line_keeps(
    s: Seq<char>,
    acc: Seq<char>,
    prev: Option<TokenKind>,
    line: Seq<TokenSpan>,
    pred: spec_fn(char) -> bool,
)
    requires
        all_chars(s, pred),
        all_chars(acc, pred),
        pred(' '),
        forall|m: int| 0 <= m < line.len() ==> #[trigger] token_class_ok(s, line[m]),
    ensures
        all_chars(render_line(s, acc, prev, line), pred),
    decreases line.len(),
{
    if line.len() > 0 {
        let t = line[0];
        assert(token_class_ok(s, t));
        let r = span_text(s, t);
        let acc2 = if crate::reordering::needs_space(acc, prev, t.kind, r) {
            acc.push(' ')
        } else {
            acc
        };
        assert forall|i: int| 0 <= i < r.len() implies #[trigger] pred(r[i]) by {
            if t.kind == TokenKind::Rtl {
                assert(r[i] == s[t.end - 1 - i]);
            } else {
                assert(r[i] == s[t.start + i]);
            }
        }
        let out = acc2 + r;
        assert forall|i: int| 0 <= i < out.len() implies #[trigger] pred(out[i]) by {
            if i < acc2.len() {
                if i < acc.len() {
                    assert(acc2[i] == acc[i]);
                }
            } else {
                assert(out[i] == r[i - acc2.len()]);
            }
        }
        assert forall|m: int| 0 <= m < line.drop_first().len() implies #[trigger] token_class_ok(
            s,
            line.drop_first()[m],
        ) by {
            assert(line.drop_first()[m] == line[m + 1]);
        }
        lemma_render_line_keeps(s, out, Some(t.kind), line.drop_first(), pred);
    }
}

proof fn lemma_render_from_keeps(
    s: Seq<char>,
    ts: Seq<TokenSpan>,
    i: int,
    acc: Seq<char>,
    pred: spec_fn(char) -> bool,
)
    requires
        0 <= i <= ts.len(),
        all_chars(s, pred),
        all_chars(acc, pred),
        pred(' '),
        pred('\n'),
        all_tokens_ok(s, ts),
    ensures
        all_chars(render_from(s, ts, i, acc), pred),
    decreases ts.len() - i,
{
    lemma_next_newline_props(ts, i);
    let j = next_newline(ts, i);
    let line = ts.subrange(i, j).reverse();
    assert forall|m: int| 0 <= m < line.len() implies #[trigger] token_class_ok(s, line[m]) by {
        assert(line[m] == ts[j - 1 - m]);
    }
    lemma_render_line_keeps(s, acc, None, line, pred);
    let out = render_line(s, acc, None, line);
    if j < ts.len() {
        let out2 = out.push('\n');
        assert forall|q: int| 0 <= q < out2.len() implies #[trigger] pred(out2[q]) by {
            if q < out.len() {
                assert(out2[q] == out[q]);
            }
        }
        lemma_render_from_keeps(s, ts, j + 1, out2, pred);
    }
}

/// Visual reordering writes only characters of its input, spaces and
/// newlines.
proof fn lemma_visual_keeps(s: Seq<char>, pred: spec_fn(char) -> bool)
    requires
        spec_visual(s) is Some,
        all_chars(s, pred),
        pred(' '),
        pred('\n'),
    ensures
        all_chars(spec_visual(s)->0, pred),
{
    lemma_scan_classes(s, 0, 0);
    lemma_render_from_keeps(s, tokenize(s)->0, 0, Seq::empty(), pred);
}

proof fn lemma_collapse_keeps(body: Seq<char>, k: int, pred: spec_fn(char) -> bool)
    requires
        0 <= k <= body.len(),
        all_chars(body, pred),
        pred(' '),
    ensures
        all_chars(collapse(body, k), pred),
    decreases k,
{
    if k > 0 {
        lemma_collapse_keeps(body, k - 1, pred);
        let r = collapse(body, k - 1);
        let r2 = collapse(body, k);
        let c = body[k - 1];
        assert(pred(c));
        let y = if spec_is_white_space(c) {
            r.push(' ')
        } else {
            r.push(c)
        };
        assert forall|i: int| 0 <= i < y.len() implies #[trigger] pred(y[i]) by {
            if i < r.len() {
                assert(y[i] == r[i]);
            }
        }
        assert forall|i: int| 0 <= i < r2.len() implies #[trigger] pred(r2[i]) by {
            if r2 == r {
            } else if r2 == y {
            } else {
                assert(r2 == y.remove(y.len() - 2) || r2 == y.remove(y.len() - 7));
                if r2 == y.remove(y.len() - 2) {
                    if i < y.len() - 2 {
                        assert(r2[i] == y[i]);
                    } else {
                        assert(r2[i] == y[i + 1]);
                    }
                } else {
                    if i < y.len() - 7 {
                        assert(r2[i] == y[i]);
                    } else {
                        assert(r2[i] == y[i + 1]);
                    }
                }
            }
        }
    }
}

proof fn lemma_subrange_keeps(x: Seq<char>, l: int, e: int, pred: spec_fn(char) -> bool)
    requires
        0 <= l <= e <= x.len(),
        all_chars(x, pred),
    ensures
        all_chars(x.subrange(l, e), pred),
{
    assert forall|i: int| 0 <= i < e - l implies #[trigger] pred(x.subrange(l, e)[i]) by {
        assert(x.subrange(l, e)[i] == x[l + i]);
    }
}

/// Post-processing writes only characters of its input, spaces and `)`.
proof fn lemma_normalize_keeps(x: Seq<char>, pred: spec_fn(char) -> bool)
    requires
        all_chars(x, pred),
        pred(' '),
        pred(')'),
    ensures
        all_chars(spec_normalize(x), pred),
{
    if x.len() > 0 {
        let te = spec_trim_end(x);
        lemma_trailing_cut_props(x, x.len() as int);
        lemma_subrange_keeps(x, 0, trailing_cut(x, x.len() as int), pred);
        assert(te == x.subrange(0, trailing_cut(x, x.len() as int)));
        let (m, rest) = split_step_marker(x);
        if let Some(d) = m {
            assert(d == te[te.len() - 2]);
            assert(pred(d));
            lemma_subrange_keeps(te, 0, te.len() - 2, pred);
            assert(rest == te.subrange(0, te.len() - 2));
        }
        let (l1, e1) = lemma_trim_range(rest);
        lemma_subrange_keeps(rest, l1, e1, pred);
        let body = spec_trim(rest);
        lemma_collapse_keeps(body, body.len() as int, pred);
        let r = collapse(body, body.len() as int);
        let (l2, e2) = lemma_trim_range(r);
        lemma_subrange_keeps(r, l2, e2, pred);
        let t = spec_trim(r);
        if let Some(d) = m {
            if t.len() > 0 {
                let o = seq![d, ')', ' '] + t;
                assert forall|i: int| 0 <= i < o.len() implies #[trigger] pred(o[i]) by {
                    if i >= 3 {
                        assert(o[i] == t[i - 3]);
                    }
                }
            } else {
                let o = seq![d, ')'];
                assert forall|i: int| 0 <= i < o.len() implies #[trigger] pred(o[i]) by {}
            }
        }
    }
}

/// Reshaping one line writes only characters of the line, presentation
/// forms, spaces, newlines and `)`.
proof fn lemma_reshape_line_keeps(p: Seq<char>, pred: spec_fn(char) -> bool)
    requires
        spec_reshape_line(p) is Some,
        all_chars(p, pred),
        forall|c: char| is_presentation_form(c) ==> #[trigger] pred(c),
        pred(' '),
        pred('\n'),
        pred(')'),
    ensures
        all_chars(spec_reshape_line(p)->0, pred),
{
    if p.len() > 0 {
        lemma_shape_from_keeps(p, 0, pred);
        lemma_visual_keeps(spec_shape(p), pred);
        lemma_normalize_keeps(spec_visual(spec_shape(p))->0, pred);
    }
}

/// How many escaped line breaks (a backslash followed by `n`) `x` holds.
pub open spec fn count_escaped_newlines(x: Seq<char>) -> nat
    decreases x.len(),
{
    if x.len() < 2 {
        0
    } else {
        count_escaped_newlines(x.drop_last()) + if x[x.len() - 2] == '\\' && x.last() == 'n' {
            1nat
        } else {
            0nat
        }
    }
}

proof fn lemma_count_escaped_concat(a: Seq<char>, b: Seq<char>)
    ensures
        count_escaped_newlines(a + b) == count_escaped_newlines(a) + count_escaped_newlines(b) + if a.len()
            > 0 && b.len() > 0 && a.last() == '\\' && b[0] == 'n' {
            1nat
        } else {
            0nat
        },
    decreases b.len(),
{
    if b.len() == 0 {
        assert(a + b =~= a);
    } else {
        lemma_count_escaped_concat(a, b.drop_last());
        assert((a + b).drop_last() =~= a + b.drop_last());
        if b.len() >= 2 {
            assert(b.drop_last()[0] == b[0]);
        } else {
            assert(b.drop_last().len() == 0);
            assert(a + b.drop_last() =~= a);
            assert(count_escaped_newlines(b) == 0);
        }
    }
}

proof fn lemma_count_escaped_none(x: Seq<char>)
    requires
        all_chars(x, no_backslash()),
    ensures
        count_escaped_newlines(x) == 0,
    decreases x.len(),
{
    if x.len() >= 2 {
        assert(no_backslash()(x[x.len() - 2]));
        assert forall|i: int| 0 <= i < x.drop_last().len() implies #[trigger] no_backslash()(
            x.drop_last()[i],
        ) by {
            assert(x.drop_last()[i] == x[i]);
        }
        lemma_count_escaped_none(x.drop_last());
    }
}

/// Every backslash of `s` starts an escaped line break.
pub open spec fn backslashes_escape_newlines(s: Seq<char>) -> bool {
    forall|i: int| 0 <= i < s.len() && #[trigger] s[i] == '\\' ==> i + 1 < s.len() && s[i + 1] == 'n'
}

proof fn lemma_escape_pieces(s: Seq<char>, start: int)
    requires
        0 <= start <= s.len(),
        backslashes_escape_newlines(s),
        reshape_pieces(s, start) is Some,
    ensures
        count_escaped_newlines(reshape_pieces(s, start)->0) == count_escaped_newlines(
            s.subrange(start, s.len() as int),
        ),
    decreases s.len() - start,
{
    lemma_next_sep_props(s, start);
    let k = next_sep(s, start);
    let o = reshape_pieces(s, start)->0;
    let end = if k < 0 {
        s.len() as int
    } else {
        k
    };
    let piece = s.subrange(start, end);
    assert forall|q: int| 0 <= q < piece.len() implies #[trigger] no_backslash()(piece[q]) by {
        let j = start + q;
        assert(piece[q] == s[j]);
        assert(sep_len_at(s, j) == 0);
    }
    lemma_reshape_line_keeps(piece, no_backslash());
    let a = spec_reshape_line(piece)->0;
    lemma_count_escaped_none(a);
    lemma_count_escaped_none(piece);
    if k >= 0 {
        let e = k + sep_len_at(s, k);
        let sep = s.subrange(k, e);
        let rest = s.subrange(e, s.len() as int);
        let b = reshape_pieces(s, e)->0;
        lemma_escape_pieces(s, e);
        assert(o == a + sep + b);
        lemma_count_escaped_concat(a, sep);
        lemma_count_escaped_concat(a + sep, b);
        lemma_count_escaped_concat(piece, sep);
        lemma_count_escaped_concat(piece + sep, rest);
        assert(sep.last() == 'n' || sep.last() == '\n');
        assert((a + sep).last() == sep.last());
        assert((piece + sep).last() == sep.last());
        if a.len() > 0 {
            assert(no_backslash()(a[a.len() - 1]));
        }
        if piece.len() > 0 {
            assert(no_backslash()(piece[piece.len() - 1]));
        }
        assert(s.subrange(start, s.len() as int) =~= piece + sep + rest);
    } else {
        assert(s.subrange(start, s.len() as int) == piece);
    }
}

/// Escaped line breaks are kept: when every backslash of the text starts an
/// escaped `\n`, the reshaped text holds exactly as many escaped `\n` as
/// the text it came from.
pub proof fn law_escaped_newlines_kept(s: Seq<char>)
    requires
        spec_reshape(s) is Some,
        backslashes_escape_newlines(s),
    ensures
        count_escaped_newlines(spec_reshape(s)->0) == count_escaped_newlines(s),
{
    if has_arabic_letter(s) {
        assert(s.subrange(0, s.len() as int) =~= s);
        lemma_escape_pieces(s, 0);
    }
}


/// `w` occurs in `x` at position `a`.
pub open spec fn occurs_at(w: Seq<char>, x: Seq<char>, a: int) -> bool {
    0 <= a && a + w.len() <= x.len() && x.subrange(a, a + w.len()) == w
}

/// The characters of a stretch without white space are written one after
/// the other: after them, the output is some text followed by the stretch.
proof fn lemma_collapse_extend(body: Seq<char>, k: int, m: int) -> (pre: Seq<char>)
    requires
        0 <= k,
        0 <= m,
        k + m <= body.len(),
        forall|j: int| k <= j < k + m ==> !#[trigger] spec_is_white_space(body[j]),
    ensures
        collapse(body, k + m) == pre + body.subrange(k, k + m),
    decreases m,
{
    if m == 0 {
        assert(collapse(body, k) + body.subrange(k, k) =~= collapse(body, k));
        collapse(body, k)
    } else {
        let p = lemma_collapse_extend(body, k, m - 1);
        let w = body.subrange(k, k + m - 1);
        let c = body[k + m - 1];
        assert(!spec_is_white_space(c));
        assert(spec_is_white_space(' '));
        let r = collapse(body, k + m - 1);
        let y = r.push(c);
        assert(y =~= p + w.push(c));
        assert(w.push(c) =~= body.subrange(k, k + m));
        if c == '/' && r.len() > 0 && r.last() == ' ' {
            if w.len() > 0 {
                assert(r.last() == w.last());
                assert(w.last() == body[k + m - 2]);
            }
            assert(w.len() == 0);
            let j = y.len() - 2;
            assert(y.remove(j) =~= p.remove(j) + w.push(c));
            p.remove(j)
        } else if y.len() >= 7 && y[y.len() - 7] == ' ' && quot_at(y, y.len() - 6) {
            let j = y.len() - 7;
            if j >= p.len() {
                assert(y[j] == w.push(c)[j - p.len()]);
                assert(w.push(c)[j - p.len()] == body[k + j - p.len()]);
            }
            assert(j < p.len());
            assert(y.remove(j) =~= p.remove(j) + w.push(c));
            p.remove(j)
        } else {
            p
        }
    }
}

/// A stretch with no space in the output stays in it as more characters
/// are handled (only spaces are ever taken out).
proof fn lemma_collapse_keeps_occurrence(w: Seq<char>, body: Seq<char>, k: int, n: int)
    requires
        0 <= k <= n <= body.len(),
        occurs_in(w, collapse(body, k)),
        forall|q: int| 0 <= q < w.len() ==> #[trigger] w[q] != ' ',
    ensures
        occurs_in(w, collapse(body, n)),
    decreases n - k,
{
    if k < n {
        let r = collapse(body, k);
        let r2 = collapse(body, k + 1);
        let a = choose|a: int| 0 <= a && a + w.len() <= r.len() && #[trigger] r.subrange(a, a + w.len()) == w;
        let c = body[k];
        let y = if spec_is_white_space(c) {
            r.push(' ')
        } else {
            r.push(c)
        };
        assert(y.subrange(a, a + w.len()) =~= r.subrange(a, a + w.len()));
        let removed = !spec_is_white_space(c) && ((c == '/' && r.len() > 0 && r.last() == ' ') || (
        y.len() >= 7 && y[y.len() - 7] == ' ' && quot_at(y, y.len() - 6)));
        if !removed {
            assert(r2 == r || r2 == y);
            if r2 == y {
                assert(occurs_in(w, r2));
            }
        } else {
            let j = if c == '/' && r.len() > 0 && r.last() == ' ' {
                y.len() - 2
            } else {
                y.len() - 7
            };
            assert(r2 == y.remove(j));
            assert(y[j] == ' ');
            if a <= j < a + w.len() {
                assert(y[j] == w[j - a]);
            }
            if j < a {
                assert(r2.subrange(a - 1, a - 1 + w.len()) =~= y.subrange(a, a + w.len()));
            } else {
                assert(r2.subrange(a, a + w.len()) =~= y.subrange(a, a + w.len()));
            }
        }
        lemma_collapse_keeps_occurrence(w, body, k + 1, n);
    }
}

proof fn lemma_solid_occurs_in_collapse(w: Seq<char>, body: Seq<char>, a: int)
    requires
        occurs_at(w, body, a),
        all_chars(w, not_white_space()),
    ensures
        occurs_in(w, collapse(body, body.len() as int)),
{
    assert forall|j: int| a <= j < a + w.len() implies !#[trigger] spec_is_white_space(body[j]) by {
        assert(body[j] == w[j - a]);
        assert(not_white_space()(w[j - a]));
    }
    let p = lemma_collapse_extend(body, a, w.len() as int);
    let c = collapse(body, a + w.len());
    let b = p.len() as int;
    assert(c.subrange(b, b + w.len()) =~= w);
    assert(occurs_in(w, c));
    assert(spec_is_white_space(' '));
    assert forall|q: int| 0 <= q < w.len() implies #[trigger] w[q] != ' ' by {
        assert(not_white_space()(w[q]));
    }
    lemma_collapse_keeps_occurrence(w, body, a + w.len(), body.len() as int);
}

proof fn lemma_solid_occurs_in_trim(w: Seq<char>, x: Seq<char>, a: int) -> (a2: int)
    requires
        occurs_at(w, x, a),
        w.len() > 0,
        all_chars(w, not_white_space()),
    ensures
        occurs_at(w, spec_trim(x), a2),
{
    let e = trailing_cut(x, x.len() as int);
    lemma_trailing_cut_props(x, x.len() as int);
    let y = x.take(e);
    let l = leading_cut(y, 0);
    lemma_leading_cut_props(y, 0);
    assert(not_white_space()(w[w.len() - 1]));
    assert(x[a + w.len() - 1] == w[w.len() - 1]);
    assert(a + w.len() <= e);
    assert(not_white_space()(w[0]));
    assert(x[a] == w[0]);
    assert(y[a] == x[a]);
    assert(l <= a);
    assert(spec_trim(x) =~= x.subrange(l, e));
    assert(spec_trim(x).subrange(a - l, a - l + w.len()) =~= x.subrange(a, a + w.len()));
    a - l
}

/// A stretch without white space that does not end in `)` or in a digit
/// from 1 to 9 comes through post-processing whole.
pub proof fn law_normalize_keeps_solid_stretches(w: Seq<char>, x: Seq<char>)
    requires
        occurs_in(w, x),
        w.len() > 0,
        all_chars(w, not_white_space()),
        w.last() != ')',
        !(0x31 <= w.last() as u32 <= 0x39),
    ensures
        occurs_in(w, spec_normalize(x)),
{
    let a = choose|a: int| 0 <= a && a + w.len() <= x.len() && #[trigger] x.subrange(a, a + w.len()) == w;
    assert(occurs_at(w, x, a));
    let (m, rest) = split_step_marker(x);
    // The stretch lies within the text left after taking the marker off.
    assert(occurs_at(w, rest, a)) by {
        if let Some(d) = m {
            let e = trailing_cut(x, x.len() as int);
            lemma_trailing_cut_props(x, x.len() as int);
            let te = spec_trim_end(x);
            assert(te == x.take(e));
            assert(not_white_space()(w[w.len() - 1]));
            assert(x[a + w.len() - 1] == w[w.len() - 1]);
            assert(a + w.len() <= e);
            assert(te[e - 1] == ')');
            assert(te[e - 2] == d);
            assert(x[e - 1] == ')');
            assert(x[e - 2] == d);
            assert(a + w.len() <= e - 2);
            assert(rest =~= x.take(e - 2));
            assert(rest.subrange(a, a + w.len()) =~= x.subrange(a, a + w.len()));
        }
    }
    let a1 = lemma_solid_occurs_in_trim(w, rest, a);
    let body = spec_trim(rest);
    lemma_solid_occurs_in_collapse(w, body, a1);
    let r = collapse(body, body.len() as int);
    let a2 = choose|a2: int| 0 <= a2 && a2 + w.len() <= r.len() && #[trigger] r.subrange(a2, a2 + w.len()) == w;
    assert(occurs_at(w, r, a2));
    let a3 = lemma_solid_occurs_in_trim(w, r, a2);
    let t = spec_trim(r);
    assert(x.len() > 0);
    match m {
        Some(d) => {
            assert(t.len() > 0);
            let o = seq![d, ')', ' '] + t;
            assert(o.subrange(a3 + 3, a3 + 3 + w.len()) =~= t.subrange(a3, a3 + w.len()));
            assert(occurs_at(w, o, a3 + 3));
        },
        None => {
            assert(occurs_at(w, t, a3));
        },
    }
}

/// Tags come through reshaping whole: in a line, every token of the shaped
/// line other than a line break (a tag, an entity, an escape, a
/// left-to-right run) that holds no white space and does not end in `)` or
/// in a digit from 1 to 9 appears unchanged in the reshaped line.
pub proof fn law_tags_kept_in_line(p: Seq<char>, k: int)
    requires
        p.len() > 0,
        spec_reshape_line(p) is Some,
        0 <= k < tokenize(spec_shape(p))->0.len(),
        tokenize(spec_shape(p))->0[k].kind != TokenKind::Newline,
        tokenize(spec_shape(p))->0[k].kind != TokenKind::Rtl,
        all_chars(span_text(spec_shape(p), tokenize(spec_shape(p))->0[k]), not_white_space()),
        span_text(spec_shape(p), tokenize(spec_shape(p))->0[k]).last() != ')',
        !(0x31 <= span_text(spec_shape(p), tokenize(spec_shape(p))->0[k]).last() as u32 <= 0x39),
    ensures
        occurs_in(
            span_text(spec_shape(p), tokenize(spec_shape(p))->0[k]),
            spec_reshape_line(p)->0,
        ),
{
    let t = spec_shape(p);
    let ts = tokenize(t)->0;
    lemma_scan_classes(t, 0, 0);
    assert(token_class_ok(t, ts[k]));
    law_tokens_kept_whole(t, k);
    law_normalize_keeps_solid_stretches(span_text(t, ts[k]), spec_visual(t)->0);
}


/// Characters that are not base letters of the shaping table.
pub open spec fn not_base_letter() -> spec_fn(char) -> bool {
    |c: char| spec_arabic_form(c) is None
}

proof fn lemma_shape_from_no_base_letter(s: Seq<char>, i: int)
    ensures
        all_chars(shape_from(s, i), not_base_letter()),
    decreases s.len() - i,
{
    if 0 <= i < s.len() {
        let out = shape_from(s, i);
        match ligature_at(s, i) {
            Some(l) => {
                lemma_shape_from_no_base_letter(s, i + 2);
                assert(spec_arabic_form(l) is None);
                assert forall|k: int| 0 <= k < out.len() implies #[trigger] not_base_letter()(out[k]) by {
                    if k > 0 {
                        assert(out[k] == shape_from(s, i + 2)[k - 1]);
                    }
                }
            },
            None => {
                lemma_shape_from_no_base_letter(s, i + 1);
                let f = letter_form(s, i);
                assert(spec_arabic_form(f) is None);
                assert forall|k: int| 0 <= k < out.len() implies #[trigger] not_base_letter()(out[k]) by {
                    if k > 0 {
                        assert(out[k] == shape_from(s, i + 1)[k - 1]);
                    }
                }
            },
        }
    }
}

/// A reshaped line holds no base letter of the shaping table (every one has
/// become a presentation form), and it is tidy: only plain spaces, never
/// two in a row, none after a `/` or `&quot;`, none at either end.
pub proof fn law_reshaped_line_clean(p: Seq<char>)
    requires
        spec_reshape_line(p) is Some,
    ensures
        all_chars(spec_reshape_line(p)->0, not_base_letter()),
        tidy(spec_reshape_line(p)->0),
        trimmed(spec_reshape_line(p)->0),
{
    if p.len() > 0 {
        let t = spec_shape(p);
        lemma_shape_from_no_base_letter(p, 0);
        lemma_visual_keeps(t, not_base_letter());
        let v = spec_visual(t)->0;
        lemma_normalize_keeps(v, not_base_letter());
        law_normalize_tidy(v);
    }
}


proof fn lemma_scan_arabic_until(s: Seq<char>, p: int, b: int, q: int)
    requires
        0 <= b <= p <= q <= s.len(),
        forall|i: int| p <= i < q ==> #[trigger] spec_is_arabic_char(s[i]),
    ensures
        scan(s, p, b) == scan(s, q, b),
    decreases q - p,
{
    if p < q {
        assert(spec_is_arabic_char(s[p]));
        lemma_scan_arabic_run_step(s, p, b);
        lemma_scan_arabic_until(s, p + 1, b, q);
    }
}

proof fn lemma_scan_arabic_run_step(s: Seq<char>, p: int, b: int)
    requires
        0 <= b <= p < s.len(),
        spec_is_arabic_char(s[p]),
    ensures
        scan(s, p, b) == scan(s, p + 1, b),
{
    let c = s[p];
    assert(!is_tag_open(c));
    assert(c != '&');
    assert(c != '\\');
    assert(c != '\n');
    assert(spec_is_arabic_char(c) || spec_is_bidi_mark(c));
}

proof fn lemma_render_single(s: Seq<char>, acc: Seq<char>, t: TokenSpan)
    ensures
        render_line(s, acc, None, seq![t]) == acc + span_text(s, t),
{
    let r = span_text(s, t);
    assert(seq![t].drop_first() =~= Seq::<TokenSpan>::empty());
    assert(seq![t][0] == t);
    assert(!needs_space(acc, None, t.kind, r));
    assert(render_line(s, acc + r, Some(t.kind), Seq::<TokenSpan>::empty()) == acc + r);
}

/// Two lines of Arabic letters joined by a newline come out each reversed
/// on its own, the first line still first.
pub proof fn law_two_arabic_lines(a: Seq<char>, b: Seq<char>)
    requires
        a.len() > 0,
        b.len() > 0,
        all_chars(a, arabic_letter()),
        all_chars(b, arabic_letter()),
    ensures
        spec_visual(a + seq!['\n'] + b) == Some(a.reverse() + seq!['\n'] + b.reverse()),
{
    let s = a + seq!['\n'] + b;
    let n = s.len() as int;
    let m = a.len() as int;
    assert forall|i: int| 0 <= i < m implies #[trigger] spec_is_arabic_char(s[i]) by {
        assert(s[i] == a[i]);
        assert(arabic_letter()(a[i]));
    }
    assert forall|i: int| m + 1 <= i < n implies #[trigger] spec_is_arabic_char(s[i]) by {
        assert(s[i] == b[i - m - 1]);
        assert(arabic_letter()(b[i - m - 1]));
    }
    assert(s[m] == '\n');
    lemma_scan_arabic_until(s, 0, 0, m);
    lemma_scan_arabic_run(s, m + 1, m + 1);
    assert(spec_is_arabic_char(s.subrange(0, m)[0]));
    assert(run_kind(s.subrange(0, m)) == TokenKind::Rtl);
    assert(spec_is_arabic_char(s.subrange(m + 1, n)[0]));
    assert(run_kind(s.subrange(m + 1, n)) == TokenKind::Rtl);
    let t1 = TokenSpan { kind: TokenKind::Rtl, start: 0, end: m };
    let t2 = TokenSpan { kind: TokenKind::Newline, start: m, end: m + 1 };
    let t3 = TokenSpan { kind: TokenKind::Rtl, start: m + 1, end: n };
    let ts = seq![t1, t2, t3];
    assert(scan(s, m + 1, m + 1) == Some(seq![t3]));
    assert(scan(s, m, 0) == Some(seq![t1, t2] + seq![t3]));
    assert(seq![t1, t2] + seq![t3] =~= ts);
    assert(tokenize(s) == Some(ts));
    assert(next_newline(ts, 1) == 1);
    assert(next_newline(ts, 0) == 1);
    assert(next_newline(ts, 3) == 3);
    assert(next_newline(ts, 2) == 3);
    assert(ts.subrange(0, 1).reverse() =~= seq![t1]);
    assert(ts.subrange(2, 3).reverse() =~= seq![t3]);
    lemma_render_single(s, Seq::empty(), t1);
    assert(s.subrange(0, m) =~= a);
    let out1 = Seq::<char>::empty() + a.reverse();
    assert(out1 =~= a.reverse());
    lemma_render_single(s, out1.push('\n'), t3);
    assert(s.subrange(m + 1, n) =~= b);
    assert(render_from(s, ts, 2, out1.push('\n')) == out1.push('\n') + b.reverse());
    assert(render_from(s, ts, 0, Seq::empty()) == render_from(s, ts, 2, out1.push('\n')));
    assert(out1.push('\n') + b.reverse() =~= a.reverse() + seq!['\n'] + b.reverse());
}


/// No Lam of `p` is directly followed by an Alef that joins it into a ligature.
pub open spec fn no_lam_alef_pair(p: Seq<char>) -> bool {
    forall|i: int| 0 <= i < p.len() - 1 ==> !(#[trigger] p[i] == 'ل' && spec_lam_alef(p[i + 1]) is Some)
}

proof fn lemma_prev_base_connects_prefix(p: Seq<char>, tail: Seq<char>, i: int)
    requires
        0 <= i <= p.len(),
    ensures
        prev_base_connects(p + tail, i) == prev_base_connects(p, i),
    decreases i,
{
    if i > 0 {
        assert((p + tail)[i - 1] == p[i - 1]);
        lemma_prev_base_connects_prefix(p, tail, i - 1);
    }
}

proof fn lemma_shape_trailing_lam_alef(p: Seq<char>, alef: char, i: int)
    requires
        spec_lam_alef(alef) is Some,
        no_lam_alef_pair(p),
        0 <= i <= p.len(),
    ensures
        shape_from(p + seq!['ل', alef], i).len() == p.len() - i + 1,
        shape_from(p + seq!['ل', alef], i).last() == ligature_at(
            p + seq!['ل', alef],
            p.len() as int,
        )->0,
    decreases p.len() - i,
{
    let s = p + seq!['ل', alef];
    let n = p.len() as int;
    if i == n {
        assert(s[n] == 'ل');
        assert(s[n + 1] == alef);
        assert(ligature_at(s, n) is Some);
        assert(shape_from(s, n + 2) =~= Seq::<char>::empty());
    } else {
        lemma_shape_trailing_lam_alef(p, alef, i + 1);
        assert(s[i] == p[i]);
        if s[i] == 'ل' {
            if i + 1 < n {
                assert(s[i + 1] == p[i + 1]);
                assert(!(p[i] == 'ل' && spec_lam_alef(p[i + 1]) is Some));
            } else {
                assert(s[i + 1] == 'ل');
            }
        }
        assert(ligature_at(s, i) is None);
    }
}

/// A text that ends in Lam and Alef (with no Lam-Alef pair before them)
/// shapes to one character fewer, and ends in the Lam-Alef ligature: its
/// final form when the base letter before the Lam joins to the left, its
/// isolated form otherwise.
pub proof fn law_trailing_lam_alef(p: Seq<char>, alef: char)
    requires
        spec_lam_alef(alef) is Some,
        no_lam_alef_pair(p),
    ensures
        spec_shape(p + seq!['ل', alef]).len() == p.len() + 1,
        spec_shape(p + seq!['ل', alef]).last() == (if prev_base_connects(p, p.len() as int) {
            spec_lam_alef(alef).unwrap().1
        } else {
            spec_lam_alef(alef).unwrap().0
        }),
{
    let s = p + seq!['ل', alef];
    lemma_shape_trailing_lam_alef(p, alef, 0);
    lemma_prev_base_connects_prefix(p, seq!['ل', alef], p.len() as int);
    assert(s[p.len() as int] == 'ل');
    assert(s[p.len() as int + 1] == alef);
}


/// The letters that join the letter after them are exactly these; the
/// right-joining letters ء آ أ ؤ إ ا ة د ذ ر ز و ى and every character outside
/// the table (presentation forms included) join nothing on their left.
pub proof fn law_left_joining_letters(c: char)
    ensures
        spec_connects_to_left(c) <==> (
        c == 'ئ' || c == 'ب' || c == 'ت' || c == 'ث' || c == 'ج' || c == 'ح' || c == 'خ' ||
            c == 'س' || c == 'ش' || c == 'ص' || c == 'ض' || c == 'ط' || c == 'ظ' || c == 'ع' ||
            c == 'غ' || c == 'ف' || c == 'ق' || c == 'ك' || c == 'ل' || c == 'م' || c == 'ن' ||
            c == 'ه' || c == 'ي'),
{
}

/// `s[..n]` with each run of white space written as one space; white space
/// before the first word is dropped.
pub open spec fn squeeze(s: Seq<char>, n: int) -> Seq<char>
    decreases n,
{
    if n <= 0 || n > s.len() {
        Seq::empty()
    } else {
        let r = squeeze(s, n - 1);
        if !spec_is_white_space(s[n - 1]) {
            r.push(s[n - 1])
        } else if r.len() == 0 || r.last() == ' ' {
            r
        } else {
            r.push(' ')
        }
    }
}

/// The words of `s` (its stretches between white space) joined by single
/// spaces.
pub open spec fn words_joined(s: Seq<char>) -> Seq<char> {
    let t = spec_trim(s);
    squeeze(t, t.len() as int)
}

/// `s` holds neither a `/` nor an `&quot;`.
pub open spec fn no_slash_or_quot(s: Seq<char>) -> bool {
    &&& forall|i: int| 0 <= i < s.len() ==> #[trigger] s[i] != '/'
    &&& forall|k: int| !#[trigger] quot_at(s, k)
}

/// When the last `k` characters of a squeezed text are not spaces, they are
/// the last `k` characters of the text it came from.
proof fn lemma_squeeze_solid_suffix(s: Seq<char>, n: int, k: int)
    requires
        0 <= n <= s.len(),
        0 <= k <= squeeze(s, n).len(),
        forall|j: int|
            squeeze(s, n).len() - k <= j < squeeze(s, n).len() ==> #[trigger] squeeze(s, n)[j]
                != ' ',
    ensures
        k <= n,
        s.subrange(n - k, n) == squeeze(s, n).subrange(
            squeeze(s, n).len() - k,
            squeeze(s, n).len() as int,
        ),
    decreases n,
{
    let o = squeeze(s, n);
    if k > 0 {
        assert(n > 0);
        let r = squeeze(s, n - 1);
        assert(o[o.len() - 1] != ' ');
        if spec_is_white_space(s[n - 1]) {
            if r.len() == 0 || r.last() == ' ' {
                assert(o == r);
            } else {
                assert(o == r.push(' '));
            }
        }
        assert(o == r.push(s[n - 1]));
        assert forall|j: int| r.len() - (k - 1) <= j < r.len() implies #[trigger] r[j] != ' ' by {
            assert(r[j] == o[j]);
        }
        lemma_squeeze_solid_suffix(s, n - 1, k - 1);
        assert(s.subrange(n - k, n) =~= s.subrange(n - k, n - 1).push(s[n - 1]));
        assert(o.subrange(o.len() - k, o.len() as int) =~= r.subrange(
            r.len() - (k - 1),
            r.len() as int,
        ).push(s[n - 1]));
    }
}

proof fn lemma_squeeze_start(s: Seq<char>, n: int)
    requires
        1 <= n <= s.len(),
        !spec_is_white_space(s[0]),
    ensures
        squeeze(s, n).len() > 0,
        squeeze(s, n)[0] == s[0],
    decreases n,
{
    if n > 1 {
        lemma_squeeze_start(s, n - 1);
    } else {
        assert(squeeze(s, 0).len() == 0);
    }
}

/// On a text that does not start with white space and holds no `/` and no
/// `&quot;`, collapsing white space is squeezing it.
proof fn lemma_collapse_is_squeeze(b: Seq<char>, n: int)
    requires
        0 <= n <= b.len(),
        b.len() > 0 ==> !spec_is_white_space(b[0]),
        no_slash_or_quot(b),
    ensures
        collapse(b, n) == squeeze(b, n),
    decreases n,
{
    if n > 0 {
        lemma_collapse_is_squeeze(b, n - 1);
        let r = squeeze(b, n - 1);
        let c = b[n - 1];
        assert(collapse(b, n) == collapse_step(r, b, n - 1));
        if n > 1 {
            lemma_squeeze_start(b, n - 1);
        }
        assert(c != '/');
        if !spec_is_white_space(c) {
            let r2 = r.push(c);
            assert(squeeze(b, n) == r2);
            if r2.len() >= 7 && r2[r2.len() - 7] == ' ' && quot_at(r2, r2.len() - 6) {
                assert forall|j: int| r2.len() - 6 <= j < r2.len() implies #[trigger] r2[j] != ' ' by {
                    lemma_quot_at_char(r2, r2.len() - 6, j - (r2.len() - 6));
                }
                lemma_squeeze_solid_suffix(b, n, 6);
                assert(b.subrange(n - 6, n) =~= r2.subrange(r2.len() - 6, r2.len() as int));
                assert(quot_at(b, n - 6));
            }
        } else {
            assert(n > 1);
            if r.last() != ' ' {
                lemma_squeeze_solid_suffix(b, n - 1, 1);
                assert(b.subrange(n - 2, n - 1)[0] == r.subrange(r.len() - 1, r.len() as int)[0]);
                assert(r.last() == b[n - 2]);
                if r.len() >= 6 && quot_at(r, r.len() - 6) {
                    assert forall|j: int| r.len() - 6 <= j < r.len() implies #[trigger] r[j] != ' ' by {
                        lemma_quot_at_char(r, r.len() - 6, j - (r.len() - 6));
                    }
                    lemma_squeeze_solid_suffix(b, n - 1, 6);
                    assert(b.subrange(n - 7, n - 1) =~= r.subrange(r.len() - 6, r.len() as int));
                    assert(quot_at(b, n - 7));
                }
            }
            if n < b.len() {
                assert(b[n] != '/');
            }
            assert(!quot_at(b, n));
        }
    }
}

proof fn lemma_trimmed_trim(t: Seq<char>)
    requires
        trimmed(t),
    ensures
        spec_trim(t) == t,
{
    if t.len() > 0 {
        assert(trailing_cut(t, t.len() as int) == t.len());
        assert(leading_cut(t, 0) == 0);
    }
    assert(t.take(t.len() as int) =~= t);
    assert(t.skip(0) =~= t);
}

/// The trimmed, collapsed body of a text with no `/` and no `&quot;` is its
/// words joined by single spaces.
proof fn lemma_collapsed_body(x: Seq<char>)
    requires
        no_slash_or_quot(x),
    ensures
        spec_trim(collapse(spec_trim(x), spec_trim(x).len() as int)) == words_joined(x),
{
    let (l, e) = lemma_trim_range(x);
    let b = spec_trim(x);
    assert forall|i: int| 0 <= i < b.len() implies #[trigger] b[i] != '/' by {
        assert(b[i] == x[l + i]);
    }
    assert forall|k: int| !#[trigger] quot_at(b, k) by {
        if quot_at(b, k) {
            assert(b.subrange(k, k + 6) =~= x.subrange(l + k, l + k + 6));
            assert(quot_at(x, l + k));
        }
    }
    lemma_collapse_is_squeeze(b, b.len() as int);
    let w = squeeze(b, b.len() as int);
    if b.len() > 0 {
        lemma_squeeze_start(b, b.len() as int);
        assert(w.last() == b.last());
    }
    lemma_trimmed_trim(w);
}

/// Without a step marker at its end, and with no `/` and no `&quot;` in it,
/// a text post-processes to its words joined by single spaces.
pub proof fn law_normalize_joins_words(s: Seq<char>)
    requires
        split_step_marker(s).0 is None,
        no_slash_or_quot(s),
    ensures
        spec_normalize(s) == words_joined(s),
{
    lemma_trim_range(s);
    lemma_collapsed_body(s);
}

/// With a step marker `d)` at its end (trailing white space aside) and no
/// `/` and no `&quot;` in it, a text post-processes to the marker, then a
/// space and the words before the marker joined by single spaces; to the
/// marker alone when there are no such words.
pub proof fn law_normalize_marker_then_words(s: Seq<char>)
    requires
        split_step_marker(s).0 is Some,
        no_slash_or_quot(s),
    ensures
        spec_normalize(s) == (if words_joined(split_step_marker(s).1).len() == 0 {
            seq![split_step_marker(s).0->0, ')']
        } else {
            seq![split_step_marker(s).0->0, ')', ' '] + words_joined(split_step_marker(s).1)
        }),
{
    let rest = split_step_marker(s).1;
    let t = spec_trim_end(s);
    lemma_trailing_cut_props(s, s.len() as int);
    assert(s.len() > 0);
    assert forall|i: int| 0 <= i < rest.len() implies #[trigger] rest[i] == s[i] by {
        assert(rest[i] == t[i]);
    }
    assert forall|i: int| 0 <= i < rest.len() implies #[trigger] rest[i] != '/' by {
        assert(rest[i] == s[i]);
    }
    assert forall|k: int| !#[trigger] quot_at(rest, k) by {
        if quot_at(rest, k) {
            assert(rest.subrange(k, k + 6) =~= s.subrange(k, k + 6));
            assert(quot_at(s, k));
        }
    }
    lemma_collapsed_body(rest);
}

proof fn lemma_next_sep_shift(x: Seq<char>, y: Seq<char>, j: int)
    requires
        0 <= j <= y.len(),
    ensures
        next_sep(x + y, x.len() + j) == (if next_sep(y, j) < 0 {
            -1
        } else {
            next_sep(y, j) + x.len()
        }),
    decreases y.len() - j,
{
    let s = x + y;
    let i = x.len() + j;
    if j < y.len() {
        assert(s[i] == y[j]);
        if j + 1 < y.len() {
            assert(s[i + 1] == y[j + 1]);
        }
        assert(sep_len_at(s, i) == sep_len_at(y, j));
        lemma_next_sep_shift(x, y, j + 1);
    }
}

/// Reshaping the pieces of `x + y` from a position inside `y` is reshaping
/// the pieces of `y` from there.
proof fn lemma_reshape_pieces_shift(x: Seq<char>, y: Seq<char>, j: int)
    requires
        0 <= j <= y.len(),
    ensures
        reshape_pieces(x + y, x.len() + j) == reshape_pieces(y, j),
    decreases y.len() - j,
{
    let s = x + y;
    let i = x.len() + j;
    lemma_next_sep_shift(x, y, j);
    lemma_next_sep_props(y, j);
    let k = next_sep(y, j);
    if k < 0 {
        assert(s.subrange(i, s.len() as int) =~= y.subrange(j, y.len() as int));
    } else {
        let kk = k + x.len();
        assert(s[kk] == y[k]);
        if k + 1 < y.len() {
            assert(s[kk + 1] == y[k + 1]);
        }
        assert(sep_len_at(s, kk) == sep_len_at(y, k));
        let e = k + sep_len_at(y, k);
        assert(s.subrange(i, kk) =~= y.subrange(j, k));
        assert(s.subrange(kk, kk + sep_len_at(s, kk)) =~= y.subrange(k, e));
        lemma_reshape_pieces_shift(x, y, e);
    }
}

/// A line separator: a real newline or an escaped `\n`.
pub open spec fn is_line_sep(sep: Seq<char>) -> bool {
    sep == seq!['\n'] || sep == seq!['\\', 'n']
}

/// Lines come out one for one: a text made of a line `p` (holding no
/// separator), a separator and the rest `q` reshapes, when it holds an Arabic
/// letter, to `p` reshaped as a line, the same separator, and `q` reshaped
/// line by line.
pub proof fn law_lines_one_for_one(p: Seq<char>, sep: Seq<char>, q: Seq<char>)
    requires
        next_sep(p, 0) == -1,
        is_line_sep(sep),
        has_arabic_letter(p + sep + q),
    ensures
        spec_reshape(p + sep + q) == (match (spec_reshape_line(p), reshape_pieces(q, 0)) {
            (Some(a), Some(b)) => Some(a + sep + b),
            _ => None,
        }),
{
    let s = p + sep + q;
    let n = p.len() as int;
    lemma_next_sep_props(p, 0);
    assert forall|i: int| 0 <= i < n implies #[trigger] sep_len_at(s, i) == 0 by {
        assert(sep_len_at(p, i) == 0);
        assert(s[i] == p[i]);
        if i + 1 < n {
            assert(s[i + 1] == p[i + 1]);
        } else {
            assert(s[i + 1] == sep[0]);
        }
    }
    assert(s[n] == sep[0]);
    if sep == seq!['\\', 'n'] {
        assert(s[n + 1] == 'n');
    }
    assert(sep_len_at(s, n) == sep.len());
    assert forall|i: int| 0 <= i <= n implies #[trigger] next_sep(s, i) == n by {
        lemma_next_sep_from(s, i, n);
    }
    assert(next_sep(s, 0) == n);
    assert(s.subrange(0, n) =~= p);
    assert(s.subrange(n, n + sep.len()) =~= sep);
    assert(s =~= (p + sep) + q);
    lemma_reshape_pieces_shift(p + sep, q, 0);
}

proof fn lemma_next_sep_from(s: Seq<char>, i: int, n: int)
    requires
        0 <= i <= n < s.len(),
        sep_len_at(s, n) > 0,
        forall|j: int| 0 <= j < n ==> #[trigger] sep_len_at(s, j) == 0,
    ensures
        next_sep(s, i) == n,
    decreases n - i,
{
    if i < n {
        assert(sep_len_at(s, i) == 0);
        lemma_next_sep_from(s, i + 1, n);
    }
}

/// The class of white space characters.
pub open spec fn white_space() -> spec_fn(char) -> bool {
    |c: char| spec_is_white_space(c)
}

proof fn lemma_normalize_blank(v: Seq<char>)
    requires
        all_chars(v, white_space()),
    ensures
        spec_normalize(v).len() == 0,
{
    if v.len() > 0 {
        lemma_trailing_cut_props(v, v.len() as int);
        let c = trailing_cut(v, v.len() as int);
        if c > 0 {
            assert(white_space()(v[c - 1]));
        }
        assert(spec_trim_end(v).len() == 0);
        assert(split_step_marker(v).1 == v);
        assert(spec_trim(v).len() == 0);
        let e = Seq::<char>::empty();
        assert(collapse(spec_trim(v), 0) == e);
        assert(trailing_cut(e, 0) == 0);
        assert(spec_trim(e).len() == 0);
    }
}

proof fn lemma_collapse_first(body: Seq<char>, n: int)
    requires
        1 <= n <= body.len(),
        !spec_is_white_space(body[0]),
    ensures
        collapse(body, n).len() > 0,
        collapse(body, n)[0] == body[0],
    decreases n,
{
    if n == 1 {
        assert(collapse(body, 0).len() == 0);
    } else {
        lemma_collapse_first(body, n - 1);
        let r = collapse(body, n - 1);
        let c = body[n - 1];
        if !spec_is_white_space(c) {
            let r2 = r.push(c);
            assert(r2[0] == r[0]);
            if c == '/' && r.len() > 0 && r.last() == ' ' {
                assert(r2.len() - 2 > 0);
                assert(r2.remove(r2.len() - 2)[0] == r2[0]);
            } else if r2.len() >= 7 && r2[r2.len() - 7] == ' ' && quot_at(r2, r2.len() - 6) {
                assert(r2.len() - 7 > 0);
                assert(r2.remove(r2.len() - 7)[0] == r2[0]);
            }
        }
    }
}

proof fn lemma_normalize_nonblank(v: Seq<char>, i: int)
    requires
        0 <= i < v.len(),
        !spec_is_white_space(v[i]),
    ensures
        spec_normalize(v).len() > 0,
{
    if split_step_marker(v).0 is None {
        let (l, e) = lemma_trim_range(v);
        let c = trailing_cut(v, v.len() as int);
        lemma_trailing_cut_props(v, v.len() as int);
        let y = v.take(c);
        lemma_leading_cut_props(y, 0);
        assert(i < c);
        assert(y[i] == v[i]);
        assert(leading_cut(y, 0) <= i);
        let body = spec_trim(v);
        assert(body =~= y.skip(leading_cut(y, 0)));
        assert(body.len() > 0);
        lemma_collapse_first(body, body.len() as int);
        let x = collapse(body, body.len() as int);
        lemma_trailing_cut_props(x, x.len() as int);
        let cx = trailing_cut(x, x.len() as int);
        if cx == 0 {
            assert(spec_is_white_space(x[0]));
        }
        let yx = x.take(cx);
        assert(yx[0] == x[0]);
        assert(leading_cut(yx, 0) == 0);
        assert(spec_trim(x) =~= yx.skip(0));
    }
}

/// The token of `scan(s, p, b)` that covers position `i`; a line-break token
/// only covers a line separator.
proof fn lemma_scan_covers(s: Seq<char>, p: int, b: int, i: int) -> (k: int)
    requires
        0 <= b <= p <= s.len(),
        b <= i < s.len(),
    ensures
        scan(s, p, b) matches Some(ts) ==> {
            &&& 0 <= k < ts.len()
            &&& ts[k].start <= i < ts[k].end
            &&& ts[k].kind == TokenKind::Newline ==> sep_len_at(s, ts[k].start) > 0
        },
    decreases s.len() - p,
{
    if p >= s.len() {
        0
    } else {
        let c = s[p];
        let f = flush(s, b, p);
        if is_tag_open(c) || (c == '&' && entity_end(s, p, p + 1) is Some) || (c == '\\'
            && escape_at(s, p)) || c == '\n' || (c == '"' && quoted_end(s, p) is Some) || (
        !(spec_is_arabic_char(c) || spec_is_bidi_mark(c)) && ltr_start(c)) || (!(
        spec_is_arabic_char(c) || spec_is_bidi_mark(c)) && (spec_is_white_space(c)
            || spec_is_ascii_punct(c)) && neutral_end(s, p) != p) {
            let e: int = if is_tag_open(c) {
                lemma_balanced_end_bounds(s, p, 0, c, tag_close(c));
                balanced_end(s, p, 0, c, tag_close(c))
            } else if c == '&' && entity_end(s, p, p + 1) is Some {
                crate::tokens::lemma_entity_end_bounds(s, p, p + 1);
                entity_end(s, p, p + 1)->0
            } else if c == '\\' && escape_at(s, p) {
                p + 2
            } else if c == '\n' {
                p + 1
            } else if spec_is_arabic_char(c) || spec_is_bidi_mark(c) {
                p + 1
            } else if c == '"' && quoted_end(s, p) is Some {
                lemma_quote_close_bounds(s, p + 1);
                quoted_end(s, p)->0
            } else if ltr_start(c) {
                lemma_ltr_run_end_bounds(s, p);
                ltr_run_end(s, p)
            } else {
                lemma_neutral_end_bounds(s, p);
                neutral_end(s, p)
            };
            let kind: TokenKind = if is_tag_open(c) {
                TokenKind::Tag
            } else if c == '&' && entity_end(s, p, p + 1) is Some {
                TokenKind::Tag
            } else if c == '\\' && escape_at(s, p) {
                if s[p + 1] == 'n' {
                    TokenKind::Newline
                } else {
                    TokenKind::Tag
                }
            } else if c == '\n' {
                TokenKind::Newline
            } else if spec_is_arabic_char(c) || spec_is_bidi_mark(c) {
                TokenKind::Rtl
            } else if c == '"' && quoted_end(s, p) is Some {
                TokenKind::Ltr
            } else if ltr_start(c) {
                TokenKind::Ltr
            } else {
                TokenKind::Neutral
            };
            if spec_is_arabic_char(c) || spec_is_bidi_mark(c) {
                assert(c == '\n' || c == '\\' || is_tag_open(c) || c == '&');
            }
            let t = TokenSpan { kind, start: p, end: e };
            let pre = f.push(t);
            assert(p < e <= s.len());
            assert(scan(s, p, b) == cons_tokens(pre, scan(s, e, e)));
            if i >= e {
                let k2 = lemma_scan_covers(s, e, e, i);
                if let Some(rest) = scan(s, e, e) {
                    let u = pre + rest;
                    assert(u[pre.len() + k2] == rest[k2]);
                }
                pre.len() + k2
            } else if i >= p {
                if let Some(rest) = scan(s, e, e) {
                    let u = pre + rest;
                    assert(u[pre.len() - 1] == t);
                }
                pre.len() - 1
            } else {
                if let Some(rest) = scan(s, e, e) {
                    let u = pre + rest;
                    assert(u[0] == f[0]);
                }
                0
            }
        } else {
            lemma_scan_covers(s, p + 1, b, i)
        }
    }
}

/// The first character that shaping writes from position `i` on: a
/// presentation form, or the character at `i` itself (then written alone).
proof fn lemma_shape_first(p: Seq<char>, i: int)
    requires
        0 <= i < p.len(),
    ensures
        shape_from(p, i).len() > 0,
        is_presentation_form(shape_from(p, i)[0]) || (shape_from(p, i)[0] == p[i]
            && shape_from(p, i) == seq![p[i]] + shape_from(p, i + 1)),
{
    law_forms_are_presentation_forms(p[i]);
    if i + 1 < p.len() {
        law_forms_are_presentation_forms(p[i + 1]);
    }
}

proof fn lemma_shape_no_sep(p: Seq<char>, i: int)
    requires
        0 <= i <= p.len(),
        forall|j: int| 0 <= j < p.len() ==> #[trigger] sep_len_at(p, j) == 0,
    ensures
        forall|j: int| 0 <= j < shape_from(p, i).len() ==> #[trigger] sep_len_at(
            shape_from(p, i),
            j,
        ) == 0,
    decreases p.len() - i,
{
    if i < p.len() {
        let o = shape_from(p, i);
        let d: int = if ligature_at(p, i) is Some {
            2
        } else {
            1
        };
        let r = shape_from(p, i + d);
        assert(o == seq![o[0]] + r);
        lemma_shape_no_sep(p, i + d);
        lemma_shape_first(p, i);
        assert(sep_len_at(p, i) == 0);
        assert forall|j: int| 0 <= j < o.len() implies #[trigger] sep_len_at(o, j) == 0 by {
            if j > 0 {
                assert(o[j] == r[j - 1]);
                if j + 1 < o.len() {
                    assert(o[j + 1] == r[j]);
                }
                assert(sep_len_at(r, j - 1) == 0);
            } else if o[0] == '\\' && o.len() > 1 && o[1] == 'n' {
                assert(o[0] == p[i]);
                lemma_shape_first(p, i + 1);
                assert(o[1] == r[0]);
                assert(r[0] == p[i + 1]);
                assert(sep_len_at(p, i) == 2);
            }
        }
    }
}

/// A character that is not white space at or after `i` leaves one in the
/// shaped text from `i` on.
proof fn lemma_shape_nonblank(p: Seq<char>, i: int, k: int) -> (j: int)
    requires
        0 <= i <= k < p.len(),
        !spec_is_white_space(p[k]),
    ensures
        0 <= j < shape_from(p, i).len(),
        !spec_is_white_space(shape_from(p, i)[j]),
    decreases p.len() - i,
{
    let o = shape_from(p, i);
    lemma_shape_first(p, i);
    let d: int = if ligature_at(p, i) is Some {
        2
    } else {
        1
    };
    let r = shape_from(p, i + d);
    assert(o == seq![o[0]] + r);
    if k < i + d {
        if !is_presentation_form(o[0]) {
            assert(d == 1);
            assert(o[0] == p[k]);
        }
        0
    } else {
        let j2 = lemma_shape_nonblank(p, i + d, k);
        assert(o[j2 + 1] == r[j2]);
        j2 + 1
    }
}

/// A line reshapes to nothing exactly when it is blank (white space only).
pub proof fn law_blank_lines(p: Seq<char>)
    requires
        next_sep(p, 0) == -1,
        spec_reshape_line(p) is Some,
    ensures
        spec_reshape_line(p)->0.len() == 0 <==> all_chars(p, white_space()),
{
    if p.len() > 0 {
        let t = spec_shape(p);
        let v = spec_visual(t)->0;
        if all_chars(p, white_space()) {
            assert forall|j: int| 0 <= j < p.len() implies #[trigger] spec_arabic_form(p[j]) is None by {
                assert(white_space()(p[j]));
            }
            law_shape_keeps_text_without_letters(p);
            lemma_visual_keeps(t, white_space());
            lemma_normalize_blank(v);
        } else {
            let k = choose|k: int| 0 <= k < p.len() && !#[trigger] white_space()(p[k]);
            let j = lemma_shape_nonblank(p, 0, k);
            lemma_next_sep_props(p, 0);
            lemma_shape_no_sep(p, 0);
            let ts = tokenize(t)->0;
            let m = lemma_scan_covers(t, 0, 0, j);
            let tk = ts[m];
            assert(spec_visual(t) is Some);
            assert(tokenize(t) is Some);
            lemma_scan_classes(t, 0, 0);
            assert(token_class_ok(t, tk));
            assert(tk.start <= j < tk.end);
            assert(sep_len_at(t, tk.start) == 0);
            law_tokens_kept_whole(t, m);
            let w = span_text(t, tk);
            let a = choose|a: int| 0 <= a && a + w.len() <= v.len() && #[trigger] v.subrange(a, a + w.len()) == w;
            let idx: int = if tk.kind == TokenKind::Rtl {
                tk.end - 1 - j
            } else {
                j - tk.start
            };
            assert(w[idx] == t[j]);
            assert(v[a + idx] == v.subrange(a, a + w.len())[idx]);
            lemma_normalize_nonblank(v, a + idx);
        }
    }
}

/// How many times `c` occurs in the texts of the tokens `ts` of `s`.
pub open spec fn token_count(s: Seq<char>, ts: Seq<TokenSpan>, c: char) -> nat
    decreases ts.len(),
{
    if ts.len() == 0 {
        0
    } else {
        count_char(span_text(s, ts[0]), c) + token_count(s, ts.drop_first(), c)
    }
}

proof fn lemma_token_count_concat(s: Seq<char>, a: Seq<TokenSpan>, b: Seq<TokenSpan>, c: char)
    ensures
        token_count(s, a + b, c) == token_count(s, a, c) + token_count(s, b, c),
    decreases a.len(),
{
    if a.len() == 0 {
        assert(a + b =~= b);
    } else {
        assert((a + b).drop_first() =~= a.drop_first() + b);
        assert((a + b)[0] == a[0]);
        lemma_token_count_concat(s, a.drop_first(), b, c);
    }
}

proof fn lemma_token_count_one(s: Seq<char>, t: TokenSpan, c: char)
    ensures
        token_count(s, seq![t], c) == count_char(span_text(s, t), c),
{
    assert(seq![t].drop_first() =~= Seq::<TokenSpan>::empty());
    assert(seq![t][0] == t);
    assert(token_count(s, Seq::<TokenSpan>::empty(), c) == 0);
}

proof fn lemma_token_count_reverse(s: Seq<char>, a: Seq<TokenSpan>, c: char)
    ensures
        token_count(s, a.reverse(), c) == token_count(s, a, c),
    decreases a.len(),
{
    if a.len() > 0 {
        let x = a.drop_first();
        lemma_token_count_reverse(s, x, c);
        assert(a.reverse() =~= x.reverse() + seq![a[0]]);
        lemma_token_count_concat(s, x.reverse(), seq![a[0]], c);
        lemma_token_count_one(s, a[0], c);
    }
}

proof fn lemma_count_reverse(x: Seq<char>, c: char)
    ensures
        count_char(x.reverse(), c) == count_char(x, c),
    decreases x.len(),
{
    if x.len() > 0 {
        let y = x.drop_last();
        lemma_count_reverse(y, c);
        assert(x.reverse() =~= seq![x.last()] + y.reverse());
        lemma_count_concat(seq![x.last()], y.reverse(), c);
        assert(x =~= y + seq![x.last()]);
        lemma_count_concat(y, seq![x.last()], c);
    }
}

proof fn lemma_count_split3(s: Seq<char>, a: int, b: int, d: int, e: int, c: char)
    requires
        0 <= a <= b <= d <= e <= s.len(),
    ensures
        count_char(s.subrange(a, e), c) == count_char(s.subrange(a, b), c) + count_char(
            s.subrange(b, d),
            c,
        ) + count_char(s.subrange(d, e), c),
{
    assert(s.subrange(a, e) =~= s.subrange(a, b) + s.subrange(b, d) + s.subrange(d, e));
    lemma_count_concat(s.subrange(a, b) + s.subrange(b, d), s.subrange(d, e), c);
    lemma_count_concat(s.subrange(a, b), s.subrange(b, d), c);
}

proof fn lemma_span_count(s: Seq<char>, t: TokenSpan, c: char)
    requires
        0 <= t.start <= t.end <= s.len(),
    ensures
        count_char(span_text(s, t), c) == count_char(s.subrange(t.start, t.end), c),
{
    lemma_count_reverse(s.subrange(t.start, t.end), c);
}

/// No backslash in `s`.
pub open spec fn backslash_free(s: Seq<char>) -> bool {
    forall|i: int| 0 <= i < s.len() ==> #[trigger] s[i] != '\\'
}

/// Every line-break token of `ts` is one real newline of `s`.
pub open spec fn breaks_are_newlines(s: Seq<char>, ts: Seq<TokenSpan>) -> bool {
    forall|k: int|
        0 <= k < ts.len() && #[trigger] ts[k].kind == TokenKind::Newline ==> ts[k].end
            == ts[k].start + 1 && 0 <= ts[k].start < s.len() && s[ts[k].start] == '\n'
}

/// The tokens of `scan(s, p, b)` hold, all together, the characters of
/// `s[b..]`, each as often as there.
proof fn lemma_scan_counts(s: Seq<char>, p: int, b: int, c: char)
    requires
        0 <= b <= p <= s.len(),
        backslash_free(s),
    ensures
        scan(s, p, b) matches Some(ts) ==> token_count(s, ts, c) == count_char(
            s.subrange(b, s.len() as int),
            c,
        ) && breaks_are_newlines(s, ts),
    decreases s.len() - p,
{
    let f = flush(s, b, p);
    if b < p {
        lemma_token_count_one(s, f[0], c);
        lemma_span_count(s, f[0], c);
        assert(f =~= seq![f[0]]);
    } else {
        assert(f =~= Seq::<TokenSpan>::empty());
    }
    if p >= s.len() {
        if b == p {
            assert(s.subrange(b, s.len() as int) =~= Seq::<char>::empty());
        }
    } else {
        let c0 = s[p];
        if is_tag_open(c0) || (c0 == '&' && entity_end(s, p, p + 1) is Some) || (c0 == '\\'
            && escape_at(s, p)) || c0 == '\n' || (c0 == '"' && quoted_end(s, p) is Some) || (
        !(spec_is_arabic_char(c0) || spec_is_bidi_mark(c0)) && ltr_start(c0)) || (!(
        spec_is_arabic_char(c0) || spec_is_bidi_mark(c0)) && (spec_is_white_space(c0)
            || spec_is_ascii_punct(c0)) && neutral_end(s, p) != p) {
            assert(c0 != '\\');
            let e: int = if is_tag_open(c0) {
                lemma_balanced_end_bounds(s, p, 0, c0, tag_close(c0));
                balanced_end(s, p, 0, c0, tag_close(c0))
            } else if c0 == '&' && entity_end(s, p, p + 1) is Some {
                crate::tokens::lemma_entity_end_bounds(s, p, p + 1);
                entity_end(s, p, p + 1)->0
            } else if c0 == '\n' {
                p + 1
            } else if spec_is_arabic_char(c0) || spec_is_bidi_mark(c0) {
                p + 1
            } else if c0 == '"' && quoted_end(s, p) is Some {
                lemma_quote_close_bounds(s, p + 1);
                quoted_end(s, p)->0
            } else if ltr_start(c0) {
                lemma_ltr_run_end_bounds(s, p);
                ltr_run_end(s, p)
            } else {
                lemma_neutral_end_bounds(s, p);
                neutral_end(s, p)
            };
            let kind: TokenKind = if is_tag_open(c0) {
                TokenKind::Tag
            } else if c0 == '&' && entity_end(s, p, p + 1) is Some {
                TokenKind::Tag
            } else if c0 == '\n' {
                TokenKind::Newline
            } else if spec_is_arabic_char(c0) || spec_is_bidi_mark(c0) {
                TokenKind::Rtl
            } else if c0 == '"' && quoted_end(s, p) is Some {
                TokenKind::Ltr
            } else if ltr_start(c0) {
                TokenKind::Ltr
            } else {
                TokenKind::Neutral
            };
            if spec_is_arabic_char(c0) || spec_is_bidi_mark(c0) {
                assert(c0 == '\n' || is_tag_open(c0) || c0 == '&');
            }
            let t = TokenSpan { kind, start: p, end: e };
            let pre = f.push(t);
            assert(p < e <= s.len());
            assert(scan(s, p, b) == cons_tokens(pre, scan(s, e, e)));
            lemma_scan_counts(s, e, e, c);
            lemma_token_count_one(s, t, c);
            lemma_span_count(s, t, c);
            assert(pre =~= f + seq![t]);
            lemma_token_count_concat(s, f, seq![t], c);
            lemma_count_split3(s, b, p, e, s.len() as int, c);
            if b == p {
                assert(s.subrange(b, p) =~= Seq::<char>::empty());
            }
            if let Some(rest) = scan(s, e, e) {
                let u = pre + rest;
                lemma_token_count_concat(s, pre, rest, c);
                assert forall|k: int|
                    0 <= k < u.len() && #[trigger] u[k].kind == TokenKind::Newline implies u[k].end
                    == u[k].start + 1 && 0 <= u[k].start < s.len() && s[u[k].start] == '\n' by {
                    if k >= pre.len() {
                        assert(u[k] == rest[k - pre.len()]);
                    } else if k == pre.len() - 1 {
                        assert(u[k] == t);
                    } else {
                        assert(u[k] == f[0]);
                        assert(f[0].kind == run_kind(s.subrange(b, p)));
                    }
                }
            }
        } else {
            lemma_scan_counts(s, p + 1, b, c);
        }
    }
}

proof fn lemma_count_push(x: Seq<char>, d: char, c: char)
    ensures
        count_char(x.push(d), c) == count_char(x, c) + (if d == c {
            1nat
        } else {
            0nat
        }),
{
    assert(x.push(d).drop_last() =~= x);
}

/// A rendered line holds the characters of `acc` and of its tokens, and
/// spaces besides.
proof fn lemma_render_line_count(
    s: Seq<char>,
    acc: Seq<char>,
    prev: Option<TokenKind>,
    line: Seq<TokenSpan>,
    c: char,
)
    ensures
        count_char(render_line(s, acc, prev, line), c) >= count_char(acc, c) + token_count(
            s,
            line,
            c,
        ),
        c != ' ' ==> count_char(render_line(s, acc, prev, line), c) == count_char(acc, c)
            + token_count(s, line, c),
    decreases line.len(),
{
    if line.len() > 0 {
        let t = line[0];
        let r = span_text(s, t);
        let acc2 = if needs_space(acc, prev, t.kind, r) {
            acc.push(' ')
        } else {
            acc
        };
        lemma_count_push(acc, ' ', c);
        lemma_count_concat(acc2, r, c);
        lemma_render_line_count(s, acc2 + r, Some(t.kind), line.drop_first(), c);
    }
}

proof fn lemma_render_from_count(s: Seq<char>, ts: Seq<TokenSpan>, i: int, acc: Seq<char>, c: char)
    requires
        0 <= i <= ts.len(),
        breaks_are_newlines(s, ts),
    ensures
        count_char(render_from(s, ts, i, acc), c) >= count_char(acc, c) + token_count(
            s,
            ts.subrange(i, ts.len() as int),
            c,
        ),
        c != ' ' ==> count_char(render_from(s, ts, i, acc), c) == count_char(acc, c)
            + token_count(s, ts.subrange(i, ts.len() as int), c),
    decreases ts.len() - i,
{
    lemma_next_newline_props(ts, i);
    let j = next_newline(ts, i);
    let part = ts.subrange(i, j);
    let out = render_line(s, acc, None, part.reverse());
    lemma_render_line_count(s, acc, None, part.reverse(), c);
    lemma_token_count_reverse(s, part, c);
    if j < ts.len() {
        let t = ts[j];
        assert(t.kind == TokenKind::Newline);
        assert(s.subrange(t.start, t.end) =~= seq!['\n']);
        assert(span_text(s, t) == seq!['\n']);
        lemma_token_count_one(s, t, c);
        lemma_count_push(out, '\n', c);
        assert(Seq::<char>::empty().push('\n') =~= seq!['\n']);
        lemma_count_push(Seq::<char>::empty(), '\n', c);
        lemma_render_from_count(s, ts, j + 1, out.push('\n'), c);
        let rest = ts.subrange(j + 1, ts.len() as int);
        assert(ts.subrange(i, ts.len() as int) =~= part + seq![t] + rest);
        lemma_token_count_concat(s, part + seq![t], rest, c);
        lemma_token_count_concat(s, part, seq![t], c);
    } else {
        assert(ts.subrange(i, ts.len() as int) == part);
    }
}

/// Reordering a text without backslashes only moves its characters and adds
/// spaces: every other character occurs in the visual order exactly as often
/// as in the text, and spaces at least as often.
pub proof fn law_reordering_keeps_characters(s: Seq<char>, c: char)
    requires
        backslash_free(s),
        spec_visual(s) is Some,
    ensures
        c != ' ' ==> count_char(spec_visual(s)->0, c) == count_char(s, c),
        count_char(spec_visual(s)->0, ' ') >= count_char(s, ' '),
{
    let ts = tokenize(s)->0;
    lemma_scan_counts(s, 0, 0, c);
    lemma_scan_counts(s, 0, 0, ' ');
    assert(s.subrange(0, s.len() as int) =~= s);
    assert(ts.subrange(0, ts.len() as int) =~= ts);
    lemma_render_from_count(s, ts, 0, Seq::empty(), c);
    lemma_render_from_count(s, ts, 0, Seq::empty(), ' ');
}

/// A character of a game tag's name: an ASCII letter or digit, or `_`.
pub open spec fn tag_name_char() -> spec_fn(char) -> bool {
    |c: char| spec_is_ascii_alnum(c) || c == '_'
}

/// The curly game tag `{w}`.
pub open spec fn curly_tag(w: Seq<char>) -> Seq<char> {
    seq!['{'] + w + seq!['}']
}

/// `s` holds the tag `{…}` of length `len` at `a`, its name made of tag
/// name characters.
pub open spec fn solid_tag_at(s: Seq<char>, a: int, len: int) -> bool {
    &&& 0 <= a
    &&& 2 <= len
    &&& a + len <= s.len()
    &&& s[a] == '{'
    &&& s[a + len - 1] == '}'
    &&& forall|j: int| a < j < a + len - 1 ==> #[trigger] tag_name_char()(s[j])
}

proof fn lemma_balanced_end_from_tag(
    s: Seq<char>,
    j: int,
    depth: int,
    open: char,
    a: int,
    len: int,
)
    requires
        solid_tag_at(s, a, len),
        a <= j <= a + len - 1,
        is_tag_open(open),
    ensures
        balanced_end(s, j, depth, open, tag_close(open)) >= a + len,
    decreases a + len - j,
{
    let close = tag_close(open);
    if j < a + len - 1 {
        if j > a {
            assert(tag_name_char()(s[j]));
        }
        assert(s[j] != close);
        if s[j] == open {
            lemma_balanced_end_from_tag(s, j + 1, depth + 1, open, a, len);
        } else {
            lemma_balanced_end_from_tag(s, j + 1, depth, open, a, len);
        }
    } else {
        lemma_balanced_end_bounds(s, j + 1, depth + 1, open, close);
        lemma_balanced_end_bounds(s, j + 1, depth - 1, open, close);
        lemma_balanced_end_bounds(s, j + 1, depth, open, close);
    }
}

proof fn lemma_balanced_end_around_tag(
    s: Seq<char>,
    j: int,
    depth: int,
    open: char,
    a: int,
    len: int,
)
    requires
        solid_tag_at(s, a, len),
        0 <= j <= a,
        is_tag_open(open),
    ensures
        balanced_end(s, j, depth, open, tag_close(open)) <= a || balanced_end(
            s,
            j,
            depth,
            open,
            tag_close(open),
        ) >= a + len,
    decreases a - j,
{
    if j == a {
        lemma_balanced_end_from_tag(s, j, depth, open, a, len);
    } else if s[j] == open {
        lemma_balanced_end_around_tag(s, j + 1, depth + 1, open, a, len);
    } else if s[j] == tag_close(open) {
        lemma_balanced_end_around_tag(s, j + 1, depth - 1, open, a, len);
    } else {
        lemma_balanced_end_around_tag(s, j + 1, depth, open, a, len);
    }
}

proof fn lemma_quote_close_around_tag(s: Seq<char>, j: int, a: int, len: int)
    requires
        solid_tag_at(s, a, len),
        0 <= j <= a + len,
    ensures
        quote_close(s, j) matches Some(q) ==> q < a || q >= a + len,
    decreases s.len() - j,
{
    if j >= a + len {
        lemma_quote_close_bounds(s, j);
    } else if j < s.len() && s[j] != '"' && spec_is_ascii(s[j]) {
        lemma_quote_close_around_tag(s, j + 1, a, len);
    } else if a <= j < a + len && j < s.len() {
        if a < j < a + len - 1 {
            assert(tag_name_char()(s[j]));
        }
    }
}

proof fn lemma_entity_end_before_tag(s: Seq<char>, p: int, j: int, a: int, len: int)
    requires
        solid_tag_at(s, a, len),
        0 <= j <= a,
    ensures
        entity_end(s, p, j) matches Some(e) ==> e <= a,
    decreases a - j,
{
    if j < a && s[j] != ';' && j - p + 1 <= 12 && crate::tokens::entity_char(s[j]) {
        lemma_entity_end_before_tag(s, p, j + 1, a, len);
    }
}

proof fn lemma_ltr_run_end_before_tag(s: Seq<char>, j: int, a: int, len: int)
    requires
        solid_tag_at(s, a, len),
        0 <= j <= a,
    ensures
        ltr_run_end(s, j) <= a,
    decreases a - j,
{
    if j < a && ltr_continues(s[j]) {
        lemma_ltr_run_end_before_tag(s, j + 1, a, len);
    }
}

proof fn lemma_neutral_end_before_tag(s: Seq<char>, j: int, a: int, len: int)
    requires
        solid_tag_at(s, a, len),
        0 <= j <= a,
    ensures
        neutral_end(s, j) <= a,
    decreases a - j,
{
    if j < a && neutral_continues(s[j]) {
        lemma_neutral_end_before_tag(s, j + 1, a, len);
    }
}

/// A solid tag at `a` lies whole inside one token of the scan, a tag or a
/// left-to-right token.
proof fn lemma_scan_keeps_tag(s: Seq<char>, p: int, b: int, a: int, len: int) -> (k: int)
    requires
        0 <= b <= p <= a,
        solid_tag_at(s, a, len),
    ensures
        scan(s, p, b) matches Some(ts) ==> {
            &&& 0 <= k < ts.len()
            &&& ts[k].start <= a
            &&& a + len <= ts[k].end
            &&& (ts[k].kind == TokenKind::Tag || ts[k].kind == TokenKind::Ltr)
        },
    decreases s.len() - p,
{
    let c0 = s[p];
    let f = flush(s, b, p);
    if is_tag_open(c0) || (c0 == '&' && entity_end(s, p, p + 1) is Some) || (c0 == '\\'
        && escape_at(s, p)) || c0 == '\n' || (c0 == '"' && quoted_end(s, p) is Some) || (!(
    spec_is_arabic_char(c0) || spec_is_bidi_mark(c0)) && ltr_start(c0)) || (!(
    spec_is_arabic_char(c0) || spec_is_bidi_mark(c0)) && (spec_is_white_space(c0)
        || spec_is_ascii_punct(c0)) && neutral_end(s, p) != p) {
        let e: int = if is_tag_open(c0) {
            lemma_balanced_end_bounds(s, p, 0, c0, tag_close(c0));
            lemma_balanced_end_around_tag(s, p, 0, c0, a, len);
            if p == a {
                lemma_balanced_end_from_tag(s, p, 0, c0, a, len);
            }
            balanced_end(s, p, 0, c0, tag_close(c0))
        } else if c0 == '&' && entity_end(s, p, p + 1) is Some {
            crate::tokens::lemma_entity_end_bounds(s, p, p + 1);
            lemma_entity_end_before_tag(s, p, p + 1, a, len);
            entity_end(s, p, p + 1)->0
        } else if c0 == '\\' && escape_at(s, p) {
            p + 2
        } else if c0 == '\n' {
            p + 1
        } else if spec_is_arabic_char(c0) || spec_is_bidi_mark(c0) {
            p + 1
        } else if c0 == '"' && quoted_end(s, p) is Some {
            lemma_quote_close_bounds(s, p + 1);
            lemma_quote_close_around_tag(s, p + 1, a, len);
            quoted_end(s, p)->0
        } else if ltr_start(c0) {
            lemma_ltr_run_end_bounds(s, p);
            lemma_ltr_run_end_before_tag(s, p, a, len);
            ltr_run_end(s, p)
        } else {
            lemma_neutral_end_bounds(s, p);
            lemma_neutral_end_before_tag(s, p, a, len);
            neutral_end(s, p)
        };
        let kind: TokenKind = if is_tag_open(c0) {
            TokenKind::Tag
        } else if c0 == '&' && entity_end(s, p, p + 1) is Some {
            TokenKind::Tag
        } else if c0 == '\\' && escape_at(s, p) {
            if s[p + 1] == 'n' {
                TokenKind::Newline
            } else {
                TokenKind::Tag
            }
        } else if c0 == '\n' {
            TokenKind::Newline
        } else if spec_is_arabic_char(c0) || spec_is_bidi_mark(c0) {
            TokenKind::Rtl
        } else if c0 == '"' && quoted_end(s, p) is Some {
            TokenKind::Ltr
        } else if ltr_start(c0) {
            TokenKind::Ltr
        } else {
            TokenKind::Neutral
        };
        if spec_is_arabic_char(c0) || spec_is_bidi_mark(c0) {
            assert(c0 == '\n' || c0 == '\\' || is_tag_open(c0) || c0 == '&');
        }
        if c0 == '\\' && escape_at(s, p) && p + 1 == a {
            assert(s[p + 1] == '{');
        }
        if p == a {
            assert(is_tag_open(c0));
        }
        let t = TokenSpan { kind, start: p, end: e };
        let pre = f.push(t);
        assert(p < e <= s.len());
        assert(scan(s, p, b) == cons_tokens(pre, scan(s, e, e)));
        if e <= a {
            let k2 = lemma_scan_keeps_tag(s, e, e, a, len);
            if let Some(rest) = scan(s, e, e) {
                let u = pre + rest;
                assert(u[pre.len() + k2] == rest[k2]);
            }
            pre.len() + k2
        } else {
            assert(e >= a + len);
            if let Some(rest) = scan(s, e, e) {
                let u = pre + rest;
                assert(u[pre.len() - 1] == t);
            }
            pre.len() - 1
        }
    } else {
        assert(p < a);
        lemma_scan_keeps_tag(s, p + 1, b, a, len)
    }
}

proof fn lemma_shape_tag_body(p: Seq<char>, j: int, a: int, len: int)
    requires
        solid_tag_at(p, a, len),
        a <= j <= a + len,
    ensures
        shape_from(p, j) == p.subrange(j, a + len) + shape_from(p, a + len),
    decreases a + len - j,
{
    if j < a + len {
        if a < j < a + len - 1 {
            assert(tag_name_char()(p[j]));
        }
        assert(p[j] != 'ل');
        assert(spec_arabic_form(p[j]) is None);
        lemma_shape_tag_body(p, j + 1, a, len);
        assert(p.subrange(j, a + len) =~= seq![p[j]] + p.subrange(j + 1, a + len));
    } else {
        assert(p.subrange(j, a + len) =~= Seq::<char>::empty());
    }
}

/// Shaping leaves a solid tag as it is, somewhere in its output.
proof fn lemma_shape_keeps_tag(p: Seq<char>, i: int, a: int, len: int) -> (a2: int)
    requires
        solid_tag_at(p, a, len),
        0 <= i <= a,
    ensures
        solid_tag_at(shape_from(p, i), a2, len),
        shape_from(p, i).subrange(a2, a2 + len) == p.subrange(a, a + len),
    decreases a - i,
{
    let o = shape_from(p, i);
    if i == a {
        lemma_shape_tag_body(p, a, a, len);
        let t = p.subrange(a, a + len);
        assert(o.subrange(0, len) =~= t);
        assert forall|j: int| 0 < j < len - 1 implies #[trigger] tag_name_char()(o[j]) by {
            assert(o[j] == p[a + j]);
            assert(tag_name_char()(p[a + j]));
        }
        assert(o[0] == p[a]);
        assert(o[len - 1] == p[a + len - 1]);
        0
    } else {
        let d: int = if ligature_at(p, i) is Some {
            2
        } else {
            1
        };
        if d == 2 {
            assert(i + 1 != a);
        }
        let r = shape_from(p, i + d);
        assert(o == seq![o[0]] + r);
        let a3 = lemma_shape_keeps_tag(p, i + d, a, len);
        assert(o.subrange(a3 + 1, a3 + 1 + len) =~= r.subrange(a3, a3 + len));
        assert forall|j: int| a3 + 1 < j < a3 + 1 + len - 1 implies #[trigger] tag_name_char()(o[j]) by {
            assert(o[j] == r[j - 1]);
        }
        assert(o[a3 + 1] == r[a3]);
        assert(o[a3 + len] == r[a3 + len - 1]);
        a3 + 1
    }
}

proof fn lemma_occurs_trans(w: Seq<char>, x: Seq<char>, y: Seq<char>, i: int)
    requires
        occurs_at(w, x, i),
        occurs_in(x, y),
    ensures
        occurs_in(w, y),
{
    let a = choose|a: int| 0 <= a && a + x.len() <= y.len() && #[trigger] y.subrange(a, a + x.len()) == x;
    assert(y.subrange(a + i, a + i + w.len()) =~= x.subrange(i, i + w.len()));
}

/// A solid tag of a line is found whole in the line reshaped.
proof fn lemma_line_keeps_tag(p: Seq<char>, a: int, len: int)
    requires
        solid_tag_at(p, a, len),
        spec_reshape_line(p) is Some,
    ensures
        occurs_in(p.subrange(a, a + len), spec_reshape_line(p)->0),
{
    let tag = p.subrange(a, a + len);
    let t = spec_shape(p);
    let a2 = lemma_shape_keeps_tag(p, 0, a, len);
    let v = spec_visual(t)->0;
    assert(tokenize(t) is Some);
    let ts = tokenize(t)->0;
    let k = lemma_scan_keeps_tag(t, 0, 0, a2, len);
    let tk = ts[k];
    lemma_scan_classes(t, 0, 0);
    assert(token_class_ok(t, tk));
    law_tokens_kept_whole(t, k);
    let span = span_text(t, tk);
    assert(span == t.subrange(tk.start, tk.end));
    assert(span.subrange(a2 - tk.start, a2 - tk.start + len) =~= t.subrange(a2, a2 + len));
    lemma_occurs_trans(tag, span, v, a2 - tk.start);
    assert forall|j: int| 0 <= j < tag.len() implies #[trigger] not_white_space()(tag[j]) by {
        assert(tag[j] == p[a + j]);
        if 0 < j < len - 1 {
            assert(tag_name_char()(p[a + j]));
        }
    }
    assert(tag.last() == '}');
    law_normalize_keeps_solid_stretches(tag, v);
}

proof fn lemma_occurs_in_suffix(w: Seq<char>, x: Seq<char>, y: Seq<char>)
    requires
        occurs_in(w, y),
    ensures
        occurs_in(w, x + y),
{
    let a = choose|a: int| 0 <= a && a + w.len() <= y.len() && #[trigger] y.subrange(a, a + w.len()) == w;
    assert((x + y).subrange(x.len() + a, x.len() + a + w.len()) =~= y.subrange(a, a + w.len()));
}

proof fn lemma_pieces_keep_tag(s: Seq<char>, start: int, a: int, len: int)
    requires
        0 <= start <= a,
        solid_tag_at(s, a, len),
        reshape_pieces(s, start) is Some,
    ensures
        occurs_in(s.subrange(a, a + len), reshape_pieces(s, start)->0),
    decreases s.len() - start,
{
    let tag = s.subrange(a, a + len);
    lemma_next_sep_props(s, start);
    let k = next_sep(s, start);
    assert forall|j: int| a <= j < a + len implies #[trigger] sep_len_at(s, j) == 0 by {
        if a < j < a + len - 1 {
            assert(tag_name_char()(s[j]));
        }
    }
    if k < 0 {
        let piece = s.subrange(start, s.len() as int);
        assert forall|j: int| a - start < j < a - start + len - 1 implies #[trigger] tag_name_char()(piece[j]) by {
            assert(piece[j] == s[start + j]);
        }
        assert(piece.subrange(a - start, a - start + len) =~= tag);
        lemma_line_keeps_tag(piece, a - start, len);
    } else {
        let e = k + sep_len_at(s, k);
        let piece = s.subrange(start, k);
        let sep = s.subrange(k, e);
        let o = reshape_pieces(s, start)->0;
        let x = spec_reshape_line(piece)->0;
        let y = reshape_pieces(s, e)->0;
        assert(o == x + sep + y);
        if a + len <= k {
            assert forall|j: int| a - start < j < a - start + len - 1 implies #[trigger] tag_name_char()(piece[j]) by {
                assert(piece[j] == s[start + j]);
            }
            assert(piece.subrange(a - start, a - start + len) =~= tag);
            lemma_line_keeps_tag(piece, a - start, len);
            assert(o.subrange(0, x.len() as int) =~= x);
            lemma_occurs_in_extension(tag, x, o);
        } else {
            assert(k < a);
            if sep_len_at(s, k) == 2 && k + 1 == a {
                assert(s[k + 1] == 'n');
            }
            lemma_pieces_keep_tag(s, e, a, len);
            lemma_occurs_in_suffix(tag, x + sep, y);
        }
    }
}

/// A curly game tag `{w}` (a name of ASCII letters, digits and `_`) survives
/// reshaping whole, wherever it stands in the text.
pub proof fn law_curly_tags_kept(s: Seq<char>, w: Seq<char>)
    requires
        all_chars(w, tag_name_char()),
        occurs_in(curly_tag(w), s),
        spec_reshape(s) is Some,
    ensures
        occurs_in(curly_tag(w), spec_reshape(s)->0),
{
    if has_arabic_letter(s) {
        let tag = curly_tag(w);
        let len = tag.len() as int;
        let a = choose|a: int| 0 <= a && a + tag.len() <= s.len() && #[trigger] s.subrange(a, a + tag.len()) == tag;
        assert(s[a] == tag[0]);
        assert(s[a + len - 1] == tag[len - 1]);
        assert forall|j: int| a < j < a + len - 1 implies #[trigger] tag_name_char()(s[j]) by {
            assert(s[j] == tag[j - a]);
            assert(tag[j - a] == w[j - a - 1]);
        }
        assert(solid_tag_at(s, a, len));
        lemma_pieces_keep_tag(s, 0, a, len);
    }
}

/// The form a base letter at `i` of `s` takes from its two neighbours: final
/// when the letter before joins to the left, initial when it joins to the
/// left itself and an Arabic letter follows, medial when both, isolated when
/// neither.
pub open spec fn form_by_neighbours(s: Seq<char>, i: int) -> char {
    let (iso, fin, ini, med, joins) = spec_arabic_form(s[i])->0;
    let p = i > 0 && spec_connects_to_left(s[i - 1]);
    let q = joins && i + 1 < s.len() && spec_arabic_form(s[i + 1]) is Some;
    if !p && !q {
        iso
    } else if p && !q {
        fin
    } else if !p && q {
        ini
    } else {
        med
    }
}

/// Without diacritics and without a Lam followed by an alef, each base
/// letter takes exactly the form its two neighbours call for, in place.
pub proof fn law_shape_forms_by_neighbours(s: Seq<char>)
    requires
        forall|j: int| 0 <= j < s.len() ==> !#[trigger] spec_is_diacritic(s[j]),
        forall|j: int| !#[trigger] lam_alef_at(s, j),
    ensures
        spec_shape(s).len() == s.len(),
        forall|i: int|
            0 <= i < s.len() && #[trigger] spec_arabic_form(s[i]) is Some ==> spec_shape(s)[i]
                == form_by_neighbours(s, i),
{
    lemma_shape_from_in_place(s, 0);
    assert forall|i: int|
        0 <= i < s.len() && #[trigger] spec_arabic_form(s[i]) is Some implies spec_shape(s)[i]
            == form_by_neighbours(s, i) by {
        assert(shape_from(s, 0)[i] == letter_form(s, i));
        if i > 0 {
            assert(!spec_is_diacritic(s[i - 1]));
        }
        if i + 1 < s.len() {
            assert(!spec_is_diacritic(s[i + 1]));
        }
    }
}

/// A character that a left-to-right run carries along: ASCII other than a
/// bracket or a newline, or an Arabic-Indic digit.
pub open spec fn ltr_run_char() -> spec_fn(char) -> bool {
    |c: char|
        (spec_is_ascii(c) && !crate::tokens::is_bracket(c) && c != '\n')
            || crate::detection::spec_is_arabic_numeral(c)
}

/// A character that opens a left-to-right run: an ASCII letter or digit, an
/// Arabic-Indic digit, or one of `' - + / _ . : %`.
pub open spec fn ltr_opener(c: char) -> bool {
    spec_is_ascii_alnum(c) || crate::detection::spec_is_arabic_numeral(c) || c == '\''
        || c == '-' || c == '+' || c == '/' || c == '_' || c == '.' || c == ':' || c == '%'
}

/// A single line of left-to-right characters (ASCII without brackets, and
/// Arabic-Indic digits) that starts with a character opening a
/// left-to-right run is one run: reordering leaves it as it is.
pub proof fn law_plain_ltr_line_unchanged(s: Seq<char>)
    requires
        s.len() > 0,
        ltr_opener(s[0]),
        all_chars(s, ltr_run_char()),
    ensures
        spec_visual(s) == Some(s),
{
    let n = s.len() as int;
    lemma_ltr_run_to(s, 0, n);
    assert(ltr_run_char()(s[0]));
    assert(ltr_start(s[0]));
    assert(!is_tag_open(s[0]));
    assert(!spec_is_arabic_char(s[0]));
    let t = TokenSpan { kind: TokenKind::Ltr, start: 0, end: n };
    assert(scan(s, n, n) == Some(Seq::<TokenSpan>::empty()));
    assert(scan(s, 0, 0) == cons_tokens(flush(s, 0, 0).push(t), scan(s, n, n)));
    assert(flush(s, 0, 0).push(t) + Seq::<TokenSpan>::empty() =~= seq![t]);
    let ts = seq![t];
    assert(tokenize(s) == Some(ts));
    assert(next_newline(ts, 1) == 1);
    assert(next_newline(ts, 0) == 1);
    assert(ts.subrange(0, 1).reverse() =~= seq![t]);
    lemma_render_single(s, Seq::empty(), t);
    assert(s.subrange(0, n) =~= s);
    assert(Seq::<char>::empty() + s =~= s);
}

proof fn lemma_ltr_run_to(s: Seq<char>, j: int, m: int)
    requires
        0 <= j <= m <= s.len(),
        forall|k: int| 0 <= k < m ==> #[trigger] ltr_run_char()(s[k]),
        m < s.len() ==> spec_is_arabic_char(s[m]),
    ensures
        ltr_run_end(s, j) == m,
    decreases m - j,
{
    if j < m {
        assert(ltr_run_char()(s[j]));
        assert(ltr_continues(s[j]));
        lemma_ltr_run_to(s, j + 1, m);
    } else if m < s.len() {
        assert(!ltr_continues(s[m]));
    }
}

/// A left-to-right stretch followed by an Arabic word on one line: the
/// word comes first, reversed, and the stretch after it unchanged and whole;
/// a space goes between them unless the stretch opens with ASCII
/// punctuation (a quote aside).
pub proof fn law_ltr_stretch_then_arabic_word(a: Seq<char>, w: Seq<char>)
    requires
        a.len() > 0,
        ltr_opener(a[0]),
        all_chars(a, ltr_run_char()),
        w.len() > 0,
        all_chars(w, arabic_letter()),
    ensures
        spec_visual(a + w) == Some(w.reverse() + (if a[0] == '-' || a[0] == '+' || a[0] == '/'
            || a[0] == '_' || a[0] == '.' || a[0] == ':' || a[0] == '%' {
            Seq::<char>::empty()
        } else {
            seq![' ']
        }) + a),
{
    let s = a + w;
    let m = a.len() as int;
    let n = s.len() as int;
    assert forall|k: int| 0 <= k < m implies #[trigger] ltr_run_char()(s[k]) by {
        assert(s[k] == a[k]);
    }
    assert forall|i: int| m <= i < n implies #[trigger] spec_is_arabic_char(s[i]) by {
        assert(s[i] == w[i - m]);
        assert(arabic_letter()(w[i - m]));
    }
    lemma_ltr_run_to(s, 0, m);
    assert(s[0] == a[0]);
    assert(ltr_run_char()(a[0]));
    assert(ltr_start(s[0]));
    assert(!is_tag_open(s[0]));
    assert(!spec_is_arabic_char(s[0]));
    lemma_scan_arabic_run(s, m, m);
    assert(spec_is_arabic_char(s.subrange(m, n)[0]));
    assert(run_kind(s.subrange(m, n)) == TokenKind::Rtl);
    let t1 = TokenSpan { kind: TokenKind::Ltr, start: 0, end: m };
    let t2 = TokenSpan { kind: TokenKind::Rtl, start: m, end: n };
    assert(scan(s, m, m) == Some(seq![t2]));
    assert(scan(s, 0, 0) == cons_tokens(flush(s, 0, 0).push(t1), scan(s, m, m)));
    let ts = seq![t1, t2];
    assert(flush(s, 0, 0).push(t1) + seq![t2] =~= ts);
    assert(tokenize(s) == Some(ts));
    assert(next_newline(ts, 2) == 2);
    assert(next_newline(ts, 1) == 2);
    assert(next_newline(ts, 0) == 2);
    let line = ts.subrange(0, 2).reverse();
    assert(line =~= seq![t2, t1]);
    assert(s.subrange(m, n) =~= w);
    assert(s.subrange(0, m) =~= a);
    let r2 = span_text(s, t2);
    assert(r2 == w.reverse());
    let e = Seq::<char>::empty();
    assert(!needs_space(e, None, TokenKind::Rtl, r2));
    assert(line[0] == t2);
    assert(line.drop_first() =~= seq![t1]);
    assert(e + r2 =~= w.reverse());
    assert(render_line(s, e, None, line) == render_line(s, w.reverse(), Some(TokenKind::Rtl), seq![t1]));
    assert(w.reverse().last() == w[0]);
    assert(!spec_is_white_space(w[0])) by {
        assert(arabic_letter()(w[0]));
    }
    assert(span_text(s, t1) == a);
    let sp = needs_space(w.reverse(), Some(TokenKind::Rtl), TokenKind::Ltr, a);
    let acc2 = if sp {
        w.reverse().push(' ')
    } else {
        w.reverse()
    };
    assert(seq![t1][0] == t1);
    assert(seq![t1].drop_first() =~= Seq::<TokenSpan>::empty());
    assert(render_line(s, w.reverse(), Some(TokenKind::Rtl), seq![t1]) == render_line(
        s,
        acc2 + a,
        Some(TokenKind::Ltr),
        Seq::<TokenSpan>::empty(),
    ));
    if sp {
        assert(w.reverse().push(' ') + a =~= w.reverse() + seq![' '] + a);
    } else {
        assert(w.reverse() + Seq::<char>::empty() + a =~= w.reverse() + a);
    }
    assert(render_from(s, ts, 0, e) == render_line(s, e, None, line));
}

/// The first real newline at or after `i`, or -1.
pub open spec fn next_newline_char(x: Seq<char>, i: int) -> int
    decreases x.len() - i,
{
    if i < 0 || i >= x.len() {
        -1
    } else if x[i] == '\n' {
        i
    } else {
        next_newline_char(x, i + 1)
    }
}

/// The lines of `x` from `start` on, cut at every real newline.
pub open spec fn lines_from(x: Seq<char>, start: int) -> Seq<Seq<char>>
    decreases x.len() - start,
{
    if start < 0 || start > x.len() {
        Seq::empty()
    } else {
        let k = next_newline_char(x, start);
        proof {
            lemma_next_newline_char_props(x, start);
        }
        if k < start {
            seq![x.subrange(start, x.len() as int)]
        } else {
            seq![x.subrange(start, k)] + lines_from(x, k + 1)
        }
    }
}

/// The lines of `x`, as `str::split('\n')` gives them.
pub open spec fn text_lines(x: Seq<char>) -> Seq<Seq<char>> {
    lines_from(x, 0)
}

/// `s` holds no escaped `\n` (a backslash followed by `n`).
pub open spec fn no_escaped_newline(s: Seq<char>) -> bool {
    forall|j: int| 0 <= j && j + 1 < s.len() ==> !(#[trigger] s[j] == '\\' && s[j + 1] == 'n')
}

pub proof fn lemma_next_newline_char_props(x: Seq<char>, i: int)
    requires
        0 <= i,
    ensures
        next_newline_char(x, i) == -1 || (i <= next_newline_char(x, i) < x.len() && x[next_newline_char(
            x,
            i,
        )] == '\n'),
        forall|j: int|
            i <= j < (if next_newline_char(x, i) >= 0 {
                next_newline_char(x, i)
            } else {
                x.len() as int
            }) ==> #[trigger] x[j] != '\n',
    decreases x.len() - i,
{
    if i < x.len() && x[i] != '\n' {
        lemma_next_newline_char_props(x, i + 1);
    }
}

proof fn lemma_next_sep_is_newline(s: Seq<char>, i: int)
    requires
        0 <= i,
        no_escaped_newline(s),
    ensures
        next_sep(s, i) == next_newline_char(s, i),
    decreases s.len() - i,
{
    if i < s.len() {
        if i + 1 < s.len() {
            assert(!(s[i] == '\\' && s[i + 1] == 'n'));
        }
        lemma_next_sep_is_newline(s, i + 1);
    }
}

proof fn lemma_lines_from_shift(x: Seq<char>, y: Seq<char>, j: int)
    requires
        0 <= j <= y.len(),
    ensures
        lines_from(x + y, x.len() + j) == lines_from(y, j),
    decreases y.len() - j,
{
    let s = x + y;
    let i = x.len() + j;
    lemma_next_newline_char_shift(x, y, j);
    lemma_next_newline_char_props(y, j);
    let k = next_newline_char(y, j);
    if k < 0 {
        assert(s.subrange(i, s.len() as int) =~= y.subrange(j, y.len() as int));
    } else {
        assert(s.subrange(i, k + x.len()) =~= y.subrange(j, k));
        lemma_lines_from_shift(x, y, k + 1);
    }
}

proof fn lemma_next_newline_char_shift(x: Seq<char>, y: Seq<char>, j: int)
    requires
        0 <= j <= y.len(),
    ensures
        next_newline_char(x + y, x.len() + j) == (if next_newline_char(y, j) < 0 {
            -1
        } else {
            next_newline_char(y, j) + x.len()
        }),
    decreases y.len() - j,
{
    if j < y.len() {
        assert((x + y)[x.len() + j] == y[j]);
        lemma_next_newline_char_shift(x, y, j + 1);
    }
}

/// A reshaped line holds no newline.
proof fn lemma_reshape_line_newline_free(p: Seq<char>)
    requires
        spec_reshape_line(p) is Some,
    ensures
        forall|i: int|
            0 <= i < spec_reshape_line(p)->0.len() ==> #[trigger] spec_reshape_line(p)->0[i]
                != '\n',
{
    let o = spec_reshape_line(p)->0;
    if p.len() > 0 {
        let v = spec_visual(spec_shape(p))->0;
        law_normalize_tidy(v);
        assert forall|i: int| 0 <= i < o.len() implies #[trigger] o[i] != '\n' by {
            if o[i] == '\n' {
                assert(spec_is_white_space(o[i]));
            }
        }
    }
}

proof fn lemma_piece_is_line(s: Seq<char>, start: int, end: int)
    requires
        0 <= start <= end <= s.len(),
        forall|j: int| start <= j < end ==> #[trigger] s[j] != '\n',
        no_escaped_newline(s),
    ensures
        next_sep(s.subrange(start, end), 0) == -1,
{
    let piece = s.subrange(start, end);
    lemma_next_sep_props(piece, 0);
    let k = next_sep(piece, 0);
    if k >= 0 {
        assert(piece[k] == s[start + k]);
        if k + 1 < piece.len() {
            assert(piece[k + 1] == s[start + k + 1]);
        }
    }
}

proof fn lemma_line_alone(r: Seq<char>)
    requires
        forall|i: int| 0 <= i < r.len() ==> #[trigger] r[i] != '\n',
    ensures
        lines_from(r, 0) == seq![r],
{
    lemma_next_newline_char_props(r, 0);
    assert(r.subrange(0, r.len() as int) =~= r);
}

proof fn lemma_pieces_lines(s: Seq<char>, start: int)
    requires
        0 <= start <= s.len(),
        no_escaped_newline(s),
        reshape_pieces(s, start) is Some,
    ensures
        lines_from(reshape_pieces(s, start)->0, 0).len() == lines_from(s, start).len(),
        forall|i: int|
            0 <= i < lines_from(s, start).len() ==> (#[trigger] lines_from(
                reshape_pieces(s, start)->0,
                0,
            )[i].len() == 0 <==> all_chars(lines_from(s, start)[i], white_space())),
    decreases s.len() - start,
{
    lemma_next_sep_is_newline(s, start);
    lemma_next_newline_char_props(s, start);
    lemma_next_sep_props(s, start);
    let k = next_sep(s, start);
    let o = reshape_pieces(s, start)->0;
    let end = if k < 0 {
        s.len() as int
    } else {
        k
    };
    let piece = s.subrange(start, end);
    lemma_piece_is_line(s, start, end);
    law_blank_lines(piece);
    let a = spec_reshape_line(piece)->0;
    lemma_reshape_line_newline_free(piece);
    if k < 0 {
        assert(o == a);
        lemma_line_alone(a);
        assert(lines_from(s, start) == seq![piece]);
    } else {
        assert(s[k] == '\n');
        assert(sep_len_at(s, k) == 1);
        let b = reshape_pieces(s, k + 1)->0;
        assert(o == a + seq!['\n'] + b);
        lemma_pieces_lines(s, k + 1);
        let ls = lines_from(s, k + 1);
        assert(lines_from(s, start) == seq![piece] + ls);
        lemma_next_newline_char_props(o, 0);
        assert(o[a.len() as int] == '\n');
        assert forall|j: int| 0 <= j < a.len() implies #[trigger] o[j] != '\n' by {
            assert(o[j] == a[j]);
        }
        assert(next_newline_char(o, 0) == a.len());
        assert(o.subrange(0, a.len() as int) =~= a);
        assert(o =~= (a + seq!['\n']) + b);
        lemma_lines_from_shift(a + seq!['\n'], b, 0);
        let lo = lines_from(o, 0);
        assert(lo == seq![a] + lines_from(b, 0));
        assert forall|i: int| 0 <= i < lines_from(s, start).len() implies (#[trigger] lo[i].len()
            == 0 <==> all_chars(lines_from(s, start)[i], white_space())) by {
            if i > 0 {
                assert(lo[i] == lines_from(b, 0)[i - 1]);
                assert(lines_from(s, start)[i] == ls[i - 1]);
            }
        }
    }
}

/// Without escaped newlines, a text with an Arabic letter reshapes to as
/// many lines as it has, and a line comes out empty exactly when it was
/// blank (white space only).
pub proof fn law_lines_match(s: Seq<char>)
    requires
        no_escaped_newline(s),
        has_arabic_letter(s),
        spec_reshape(s) is Some,
    ensures
        text_lines(spec_reshape(s)->0).len() == text_lines(s).len(),
        forall|i: int|
            0 <= i < text_lines(s).len() ==> (#[trigger] text_lines(spec_reshape(s)->0)[i].len()
                == 0 <==> all_chars(text_lines(s)[i], white_space())),
{
    lemma_pieces_lines(s, 0);
}

/// The form table follows the order of Arabic Presentation Forms-B: for a
/// letter whose isolated form is U+X, the final form is U+X+1 (Hamza, which
/// has one form only, aside); a letter that joins the next one has its
/// initial form at U+X+2 and its medial form at U+X+3, and a letter that
/// does not uses its isolated and final forms in those places. The
/// Lam-Alef ligatures likewise have their final form right after the
/// isolated one.
pub proof fn law_form_table_order(c: char)
    ensures
        spec_arabic_form(c) matches Some((iso, fin, ini, med, joins)) ==> {
            &&& 0xFE80 <= iso as u32 <= 0xFEF1
            &&& (c == 'ء' ==> fin == iso && ini == iso && med == iso && !joins)
            &&& (c != 'ء' ==> fin as u32 == iso as u32 + 1)
            &&& (joins ==> ini as u32 == iso as u32 + 2 && med as u32 == iso as u32 + 3)
            &&& (!joins ==> ini == iso && med == fin)
        },
        spec_lam_alef(c) matches Some((iso, fin)) ==> fin as u32 == iso as u32 + 1 && 0xFEF5
            <= iso as u32 <= 0xFEFB,
{
}

proof fn lemma_shape_lam_alef_at(p: Seq<char>, alef: char, q: Seq<char>, i: int)
    requires
        spec_lam_alef(alef) is Some,
        no_lam_alef_pair(p),
        0 <= i <= p.len(),
    ensures
        shape_from(p + seq!['ل', alef] + q, i).len() > p.len() - i,
        shape_from(p + seq!['ل', alef] + q, i)[p.len() - i] == ligature_at(
            p + seq!['ل', alef] + q,
            p.len() as int,
        )->0,
    decreases p.len() - i,
{
    let s = p + seq!['ل', alef] + q;
    let n = p.len() as int;
    if i == n {
        assert(s[n] == 'ل');
        assert(s[n + 1] == alef);
        assert(ligature_at(s, n) is Some);
    } else {
        lemma_shape_lam_alef_at(p, alef, q, i + 1);
        assert(s[i] == p[i]);
        if s[i] == 'ل' {
            if i + 1 < n {
                assert(s[i + 1] == p[i + 1]);
                assert(!(p[i] == 'ل' && spec_lam_alef(p[i + 1]) is Some));
            } else {
                assert(s[i + 1] == 'ل');
            }
        }
        assert(ligature_at(s, i) is None);
        let r = shape_from(s, i + 1);
        assert(shape_from(s, i) == seq![letter_form(s, i)] + r);
        assert(shape_from(s, i)[n - i] == r[n - i - 1]);
    }
}

/// A Lam followed by an alef becomes the Lam-Alef ligature wherever it
/// stands (with no Lam-Alef pair before it, the ligature is the character
/// at the Lam's place): in its final form exactly when the nearest letter
/// before the Lam that is not a diacritic joins to the left, and in its
/// isolated form otherwise; at the start of the text always isolated.
pub proof fn law_lam_alef_anywhere(p: Seq<char>, alef: char, q: Seq<char>)
    requires
        spec_lam_alef(alef) is Some,
        no_lam_alef_pair(p),
    ensures
        spec_shape(p + seq!['ل', alef] + q).len() > p.len(),
        spec_shape(p + seq!['ل', alef] + q)[p.len() as int] == (if prev_base_connects(
            p,
            p.len() as int,
        ) {
            spec_lam_alef(alef).unwrap().1
        } else {
            spec_lam_alef(alef).unwrap().0
        }),
        p.len() == 0 ==> spec_shape(p + seq!['ل', alef] + q)[0] == spec_lam_alef(alef).unwrap().0,
        p.len() > 0 && !spec_is_diacritic(p.last()) ==> spec_shape(p + seq!['ل', alef] + q)[p.len() as int] == (if spec_connects_to_left(p.last()) {
            spec_lam_alef(alef).unwrap().1
        } else {
            spec_lam_alef(alef).unwrap().0
        }),
{
    let s = p + seq!['ل', alef] + q;
    lemma_shape_lam_alef_at(p, alef, q, 0);
    lemma_prev_base_connects_prefix(p, seq!['ل', alef] + q, p.len() as int);
    assert(s =~= p + (seq!['ل', alef] + q));
    assert(s[p.len() as int] == 'ل');
    assert(s[p.len() as int + 1] == alef);
}

/// Every digit from 1 to 9 makes a step marker: a text that ends (trailing
/// white space aside) in the digit and `)`, with no digit right before that
/// digit, post-processes to a text that starts with the digit and `)`.
pub proof fn law_every_step_marker_moves_first(x: Seq<char>, d: char, ws: Seq<char>)
    requires
        0x31 <= d as u32 <= 0x39,
        x.len() > 0 ==> !(0x30 <= x.last() as u32 <= 0x39),
        all_chars(ws, white_space()),
    ensures
        spec_normalize(x + seq![d, ')'] + ws).len() >= 2,
        spec_normalize(x + seq![d, ')'] + ws)[0] == d,
        spec_normalize(x + seq![d, ')'] + ws)[1] == ')',
{
    let t = x + seq![d, ')'];
    let s = t + ws;
    let n = s.len() as int;
    assert forall|j: int| t.len() <= j < n implies #[trigger] spec_is_white_space(s[j]) by {
        assert(s[j] == ws[j - t.len()]);
        assert(white_space()(ws[j - t.len()]));
    }
    assert(s[t.len() - 1] == ')');
    lemma_trailing_cut_to(s, n, t.len() as int);
    assert(s.take(t.len() as int) =~= t);
    assert(spec_trim_end(s) == t);
    assert(t.last() == ')');
    assert(t[t.len() - 2] == d);
    if t.len() >= 3 {
        assert(t[t.len() - 3] == x.last());
    }
    assert(step_marker(t) == Some(d));
}

proof fn lemma_trailing_cut_to(s: Seq<char>, n: int, m: int)
    requires
        0 < m <= n <= s.len(),
        !spec_is_white_space(s[m - 1]),
        forall|j: int| m <= j < n ==> #[trigger] spec_is_white_space(s[j]),
    ensures
        trailing_cut(s, n) == m,
    decreases n,
{
    if n > m {
        assert(spec_is_white_space(s[n - 1]));
        lemma_trailing_cut_to(s, n - 1, m);
    }
}

/// The isolated forms follow the order of the letters: of two base letters,
/// the one later in Unicode has the later isolated form.
#[verifier::rlimit(50)]
pub proof fn law_isolated_forms_in_letter_order(c1: char, c2: char)
    ensures
        spec_arabic_form(c1) is Some && spec_arabic_form(c2) is Some && (c1 as u32) < (c2 as u32)
            ==> (spec_arabic_form(c1).unwrap().0 as u32) < (spec_arabic_form(c2).unwrap().0 as u32),
{
}

/// The Lam-Alef ligatures follow the order of their alef variants: the
/// later alef in Unicode has the later ligature.
pub proof fn law_lam_alef_in_alef_order(a1: char, a2: char)
    ensures
        spec_lam_alef(a1) is Some && spec_lam_alef(a2) is Some && (a1 as u32) < (a2 as u32) ==> (
        spec_lam_alef(a1).unwrap().0 as u32) < (spec_lam_alef(a2).unwrap().0 as u32),
{
}
} // verus!
