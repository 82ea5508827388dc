//! Splitting a line of shaped text into the runs that visual reordering moves
//! as units: protected game tags, left-to-right runs, right-to-left runs,
//! neutral runs and line breaks.
use vstd::prelude::*;
use crate::char_class::{
    char_is_alphanumeric, is_ascii, is_ascii_alnum, is_ascii_punct, is_white_space,
    spec_is_ascii, spec_is_ascii_alnum, spec_is_ascii_punct, spec_is_white_space,
    unicode_alphanumeric,
};
use crate::detection::{
    is_arabic_char, is_arabic_numeral, is_bidi_mark, spec_is_arabic_char, spec_is_arabic_numeral,
    spec_is_bidi_mark,
};

verus! {

/// What a run of text is, for reordering.
#[derive(Clone, Copy, PartialEq, Eq, Structural, Debug)]
pub enum TokenKind {
    /// A protected piece: a balanced `{…}`, `<…>` or `[…]` tag, an XML
    /// entity such as `&quot;`, or a backslash escape other than `\n`.
    Tag,
    /// Text kept in logical order: ASCII words, numbers, quoted ASCII spans.
    Ltr,
    /// Text holding Arabic letters, reversed character by character.
    Rtl,
    /// White space, punctuation and other characters with no direction.
    Neutral,
    /// A line break: a real newline or an escaped `\n`.
    Newline,
}

/// A run of the input, `start..end` in character positions.
#[derive(Clone, Copy)]
pub struct Span {
    pub kind: TokenKind,
    pub start: usize,
    pub end: usize,
}

/// The mathematical form of a `Span`.
pub struct TokenSpan {
    pub kind: TokenKind,
    pub start: int,
    pub end: int,
}

impl View for Span {
    type V = TokenSpan;

    open spec fn view(&self) -> TokenSpan {
        TokenSpan { kind: self.kind, start: self.start as int, end: self.end as int }
    }
}

pub open spec fn spans_view(v: Seq<Span>) -> Seq<TokenSpan> {
    v.map_values(|t: Span| t@)
}

// ---------------------------------------------------------------------------
// Readers: where each kind of protected run ends.

pub open spec fn is_tag_open(c: char) -> bool {
    c == '{' || c == '<' || c == '['
}

pub open spec fn tag_close(open: char) -> char {
    if open == '{' {
        '}'
    } else if open == '<' {
        '>'
    } else {
        ']'
    }
}

/// End of a balanced tag read from position `j` with `depth` openers still
/// unclosed: openers nest, a closer that brings the depth to zero ends the
/// tag (just after it), and an unclosed tag runs to the end of the text.
pub open spec fn balanced_end(s: Seq<char>, j: int, depth: int, open: char, close: char) -> int
    decreases s.len() - j,
{
    if j < 0 || j >= s.len() {
        s.len() as int
    } else if s[j] == open {
        balanced_end(s, j + 1, depth + 1, open, close)
    } else if s[j] == close {
        if depth <= 1 {
            j + 1
        } else {
            balanced_end(s, j + 1, depth - 1, open, close)
        }
    } else {
        balanced_end(s, j + 1, depth, open, close)
    }
}

pub proof fn lemma_balanced_end_bounds(s: Seq<char>, j: int, depth: int, open: char, close: char)
    requires
        0 <= j <= s.len(),
    ensures
        balanced_end(s, j, depth, open, close) <= s.len(),
        j < s.len() ==> j < balanced_end(s, j, depth, open, close),
    decreases s.len() - j,
{
    if j < s.len() {
        if s[j] == open {
            lemma_balanced_end_bounds(s, j + 1, depth + 1, open, close);
        } else if s[j] == close {
            if depth > 1 {
                lemma_balanced_end_bounds(s, j + 1, depth - 1, open, close);
            }
        } else {
            lemma_balanced_end_bounds(s, j + 1, depth, open, close);
        }
    }
}

/// Characters allowed inside an XML entity.
pub open spec fn entity_char(c: char) -> bool {
    spec_is_ascii_alnum(c) || c == '#' || c == 'x' || c == 'X' || c == ';'
}

/// End of an XML entity that starts with `&` at `p`, scanning from `j`: the
/// first `;` closes it, as long as it is among the first 13 characters and
/// every character before it is an entity character.
pub open spec fn entity_end(s: Seq<char>, p: int, j: int) -> Option<int>
    decreases s.len() - j,
{
    if j < 0 || j >= s.len() {
        None
    } else if s[j] == ';' {
        Some(j + 1)
    } else if j - p + 1 > 12 {
        None
    } else if !entity_char(s[j]) {
        None
    } else {
        entity_end(s, p, j + 1)
    }
}

pub proof fn lemma_entity_end_bounds(s: Seq<char>, p: int, j: int)
    ensures
        entity_end(s, p, j) matches Some(e) ==> 0 <= j < e <= s.len(),
    decreases s.len() - j,
{
    if 0 <= j < s.len() && s[j] != ';' && j - p + 1 <= 12 && entity_char(s[j]) {
        lemma_entity_end_bounds(s, p, j + 1);
    }
}

/// A backslash escape `\n`, `\t`, `\r` or `\\` starts at `p`.
pub open spec fn escape_at(s: Seq<char>, p: int) -> bool {
    0 <= p && p + 1 < s.len() && s[p] == '\\' && (s[p + 1] == 'n' || s[p + 1] == 't' || s[p + 1]
        == 'r' || s[p + 1] == '\\')
}

/// Position of the closing `"` of a quoted span scanned from `j`, provided
/// every character before it is ASCII.
pub open spec fn quote_close(s: Seq<char>, j: int) -> Option<int>
    decreases s.len() - j,
{
    if j < 0 || j >= s.len() {
        None
    } else if s[j] == '"' {
        Some(j)
    } else if !spec_is_ascii(s[j]) {
        None
    } else {
        quote_close(s, j + 1)
    }
}

pub proof fn lemma_quote_close_bounds(s: Seq<char>, j: int)
    ensures
        quote_close(s, j) matches Some(q) ==> 0 <= j <= q < s.len() && s[q] == '"',
    decreases s.len() - j,
{
    if 0 <= j < s.len() && s[j] != '"' && spec_is_ascii(s[j]) {
        lemma_quote_close_bounds(s, j + 1);
    }
}

/// End of a quoted ASCII span opening at `p`: a `"`, at least one ASCII
/// character, and the closing `"`.
pub open spec fn quoted_end(s: Seq<char>, p: int) -> Option<int> {
    if 0 <= p < s.len() && s[p] == '"' {
        match quote_close(s, p + 1) {
            Some(q) => if q > p + 1 {
                Some(q + 1)
            } else {
                None
            },
            None => None,
        }
    } else {
        None
    }
}

/// Characters that open a left-to-right run.
pub open spec fn ltr_start(c: char) -> bool {
    spec_is_ascii_alnum(c) || spec_is_arabic_numeral(c) || c == '"' || c == '\'' || c == '-' || c
        == '+' || c == '/' || c == '_' || c == '.' || c == ':' || c == '%'
}

pub open spec fn is_bracket(c: char) -> bool {
    c == '{' || c == '}' || c == '<' || c == '>' || c == '[' || c == ']'
}

/// Characters that continue a left-to-right run: ASCII, white space and
/// Arabic numerals, brackets and newlines excepted (a newline ends the line).
pub open spec fn ltr_continues(c: char) -> bool {
    !is_bracket(c) && c != '\n' && (spec_is_ascii(c) || spec_is_white_space(c)
        || spec_is_arabic_numeral(c))
}

pub open spec fn ltr_run_end(s: Seq<char>, j: int) -> int
    decreases s.len() - j,
{
    if j < 0 || j >= s.len() || !ltr_continues(s[j]) {
        j
    } else {
        ltr_run_end(s, j + 1)
    }
}

pub proof fn lemma_ltr_run_end_bounds(s: Seq<char>, j: int)
    requires
        0 <= j <= s.len(),
    ensures
        j <= ltr_run_end(s, j) <= s.len(),
        j < s.len() && ltr_continues(s[j]) ==> j < ltr_run_end(s, j),
    decreases s.len() - j,
{
    if j < s.len() && ltr_continues(s[j]) {
        lemma_ltr_run_end_bounds(s, j + 1);
    }
}

/// Characters that end a neutral run before anything else is looked at
/// (a newline ends the line).
pub open spec fn neutral_stop(c: char) -> bool {
    c == '{' || c == '<' || c == '[' || c == '&' || c == '\\' || c == '"' || c == '\n'
}

pub open spec fn neutral_continues(c: char) -> bool {
    !neutral_stop(c) && (spec_is_white_space(c) || spec_is_ascii_punct(c))
}

pub open spec fn neutral_end(s: Seq<char>, j: int) -> int
    decreases s.len() - j,
{
    if j < 0 || j >= s.len() || !neutral_continues(s[j]) {
        j
    } else {
        neutral_end(s, j + 1)
    }
}

pub proof fn lemma_neutral_end_bounds(s: Seq<char>, j: int)
    requires
        0 <= j <= s.len(),
    ensures
        j <= neutral_end(s, j) <= s.len(),
        j < s.len() && neutral_continues(s[j]) ==> j < neutral_end(s, j),
    decreases s.len() - j,
{
    if j < s.len() && neutral_continues(s[j]) {
        lemma_neutral_end_bounds(s, j + 1);
    }
}

// ---------------------------------------------------------------------------
// Classifying the pending run of letters and other characters.

/// The kind of a pending run, given for each of its characters whether it is
/// alphanumeric: right-to-left when it holds an Arabic letter; otherwise
/// neutral when every character is white space, a bidi mark, or neither
/// alphanumeric nor Arabic; otherwise left-to-right.
pub open spec fn kind_of_run(run: Seq<char>, alnum: Seq<bool>) -> TokenKind {
    if exists|i: int| 0 <= i < run.len() && #[trigger] spec_is_arabic_char(run[i]) {
        TokenKind::Rtl
    } else if forall|i: int|
        0 <= i < run.len() ==> #[trigger] spec_is_white_space(run[i]) || spec_is_bidi_mark(run[i])
            || (!alnum[i] && !spec_is_arabic_char(run[i])) {
        TokenKind::Neutral
    } else {
        TokenKind::Ltr
    }
}

/// The kind of a pending run, alphanumeric meaning `char::is_alphanumeric`.
pub open spec fn run_kind(run: Seq<char>) -> TokenKind {
    kind_of_run(run, run.map_values(|c: char| unicode_alphanumeric(c)))
}

/// Classifies a pending run, `alnum[i]` telling whether `run[i]` is
/// alphanumeric (see `kind_of_run`).
pub fn classify_run(run: &Vec<char>, alnum: &Vec<bool>) -> (k: TokenKind)
    requires
        alnum@.len() == run@.len(),
    ensures
        k == kind_of_run(run@, alnum@),
{
    let n: usize = run.len();
    for i in 0..n
        invariant
            n == run@.len(),
            forall|k: int| 0 <= k < i ==> !spec_is_arabic_char(#[trigger] run@[k]),
    {
        if is_arabic_char(run[i]) {
            return TokenKind::Rtl;
        }
    }
    for i in 0..n
        invariant
            n == run@.len(),
            alnum@.len() == n,
            forall|k: int| 0 <= k < n ==> !spec_is_arabic_char(#[trigger] run@[k]),
            forall|k: int|
                0 <= k < i ==> #[trigger] spec_is_white_space(run@[k]) || spec_is_bidi_mark(run@[k])
                    || (!alnum@[k] && !spec_is_arabic_char(run@[k])),
    {
        let c: char = run[i];
        if !(is_white_space(c) || is_bidi_mark(c) || (!alnum[i] && !is_arabic_char(c))) {
            assert(!(spec_is_white_space(run@[i as int]) || spec_is_bidi_mark(run@[i as int]) || (
            !alnum@[i as int] && !spec_is_arabic_char(run@[i as int]))));
            return TokenKind::Ltr;
        }
    }
    TokenKind::Neutral
}

// ---------------------------------------------------------------------------
// The tokenizer.

/// The pending run `b..p`, if it is not empty, as one token.
pub open spec fn flush(s: Seq<char>, b: int, p: int) -> Seq<TokenSpan> {
    if b < p {
        seq![TokenSpan { kind: run_kind(s.subrange(b, p)), start: b, end: p }]
    } else {
        Seq::empty()
    }
}

/// `prefix` followed by the tokens of `rest`, when there are any.
pub open spec fn cons_tokens(prefix: Seq<TokenSpan>, rest: Option<Seq<TokenSpan>>) -> Option<
    Seq<TokenSpan>,
> {
    match rest {
        Some(t) => Some(prefix + t),
        None => None,
    }
}

/// The tokens of `s` from position `p`, with the pending run of Arabic
/// letters, bidi marks and other characters starting at `b`. At each
/// position, in this order: a bracket opens a balanced tag; `&` an XML
/// entity; `\` an escape (a line break for `\n`); a newline is a line break;
/// Arabic letters and bidi marks join the pending run; `"` opens a quoted
/// ASCII span; a left-to-right starter opens a left-to-right run; white space
/// or ASCII punctuation opens a neutral run; anything else joins the pending
/// run. The pending run is flushed before every token read. `None` when a
/// neutral run would be empty (an `&` that opens no entity or a `\` that
/// opens no escape, where nothing is consumed): there the scan never ends.
pub open spec fn scan(s: Seq<char>, p: int, b: int) -> Option<Seq<TokenSpan>>
    decreases s.len() - p,
{
    if p < 0 || p >= s.len() {
        Some(flush(s, b, p))
    } else {
        let c = s[p];
        if is_tag_open(c) {
            let e = balanced_end(s, p, 0, c, tag_close(c));
            proof {
                lemma_balanced_end_bounds(s, p, 0, c, tag_close(c));
            }
            cons_tokens(
                flush(s, b, p).push(TokenSpan { kind: TokenKind::Tag, start: p, end: e }),
                scan(s, e, e),
            )
        } else if c == '&' && entity_end(s, p, p + 1) is Some {
            let e = entity_end(s, p, p + 1)->0;
            proof {
                lemma_entity_end_bounds(s, p, p + 1);
            }
            cons_tokens(
                flush(s, b, p).push(TokenSpan { kind: TokenKind::Tag, start: p, end: e }),
                scan(s, e, e),
            )
        } else if c == '\\' && escape_at(s, p) {
            let k = if s[p + 1] == 'n' {
                TokenKind::Newline
            } else {
                TokenKind::Tag
            };
            cons_tokens(
                flush(s, b, p).push(TokenSpan { kind: k, start: p, end: p + 2 }),
                scan(s, p + 2, p + 2),
            )
        } else if c == '\n' {
            cons_tokens(
                flush(s, b, p).push(TokenSpan { kind: TokenKind::Newline, start: p, end: p + 1 }),
                scan(s, p + 1, p + 1),
            )
        } else if spec_is_arabic_char(c) || spec_is_bidi_mark(c) {
            scan(s, p + 1, b)
        } else if c == '"' && quoted_end(s, p) is Some {
            let e = quoted_end(s, p)->0;
            proof {
                lemma_quote_close_bounds(s, p + 1);
            }
            cons_tokens(
                flush(s, b, p).push(TokenSpan { kind: TokenKind::Ltr, start: p, end: e }),
                scan(s, e, e),
            )
        } else if ltr_start(c) {
            let e = ltr_run_end(s, p);
            proof {
                lemma_ltr_run_end_bounds(s, p);
            }
            cons_tokens(
                flush(s, b, p).push(TokenSpan { kind: TokenKind::Ltr, start: p, end: e }),
                scan(s, e, e),
            )
        } else if spec_is_white_space(c) || spec_is_ascii_punct(c) {
            let e = neutral_end(s, p);
            proof {
                lemma_neutral_end_bounds(s, p);
            }
            if e == p {
                None
            } else {
                cons_tokens(
                    flush(s, b, p).push(TokenSpan { kind: TokenKind::Neutral, start: p, end: e }),
                    scan(s, e, e),
                )
            }
        } else {
            scan(s, p + 1, b)
        }
    }
}

/// The tokens of `s`, or `None` when tokenizing never ends.
pub open spec fn tokenize(s: Seq<char>) -> Option<Seq<TokenSpan>> {
    scan(s, 0, 0)
}


/// Every token lies within `0..n`.
pub open spec fn spans_within(ts: Seq<TokenSpan>, n: int) -> bool {
    forall|k: int| 0 <= k < ts.len() ==> 0 <= #[trigger] ts[k].start <= ts[k].end <= n
}

pub proof fn lemma_cons_tokens_assoc(a: Seq<TokenSpan>, x: Seq<TokenSpan>, y: Option<Seq<TokenSpan>>)
    ensures
        cons_tokens(a, cons_tokens(x, y)) == cons_tokens(a + x, y),
{
    if let Some(t) = y {
        assert((a + x) + t =~= a + (x + t));
    }
}

proof fn lemma_spans_view_push(v: Seq<Span>, t: Span)
    ensures
        spans_view(v.push(t)) == spans_view(v).push(t@),
{
    assert(spans_view(v.push(t)) =~= spans_view(v).push(t@));
}

// ---------------------------------------------------------------------------
// Executable readers.

fn read_balanced(v: &Vec<char>, p: usize, open: char, close: char) -> (e: usize)
    requires
        p < v@.len(),
    ensures
        e == balanced_end(v@, p as int, 0, open, close),
        p < e <= v@.len(),
{
    proof {
        lemma_balanced_end_bounds(v@, p as int, 0, open, close);
    }
    let n: usize = v.len();
    let mut j: usize = p;
    let mut depth: usize = 0;
    while j < n
        invariant
            n == v@.len(),
            p <= j <= n,
            depth <= j - p,
            balanced_end(v@, j as int, depth as int, open, close) == balanced_end(
                v@,
                p as int,
                0,
                open,
                close,
            ),
        decreases n - j,
    {
        let c: char = v[j];
        if c == open {
            depth += 1;
            j += 1;
        } else if c == close {
            if depth <= 1 {
                return j + 1;
            }
            depth -= 1;
            j += 1;
        } else {
            j += 1;
        }
    }
    n
}

fn is_entity_char(c: char) -> (r: bool)
    ensures
        r == entity_char(c),
{
    is_ascii_alnum(c) || c == '#' || c == 'x' || c == 'X' || c == ';'
}

fn read_entity(v: &Vec<char>, p: usize) -> (r: Option<usize>)
    requires
        p < v@.len(),
    ensures
        match r {
            Some(e) => entity_end(v@, p as int, p + 1) == Some(e as int),
            None => entity_end(v@, p as int, p + 1) is None,
        },
{
    let n: usize = v.len();
    let mut j: usize = p + 1;
    while j < n
        invariant
            n == v@.len(),
            p < j <= n,
            j - p <= 12,
            entity_end(v@, p as int, j as int) == entity_end(v@, p as int, p + 1),
        decreases n - j,
    {
        let c: char = v[j];
        if c == ';' {
            return Some(j + 1);
        }
        if j - p + 1 > 12 {
            return None;
        }
        if !is_entity_char(c) {
            return None;
        }
        j += 1;
    }
    None
}

fn read_quoted(v: &Vec<char>, p: usize) -> (r: Option<usize>)
    requires
        p < v@.len(),
    ensures
        match r {
            Some(e) => quoted_end(v@, p as int) == Some(e as int),
            None => quoted_end(v@, p as int) is None,
        },
{
    if v[p] != '"' {
        return None;
    }
    let n: usize = v.len();
    let mut j: usize = p + 1;
    while j < n
        invariant
            n == v@.len(),
            p < j <= n,
            v@[p as int] == '"',
            quote_close(v@, j as int) == quote_close(v@, p + 1),
        decreases n - j,
    {
        let c: char = v[j];
        if c == '"' {
            if j > p + 1 {
                return Some(j + 1);
            } else {
                return None;
            }
        }
        if !is_ascii(c) {
            return None;
        }
        j += 1;
    }
    None
}

fn is_ltr_start(c: char) -> (r: bool)
    ensures
        r == ltr_start(c),
{
    is_ascii_alnum(c) || is_arabic_numeral(c) || c == '"' || c == '\'' || c == '-' || c == '+'
        || c == '/' || c == '_' || c == '.' || c == ':' || c == '%'
}

fn read_ltr_run(v: &Vec<char>, p: usize) -> (e: usize)
    requires
        p <= v@.len(),
    ensures
        e == ltr_run_end(v@, p as int),
        p <= e <= v@.len(),
        p < v@.len() && ltr_continues(v@[p as int]) ==> p < e,
{
    proof {
        lemma_ltr_run_end_bounds(v@, p as int);
    }
    let n: usize = v.len();
    let mut j: usize = p;
    while j < n
        invariant
            n == v@.len(),
            p <= j <= n,
            ltr_run_end(v@, j as int) == ltr_run_end(v@, p as int),
        decreases n - j,
    {
        let c: char = v[j];
        let bracket: bool = c == '{' || c == '}' || c == '<' || c == '>' || c == '[' || c == ']';
        if bracket || c == '\n' || !(is_ascii(c) || is_white_space(c) || is_arabic_numeral(c)) {
            return j;
        }
        j += 1;
    }
    n
}

fn read_neutral(v: &Vec<char>, p: usize) -> (e: usize)
    requires
        p <= v@.len(),
    ensures
        e == neutral_end(v@, p as int),
        p <= e <= v@.len(),
{
    proof {
        lemma_neutral_end_bounds(v@, p as int);
    }
    let n: usize = v.len();
    let mut j: usize = p;
    while j < n
        invariant
            n == v@.len(),
            p <= j <= n,
            neutral_end(v@, j as int) == neutral_end(v@, p as int),
        decreases n - j,
    {
        let c: char = v[j];
        let stop: bool = c == '{' || c == '<' || c == '[' || c == '&' || c == '\\' || c == '"'
            || c == '\n';
        if stop || !(is_white_space(c) || is_ascii_punct(c)) {
            return j;
        }
        j += 1;
    }
    n
}

/// Appends the pending run `b..p`, if it is not empty, as one token.
fn flush_run(v: &Vec<char>, b: usize, p: usize, tokens: &mut Vec<Span>)
    requires
        b <= p <= v@.len(),
    ensures
        spans_view(final(tokens)@) == spans_view(old(tokens)@) + flush(v@, b as int, p as int),
        spans_within(spans_view(old(tokens)@), v@.len() as int) ==> spans_within(
            spans_view(final(tokens)@),
            v@.len() as int,
        ),
{
    if b < p {
        let mut run: Vec<char> = Vec::new();
        let mut alnum: Vec<bool> = Vec::new();
        for k in b..p
            invariant
                b <= p <= v@.len(),
                run@ == v@.subrange(b as int, k as int),
                alnum@ == run@.map_values(|c: char| unicode_alphanumeric(c)),
        {
            let c: char = v[k];
            run.push(c);
            alnum.push(char_is_alphanumeric(c));
            assert(run@ =~= v@.subrange(b as int, k + 1));
            assert(alnum@ =~= run@.map_values(|c: char| unicode_alphanumeric(c)));
        }
        let kind: TokenKind = classify_run(&run, &alnum);
        let t: Span = Span { kind, start: b, end: p };
        proof {
            lemma_spans_view_push(tokens@, t);
        }
        tokens.push(t);
        assert(spans_view(tokens@) =~= spans_view(old(tokens)@) + flush(v@, b as int, p as int));
    } else {
        assert(spans_view(tokens@) =~= spans_view(old(tokens)@) + flush(v@, b as int, p as int));
    }
}

/// Appends the pending run `b..p` and then the token `kind` over `p..e`.
fn emit(v: &Vec<char>, b: usize, p: usize, kind: TokenKind, e: usize, tokens: &mut Vec<Span>)
    requires
        b <= p <= e <= v@.len(),
    ensures
        spans_view(final(tokens)@) == spans_view(old(tokens)@) + flush(v@, b as int, p as int).push(
            TokenSpan { kind, start: p as int, end: e as int },
        ),
        spans_within(spans_view(old(tokens)@), v@.len() as int) ==> spans_within(
            spans_view(final(tokens)@),
            v@.len() as int,
        ),
{
    flush_run(v, b, p, tokens);
    let t: Span = Span { kind, start: p, end: e };
    proof {
        lemma_spans_view_push(tokens@, t);
    }
    tokens.push(t);
    assert(spans_view(tokens@) =~= spans_view(old(tokens)@) + flush(v@, b as int, p as int).push(
        TokenSpan { kind, start: p as int, end: e as int },
    ));
}

/// Tokenizes `v` (see `scan`); `None` exactly when the scan never ends.
pub fn tokenize_chars(v: &Vec<char>) -> (r: Option<Vec<Span>>)
    ensures
        match r {
            Some(ts) => tokenize(v@) == Some(spans_view(ts@)) && spans_within(
                spans_view(ts@),
                v@.len() as int,
            ),
            None => tokenize(v@) is None,
        },
{
    let n: usize = v.len();
    let mut tokens: Vec<Span> = Vec::new();
    let mut p: usize = 0;
    let mut b: usize = 0;
    assert(spans_view(tokens@) =~= Seq::<TokenSpan>::empty());
    assert(tokenize(v@) == cons_tokens(spans_view(tokens@), scan(v@, p as int, b as int))) by {
        lemma_cons_tokens_assoc(Seq::empty(), Seq::empty(), scan(v@, 0, 0));
        if let Some(t) = scan(v@, 0, 0) {
            assert(Seq::<TokenSpan>::empty() + t =~= t);
        }
    }
    while p < n
        invariant
            n == v@.len(),
            b <= p <= n,
            tokenize(v@) == cons_tokens(spans_view(tokens@), scan(v@, p as int, b as int)),
            spans_within(spans_view(tokens@), n as int),
        decreases n - p,
    {
        let ghost old_tokens = spans_view(tokens@);
        let c: char = v[p];
        if c == '{' || c == '<' || c == '[' {
            let close: char = if c == '{' {
                '}'
            } else if c == '<' {
                '>'
            } else {
                ']'
            };
            let e: usize = read_balanced(v, p, c, close);
            emit(v, b, p, TokenKind::Tag, e, &mut tokens);
            proof {
                lemma_cons_tokens_assoc(
                    old_tokens,
                    flush(v@, b as int, p as int).push(TokenSpan { kind: TokenKind::Tag, start: p as int, end: e as int }),
                    scan(v@, e as int, e as int),
                );
            }
            p = e;
            b = e;
            continue;
        }
        if c == '&' {
            if let Some(e) = read_entity(v, p) {
                proof {
                    lemma_entity_end_bounds(v@, p as int, p + 1);
                }
                emit(v, b, p, TokenKind::Tag, e, &mut tokens);
                proof {
                    lemma_cons_tokens_assoc(
                        old_tokens,
                        flush(v@, b as int, p as int).push(TokenSpan { kind: TokenKind::Tag, start: p as int, end: e as int }),
                        scan(v@, e as int, e as int),
                    );
                }
                p = e;
                b = e;
                continue;
            }
        }
        if c == '\\' && p + 1 < n {
            let d: char = v[p + 1];
            if d == 'n' || d == 't' || d == 'r' || d == '\\' {
                let kind: TokenKind = if d == 'n' {
                    TokenKind::Newline
                } else {
                    TokenKind::Tag
                };
                let e: usize = p + 2;
                emit(v, b, p, kind, e, &mut tokens);
                proof {
                    lemma_cons_tokens_assoc(
                        old_tokens,
                        flush(v@, b as int, p as int).push(TokenSpan { kind, start: p as int, end: e as int }),
                        scan(v@, e as int, e as int),
                    );
                }
                p = e;
                b = e;
                continue;
            }
        }
        if c == '\n' {
            let e: usize = p + 1;
            emit(v, b, p, TokenKind::Newline, e, &mut tokens);
            proof {
                lemma_cons_tokens_assoc(
                    old_tokens,
                    flush(v@, b as int, p as int).push(TokenSpan { kind: TokenKind::Newline, start: p as int, end: e as int }),
                    scan(v@, e as int, e as int),
                );
            }
            p = e;
            b = e;
            continue;
        }
        if is_arabic_char(c) || is_bidi_mark(c) {
            p += 1;
            continue;
        }
        if c == '"' {
            if let Some(e) = read_quoted(v, p) {
                proof {
                    lemma_quote_close_bounds(v@, p + 1);
                }
                emit(v, b, p, TokenKind::Ltr, e, &mut tokens);
                proof {
                    lemma_cons_tokens_assoc(
                        old_tokens,
                        flush(v@, b as int, p as int).push(TokenSpan { kind: TokenKind::Ltr, start: p as int, end: e as int }),
                        scan(v@, e as int, e as int),
                    );
                }
                p = e;
                b = e;
                continue;
            }
        }
        if is_ltr_start(c) {
            let e: usize = read_ltr_run(v, p);
            assert(ltr_continues(c));
            emit(v, b, p, TokenKind::Ltr, e, &mut tokens);
            proof {
                lemma_cons_tokens_assoc(
                    old_tokens,
                    flush(v@, b as int, p as int).push(TokenSpan { kind: TokenKind::Ltr, start: p as int, end: e as int }),
                    scan(v@, e as int, e as int),
                );
            }
            p = e;
            b = e;
            continue;
        }
        if is_white_space(c) || is_ascii_punct(c) {
            let e: usize = read_neutral(v, p);
            if e == p {
                return None;
            }
            emit(v, b, p, TokenKind::Neutral, e, &mut tokens);
            proof {
                lemma_cons_tokens_assoc(
                    old_tokens,
                    flush(v@, b as int, p as int).push(TokenSpan { kind: TokenKind::Neutral, start: p as int, end: e as int }),
                    scan(v@, e as int, e as int),
                );
            }
            p = e;
            b = e;
            continue;
        }
        p += 1;
    }
    let ghost old_tokens = spans_view(tokens@);
    flush_run(v, b, n, &mut tokens);
    proof {
        lemma_cons_tokens_assoc(old_tokens, flush(v@, b as int, n as int), Some(Seq::empty()));
        assert(flush(v@, b as int, n as int) + Seq::<TokenSpan>::empty() =~= flush(v@, b as int, n as int));
        assert(spans_view(tokens@) + Seq::<TokenSpan>::empty() =~= spans_view(tokens@));
    }
    Some(tokens)
}

} // verus!
