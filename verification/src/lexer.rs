//! Translation phases 2-3, approximately: line splices are joined and
//! comments become a space, while string, character and raw string literals
//! are respected. The result is a list of logical lines, each tagged with its
//! first physical line.
//!
//! The lexer is specified as a state machine over the source bytes:
//! [`lex_step`] consumes one token-sized piece of input, [`lex_from`] runs it
//! to the end, and [`logical_lines_spec`] is what [`logical_lines`] returns.

use crate::bytes::{bytes_eq, ends_with, find, find_byte, is_digit, is_digit_byte, is_ident, is_ident_byte, lemma_find_byte};
use vstd::prelude::*;

verus! {

/// Where the lexer stands with respect to comments and literals.
#[derive(Clone, Copy, PartialEq, Eq, Structural)]
pub enum State {
    Code,
    LineComment,
    BlockComment,
    Str,
    Char,
}

/// A logical line: the physical line it starts on and its text with
/// comments replaced.
pub struct Line {
    pub number: u32,
    pub text: Vec<u8>,
}

/// The lexer's state after some prefix of the input.
#[verifier::ext_equal]
pub struct LexState {
    /// Bytes consumed so far.
    pub i: nat,
    pub mode: State,
    /// Inside a pp-number, where `'` is a digit separator.
    pub in_number: bool,
    /// Text of the logical line being built.
    pub cur: Seq<u8>,
    /// Finished logical lines: first physical line and text.
    pub lines: Seq<(nat, Seq<u8>)>,
    /// Physical line the lexer is on.
    pub line_no: nat,
    /// Physical line the current logical line started on.
    pub start_line: nat,
}

pub open spec fn byte_at(src: Seq<u8>, k: int) -> Option<u8> {
    if 0 <= k < src.len() {
        Some(src[k])
    } else {
        None
    }
}

/// Length of a line splice (backslash then LF, or backslash then CR LF) at
/// `i`, or 0.
pub open spec fn splice_len(src: Seq<u8>, i: int) -> nat {
    if byte_at(src, i + 1) == Some(0x0au8) {
        2
    } else if byte_at(src, i + 1) == Some(0x0du8) && byte_at(src, i + 2) == Some(0x0au8) {
        3
    } else {
        0
    }
}

/// Closes the current logical line and moves to the next physical line.
pub open spec fn end_line(st: LexState) -> LexState {
    LexState {
        lines: st.lines.push((st.start_line, st.cur)),
        cur: Seq::empty(),
        line_no: st.line_no + 1,
        start_line: st.line_no + 1,
        ..st
    }
}

/// Copies the bytes of a raw string literal into the logical lines.
pub open spec fn absorb_raw(st: LexState, bytes: Seq<u8>) -> LexState
    decreases bytes.len(),
{
    if bytes.len() == 0 {
        st
    } else {
        let next = if bytes[0] == 0x0au8 {
            end_line(st)
        } else {
            LexState { cur: st.cur.push(bytes[0]), ..st }
        };
        absorb_raw(next, bytes.drop_first())
    }
}

/// First index at which `needle` occurs in `hay`.
pub open spec fn find_sub(hay: Seq<u8>, needle: Seq<u8>) -> Option<nat>
    decreases hay.len(),
{
    if hay.len() == 0 || hay.len() < needle.len() {
        None
    } else if hay.take(needle.len() as int) == needle {
        Some(0)
    } else {
        match find_sub(hay.drop_first(), needle) {
            Some(k) => Some(k + 1),
            None => None,
        }
    }
}

/// A byte that cannot appear in a raw string delimiter.
pub open spec fn bad_delim(c: u8) -> bool {
    c == 0x20u8 || c == 0x5cu8 || c == 0x29u8 || c == 0x0au8
}

/// No byte of `d` is barred from a raw string delimiter.
pub open spec fn clean_delim(d: Seq<u8>) -> bool {
    forall|k: int| 0 <= k < d.len() ==> !bad_delim(#[trigger] d[k])
}

/// Length of `"delim( ... )delim"` at the start of `s`: the delimiter is
/// what stands between the quote and a `(` among the first 18 bytes.
pub open spec fn raw_string_len_spec(s: Seq<u8>) -> Option<nat> {
    let head = if s.len() < 18 {
        s
    } else {
        s.take(18)
    };
    match find_byte(head, 0x28u8) {
        None => None,
        Some(open) => {
            let delim = s.subrange(1, open as int);
            if !clean_delim(delim) {
                None
            } else {
                let closing = seq![0x29u8] + delim + seq![0x22u8];
                match find_sub(s.skip(open + 1int), closing) {
                    None => None,
                    Some(pos) => Some(open + 1 + pos + closing.len()),
                }
            }
        },
    }
}

/// `cur` ends with `p`, and `p` is not glued to a longer identifier.
pub open spec fn ends_with_word(cur: Seq<u8>, p: Seq<u8>) -> bool {
    p.len() <= cur.len() && cur.skip(cur.len() - p.len()) == p && (cur.len() == p.len()
        || !is_ident(cur[cur.len() - p.len() - 1]))
}

/// `R`, `LR`, `uR`, `UR` or `u8R` ends `cur` as a word of its own.
pub open spec fn raw_prefix(cur: Seq<u8>) -> bool {
    ||| ends_with_word(cur, seq![0x75u8, 0x38, 0x52])
    ||| ends_with_word(cur, seq![0x4cu8, 0x52])
    ||| ends_with_word(cur, seq![0x75u8, 0x52])
    ||| ends_with_word(cur, seq![0x55u8, 0x52])
    ||| ends_with_word(cur, seq![0x52u8])
}

/// One step in code: comments open, raw strings are copied whole, literals
/// open, and pp-numbers are tracked.
pub open spec fn code_step(src: Seq<u8>, st: LexState) -> LexState {
    let i = st.i as int;
    let c = src[i];
    let next = byte_at(src, i + 1);
    if c == 0x2fu8 && next == Some(0x2au8) {
        LexState {
            mode: State::BlockComment,
            cur: st.cur.push(0x20u8),
            in_number: false,
            i: st.i + 2,
            ..st
        }
    } else if c == 0x2fu8 && next == Some(0x2fu8) {
        LexState { mode: State::LineComment, i: st.i + 2, ..st }
    } else if c == 0x22u8 && raw_prefix(st.cur) && raw_string_len_spec(src.skip(i)) is Some {
        let n = raw_string_len_spec(src.skip(i))->0;
        let a = absorb_raw(st, src.subrange(i, i + n));
        LexState { i: st.i + n, ..a }
    } else {
        let glued = st.cur.len() > 0 && is_ident(st.cur.last());
        let in_number = if is_digit(c) && !glued {
            true
        } else if st.in_number && !(is_ident(c) || c == 0x2eu8 || c == 0x27u8) {
            false
        } else {
            st.in_number
        };
        let mode = if c == 0x22u8 {
            State::Str
        } else if c == 0x27u8 && !in_number {
            State::Char
        } else {
            State::Code
        };
        LexState { in_number, mode, cur: st.cur.push(c), i: st.i + 1, ..st }
    }
}

/// One step inside a string or character literal: escapes are copied as a
/// pair, and the matching quote closes the literal.
pub open spec fn literal_step(src: Seq<u8>, st: LexState) -> LexState {
    let i = st.i as int;
    let c = src[i];
    let cur = st.cur.push(c);
    if c == 0x5cu8 && byte_at(src, i + 1) is Some && src[i + 1] != 0x0au8 {
        LexState { cur: cur.push(src[i + 1]), i: st.i + 2, ..st }
    } else if c != 0x5cu8 && ((st.mode == State::Str && c == 0x22u8) || (st.mode == State::Char
        && c == 0x27u8)) {
        LexState { cur, mode: State::Code, i: st.i + 1, ..st }
    } else {
        LexState { cur, i: st.i + 1, ..st }
    }
}

/// One step of the lexer at `st.i`.
pub open spec fn lex_step(src: Seq<u8>, st: LexState) -> LexState {
    let i = st.i as int;
    let c = src[i];
    if c == 0x5cu8 && st.mode != State::BlockComment && splice_len(src, i) > 0 {
        LexState { i: st.i + splice_len(src, i), line_no: st.line_no + 1, ..st }
    } else if c == 0x0au8 {
        let mode = if st.mode == State::BlockComment {
            State::BlockComment
        } else {
            State::Code
        };
        let e = end_line(LexState { mode, in_number: false, ..st });
        LexState { i: st.i + 1, ..e }
    } else {
        match st.mode {
            State::Code => code_step(src, st),
            State::LineComment => LexState { i: st.i + 1, ..st },
            State::BlockComment => if c == 0x2au8 && byte_at(src, i + 1) == Some(0x2fu8) {
                LexState { mode: State::Code, i: st.i + 2, ..st }
            } else {
                LexState { i: st.i + 1, ..st }
            },
            _ => literal_step(src, st),
        }
    }
}

pub proof fn lemma_find_sub(hay: Seq<u8>, needle: Seq<u8>)
    ensures
        find_sub(hay, needle) matches Some(k) ==> k + needle.len() <= hay.len(),
    decreases hay.len(),
{
    if hay.len() > 0 && hay.len() >= needle.len() && hay.take(needle.len() as int) != needle {
        lemma_find_sub(hay.drop_first(), needle);
    }
}

pub proof fn lemma_raw_string_len(s: Seq<u8>)
    ensures
        raw_string_len_spec(s) matches Some(n) ==> 1 <= n <= s.len(),
{
    let head = if s.len() < 18 {
        s
    } else {
        s.take(18)
    };
    lemma_find_byte(head, 0x28u8);
    if let Some(open) = find_byte(head, 0x28u8) {
        let delim = s.subrange(1, open as int);
        let closing = seq![0x29u8] + delim + seq![0x22u8];
        lemma_find_sub(s.skip(open + 1int), closing);
    }
}

/// Every step consumes input and stays within it.
pub proof fn lemma_step_advances(src: Seq<u8>, st: LexState)
    requires
        st.i < src.len(),
    ensures
        st.i < lex_step(src, st).i <= src.len(),
{
    lemma_raw_string_len(src.skip(st.i as int));
}

/// Runs the lexer from `st` to the end of the input.
pub open spec fn lex_from(src: Seq<u8>, st: LexState) -> LexState
    decreases src.len() - st.i,
{
    if st.i >= src.len() {
        st
    } else {
        proof {
            lemma_step_advances(src, st);
        }
        lex_from(src, lex_step(src, st))
    }
}

pub open spec fn lex_start() -> LexState {
    LexState {
        i: 0,
        mode: State::Code,
        in_number: false,
        cur: Seq::empty(),
        lines: Seq::empty(),
        line_no: 1,
        start_line: 1,
    }
}

/// The logical lines of `src`: every line the lexer closed, then the last one
/// if it holds text or nothing was closed.
pub open spec fn logical_lines_spec(src: Seq<u8>) -> Seq<(nat, Seq<u8>)> {
    let st = lex_from(src, lex_start());
    if st.cur.len() > 0 || st.lines.len() == 0 {
        st.lines.push((st.start_line, st.cur))
    } else {
        st.lines
    }
}

/// Total length of the texts of `lines`.
pub open spec fn text_len_total(lines: Seq<(nat, Seq<u8>)>) -> nat
    decreases lines.len(),
{
    if lines.len() == 0 {
        0
    } else {
        text_len_total(lines.drop_last()) + lines.last().1.len()
    }
}

pub proof fn lemma_text_len_prefix(lines: Seq<(nat, Seq<u8>)>, k: int)
    requires
        0 <= k <= lines.len(),
    ensures
        text_len_total(lines.take(k)) <= text_len_total(lines),
    decreases lines.len(),
{
    if k < lines.len() {
        assert(lines.drop_last().take(k) =~= lines.take(k));
        lemma_text_len_prefix(lines.drop_last(), k);
    } else {
        assert(lines.take(k) =~= lines);
    }
}

pub open spec fn line_view(l: Line) -> (nat, Seq<u8>) {
    (l.number as nat, l.text@)
}

pub open spec fn lines_view(lines: Seq<Line>) -> Seq<(nat, Seq<u8>)> {
    lines.map_values(|l: Line| line_view(l))
}

pub open spec fn snapshot(
    i: usize,
    mode: State,
    in_number: bool,
    cur: Seq<u8>,
    lines: Seq<Line>,
    line_no: u32,
    start_line: u32,
) -> LexState {
    LexState {
        i: i as nat,
        mode,
        in_number,
        cur,
        lines: lines_view(lines),
        line_no: line_no as nat,
        start_line: start_line as nat,
    }
}

/// `cur` ends with `p`, and `p` is not glued to a longer identifier.
fn word_at_end(cur: &[u8], p: &[u8]) -> (r: bool)
    ensures
        r == ends_with_word(cur@, p@),
{
    if !ends_with(cur, p) {
        return false;
    }
    let before = cur.len() - p.len();
    before == 0 || !is_ident_byte(cur[before - 1])
}

/// `R`, `LR`, `uR`, `UR` or `u8R` immediately before the quote, not glued to
/// a longer identifier.
fn raw_string_prefix(cur: &[u8]) -> (r: bool)
    ensures
        r == raw_prefix(cur@),
{
    let a: [u8; 3] = [0x75, 0x38, 0x52];
    let b: [u8; 2] = [0x4c, 0x52];
    let c: [u8; 2] = [0x75, 0x52];
    let d: [u8; 2] = [0x55, 0x52];
    let e: [u8; 1] = [0x52];
    proof {
        assert(a@ =~= seq![0x75u8, 0x38, 0x52]);
        assert(b@ =~= seq![0x4cu8, 0x52]);
        assert(c@ =~= seq![0x75u8, 0x52]);
        assert(d@ =~= seq![0x55u8, 0x52]);
        assert(e@ =~= seq![0x52u8]);
    }
    word_at_end(cur, &a) || word_at_end(cur, &b) || word_at_end(cur, &c) || word_at_end(cur, &d)
        || word_at_end(cur, &e)
}

/// First index at which `needle` occurs in `hay`.
fn find_seq(hay: &[u8], needle: &[u8]) -> (r: Option<usize>)
    requires
        needle@.len() > 0,
    ensures
        r == (match find_sub(hay@, needle@) {
            Some(k) => Some(k as usize),
            None => None::<usize>,
        }),
{
    let n = needle.len();
    let mut k: usize = 0;
    proof {
        assert(hay@.skip(0) =~= hay@);
    }
    while k < hay.len() && n <= hay.len() - k
        invariant
            k <= hay@.len(),
            n == needle@.len(),
            n > 0,
            find_sub(hay@, needle@) == (match find_sub(hay@.skip(k as int), needle@) {
                Some(j) => Some((j + k) as nat),
                None => None::<nat>,
            }),
        decreases hay@.len() - k,
    {
        let w = vstd::slice::slice_subrange(hay, k, k + n);
        proof {
            assert(w@ =~= hay@.skip(k as int).take(n as int));
        }
        if bytes_eq(w, needle) {
            return Some(k);
        }
        proof {
            assert(hay@.skip(k as int).drop_first() =~= hay@.skip(k as int + 1));
        }
        k += 1;
    }
    None
}

/// Length of `"delim( ... )delim"` starting at the opening quote.
#[verifier::loop_isolation(false)]
fn raw_string_len(s: &[u8]) -> (r: Option<usize>)
    requires
        s@.len() > 0,
        s@[0] == 0x22u8,
    ensures
        r == (match raw_string_len_spec(s@) {
            Some(k) => Some(k as usize),
            None => None::<usize>,
        }),
{
    proof {
        lemma_raw_string_len(s@);
    }
    let hl: usize = if s.len() < 18 {
        s.len()
    } else {
        18
    };
    let head = vstd::slice::slice_subrange(s, 0, hl);
    proof {
        if s@.len() < 18 {
            assert(head@ =~= s@);
        } else {
            assert(head@ =~= s@.take(18));
        }
        lemma_find_byte(head@, 0x28u8);
    }
    let open = match find(head, 0x28) {
        Some(o) => o,
        None => return None,
    };
    proof {
        assert(head@[0] == 0x22u8);
    }
    let delim = vstd::slice::slice_subrange(s, 1, open);
    let mut k: usize = 0;
    while k < delim.len()
        invariant
            k <= delim@.len(),
            forall|j: int| 0 <= j < k ==> !bad_delim(#[trigger] delim@[j]),
        decreases delim@.len() - k,
    {
        let b = delim[k];
        if b == 0x20 || b == 0x5c || b == 0x29 || b == 0x0a {
            proof {
                let d = s@.subrange(1, open as int);
                assert(d[k as int] == b);
                assert(bad_delim(d[k as int]));
                let hs = if s@.len() < 18 {
                    s@
                } else {
                    s@.take(18)
                };
                assert(hs == head@);
                assert(find_byte(hs, 0x28u8) == Some(open as nat));
                assert(!clean_delim(d));
            }
            return None;
        }
        k += 1;
    }
    let mut closing: Vec<u8> = Vec::new();
    closing.push(0x29);
    let mut k: usize = 0;
    while k < delim.len()
        invariant
            k <= delim@.len(),
            closing@ =~= seq![0x29u8] + delim@.take(k as int),
        decreases delim@.len() - k,
    {
        closing.push(delim[k]);
        proof {
            assert(delim@.take(k as int + 1) =~= delim@.take(k as int).push(delim@[k as int]));
        }
        k += 1;
    }
    closing.push(0x22);
    proof {
        assert(delim@.take(delim@.len() as int) =~= delim@);
        assert(closing@ =~= seq![0x29u8] + delim@ + seq![0x22u8]);
    }
    let body = vstd::slice::slice_subrange(s, open + 1, s.len());
    proof {
        assert(body@ =~= s@.skip(open + 1int));
        lemma_find_sub(body@, closing@);
    }
    let pos = match find_seq(body, closing.as_slice()) {
        Some(p) => p,
        None => return None,
    };
    Some(open + 1 + pos + closing.len())
}

/// The newline bytes among the first `i` of `s`.
pub open spec fn newlines(s: Seq<u8>, i: int) -> nat
    decreases i,
{
    if i <= 0 {
        0
    } else {
        newlines(s, i - 1) + if s[i - 1] == 0x0a {
            1nat
        } else {
            0nat
        }
    }
}

proof fn lemma_newlines_mono(s: Seq<u8>, a: int, b: int)
    requires
        0 <= a <= b,
    ensures
        newlines(s, a) <= newlines(s, b),
        newlines(s, b) <= newlines(s, a) + (b - a),
    decreases b - a,
{
    if a < b {
        lemma_newlines_mono(s, a, b - 1);
    }
}

/// A newline at `j` between `a` and `b` counts.
proof fn lemma_newline_between(s: Seq<u8>, a: int, j: int, b: int)
    requires
        0 <= a <= j < b,
        j < s.len(),
        s[j] == 0x0a,
    ensures
        newlines(s, a) + 1 <= newlines(s, b),
{
    lemma_newlines_mono(s, a, j);
    lemma_newlines_mono(s, j + 1, b);
}

/// The number of newline bytes in `s`.
pub fn count_newlines(s: &[u8]) -> (r: usize)
    ensures
        r == newlines(s@, s@.len() as int),
{
    let mut r: usize = 0;
    let mut i: usize = 0;
    while i < s.len()
        invariant
            i <= s@.len(),
            r == newlines(s@, i as int),
        decreases s@.len() - i,
    {
        proof {
            lemma_newlines_mono(s@, i as int, i + 1);
            lemma_newlines_mono(s@, 0, i as int);
        }
        if s[i] == 0x0a {
            r += 1;
        }
        i += 1;
    }
    r
}

/// Closes the logical line being built and moves to the next physical line.
fn close_line(lines: &mut Vec<Line>, cur: &mut Vec<u8>, line_no: &mut u32, start_line: &mut u32)
    requires
        *old(line_no) < u32::MAX,
    ensures
        lines_view(final(lines)@) == lines_view(old(lines)@).push(
            (*old(start_line) as nat, old(cur)@),
        ),
        final(cur)@ == Seq::<u8>::empty(),
        *final(line_no) == *old(line_no) + 1,
        *final(start_line) == *old(line_no) + 1,
        text_len_total(lines_view(final(lines)@)) == text_len_total(lines_view(old(lines)@))
            + old(cur)@.len(),
        final(lines)@.len() == old(lines)@.len() + 1,
{
    let mut text: Vec<u8> = Vec::new();
    std::mem::swap(&mut text, cur);
    lines.push(Line { number: *start_line, text });
    *line_no = *line_no + 1;
    *start_line = *line_no;
    proof {
        assert(lines_view(lines@) =~= lines_view(old(lines)@).push(
            (*old(start_line) as nat, old(cur)@),
        ));
        assert(lines_view(lines@).drop_last() =~= lines_view(old(lines)@));
    }
}

/// The logical lines of `src`, each with the physical line it starts on.
pub fn logical_lines(src: &[u8]) -> (lines: Vec<Line>)
    requires
        newlines(src@, src@.len() as int) < u32::MAX,
    ensures
        lines_view(lines@) == logical_lines_spec(src@),
        text_len_total(lines_view(lines@)) <= src@.len(),
        lines@.len() <= src@.len() + 1,
        lines@.len() <= newlines(src@, src@.len() as int) + 1,
{
    let mut lines: Vec<Line> = Vec::new();
    let mut cur: Vec<u8> = Vec::new();
    let mut line_no: u32 = 1;
    let mut start_line: u32 = 1;
    let mut state = State::Code;
    let mut in_number = false;
    let mut i: usize = 0;
    let n = src.len();
    proof {
        assert(snapshot(i, state, in_number, cur@, lines@, line_no, start_line) =~= lex_start());
    }
    while i < n
        invariant
            n == src@.len(),
            newlines(src@, n as int) < u32::MAX,
            i <= n,
            1 <= start_line <= line_no <= newlines(src@, i as int) + 1,
            text_len_total(lines_view(lines@)) + cur@.len() <= i,
            lines@.len() + 1 <= line_no,
            lex_from(src@, snapshot(i, state, in_number, cur@, lines@, line_no, start_line))
                == lex_from(src@, lex_start()),
        decreases n - i,
    {
        let ghost before = snapshot(i, state, in_number, cur@, lines@, line_no, start_line);
        let ghost i0 = i as int;
        let ghost l0 = line_no;
        let c = src[i];
        let has_next = i + 1 < n;
        let skip: usize = if has_next && src[i + 1] == 0x0a {
            2
        } else if n - i > 2 && src[i + 1] == 0x0d && src[i + 2] == 0x0a {
            3
        } else {
            0
        };
        assert(skip == splice_len(src@, i as int));
        proof {
            lemma_newlines_mono(src@, i as int, n as int);
        }
        if c == 0x5c && state != State::BlockComment && skip > 0 {
            proof {
                lemma_newline_between(src@, i as int, i + skip - 1, i + skip);
                lemma_newlines_mono(src@, (i + skip) as int, n as int);
            }
            i += skip;
            line_no += 1;
        } else if c == 0x0a {
            proof {
                lemma_newline_between(src@, i as int, i as int, i + 1);
                lemma_newlines_mono(src@, i + 1, n as int);
            }
            if state != State::BlockComment {
                state = State::Code;
            }
            in_number = false;
            close_line(&mut lines, &mut cur, &mut line_no, &mut start_line);
            i += 1;
        } else {
            match state {
                State::Code => {
                    if c == 0x2f && has_next && src[i + 1] == 0x2a {
                        state = State::BlockComment;
                        cur.push(0x20);
                        in_number = false;
                        i += 2;
                    } else if c == 0x2f && has_next && src[i + 1] == 0x2f {
                        state = State::LineComment;
                        i += 2;
                    } else {
                        let rest = vstd::slice::slice_subrange(src, i, n);
                        proof {
                            assert(rest@ =~= src@.skip(i as int));
                            lemma_raw_string_len(rest@);
                        }
                        let raw = if c == 0x22 && raw_string_prefix(cur.as_slice()) {
                            raw_string_len(rest)
                        } else {
                            None
                        };
                        match raw {
                            Some(consumed) => {
                                let ghost bytes = src@.subrange(i as int, i + consumed);
                                let mut k: usize = 0;
                                proof {
                                    assert(bytes.skip(0) =~= bytes);
                                }
                                while k < consumed
                                    invariant
                                        n == src@.len(),
                                        newlines(src@, n as int) < u32::MAX,
                                        i + consumed <= n,
                                        k <= consumed,
                                        bytes == src@.subrange(i as int, i + consumed),
                                        1 <= start_line <= line_no <= newlines(src@, i + k) + 1,
                                        text_len_total(lines_view(lines@)) + cur@.len() <= i + k,
                                        lines@.len() + 1 <= line_no,
                                        absorb_raw(before, bytes) == absorb_raw(
                                            snapshot(i, state, in_number, cur@, lines@, line_no, start_line),
                                            bytes.skip(k as int),
                                        ),
                                    decreases consumed - k,
                                {
                                    let b = src[i + k];
                                    proof {
                                        assert(bytes.skip(k as int)[0] == b);
                                        assert(bytes.skip(k as int).drop_first() =~= bytes.skip(k as int + 1));
                                    }
                                    proof {
                                        lemma_newlines_mono(src@, i + k + 1, n as int);
                                        lemma_newlines_mono(src@, i + k, i + k + 1);
                                    }
                                    if b == 0x0a {
                                        proof {
                                            lemma_newline_between(src@, i + k, i + k, i + k + 1);
                                        }
                                        close_line(&mut lines, &mut cur, &mut line_no, &mut start_line);
                                    } else {
                                        cur.push(b);
                                    }
                                    k += 1;
                                }
                                proof {
                                    assert(bytes.skip(consumed as int).len() == 0);
                                }
                                i += consumed;
                            },
                            None => {
                                let glued = cur.len() > 0 && is_ident_byte(cur[cur.len() - 1]);
                                if is_digit_byte(c) && !glued {
                                    in_number = true;
                                } else if in_number && !(is_ident_byte(c) || c == 0x2e || c == 0x27) {
                                    in_number = false;
                                }
                                if c == 0x22 {
                                    state = State::Str;
                                } else if c == 0x27 && !in_number {
                                    state = State::Char;
                                }
                                cur.push(c);
                                i += 1;
                            },
                        }
                    }
                },
                State::LineComment => {
                    i += 1;
                },
                State::BlockComment => {
                    if c == 0x2a && has_next && src[i + 1] == 0x2f {
                        state = State::Code;
                        i += 2;
                    } else {
                        i += 1;
                    }
                },
                _ => {
                    cur.push(c);
                    if c == 0x5c && has_next && src[i + 1] != 0x0a {
                        cur.push(src[i + 1]);
                        i += 2;
                    } else {
                        if c != 0x5c && ((state == State::Str && c == 0x22) || (state == State::Char
                            && c == 0x27)) {
                            state = State::Code;
                        }
                        i += 1;
                    }
                },
            }
        }
        proof {
            assert(snapshot(i, state, in_number, cur@, lines@, line_no, start_line) =~= lex_step(
                src@,
                before,
            ));
            lemma_newlines_mono(src@, i0, i as int);
        }
    }
    proof {
        lemma_newlines_mono(src@, 0, n as int);
    }
    if cur.len() > 0 || lines.len() == 0 {
        let ghost old_lines = lines@;
        let ghost old_cur = cur@;
        lines.push(Line { number: start_line, text: cur });
        proof {
            assert(lines_view(lines@) =~= lines_view(old_lines).push((start_line as nat, old_cur)));
            assert(lines_view(lines@).drop_last() =~= lines_view(old_lines));
        }
    }
    lines
}

/// No byte of `src` can open a comment, a literal or a line splice.
pub open spec fn plain(src: Seq<u8>) -> bool {
    forall|k: int|
        0 <= k < src.len() ==> #[trigger] src[k] != 0x5cu8 && src[k] != 0x2fu8 && src[k] != 0x22u8 && src[k]
            != 0x27u8
}

/// The pieces of `s` between line feeds; there is always at least one.
pub open spec fn split_lines(s: Seq<u8>) -> Seq<Seq<u8>>
    decreases s.len(),
{
    if s.len() == 0 {
        seq![Seq::empty()]
    } else {
        let r = split_lines(s.drop_last());
        if s.last() == 0x0au8 {
            r.push(Seq::empty())
        } else {
            r.update(r.len() - 1, r.last().push(s.last()))
        }
    }
}

/// Pieces numbered from 1, the last left out.
pub open spec fn numbered(pieces: Seq<Seq<u8>>) -> Seq<(nat, Seq<u8>)> {
    Seq::new((pieces.len() - 1) as nat, |i: int| ((i + 1) as nat, pieces[i]))
}

proof fn lemma_split_lines(s: Seq<u8>)
    ensures
        split_lines(s).len() >= 1,
        s.len() > 0 && s.last() == 0x0au8 ==> split_lines(s).last().len() == 0,
        s.len() > 0 && s.last() != 0x0au8 ==> split_lines(s).last().len() > 0,
    decreases s.len(),
{
    if s.len() > 0 {
        lemma_split_lines(s.drop_last());
    }
}

/// The lexer has read the first `k` bytes of a plain input.
spec fn plain_after(src: Seq<u8>, k: int, st: LexState) -> bool {
    let pieces = split_lines(src.take(k));
    &&& st.i == k
    &&& st.mode == State::Code
    &&& st.cur == pieces.last()
    &&& st.lines == numbered(pieces)
    &&& st.line_no == pieces.len()
    &&& st.start_line == pieces.len()
}

proof fn lemma_plain_step(src: Seq<u8>, k: int, st: LexState)
    requires
        plain(src),
        0 <= k < src.len(),
        plain_after(src, k, st),
    ensures
        plain_after(src, k + 1, lex_step(src, st)),
{
    let c = src[k];
    let s1 = src.take(k + 1);
    assert(s1.drop_last() =~= src.take(k));
    assert(s1.last() == c);
    lemma_split_lines(src.take(k));
    let pieces = split_lines(src.take(k));
    let next = lex_step(src, st);
    if c == 0x0au8 {
        assert(split_lines(s1) == pieces.push(Seq::empty()));
        assert(next.lines =~= numbered(pieces.push(Seq::empty())));
    } else {
        assert(c != 0x22u8 && c != 0x2fu8 && c != 0x5cu8 && c != 0x27u8);
        assert(next == code_step(src, st));
        assert(split_lines(s1) == pieces.update(pieces.len() - 1, pieces.last().push(c)));
        assert(numbered(split_lines(s1)) =~= numbered(pieces));
    }
}

proof fn lemma_plain_run(src: Seq<u8>, k: int, st: LexState)
    requires
        plain(src),
        0 <= k <= src.len(),
        plain_after(src, k, st),
    ensures
        plain_after(src, src.len() as int, lex_from(src, st)),
    decreases src.len() - k,
{
    if k < src.len() {
        lemma_plain_step(src, k, st);
        lemma_plain_run(src, k + 1, lex_step(src, st));
    }
}

/// Input with no comment, literal or splice splits at line feeds: its
/// logical lines are its pieces between line feeds, numbered from 1, with
/// the empty piece after a final line feed left out.
pub proof fn lemma_plain_lines(src: Seq<u8>)
    requires
        plain(src),
    ensures
        ({
            let pieces = split_lines(src);
            let keep = if src.len() > 0 && src.last() == 0x0au8 {
                pieces.drop_last()
            } else {
                pieces
            };
            logical_lines_spec(src) == Seq::new(keep.len(), |i: int| ((i + 1) as nat, keep[i]))
        }),
{
    assert(src.take(0) =~= Seq::<u8>::empty());
    assert(numbered(split_lines(src.take(0))) =~= Seq::<(nat, Seq<u8>)>::empty());
    lemma_plain_run(src, 0, lex_start());
    assert(src.take(src.len() as int) =~= src);
    lemma_split_lines(src);
    let pieces = split_lines(src);
    let keep = if src.len() > 0 && src.last() == 0x0au8 {
        pieces.drop_last()
    } else {
        pieces
    };
    let st = lex_from(src, lex_start());
    let want = Seq::new(keep.len(), |i: int| ((i + 1) as nat, keep[i]));
    if src.len() > 0 && src.last() == 0x0au8 {
        lemma_split_lines(src.drop_last());
        assert(pieces.len() >= 2);
        assert(st.lines.len() > 0);
        assert(logical_lines_spec(src) == st.lines);
        assert(st.lines =~= want);
    } else {
        if src.len() == 0 {
            assert(pieces =~= seq![Seq::<u8>::empty()]);
        }
        assert(st.cur.len() > 0 || st.lines.len() == 0);
        assert(logical_lines_spec(src) == st.lines.push((st.start_line, st.cur)));
        assert(st.lines.push((st.start_line, st.cur)) =~= want);
    }
}

} // verus!
