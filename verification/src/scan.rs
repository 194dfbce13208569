//! Lexical scan of one C/C++ source file: significant bytes, include
//! directives, and include-guard / `#pragma once` detection.
//!
//! This is not a preprocessor. Macros are not expanded and conditions are not
//! evaluated; every `#include` is assumed to be possibly taken.

use crate::bytes::{
    bytes_eq, ends_with, find, find_byte, identifier, identifier_spec, ident_run, is_digit_byte,
    is_ident, is_ident_byte, is_ws, lemma_find_byte, lemma_trim_len, lemma_ident_run_le, trim, trim_spec,
    trim_end_spec, trim_start, trim_start_spec,
};
use crate::lexer::{lemma_text_len_prefix, lines_view, logical_lines, logical_lines_spec, line_view, newlines, text_len_total, Line};
use vstd::prelude::*;

verus! {

/// How a file protects itself against being expanded twice in one TU.
#[derive(Clone, Copy, Debug, PartialEq, Eq, Structural)]
pub enum Guard {
    /// Neither an include guard nor `#pragma once`.
    Unguarded,
    /// `#ifndef X` / `#define X` ... `#endif` enclosing every significant line.
    Macro,
    PragmaOnce,
}

#[derive(Clone, Debug, PartialEq, Eq)]
pub struct IncludeDirective {
    pub spelling: String,
    pub angled: bool,
    /// Inside an `#if`/`#ifdef`/`#ifndef` block other than the include guard.
    pub conditional: bool,
    /// 1-based physical line of the directive.
    pub line: u32,
}

#[derive(Clone, Debug, PartialEq, Eq)]
pub struct ScannedFile {
    /// Bytes left after removing comments, trimming each logical line and
    /// dropping blank ones; every kept line also counts its newline.
    pub weight: u64,
    pub guard: Guard,
    pub includes: Vec<IncludeDirective>,
    /// Lines of `#include` forms that cannot be resolved without macro
    /// expansion, e.g. `#include CONFIG_HEADER`.
    pub computed_includes: Vec<u32>,
}

impl ScannedFile {
    /// True when a second inclusion in the same TU expands to nothing.
    pub fn once(&self) -> (r: bool)
        ensures
            r == !(self.guard is Unguarded),
    {
        !matches!(self.guard, Guard::Unguarded)
    }
}

// ---------------------------------------------------------------------------
// Directives.
// ---------------------------------------------------------------------------
/// Splits `# name rest` into `(name, rest)`.
pub open spec fn directive_spec(text: Seq<u8>) -> Option<(Seq<u8>, Seq<u8>)> {
    let t = trim_spec(text);
    if t.len() > 0 && t[0] == 0x23u8 {
        let after = trim_start_spec(t.drop_first());
        let name = identifier_spec(after);
        if name.len() == 0 {
            None
        } else {
            Some((name, after.skip(name.len() as int)))
        }
    } else {
        None
    }
}

proof fn lemma_identifier_prefix(s: Seq<u8>)
    ensures
        identifier_spec(s).len() <= s.len(),
        identifier_spec(s) == s.take(identifier_spec(s).len() as int),
{
    lemma_ident_run_le(s);
    if !(s.len() > 0 && crate::bytes::is_digit(s[0])) {
        assert(s.take(ident_run(s) as int).len() == ident_run(s));
    } else {
        assert(s.take(0) =~= Seq::<u8>::empty());
    }
}

/// Splits `# name rest` into `(name, rest)`.
pub fn directive(text: &[u8]) -> (r: Option<(&[u8], &[u8])>)
    ensures
        match r {
            Some((a, b)) => directive_spec(text@) == Some((a@, b@)),
            None => directive_spec(text@) is None,
        },
{
    let t = trim(text);
    if t.len() == 0 || t[0] != 0x23 {
        return None;
    }
    let after = trim_start(vstd::slice::slice_subrange(t, 1, t.len()));
    proof {
        assert(t@.subrange(1, t@.len() as int) =~= t@.drop_first());
    }
    let name = identifier(after);
    proof {
        lemma_identifier_prefix(after@);
    }
    if name.len() == 0 {
        return None;
    }
    let rest = vstd::slice::slice_subrange(after, name.len(), after.len());
    proof {
        assert(rest@ =~= after@.skip(name@.len() as int));
    }
    Some((name, rest))
}

pub open spec fn kw_if() -> Seq<u8> {
    seq![0x69u8, 0x66]
}

pub open spec fn kw_ifdef() -> Seq<u8> {
    seq![0x69u8, 0x66, 0x64, 0x65, 0x66]
}

pub open spec fn kw_ifndef() -> Seq<u8> {
    seq![0x69u8, 0x66, 0x6e, 0x64, 0x65, 0x66]
}

pub open spec fn kw_endif() -> Seq<u8> {
    seq![0x65u8, 0x6e, 0x64, 0x69, 0x66]
}

pub open spec fn kw_else() -> Seq<u8> {
    seq![0x65u8, 0x6c, 0x73, 0x65]
}

pub open spec fn kw_elif() -> Seq<u8> {
    seq![0x65u8, 0x6c, 0x69, 0x66]
}

pub open spec fn kw_elifdef() -> Seq<u8> {
    seq![0x65u8, 0x6c, 0x69, 0x66, 0x64, 0x65, 0x66]
}

pub open spec fn kw_elifndef() -> Seq<u8> {
    seq![0x65u8, 0x6c, 0x69, 0x66, 0x6e, 0x64, 0x65, 0x66]
}

pub open spec fn kw_define() -> Seq<u8> {
    seq![0x64u8, 0x65, 0x66, 0x69, 0x6e, 0x65]
}

pub open spec fn kw_defined() -> Seq<u8> {
    seq![0x64u8, 0x65, 0x66, 0x69, 0x6e, 0x65, 0x64]
}

pub open spec fn kw_pragma() -> Seq<u8> {
    seq![0x70u8, 0x72, 0x61, 0x67, 0x6d, 0x61]
}

pub open spec fn kw_once() -> Seq<u8> {
    seq![0x6fu8, 0x6e, 0x63, 0x65]
}

pub open spec fn kw_include() -> Seq<u8> {
    seq![0x69u8, 0x6e, 0x63, 0x6c, 0x75, 0x64, 0x65]
}

/// A directive that opens a conditional block.
pub open spec fn opens_block(name: Seq<u8>) -> bool {
    name == kw_if() || name == kw_ifdef() || name == kw_ifndef()
}

/// A directive that switches branches of a conditional block.
pub open spec fn switches_branch(name: Seq<u8>) -> bool {
    name == kw_else() || name == kw_elif() || name == kw_elifdef() || name == kw_elifndef()
}

fn is_if(name: &[u8]) -> (r: bool)
    ensures
        r == (name@ == kw_if()),
{
    let k: [u8; 2] = [0x69, 0x66];
    proof {
        assert(k@ =~= kw_if());
    }
    bytes_eq(name, &k)
}

fn opens(name: &[u8]) -> (r: bool)
    ensures
        r == opens_block(name@),
{
    let a: [u8; 2] = [0x69, 0x66];
    let b: [u8; 5] = [0x69, 0x66, 0x64, 0x65, 0x66];
    let c: [u8; 6] = [0x69, 0x66, 0x6e, 0x64, 0x65, 0x66];
    proof {
        assert(a@ =~= kw_if());
        assert(b@ =~= kw_ifdef());
        assert(c@ =~= kw_ifndef());
    }
    bytes_eq(name, &a) || bytes_eq(name, &b) || bytes_eq(name, &c)
}

fn switches(name: &[u8]) -> (r: bool)
    ensures
        r == switches_branch(name@),
{
    let a: [u8; 4] = [0x65, 0x6c, 0x73, 0x65];
    let b: [u8; 4] = [0x65, 0x6c, 0x69, 0x66];
    let c: [u8; 7] = [0x65, 0x6c, 0x69, 0x66, 0x64, 0x65, 0x66];
    let d: [u8; 8] = [0x65, 0x6c, 0x69, 0x66, 0x6e, 0x64, 0x65, 0x66];
    proof {
        assert(a@ =~= kw_else());
        assert(b@ =~= kw_elif());
        assert(c@ =~= kw_elifdef());
        assert(d@ =~= kw_elifndef());
    }
    bytes_eq(name, &a) || bytes_eq(name, &b) || bytes_eq(name, &c) || bytes_eq(name, &d)
}

fn is_endif(name: &[u8]) -> (r: bool)
    ensures
        r == (name@ == kw_endif()),
{
    let k: [u8; 5] = [0x65, 0x6e, 0x64, 0x69, 0x66];
    proof {
        assert(k@ =~= kw_endif());
    }
    bytes_eq(name, &k)
}

fn is_ifndef(name: &[u8]) -> (r: bool)
    ensures
        r == (name@ == kw_ifndef()),
{
    let k: [u8; 6] = [0x69, 0x66, 0x6e, 0x64, 0x65, 0x66];
    proof {
        assert(k@ =~= kw_ifndef());
    }
    bytes_eq(name, &k)
}

fn is_define(name: &[u8]) -> (r: bool)
    ensures
        r == (name@ == kw_define()),
{
    let k: [u8; 6] = [0x64, 0x65, 0x66, 0x69, 0x6e, 0x65];
    proof {
        assert(k@ =~= kw_define());
    }
    bytes_eq(name, &k)
}

fn is_pragma(name: &[u8]) -> (r: bool)
    ensures
        r == (name@ == kw_pragma()),
{
    let k: [u8; 6] = [0x70, 0x72, 0x61, 0x67, 0x6d, 0x61];
    proof {
        assert(k@ =~= kw_pragma());
    }
    bytes_eq(name, &k)
}

fn is_once(name: &[u8]) -> (r: bool)
    ensures
        r == (name@ == kw_once()),
{
    let k: [u8; 4] = [0x6f, 0x6e, 0x63, 0x65];
    proof {
        assert(k@ =~= kw_once());
    }
    bytes_eq(name, &k)
}

fn is_include(name: &[u8]) -> (r: bool)
    ensures
        r == (name@ == kw_include()),
{
    let k: [u8; 7] = [0x69, 0x6e, 0x63, 0x6c, 0x75, 0x64, 0x65];
    proof {
        assert(k@ =~= kw_include());
    }
    bytes_eq(name, &k)
}

/// `s` without the prefix `p`, when `s` starts with `p`.
fn strip_prefix<'a>(s: &'a [u8], p: &[u8]) -> (r: Option<&'a [u8]>)
    ensures
        match r {
            Some(x) => p@.len() <= s@.len() && s@.take(p@.len() as int) == p@ && x@ == s@.skip(
                p@.len() as int,
            ),
            None => !(p@.len() <= s@.len() && s@.take(p@.len() as int) == p@),
        },
{
    if p.len() > s.len() {
        return None;
    }
    let head = vstd::slice::slice_subrange(s, 0, p.len());
    proof {
        assert(head@ =~= s@.take(p@.len() as int));
    }
    if bytes_eq(head, p) {
        let tail = vstd::slice::slice_subrange(s, p.len(), s.len());
        proof {
            assert(tail@ =~= s@.skip(p@.len() as int));
        }
        Some(tail)
    } else {
        None
    }
}

/// `s` without the prefix `p`, when `s` starts with `p`.
pub open spec fn strip_prefix_spec(s: Seq<u8>, p: Seq<u8>) -> Option<Seq<u8>> {
    if p.len() <= s.len() && s.take(p.len() as int) == p {
        Some(s.skip(p.len() as int))
    } else {
        None
    }
}

/// The macro named by `#if !defined(X)` / `#if !defined X` once `if` is
/// read, given the rest of the line.
pub open spec fn if_not_defined_spec(rest0: Seq<u8>) -> Option<Seq<u8>> {
    match strip_prefix_spec(trim_spec(rest0), seq![0x21u8]) {
        None => None,
        Some(r1) => match strip_prefix_spec(trim_spec(r1), kw_defined()) {
            None => None,
            Some(r2) => {
                let rest = trim_spec(r2);
                let parts: Option<(Seq<u8>, Seq<u8>)> = match strip_prefix_spec(rest, seq![0x28u8]) {
                    Some(r) => match find_byte(r, 0x29u8) {
                        Some(close) => Some((trim_spec(r.take(close as int)), r.skip(close + 1int))),
                        None => None,
                    },
                    None => {
                        let id = identifier_spec(rest);
                        Some((id, rest.skip(id.len() as int)))
                    },
                };
                match parts {
                    None => None,
                    Some((inner, tail)) => {
                        let id = identifier_spec(inner);
                        if id.len() != 0 && id.len() == inner.len() && trim_spec(tail).len() == 0 {
                            Some(id)
                        } else {
                            None
                        }
                    },
                }
            },
        },
    }
}

/// The macro a guard's opening line tests: `#ifndef X`, `#if !defined(X)` or
/// `#if !defined X`.
pub open spec fn guard_condition_spec(text: Seq<u8>) -> Option<Seq<u8>> {
    match directive_spec(text) {
        None => None,
        Some((name, rest0)) => if name == kw_ifndef() {
            let rest = trim_spec(rest0);
            let id = identifier_spec(rest);
            if id.len() != 0 && trim_spec(rest.skip(id.len() as int)).len() == 0 {
                Some(id)
            } else {
                None
            }
        } else if name == kw_if() {
            if_not_defined_spec(rest0)
        } else {
            None
        },
    }
}

fn if_not_defined(rest0: &[u8]) -> (r: Option<&[u8]>)
    ensures
        match r {
            Some(x) => if_not_defined_spec(rest0@) == Some(x@),
            None => if_not_defined_spec(rest0@) is None,
        },
{
    let bang: [u8; 1] = [0x21];
    let defined: [u8; 7] = [0x64, 0x65, 0x66, 0x69, 0x6e, 0x65, 0x64];
    let open: [u8; 1] = [0x28];
    proof {
        assert(bang@ =~= seq![0x21u8]);
        assert(defined@ =~= kw_defined());
        assert(open@ =~= seq![0x28u8]);
    }
    let r1 = match strip_prefix(trim(rest0), &bang) {
        Some(r) => r,
        None => return None,
    };
    let r2 = match strip_prefix(trim(r1), &defined) {
        Some(r) => r,
        None => return None,
    };
    let rest = trim(r2);
    let inner: &[u8];
    let tail: &[u8];
    match strip_prefix(rest, &open) {
        Some(r) => {
            let close = match find(r, 0x29) {
                Some(c) => c,
                None => return None,
            };
            proof {
                lemma_find_byte(r@, 0x29u8);
            }
            let rl = r.len();
            inner = trim(vstd::slice::slice_subrange(r, 0, close));
            tail = vstd::slice::slice_subrange(r, close + 1, rl);
            proof {
                assert(r@.subrange(0, close as int) =~= r@.take(close as int));
                assert(tail@ =~= r@.skip(close + 1));
            }
        },
        None => {
            let id = identifier(rest);
            proof {
                lemma_identifier_prefix(rest@);
            }
            inner = id;
            tail = vstd::slice::slice_subrange(rest, id.len(), rest.len());
            proof {
                assert(tail@ =~= rest@.skip(id@.len() as int));
            }
        },
    }
    let id = identifier(inner);
    if id.len() != 0 && id.len() == inner.len() && trim(tail).len() == 0 {
        Some(id)
    } else {
        None
    }
}

/// Returns the macro name for `#ifndef X`, `#if !defined(X)` or `#if !defined X`.
fn guard_condition(text: &[u8]) -> (r: Option<&[u8]>)
    ensures
        match r {
            Some(x) => guard_condition_spec(text@) == Some(x@),
            None => guard_condition_spec(text@) is None,
        },
{
    let (name, rest0) = match directive(text) {
        Some(p) => p,
        None => return None,
    };
    if is_ifndef(name) {
        let rest = trim(rest0);
        let id = identifier(rest);
        proof {
            lemma_identifier_prefix(rest@);
        }
        let after = vstd::slice::slice_subrange(rest, id.len(), rest.len());
        proof {
            assert(after@ =~= rest@.skip(id@.len() as int));
        }
        if id.len() != 0 && trim(after).len() == 0 {
            Some(id)
        } else {
            None
        }
    } else if is_if(name) {
        if_not_defined(rest0)
    } else {
        None
    }
}

/// `"name"` or `<name>`: the spelling between the delimiters and whether it
/// is angled.
pub open spec fn header_name_parts(rest: Seq<u8>) -> Option<(Seq<u8>, bool)> {
    let r = trim_spec(rest);
    if r.len() == 0 || !(r[0] == 0x22u8 || r[0] == 0x3cu8) {
        None
    } else {
        let angled = r[0] == 0x3cu8;
        let close = if angled {
            0x3eu8
        } else {
            0x22u8
        };
        let body = r.drop_first();
        match find_byte(body, close) {
            None => None,
            Some(end) => if end == 0 {
                None
            } else {
                Some((body.take(end as int), angled))
            },
        }
    }
}

/// What `String::from_utf8_lossy` makes of `bytes`.
pub uninterp spec fn utf8_lossy(bytes: Seq<u8>) -> Seq<char>;

/// Calls `String::from_utf8_lossy`, which decodes `bytes` as UTF-8 and
/// replaces each invalid sequence with U+FFFD; on valid UTF-8 that is the
/// plain decoding. The contract names the result and states the valid case.
#[verifier::external_body]
fn string_from_utf8_lossy(bytes: &[u8]) -> (s: String)
    ensures
        s@ == utf8_lossy(bytes@),
        vstd::utf8::valid_utf8(bytes@) ==> s@ == vstd::utf8::decode_utf8(bytes@),
{
    String::from_utf8_lossy(bytes).into_owned()
}

/// `"name"` or `<name>` after `#include`: the spelling and whether it is angled.
fn parse_header_name(rest: &[u8]) -> (r: Option<(String, bool)>)
    ensures
        match r {
            Some((s, angled)) => header_name_parts(rest@) matches Some((b, a)) && a == angled
                && s@ == utf8_lossy(b),
            None => header_name_parts(rest@) is None,
        },
{
    let r = trim(rest);
    if r.len() == 0 {
        return None;
    }
    let first = r[0];
    let angled;
    let close;
    if first == 0x22 {
        angled = false;
        close = 0x22u8;
    } else if first == 0x3c {
        angled = true;
        close = 0x3eu8;
    } else {
        return None;
    }
    let body = vstd::slice::slice_subrange(r, 1, r.len());
    proof {
        assert(body@ =~= r@.drop_first());
    }
    let end = match find(body, close) {
        Some(e) => e,
        None => return None,
    };
    proof {
        lemma_find_byte(body@, close);
    }
    if end == 0 {
        return None;
    }
    let name = vstd::slice::slice_subrange(body, 0, end);
    proof {
        assert(name@ =~= body@.take(end as int));
    }
    Some((string_from_utf8_lossy(name), angled))
}

// ---------------------------------------------------------------------------
// Weight, guard and include directives over the logical lines.
// ---------------------------------------------------------------------------
/// Significant bytes of one logical line: its trimmed text plus a newline,
/// or nothing when it is blank.
pub open spec fn line_weight(text: Seq<u8>) -> nat {
    let t = trim_spec(text);
    if t.len() == 0 {
        0
    } else {
        t.len() + 1
    }
}

pub open spec fn total_weight(lines: Seq<(nat, Seq<u8>)>) -> nat
    decreases lines.len(),
{
    if lines.len() == 0 {
        0
    } else {
        total_weight(lines.drop_last()) + line_weight(lines.last().1)
    }
}

/// The lines that are not blank once trimmed, in order.
pub open spec fn significant(lines: Seq<(nat, Seq<u8>)>) -> Seq<(nat, Seq<u8>)>
    decreases lines.len(),
{
    if lines.len() == 0 {
        Seq::empty()
    } else if trim_spec(lines.last().1).len() > 0 {
        significant(lines.drop_last()).push(lines.last())
    } else {
        significant(lines.drop_last())
    }
}

/// Walking the significant lines from `k` at conditional depth `depth`, the
/// `#endif` that brings the depth to 0 is the last line, and no
/// `#else`/`#elif` comes at depth 1 before it.
pub open spec fn guard_closes(sig: Seq<(nat, Seq<u8>)>, k: nat, depth: int) -> bool
    decreases sig.len() - k,
{
    if k >= sig.len() {
        false
    } else {
        match directive_spec(sig[k as int].1) {
            None => guard_closes(sig, k + 1, depth),
            Some((name, _)) => if opens_block(name) {
                guard_closes(sig, k + 1, depth + 1)
            } else if switches_branch(name) && depth == 1 {
                false
            } else if name == kw_endif() {
                if depth == 1 {
                    k == sig.len() - 1
                } else {
                    guard_closes(sig, k + 1, depth - 1)
                }
            } else {
                guard_closes(sig, k + 1, depth)
            },
        }
    }
}

/// The significant lines form one include guard: the first opens it on a
/// macro, the second defines that macro, and the block closes on the last.
pub open spec fn macro_guarded(sig: Seq<(nat, Seq<u8>)>) -> bool {
    sig.len() >= 3 && match guard_condition_spec(sig[0].1) {
        None => false,
        Some(m) => match directive_spec(sig[1].1) {
            None => false,
            Some((name, rest)) => name == kw_define() && identifier_spec(trim_spec(rest)) == m
                && guard_closes(sig, 1, 1),
        },
    }
}

/// What the directive pass has gathered after some lines: conditional depth,
/// whether `#pragma once` was seen, includes as (spelling, angled,
/// conditional, line), and lines of computed includes.
#[verifier::ext_equal]
pub struct DirScan {
    pub depth: nat,
    pub pragma_once: bool,
    pub includes: Seq<(Seq<char>, bool, bool, nat)>,
    pub computed: Seq<nat>,
}

/// One significant line of the directive pass. `base` is the depth of the
/// include guard's own block (1 when guarded, else 0).
pub open spec fn scan_directive(st: DirScan, line: (nat, Seq<u8>), base: nat) -> DirScan {
    match directive_spec(line.1) {
        None => st,
        Some((name, rest)) => if opens_block(name) {
            DirScan { depth: st.depth + 1, ..st }
        } else if name == kw_endif() {
            DirScan {
                depth: if st.depth == 0 {
                    0
                } else {
                    (st.depth - 1) as nat
                },
                ..st
            }
        } else if name == kw_pragma() && trim_spec(rest) == kw_once() {
            DirScan { pragma_once: true, ..st }
        } else if name == kw_include() {
            match header_name_parts(rest) {
                Some((b, angled)) => DirScan {
                    includes: st.includes.push((utf8_lossy(b), angled, st.depth > base, line.0)),
                    ..st
                },
                None => DirScan { computed: st.computed.push(line.0), ..st },
            }
        } else {
            st
        },
    }
}

/// The directive pass over the first `k` significant lines.
pub open spec fn scan_directives(sig: Seq<(nat, Seq<u8>)>, base: nat, k: nat) -> DirScan
    decreases k,
{
    if k == 0 {
        DirScan { depth: 0, pragma_once: false, includes: Seq::empty(), computed: Seq::empty() }
    } else {
        scan_directive(scan_directives(sig, base, (k - 1) as nat), sig[k - 1], base)
    }
}

pub open spec fn include_view(d: IncludeDirective) -> (Seq<char>, bool, bool, nat) {
    (d.spelling@, d.angled, d.conditional, d.line as nat)
}

/// What `scan` finds in `src`.
pub open spec fn scan_spec(src: Seq<u8>, f: ScannedFile) -> bool {
    let lines = logical_lines_spec(src);
    let sig = significant(lines);
    let guarded = macro_guarded(sig);
    let d = scan_directives(
        sig,
        if guarded {
            1
        } else {
            0
        },
        sig.len(),
    );
    &&& f.weight == total_weight(lines)
    &&& f.guard == (if guarded {
        Guard::Macro
    } else if d.pragma_once {
        Guard::PragmaOnce
    } else {
        Guard::Unguarded
    })
    &&& f.includes@.map_values(|x: IncludeDirective| include_view(x)) == d.includes
    &&& f.computed_includes@.map_values(|x: u32| x as nat) == d.computed
}

pub open spec fn sig_view(sig: Seq<&Line>) -> Seq<(nat, Seq<u8>)> {
    sig.map_values(|l: &Line| line_view(*l))
}

/// A guard only counts when nothing significant sits outside it: the first
/// significant line opens it, the second defines the macro, and the matching
/// `#endif` is the last significant line with no `#else`/`#elif` in between.
fn detect_macro_guard(sig: &Vec<&Line>) -> (r: bool)
    requires
        sig@.len() <= u32::MAX,
    ensures
        r == macro_guarded(sig_view(sig@)),
{
    let ghost sv = sig_view(sig@);
    if sig.len() < 3 {
        return false;
    }
    let guard_macro = match guard_condition(sig[0].text.as_slice()) {
        Some(m) => m,
        None => return false,
    };
    match directive(sig[1].text.as_slice()) {
        Some((name, rest)) => {
            if !(is_define(name) && bytes_eq(identifier(trim(rest)), guard_macro)) {
                return false;
            }
        },
        None => return false,
    }
    proof {
        assert(sv[0] == line_view(*sig@[0]));
        assert(sv[1] == line_view(*sig@[1]));
    }
    let mut depth: u32 = 1;
    let mut i: usize = 1;
    while i < sig.len()
        invariant
            sv == sig_view(sig@),
            sig@.len() <= u32::MAX,
            1 <= i <= sig@.len(),
            macro_guarded(sv) == guard_closes(sv, 1, 1),
            1 <= depth <= i,
            guard_closes(sv, 1, 1) == guard_closes(sv, i as nat, depth as int),
        decreases sig@.len() - i,
    {
        assert(sv[i as int] == line_view(*sig@[i as int]));
        if let Some((name, _)) = directive(sig[i].text.as_slice()) {
            if opens(name) {
                depth += 1;
            } else if switches(name) && depth == 1 {
                return false;
            } else if is_endif(name) {
                depth -= 1;
                if depth == 0 {
                    return i == sig.len() - 1;
                }
            }
        }
        i += 1;
    }
    false
}

/// Scans one source file: its weight, its guard and its include directives.
pub fn scan(src: &[u8]) -> (r: ScannedFile)
    requires
        src@.len() <= isize::MAX,
        newlines(src@, src@.len() as int) < u32::MAX,
    ensures
        scan_spec(src@, r),
        r.includes@.len() <= u32::MAX,
{
    let lines = logical_lines(src);
    let ghost lv = lines_view(lines@);
    let mut weight: u64 = 0;
    let mut sig: Vec<&Line> = Vec::new();
    let mut idx: usize = 0;
    while idx < lines.len()
        invariant
            lv == lines_view(lines@),
            lv == logical_lines_spec(src@),
            text_len_total(lv) <= src@.len(),
            lines@.len() <= src@.len() + 1,
            lines@.len() <= newlines(src@, src@.len() as int) + 1,
            newlines(src@, src@.len() as int) < u32::MAX,
            src@.len() <= isize::MAX,
            idx <= lines@.len(),
            weight == total_weight(lv.take(idx as int)),
            weight <= text_len_total(lv.take(idx as int)) + idx,
            sig_view(sig@) == significant(lv.take(idx as int)),
            sig@.len() <= idx,
        decreases lines@.len() - idx,
    {
        let line = &lines[idx];
        let t = trim(line.text.as_slice());
        proof {
            assert(lv.take(idx as int + 1).drop_last() =~= lv.take(idx as int));
            assert(lv.take(idx as int + 1).last() == lv[idx as int]);
            assert(lv[idx as int] == line_view(lines@[idx as int]));
            lemma_trim_len(line.text@);
            lemma_text_len_prefix(lv, idx as int + 1);
        }
        if t.len() > 0 {
            weight = weight + t.len() as u64 + 1;
            let ghost old_sig = sig@;
            sig.push(line);
            proof {
                assert(sig_view(sig@) =~= sig_view(old_sig).push(line_view(*line)));
            }
        }
        idx += 1;
    }
    proof {
        assert(lv.take(lines@.len() as int) =~= lv);
    }
    let ghost sv = sig_view(sig@);
    let macro_guarded = detect_macro_guard(&sig);
    let base: u32 = if macro_guarded {
        1
    } else {
        0
    };
    let mut includes: Vec<IncludeDirective> = Vec::new();
    let mut computed_includes: Vec<u32> = Vec::new();
    let mut depth: u32 = 0;
    let mut pragma_once = false;
    let mut k: usize = 0;
    proof {
        assert(scan_directives(sv, base as nat, 0) =~= (DirScan {
            depth: depth as nat,
            pragma_once,
            includes: includes@.map_values(|x: IncludeDirective| include_view(x)),
            computed: computed_includes@.map_values(|x: u32| x as nat),
        }));
    }
    while k < sig.len()
        invariant
            sv == sig_view(sig@),
            sig@.len() <= u32::MAX,
            k <= sig@.len(),
            depth <= k,
            includes@.len() <= k,
            scan_directives(sv, base as nat, k as nat) == (DirScan {
                depth: depth as nat,
                pragma_once,
                includes: includes@.map_values(|x: IncludeDirective| include_view(x)),
                computed: computed_includes@.map_values(|x: u32| x as nat),
            }),
        decreases sig@.len() - k,
    {
        let line = sig[k];
        assert(sv[k as int] == line_view(*line));
        let ghost inc0 = includes@;
        let ghost comp0 = computed_includes@;
        if let Some((name, rest)) = directive(line.text.as_slice()) {
            if opens(name) {
                depth += 1;
            } else if is_endif(name) {
                if depth > 0 {
                    depth -= 1;
                }
            } else if is_pragma(name) && is_once(trim(rest)) {
                pragma_once = true;
            } else if is_include(name) {
                match parse_header_name(rest) {
                    Some((spelling, angled)) => {
                        let d = IncludeDirective {
                            spelling,
                            angled,
                            conditional: depth > base,
                            line: line.number,
                        };
                        includes.push(d);
                        proof {
                            assert(includes@.map_values(|x: IncludeDirective| include_view(x))
                                =~= inc0.map_values(|x: IncludeDirective| include_view(x)).push(
                                include_view(d),
                            ));
                        }
                    },
                    None => {
                        computed_includes.push(line.number);
                        proof {
                            assert(computed_includes@.map_values(|x: u32| x as nat)
                                =~= comp0.map_values(|x: u32| x as nat).push(line.number as nat));
                        }
                    },
                }
            }
        }
        k += 1;
    }
    let guard = if macro_guarded {
        Guard::Macro
    } else if pragma_once {
        Guard::PragmaOnce
    } else {
        Guard::Unguarded
    };
    ScannedFile { weight, guard, includes, computed_includes }
}

// ---------------------------------------------------------------------------
// What directive lines mean.
// ---------------------------------------------------------------------------
/// Spaces and tabs only.
pub open spec fn blanks(w: Seq<u8>) -> bool {
    forall|k: int| 0 <= k < w.len() ==> #[trigger] w[k] == 0x20u8 || w[k] == 0x09u8
}

/// A C identifier: a letter or `_`, then letters, digits and `_`.
pub open spec fn is_identifier(m: Seq<u8>) -> bool {
    &&& m.len() > 0
    &&& !crate::bytes::is_digit(m[0])
    &&& forall|k: int| 0 <= k < m.len() ==> is_ident(#[trigger] m[k])
}

proof fn lemma_trim_start_blanks(w: Seq<u8>, s: Seq<u8>)
    requires
        blanks(w),
    ensures
        trim_start_spec(w + s) == trim_start_spec(s),
    decreases w.len(),
{
    if w.len() > 0 {
        assert((w + s)[0] == w[0]);
        assert((w + s).drop_first() =~= w.drop_first() + s);
        lemma_trim_start_blanks(w.drop_first(), s);
    } else {
        assert(w + s =~= s);
    }
}

proof fn lemma_trim_fixed(s: Seq<u8>)
    requires
        s.len() > 0,
        !is_ws(s[0]),
        !is_ws(s.last()),
    ensures
        trim_start_spec(s) == s,
        trim_end_spec(s) == s,
        trim_spec(s) == s,
{
}

proof fn lemma_ident_run_word(kw: Seq<u8>, t: Seq<u8>)
    requires
        forall|k: int| 0 <= k < kw.len() ==> is_ident(#[trigger] kw[k]),
        t.len() == 0 || !is_ident(t[0]),
    ensures
        ident_run(kw + t) == kw.len(),
    decreases kw.len(),
{
    if kw.len() > 0 {
        assert((kw + t)[0] == kw[0]);
        assert((kw + t).drop_first() =~= kw.drop_first() + t);
        lemma_ident_run_word(kw.drop_first(), t);
    } else {
        assert(kw + t =~= t);
    }
}

/// `#` then the name `kw` then `tail` splits into `(kw, tail)`.
proof fn lemma_directive_of(kw: Seq<u8>, tail: Seq<u8>)
    requires
        is_identifier(kw),
        tail.len() == 0 || !is_ident(tail[0]),
        tail.len() == 0 || !is_ws(tail.last()),
    ensures
        directive_spec(seq![0x23u8] + kw + tail) == Some((kw, tail)),
{
    let text = seq![0x23u8] + kw + tail;
    assert(text[0] == 0x23u8);
    if tail.len() == 0 {
        assert(text.last() == kw.last());
        assert(is_ident(kw[kw.len() - 1]));
    } else {
        assert(text.last() == tail.last());
    }
    lemma_trim_fixed(text);
    let after0 = text.drop_first();
    assert(after0 =~= kw + tail);
    assert(after0[0] == kw[0]);
    assert(is_ident(kw[0]));
    lemma_trim_fixed_start(after0);
    lemma_ident_run_word(kw, tail);
    assert((kw + tail).take(kw.len() as int) =~= kw);
    assert((kw + tail).skip(kw.len() as int) =~= tail);
}

proof fn lemma_trim_fixed_start(s: Seq<u8>)
    requires
        s.len() > 0,
        !is_ws(s[0]),
    ensures
        trim_start_spec(s) == s,
{
}

/// A space then the identifier `m` trims to `m`, which is its own identifier.
proof fn lemma_spaced_identifier(m: Seq<u8>)
    requires
        is_identifier(m),
    ensures
        trim_spec(seq![0x20u8] + m) == m,
        identifier_spec(m) == m,
{
    assert(blanks(seq![0x20u8]));
    lemma_trim_start_blanks(seq![0x20u8], m);
    assert(is_ident(m[0]) && is_ident(m[m.len() - 1]));
    lemma_trim_fixed(m);
    lemma_ident_run_word(m, Seq::empty());
    assert(m + Seq::<u8>::empty() =~= m);
    assert(m.take(m.len() as int) =~= m);
}

proof fn lemma_find_after(n: Seq<u8>, c: u8)
    requires
        forall|k: int| 0 <= k < n.len() ==> #[trigger] n[k] != c,
    ensures
        find_byte(n + seq![c], c) == Some(n.len()),
    decreases n.len(),
{
    if n.len() > 0 {
        assert((n + seq![c])[0] == n[0]);
        assert((n + seq![c]).drop_first() =~= n.drop_first() + seq![c]);
        lemma_find_after(n.drop_first(), c);
    } else {
        assert(n + seq![c] =~= seq![c]);
    }
}

proof fn lemma_trim_end_blanks(x: Seq<u8>, w: Seq<u8>)
    requires
        blanks(w),
    ensures
        trim_end_spec(x + w) == trim_end_spec(x),
    decreases w.len(),
{
    if w.len() > 0 {
        assert((x + w).last() == w.last());
        assert(w.last() == w[w.len() - 1]);
        assert((x + w).drop_last() =~= x + w.drop_last());
        lemma_trim_end_blanks(x, w.drop_last());
    } else {
        assert(x + w =~= x);
    }
}

/// Spaces and tabs around the line and after the `#` do not change which
/// directive it is.
proof fn lemma_directive_spaced(w0: Seq<u8>, w1: Seq<u8>, kw: Seq<u8>, tail: Seq<u8>, w2: Seq<u8>)
    requires
        blanks(w0),
        blanks(w1),
        blanks(w2),
        is_identifier(kw),
        tail.len() == 0 || !is_ident(tail[0]),
        tail.len() == 0 || !is_ws(tail.last()),
    ensures
        directive_spec(w0 + seq![0x23u8] + w1 + kw + tail + w2) == Some((kw, tail)),
{
    let x = seq![0x23u8] + w1 + kw + tail;
    let text = w0 + seq![0x23u8] + w1 + kw + tail + w2;
    assert(text =~= w0 + (x + w2));
    lemma_trim_start_blanks(w0, x + w2);
    assert((x + w2)[0] == 0x23u8);
    lemma_trim_fixed_start(x + w2);
    lemma_trim_end_blanks(x, w2);
    if tail.len() == 0 {
        assert(x.last() == kw.last());
        assert(is_ident(kw[kw.len() - 1]));
    } else {
        assert(x.last() == tail.last());
    }
    assert(x[0] == 0x23u8);
    lemma_trim_fixed(x);
    assert(trim_spec(text) == x);
    assert(x.drop_first() =~= w1 + (kw + tail));
    lemma_trim_start_blanks(w1, kw + tail);
    assert((kw + tail)[0] == kw[0]);
    assert(is_ident(kw[0]));
    lemma_trim_fixed_start(kw + tail);
    lemma_ident_run_word(kw, tail);
    assert((kw + tail).take(kw.len() as int) =~= kw);
    assert((kw + tail).skip(kw.len() as int) =~= tail);
}

/// `#include`, then any spaces or tabs (none included), then `<n>` or `"n"`
/// records the include of `n`, angled for `<n>`: a header name is found with
/// or without white space before it, and both spellings give the same
/// directive. Spaces and tabs around the line or after `#` change nothing.
pub proof fn lemma_include_forms(
    st: DirScan,
    num: nat,
    base: nat,
    w0: Seq<u8>,
    w1: Seq<u8>,
    w: Seq<u8>,
    n: Seq<u8>,
    w2: Seq<u8>,
    angled: bool,
)
    requires
        blanks(w0),
        blanks(w1),
        blanks(w),
        blanks(w2),
        n.len() > 0,
        forall|k: int| 0 <= k < n.len() ==> #[trigger] n[k] != (if angled {
            0x3eu8
        } else {
            0x22u8
        }),
    ensures
        ({
            let open: u8 = if angled {
                0x3cu8
            } else {
                0x22u8
            };
            let close: u8 = if angled {
                0x3eu8
            } else {
                0x22u8
            };
            let text = w0 + seq![0x23u8] + w1 + seq![0x69u8, 0x6e, 0x63, 0x6c, 0x75, 0x64, 0x65] + w + seq![open] + n
                + seq![close] + w2;
            scan_directive(st, (num, text), base) == DirScan {
                includes: st.includes.push((utf8_lossy(n), angled, st.depth > base, num)),
                ..st
            }
        }),
{
    let open: u8 = if angled {
        0x3cu8
    } else {
        0x22u8
    };
    let close: u8 = if angled {
        0x3eu8
    } else {
        0x22u8
    };
    let inc = seq![0x69u8, 0x6e, 0x63, 0x6c, 0x75, 0x64, 0x65];
    let quoted = seq![open] + n + seq![close];
    let tail = w + quoted;
    assert(inc =~= kw_include());
    assert(is_identifier(inc));
    if w.len() > 0 {
        assert(tail[0] == w[0]);
    } else {
        assert(tail =~= quoted);
    }
    assert(tail.last() == close);
    lemma_directive_spaced(w0, w1, inc, tail, w2);
    assert(w0 + seq![0x23u8] + w1 + inc + w + seq![open] + n + seq![close] + w2 =~= w0 + seq![0x23u8] + w1 + inc + tail
        + w2);
    assert(inc != kw_if() && inc != kw_ifdef() && inc != kw_ifndef() && inc != kw_endif());
    assert(inc[0] != kw_pragma()[0]);
    lemma_trim_start_blanks(w, quoted);
    assert(quoted[0] == open && quoted.last() == close);
    lemma_trim_fixed(quoted);
    assert(trim_spec(tail) == quoted);
    let body = quoted.drop_first();
    assert(body =~= n + seq![close]);
    lemma_find_after(n, close);
    assert(body.take(n.len() as int) =~= n);
}

/// `#include` followed by a macro name rather than a header name is a
/// computed include: its line is recorded and no include is.
pub proof fn lemma_computed_include(st: DirScan, num: nat, base: nat, w: Seq<u8>, m: Seq<u8>)
    requires
        blanks(w),
        w.len() > 0,
        is_identifier(m),
    ensures
        scan_directive(st, (num, seq![0x23u8] + seq![0x69u8, 0x6e, 0x63, 0x6c, 0x75, 0x64, 0x65] + w + m), base)
            == (DirScan { computed: st.computed.push(num), ..st }),
{
    let inc = seq![0x69u8, 0x6e, 0x63, 0x6c, 0x75, 0x64, 0x65];
    let tail = w + m;
    assert(inc =~= kw_include());
    assert(is_identifier(inc));
    assert(tail[0] == w[0]);
    assert(tail.last() == m.last());
    assert(is_ident(m[m.len() - 1]) && is_ident(m[0]));
    lemma_directive_of(inc, tail);
    assert(seq![0x23u8] + inc + w + m =~= seq![0x23u8] + inc + tail);
    assert(inc != kw_if() && inc != kw_ifdef() && inc != kw_ifndef() && inc != kw_endif());
    assert(inc[0] != kw_pragma()[0]);
    lemma_trim_start_blanks(w, m);
    lemma_trim_fixed(m);
    assert(trim_spec(tail) == m);
}

/// `if`, `ifdef` and `ifndef`: the directives that open a conditional block.
pub open spec fn opens_conditional(name: Seq<u8>) -> bool {
    ||| name == seq![0x69u8, 0x66]
    ||| name == seq![0x69u8, 0x66, 0x64, 0x65, 0x66]
    ||| name == seq![0x69u8, 0x66, 0x6e, 0x64, 0x65, 0x66]
}

/// `else`, `elif`, `elifdef` and `elifndef`.
pub open spec fn other_branch(name: Seq<u8>) -> bool {
    ||| name == seq![0x65u8, 0x6c, 0x73, 0x65]
    ||| name == seq![0x65u8, 0x6c, 0x69, 0x66]
    ||| name == seq![0x65u8, 0x6c, 0x69, 0x66, 0x64, 0x65, 0x66]
    ||| name == seq![0x65u8, 0x6c, 0x69, 0x66, 0x6e, 0x64, 0x65, 0x66]
}

pub open spec fn endif_name() -> Seq<u8> {
    seq![0x65u8, 0x6e, 0x64, 0x69, 0x66]
}

/// From line `k` at nesting depth `d`, the lines nest properly and close
/// every block they open: each `#if`, `#ifdef` or `#ifndef` opens a block,
/// each `#endif` closes one, and `#else`/`#elif` come only inside a block.
pub open spec fn nests(lines: Seq<(nat, Seq<u8>)>, k: nat, d: nat) -> bool
    decreases lines.len() - k,
{
    if k >= lines.len() {
        d == 0
    } else {
        match directive_spec(lines[k as int].1) {
            None => nests(lines, k + 1, d),
            Some((name, _)) => if opens_conditional(name) {
                nests(lines, k + 1, d + 1)
            } else if name == endif_name() {
                d > 0 && nests(lines, k + 1, (d - 1) as nat)
            } else if other_branch(name) {
                d > 0 && nests(lines, k + 1, d)
            } else {
                nests(lines, k + 1, d)
            },
        }
    }
}

/// `#ifndef m`, `#if !defined(m)` or `#if !defined m`.
pub open spec fn guard_opening(t: Seq<u8>, m: Seq<u8>) -> bool {
    let defined = seq![0x64u8, 0x65, 0x66, 0x69, 0x6e, 0x65, 0x64];
    ||| t == seq![0x23u8] + seq![0x69u8, 0x66, 0x6e, 0x64, 0x65, 0x66] + seq![0x20u8] + m
    ||| t == seq![0x23u8, 0x69, 0x66, 0x20, 0x21] + defined + seq![0x28u8] + m + seq![0x29u8]
    ||| t == seq![0x23u8, 0x69, 0x66, 0x20, 0x21] + defined + seq![0x20u8] + m
}

/// The significant lines of a classic include guard on macro `m`: its
/// opening test, `#define m`, properly nested lines, and `#endif` last.
pub open spec fn guard_shaped(sig: Seq<(nat, Seq<u8>)>, m: Seq<u8>) -> bool {
    &&& sig.len() >= 3
    &&& is_identifier(m)
    &&& guard_opening(sig[0].1, m)
    &&& sig[1].1 == seq![0x23u8] + seq![0x64u8, 0x65, 0x66, 0x69, 0x6e, 0x65] + seq![0x20u8] + m
    &&& sig.last().1 == seq![0x23u8] + endif_name()
    &&& nests(sig.drop_last(), 2, 0)
}

proof fn lemma_names_agree(name: Seq<u8>)
    ensures
        opens_block(name) == opens_conditional(name),
        switches_branch(name) == other_branch(name),
        (name == kw_endif()) == (name == endif_name()),
        opens_conditional(name) ==> !other_branch(name) && name != endif_name(),
        name == endif_name() ==> !other_branch(name),
{
    if opens_conditional(name) {
        assert(name[0] == 0x69u8);
    }
    if name == endif_name() {
        assert(name[1] == 0x6eu8);
    }
}

proof fn lemma_nests_close(sig: Seq<(nat, Seq<u8>)>, k: nat, d: nat)
    requires
        sig.len() >= 1,
        k <= sig.len() - 1,
        sig.last().1 == seq![0x23u8] + endif_name(),
        nests(sig.drop_last(), k, d),
    ensures
        guard_closes(sig, k, (d + 1) as int),
    decreases sig.len() - k,
{
    let body = sig.drop_last();
    if k == sig.len() - 1 {
        assert(endif_name() + Seq::<u8>::empty() =~= endif_name());
        assert(is_identifier(endif_name()));
        lemma_directive_of(endif_name(), Seq::empty());
        assert(seq![0x23u8] + endif_name() + Seq::<u8>::empty() =~= seq![0x23u8] + endif_name());
        lemma_names_agree(endif_name());
        assert(sig[k as int] == sig.last());
    } else {
        assert(body[k as int] == sig[k as int]);
        match directive_spec(sig[k as int].1) {
            None => {
                lemma_nests_close(sig, k + 1, d);
            },
            Some((name, _)) => {
                lemma_names_agree(name);
                if opens_conditional(name) {
                    lemma_nests_close(sig, k + 1, d + 1);
                } else if name == endif_name() {
                    lemma_nests_close(sig, k + 1, (d - 1) as nat);
                } else {
                    lemma_nests_close(sig, k + 1, d);
                }
            },
        }
    }
}

proof fn lemma_strip_prefix_of(p: Seq<u8>, s: Seq<u8>)
    ensures
        strip_prefix_spec(p + s, p) == Some(s),
{
    assert((p + s).take(p.len() as int) =~= p);
    assert((p + s).skip(p.len() as int) =~= s);
}

/// The opening line of a guard names its macro.
proof fn lemma_guard_opening(t: Seq<u8>, m: Seq<u8>)
    requires
        is_identifier(m),
        guard_opening(t, m),
    ensures
        guard_condition_spec(t) == Some(m),
{
    let defined = seq![0x64u8, 0x65, 0x66, 0x69, 0x6e, 0x65, 0x64];
    let ifndef = seq![0x69u8, 0x66, 0x6e, 0x64, 0x65, 0x66];
    let kif = seq![0x69u8, 0x66];
    assert(is_ident(m[0]) && is_ident(m[m.len() - 1]));
    lemma_spaced_identifier(m);
    assert(m.skip(m.len() as int) =~= Seq::<u8>::empty());
    assert(trim_spec(Seq::<u8>::empty()) =~= Seq::<u8>::empty());
    assert(ifndef =~= kw_ifndef());
    assert(kif =~= kw_if());
    assert(defined =~= kw_defined());
    assert(is_identifier(ifndef));
    assert(is_identifier(kif));
    if t == seq![0x23u8] + ifndef + seq![0x20u8] + m {
        let tail = seq![0x20u8] + m;
        assert(tail.last() == m.last());
        lemma_directive_of(ifndef, tail);
        assert(t =~= seq![0x23u8] + ifndef + tail);
    } else {
        let paren = t == seq![0x23u8, 0x69, 0x66, 0x20, 0x21] + defined + seq![0x28u8] + m + seq![0x29u8];
        let after = if paren {
            seq![0x28u8] + m + seq![0x29u8]
        } else {
            seq![0x20u8] + m
        };
        let bang = seq![0x21u8] + defined + after;
        let tail = seq![0x20u8] + bang;
        assert(t =~= seq![0x23u8] + kif + tail);
        if paren {
            assert(after.last() == 0x29u8);
        } else {
            assert(after.last() == m.last());
        }
        assert(tail.last() == after.last());
        assert(bang.last() == after.last());
        lemma_directive_of(kif, tail);
        // `if_not_defined_spec(tail)`
        assert(blanks(seq![0x20u8]));
        lemma_trim_start_blanks(seq![0x20u8], bang);
        lemma_trim_fixed(bang);
        assert(trim_spec(tail) == bang);
        lemma_strip_prefix_of(seq![0x21u8], defined + after);
        assert(bang =~= seq![0x21u8] + (defined + after));
        let r1 = defined + after;
        assert(r1[0] == 0x64u8);
        assert(r1.last() == after.last());
        lemma_trim_fixed(r1);
        lemma_strip_prefix_of(defined, after);
        if paren {
            lemma_trim_fixed(after);
            let r = m + seq![0x29u8];
            assert(after =~= seq![0x28u8] + r);
            lemma_strip_prefix_of(seq![0x28u8], r);
            assert forall|k: int| 0 <= k < m.len() implies #[trigger] m[k] != 0x29u8 by {
                assert(is_ident(m[k]));
            }
            lemma_find_after(m, 0x29u8);
            assert(r.take(m.len() as int) =~= m);
            assert(r.skip(m.len() + 1int) =~= Seq::<u8>::empty());
            lemma_trim_fixed(m);
        } else {
            assert(trim_spec(after) == m);
            assert(strip_prefix_spec(m, seq![0x28u8]) is None) by {
                if 1 <= m.len() && m.take(1) == seq![0x28u8] {
                    assert(m.take(1)[0] == m[0]);
                }
            }
        }
    }
}

/// A classic include guard is detected: when the significant lines are
/// `#ifndef m`, `#define m`, properly nested lines (plain `#if` blocks
/// included) and a final `#endif`, the file is guarded by its macro.
pub proof fn lemma_guard_detected(src: Seq<u8>, f: ScannedFile, m: Seq<u8>)
    requires
        scan_spec(src, f),
        guard_shaped(significant(logical_lines_spec(src)), m),
    ensures
        f.guard == Guard::Macro,
{
    let sig = significant(logical_lines_spec(src));
    let define = seq![0x64u8, 0x65, 0x66, 0x69, 0x6e, 0x65];
    let tail = seq![0x20u8] + m;
    assert(tail[0] == 0x20u8);
    assert(tail.last() == m.last());
    assert(is_ident(m[m.len() - 1]));
    assert(is_identifier(define));
    lemma_directive_of(define, tail);
    assert(seq![0x23u8] + define + seq![0x20u8] + m =~= seq![0x23u8] + define + tail);
    assert(define =~= kw_define());
    lemma_spaced_identifier(m);
    lemma_guard_opening(sig[0].1, m);
    lemma_names_agree(define);
    assert(define[0] == 0x64u8);
    lemma_nests_close(sig, 2, 0);
    assert(guard_closes(sig, 1, 1));
    assert(macro_guarded(sig));
}

proof fn lemma_closes_on_endif(sig: Seq<(nat, Seq<u8>)>, k: nat, depth: int)
    requires
        guard_closes(sig, k, depth),
    ensures
        sig.len() > 0,
        directive_spec(sig.last().1) matches Some((name, _)) && name == endif_name(),
    decreases sig.len() - k,
{
    match directive_spec(sig[k as int].1) {
        None => lemma_closes_on_endif(sig, k + 1, depth),
        Some((name, _)) => {
            if opens_block(name) {
                lemma_closes_on_endif(sig, k + 1, depth + 1);
            } else if switches_branch(name) && depth == 1 {
            } else if name == kw_endif() {
                if depth == 1 {
                    assert(sig[k as int] == sig.last());
                    assert(endif_name() =~= kw_endif());
                } else {
                    lemma_closes_on_endif(sig, k + 1, depth - 1);
                }
            } else {
                lemma_closes_on_endif(sig, k + 1, depth);
            }
        },
    }
}

/// Only a file that ends on `#endif` can be guarded by a macro: with fewer
/// than three significant lines, or a last significant line that is not
/// `#endif`, the guard is `#pragma once` or nothing.
pub proof fn lemma_guard_ends_on_endif(src: Seq<u8>, f: ScannedFile)
    requires
        scan_spec(src, f),
        ({
            let sig = significant(logical_lines_spec(src));
            sig.len() < 3 || !(directive_spec(sig.last().1) matches Some((name, _)) && name == endif_name())
        }),
    ensures
        f.guard != Guard::Macro,
{
    let sig = significant(logical_lines_spec(src));
    if macro_guarded(sig) {
        lemma_closes_on_endif(sig, 1, 1);
    }
}

/// `#pragma once`, with any spacing.
pub open spec fn pragma_once_line(t: Seq<u8>) -> bool {
    directive_spec(t) matches Some((name, rest)) && name == seq![0x70u8, 0x72, 0x61, 0x67, 0x6d, 0x61] && trim_spec(
        rest,
    ) == seq![0x6fu8, 0x6e, 0x63, 0x65]
}

proof fn lemma_pragma_seen(sig: Seq<(nat, Seq<u8>)>, base: nat, k: nat)
    requires
        k <= sig.len(),
    ensures
        scan_directives(sig, base, k).pragma_once <==> exists|j: int| 0 <= j < k && #[trigger] pragma_once_line(sig[j].1),
    decreases k,
{
    if k > 0 {
        lemma_pragma_seen(sig, base, (k - 1) as nat);
        let line = sig[k - 1];
        assert(seq![0x70u8, 0x72, 0x61, 0x67, 0x6d, 0x61] =~= kw_pragma());
        assert(seq![0x6fu8, 0x6e, 0x63, 0x65] =~= kw_once());
        if let Some((name, rest)) = directive_spec(line.1) {
            lemma_names_agree(name);
            if name == kw_pragma() {
                assert(name[0] == 0x70u8);
                assert(!opens_block(name) && name != kw_endif());
            }
        }
        let before = scan_directives(sig, base, (k - 1) as nat);
        let after = scan_directives(sig, base, k);
        assert(after == scan_directive(before, line, base));
        if pragma_once_line(line.1) {
            assert(after.pragma_once);
            assert(pragma_once_line(sig[k - 1].1));
        } else {
            assert(after.pragma_once == before.pragma_once);
            if exists|j: int| 0 <= j < k && #[trigger] pragma_once_line(sig[j].1) {
                let j = choose|j: int| 0 <= j < k && #[trigger] pragma_once_line(sig[j].1);
                assert(j != k - 1);
                assert(0 <= j < k - 1 && pragma_once_line(sig[j].1));
            }
        }
        if exists|j: int| 0 <= j < k - 1 && #[trigger] pragma_once_line(sig[j].1) {
            let j = choose|j: int| 0 <= j < k - 1 && #[trigger] pragma_once_line(sig[j].1);
            assert(0 <= j < k && pragma_once_line(sig[j].1));
        }
    }
}

/// A file that no include guard covers is `#pragma once` exactly when one of
/// its significant lines is `#pragma once`, and unguarded otherwise.
pub proof fn lemma_pragma_once(src: Seq<u8>, f: ScannedFile)
    requires
        scan_spec(src, f),
        f.guard != Guard::Macro,
    ensures
        ({
            let sig = significant(logical_lines_spec(src));
            (f.guard == Guard::PragmaOnce) == exists|j: int| 0 <= j < sig.len() && #[trigger] pragma_once_line(sig[j].1)
        }),
        f.guard == Guard::PragmaOnce || f.guard == Guard::Unguarded,
{
    let sig = significant(logical_lines_spec(src));
    lemma_pragma_seen(sig, 0, sig.len());
}

} // verus!
