//! Deterministic synthetic C++ projects for tests, the benchmark and demos.
//!
//! Headers are grouped into modules. Module `k` may include headers from its
//! own module (lower index only) and from its ancestors in a binary tree of
//! modules, which bounds how much of the project one TU reaches, as in a real
//! layered codebase.

use crate::compdb::{args_fold, no_dirs, search_paths_from_args, search_view, strings_view, CompileCommand};
use crate::fs::{join, join_spec, normalize, normalize_spec, MemFs};
use crate::text::{decimal, push_char, push_decimal, push_str};
use vstd::prelude::*;

verus! {

// ---------------------------------------------------------------------------
// Random numbers.
// ---------------------------------------------------------------------------
/// SplitMix64: tiny, seedable, and good enough for test data.
#[derive(Clone, Debug)]
pub struct Rng(u64);

/// The state after one step.
pub open spec fn rng_advance(state: u64) -> u64 {
    vstd::wrapping::u64_specs::wrapping_add(state, 0x9E37_79B9_7F4A_7C15)
}

/// The output mixed from a state.
pub open spec fn rng_mix(z: u64) -> u64 {
    let a = vstd::wrapping::u64_specs::wrapping_mul(z ^ (z >> 30u64), 0xBF58_476D_1CE4_E5B9);
    let b = vstd::wrapping::u64_specs::wrapping_mul(a ^ (a >> 27u64), 0x94D0_49BB_1331_11EB);
    b ^ (b >> 31u64)
}

/// The state after a draw below `n`, and the number drawn.
pub open spec fn below_s(state: u64, n: nat) -> (u64, nat) {
    let s = rng_advance(state);
    (s, (rng_mix(s) as nat) % n)
}

/// The state after a draw with chance `p` percent, and the outcome.
pub open spec fn percent_s(state: u64, p: u32) -> (u64, bool) {
    let (s, r) = below_s(state, 100);
    (s, r < p)
}

impl Rng {
    /// The state.
    pub closed spec fn state(&self) -> u64 {
        self.0
    }

    pub fn new(seed: u64) -> (r: Rng)
        ensures
            r.state() == seed,
    {
        Rng(seed)
    }

    /// The next 64 random bits.
    pub fn next_u64(&mut self) -> (r: u64)
        ensures
            final(self).state() == rng_advance(old(self).state()),
            r == rng_mix(final(self).state()),
    {
        self.0 = self.0.wrapping_add(0x9E37_79B9_7F4A_7C15);
        let mut z = self.0;
        z = (z ^ (z >> 30)).wrapping_mul(0xBF58_476D_1CE4_E5B9);
        z = (z ^ (z >> 27)).wrapping_mul(0x94D0_49BB_1331_11EB);
        z ^ (z >> 31)
    }

    /// Uniform in `0..n`; `n` must be positive.
    pub fn below(&mut self, n: usize) -> (r: usize)
        requires
            n > 0,
        ensures
            final(self).state() == rng_advance(old(self).state()),
            r == rng_mix(rng_advance(old(self).state())) % (n as u64),
            r < n,
            (final(self).state(), r as nat) == below_s(old(self).state(), n as nat),
    {
        let x = self.next_u64();
        let r = x % (n as u64);
        r as usize
    }

    /// True with probability `p` percent.
    pub fn percent(&mut self, p: u32) -> (r: bool)
        ensures
            final(self).state() == rng_advance(old(self).state()),
            r == (rng_mix(rng_advance(old(self).state())) % 100 < p),
            (final(self).state(), r) == percent_s(old(self).state(), p),
    {
        self.below(100) < p as usize
    }
}

// ---------------------------------------------------------------------------
// Configuration.
// ---------------------------------------------------------------------------
#[derive(Clone, Debug)]
pub struct GenConfig {
    pub headers: usize,
    pub tus: usize,
    /// Mean number of `#include` lines per header.
    pub includes_per_header: usize,
    pub includes_per_tu: usize,
    pub module_size: usize,
    pub unguarded_percent: u32,
    pub pragma_once_percent: u32,
    pub conditional_percent: u32,
    pub missing_percent: u32,
    /// Chance that a guarded header also includes a later guarded header of
    /// its module, closing an include cycle.
    pub cycle_percent: u32,
    pub seed: u64,
}

impl GenConfig {
    /// A small project that exercises every feature: unguarded headers,
    /// pragma once, conditional and missing includes, and guarded cycles.
    pub fn small(seed: u64) -> (c: GenConfig)
        ensures
            c.headers == 40 && c.tus == 6 && c.includes_per_header == 3 && c.includes_per_tu == 4,
            c.module_size == 10 && c.unguarded_percent == 15 && c.pragma_once_percent == 25,
            c.conditional_percent == 10 && c.missing_percent == 3 && c.cycle_percent == 8 && c.seed == seed,
    {
        GenConfig {
            headers: 40,
            tus: 6,
            includes_per_header: 3,
            includes_per_tu: 4,
            module_size: 10,
            unguarded_percent: 15,
            pragma_once_percent: 25,
            conditional_percent: 10,
            missing_percent: 3,
            cycle_percent: 8,
            seed,
        }
    }

    /// The size used by the benchmark: 5,000 headers, 2,000 TUs and roughly
    /// 60k include edges.
    pub fn benchmark(seed: u64) -> (c: GenConfig)
        ensures
            c.headers == 5000 && c.tus == 2000 && c.includes_per_header == 11 && c.includes_per_tu == 3,
            c.module_size == 250 && c.unguarded_percent == 2 && c.pragma_once_percent == 30,
            c.conditional_percent == 5 && c.missing_percent == 0 && c.cycle_percent == 1 && c.seed == seed,
    {
        GenConfig {
            headers: 5000,
            tus: 2000,
            includes_per_header: 11,
            includes_per_tu: 3,
            module_size: 250,
            unguarded_percent: 2,
            pragma_once_percent: 30,
            conditional_percent: 5,
            missing_percent: 0,
            cycle_percent: 1,
            seed,
        }
    }
}

#[derive(Clone, Debug)]
pub struct GeneratedProject {
    /// `(relative path, contents)`
    pub files: Vec<(String, String)>,
    pub tus: Vec<String>,
    pub include_dirs: Vec<String>,
    pub include_edges: usize,
}

#[derive(Clone, Copy, PartialEq, Eq, Structural)]
pub enum Style {
    Macro,
    Pragma,
    Unguarded,
}

// ---------------------------------------------------------------------------
// Text.
// ---------------------------------------------------------------------------
/// `include/mod{h / module_size}/h{h % module_size}.h`
pub open spec fn header_path_spec(h: nat, module_size: nat) -> Seq<char> {
    "include/mod"@ + decimal(h / module_size) + "/h"@ + decimal(h % module_size) + ".h"@
}

/// `src/tu{t}.cpp`
pub open spec fn tu_path_spec(t: nat) -> Seq<char> {
    "src/tu"@ + decimal(t) + ".cpp"@
}

fn header_path(h: usize, module_size: usize) -> (r: String)
    requires
        module_size > 0,
    ensures
        r@ == header_path_spec(h as nat, module_size as nat),
{
    let mut r = String::new();
    push_str(&mut r, "include/mod");
    push_decimal(&mut r, (h / module_size) as u64);
    push_str(&mut r, "/h");
    push_decimal(&mut r, (h % module_size) as u64);
    push_str(&mut r, ".h");
    proof {
        assert(r@ =~= header_path_spec(h as nat, module_size as nat));
    }
    r
}

fn tu_path(t: usize) -> (r: String)
    ensures
        r@ == tu_path_spec(t as nat),
{
    let mut r = String::new();
    push_str(&mut r, "src/tu");
    push_decimal(&mut r, t as u64);
    push_str(&mut r, ".cpp");
    proof {
        assert(r@ =~= tu_path_spec(t as nat));
    }
    r
}

/// How header `from` names header `to`: same-module includes use a quoted
/// name relative to the including file, so the includer's directory is
/// searched; others go through `-I`.
pub open spec fn spell_spec(from: nat, to: nat, module_size: nat) -> Seq<char> {
    if from / module_size == to / module_size {
        "\"h"@ + decimal(to % module_size) + ".h\""@
    } else {
        "<mod"@ + decimal(to / module_size) + "/h"@ + decimal(to % module_size) + ".h>"@
    }
}

fn spell(from: usize, to: usize, module_size: usize) -> (r: String)
    requires
        module_size > 0,
    ensures
        r@ == spell_spec(from as nat, to as nat, module_size as nat),
{
    let mut r = String::new();
    if from / module_size == to / module_size {
        push_str(&mut r, "\"h");
        push_decimal(&mut r, (to % module_size) as u64);
        push_str(&mut r, ".h\"");
    } else {
        push_str(&mut r, "<mod");
        push_decimal(&mut r, (to / module_size) as u64);
        push_str(&mut r, "/h");
        push_decimal(&mut r, (to % module_size) as u64);
        push_str(&mut r, ".h>");
    }
    proof {
        assert(r@ =~= spell_spec(from as nat, to as nat, module_size as nat));
    }
    r
}

/// The lines for include `i`: wrapped in `#ifdef FEATURE_{i}` when conditional.
pub open spec fn include_lines(i: nat, spelling: Seq<char>, conditional: bool) -> Seq<char> {
    if conditional {
        "#ifdef FEATURE_"@ + decimal(i) + "\n#include "@ + spelling + "\n#endif\n"@
    } else {
        "#include "@ + spelling + "\n"@
    }
}

/// The spellings and conditions of a list of includes.
pub open spec fn incl_view(v: Seq<(String, bool)>) -> Seq<(Seq<char>, bool)> {
    v.map_values(|e: (String, bool)| (e.0@, e.1))
}

/// The include lines of the first `k` includes.
pub open spec fn includes_text(includes: Seq<(Seq<char>, bool)>, k: int) -> Seq<char>
    decreases k,
{
    if k <= 0 {
        Seq::empty()
    } else {
        includes_text(includes, k - 1) + include_lines((k - 1) as nat, includes[k - 1].0, includes[k - 1].1)
    }
}

fn write_includes(text: &mut String, includes: &Vec<(String, bool)>)
    ensures
        final(text)@ == old(text)@ + includes_text(incl_view(includes@), includes@.len() as int),
{
    let mut i: usize = 0;
    while i < includes.len()
        invariant
            i <= includes@.len(),
            text@ == old(text)@ + includes_text(incl_view(includes@), i as int),
        decreases includes@.len() - i,
    {
        let ghost before = text@;
        if includes[i].1 {
            push_str(text, "#ifdef FEATURE_");
            push_decimal(text, i as u64);
            push_str(text, "\n#include ");
            push_str(text, includes[i].0.as_str());
            push_str(text, "\n#endif\n");
        } else {
            push_str(text, "#include ");
            push_str(text, includes[i].0.as_str());
            push_str(text, "\n");
        }
        proof {
            assert(text@ =~= before + include_lines(i as nat, includes@[i as int].0@, includes@[i as int].1));
        }
        i += 1;
    }
}

/// ASCII letters in upper case, other characters unchanged.
pub open spec fn upper(c: char) -> char {
    if 'a' <= c && c <= 'z' {
        ((c as u32) - 32) as char
    } else {
        c
    }
}

fn push_upper(text: &mut String, s: &str)
    ensures
        final(text)@ == old(text)@ + s@.map_values(|c: char| upper(c)),
{
    let n = s.unicode_len();
    let mut i: usize = 0;
    while i < n
        invariant
            n == s@.len(),
            i <= n,
            text@ == old(text)@ + s@.take(i as int).map_values(|c: char| upper(c)),
        decreases n - i,
    {
        let c = s.get_char(i);
        let u = if 'a' <= c && c <= 'z' {
            ((c as u8) - 32) as char
        } else {
            c
        };
        push_char(text, u);
        proof {
            assert(s@.take(i + 1).map_values(|c: char| upper(c)) =~= s@.take(i as int).map_values(|c: char| upper(c)).push(
                upper(c),
            ));
        }
        i += 1;
    }
    proof {
        assert(s@.take(n as int) =~= s@);
    }
}

/// `d` written with at least three digits.
pub open spec fn pad3(d: nat) -> Seq<char> {
    (if d < 100 {
        seq!['0']
    } else {
        Seq::empty()
    }) + (if d < 10 {
        seq!['0']
    } else {
        Seq::empty()
    }) + decimal(d)
}

/// Line `n` of filler code named after `name`, drawn from `state`.
pub open spec fn body_line(state: u64, name: Seq<char>, n: nat) -> (u64, Seq<char>) {
    let (s1, kind) = below_s(state, 7);
    if kind == 0 {
        let (s2, a) = below_s(s1, 97);
        let (s3, b) = below_s(s2, 1000);
        (
            s3,
            "int "@ + name + "_fn"@ + decimal(n) + "(int x) { return x * "@ + decimal(a) + " + "@ + decimal(b)
                + "; }\n"@,
        )
    } else if kind == 1 {
        (s1, "// note "@ + decimal(n) + ": comments do not count toward the weight\n"@)
    } else if kind == 2 {
        (s1, "\n"@)
    } else if kind == 3 {
        (s1, "/* block comment "@ + decimal(n) + "\n   spanning two lines */\n"@)
    } else if kind == 4 {
        (s1, "static const char* "@ + name + "_s"@ + decimal(n) + " = \"a//b/*c*/\";\n"@)
    } else if kind == 5 {
        (s1, "struct "@ + name + "_S"@ + decimal(n) + " { int a; double b; };  // trailing\n"@)
    } else {
        let (s2, d) = below_s(s1, 1000);
        (s2, "    constexpr long "@ + name + "_k"@ + decimal(n) + " = 1'000'"@ + pad3(d) + ";\n"@)
    }
}

/// The first `k` lines of filler code, and the state after drawing them.
pub open spec fn body_spec(state: u64, name: Seq<char>, k: nat) -> (u64, Seq<char>)
    decreases k,
{
    if k == 0 {
        (state, Seq::empty())
    } else {
        let (s, t) = body_spec(state, name, (k - 1) as nat);
        let (s2, l) = body_line(s, name, (k - 1) as nat);
        (s2, t + l)
    }
}

/// The function line of filler code: `int {name}_fn{n}(int x) ...`.
fn push_fn_line(rng: &mut Rng, text: &mut String, name: &str, n: usize)
    ensures
        ({
            let (s2, a) = below_s(old(rng).state(), 97);
            let (s3, b) = below_s(s2, 1000);
            &&& final(rng).state() == s3
            &&& final(text)@ == old(text)@ + "int "@ + name@ + "_fn"@ + decimal(n as nat) + "(int x) { return x * "@
                + decimal(a) + " + "@ + decimal(b) + "; }\n"@
        }),
{
    let a = rng.below(97);
    let b = rng.below(1000);
    push_str(text, "int ");
    push_str(text, name);
    push_str(text, "_fn");
    push_decimal(text, n as u64);
    push_str(text, "(int x) { return x * ");
    push_decimal(text, a as u64);
    push_str(text, " + ");
    push_decimal(text, b as u64);
    push_str(text, "; }\n");
    proof {
        assert(text@ =~= old(text)@ + "int "@ + name@ + "_fn"@ + decimal(n as nat) + "(int x) { return x * "@
            + decimal(a as nat) + " + "@ + decimal(b as nat) + "; }\n"@);
    }
}

/// The constant line of filler code, with a digit-separated literal.
fn push_const_line(rng: &mut Rng, text: &mut String, name: &str, n: usize)
    ensures
        ({
            let (s2, d) = below_s(old(rng).state(), 1000);
            &&& final(rng).state() == s2
            &&& final(text)@ == old(text)@ + "    constexpr long "@ + name@ + "_k"@ + decimal(n as nat) + " = 1'000'"@
                + pad3(d) + ";\n"@
        }),
{
    let d = rng.below(1000);
    push_str(text, "    constexpr long ");
    push_str(text, name);
    push_str(text, "_k");
    push_decimal(text, n as u64);
    push_str(text, " = 1'000'");
    let ghost mid = text@;
    if d < 100 {
        push_char(text, '0');
    }
    if d < 10 {
        push_char(text, '0');
    }
    push_decimal(text, d as u64);
    push_str(text, ";\n");
    proof {
        assert(text@ =~= mid + pad3(d as nat) + ";\n"@);
        assert(text@ =~= old(text)@ + "    constexpr long "@ + name@ + "_k"@ + decimal(n as nat) + " = 1'000'"@
            + pad3(d as nat) + ";\n"@);
    }
}

/// Line `n` of filler code.
fn push_line(rng: &mut Rng, text: &mut String, name: &str, n: usize)
    ensures
        final(rng).state() == body_line(old(rng).state(), name@, n as nat).0,
        final(text)@ == old(text)@ + body_line(old(rng).state(), name@, n as nat).1,
{
    let kind = rng.below(7);
    if kind == 0 {
        push_fn_line(rng, text, name, n);
    } else if kind == 1 {
        push_str(text, "// note ");
        push_decimal(text, n as u64);
        push_str(text, ": comments do not count toward the weight\n");
        proof {
            assert(text@ =~= old(text)@ + "// note "@ + decimal(n as nat) + ": comments do not count toward the weight\n"@);
        }
    } else if kind == 2 {
        push_str(text, "\n");
    } else if kind == 3 {
        push_str(text, "/* block comment ");
        push_decimal(text, n as u64);
        push_str(text, "\n   spanning two lines */\n");
        proof {
            assert(text@ =~= old(text)@ + "/* block comment "@ + decimal(n as nat) + "\n   spanning two lines */\n"@);
        }
    } else if kind == 4 {
        push_str(text, "static const char* ");
        push_str(text, name);
        push_str(text, "_s");
        push_decimal(text, n as u64);
        push_str(text, " = \"a//b/*c*/\";\n");
        proof {
            assert(text@ =~= old(text)@ + "static const char* "@ + name@ + "_s"@ + decimal(n as nat)
                + " = \"a//b/*c*/\";\n"@);
        }
    } else if kind == 5 {
        push_str(text, "struct ");
        push_str(text, name);
        push_str(text, "_S");
        push_decimal(text, n as u64);
        push_str(text, " { int a; double b; };  // trailing\n");
        proof {
            assert(text@ =~= old(text)@ + "struct "@ + name@ + "_S"@ + decimal(n as nat)
                + " { int a; double b; };  // trailing\n"@);
        }
    } else {
        push_const_line(rng, text, name, n);
    }
}

/// Appends `lines` lines of filler code and comments named after `name`.
fn body(rng: &mut Rng, text: &mut String, name: &str, lines: usize)
    ensures
        final(rng).state() == body_spec(old(rng).state(), name@, lines as nat).0,
        final(text)@ == old(text)@ + body_spec(old(rng).state(), name@, lines as nat).1,
{
    let ghost st0 = rng.state();
    let mut n: usize = 0;
    while n < lines
        invariant
            n <= lines,
            rng.state() == body_spec(st0, name@, n as nat).0,
            text@ == old(text)@ + body_spec(st0, name@, n as nat).1,
        decreases lines - n,
    {
        let ghost before = text@;
        let ghost s0 = rng.state();
        push_line(rng, text, name, n);
        proof {
            let (s1, l) = body_line(s0, name@, n as nat);
            assert(body_spec(st0, name@, (n + 1) as nat) == (s1, body_spec(st0, name@, n as nat).1 + l));
            assert(text@ =~= old(text)@ + body_spec(st0, name@, (n + 1) as nat).1);
        }
        n += 1;
    }
}

/// The first line of a generated header.
pub open spec fn header_banner(name: Seq<char>) -> Seq<char> {
    "// "@ + name + ": generated header\n\n"@
}

/// The guard macro of header `name`.
pub open spec fn guard_macro(name: Seq<char>) -> Seq<char> {
    name.map_values(|c: char| upper(c)) + "_H"@
}

/// The lines that open a header in `style`.
pub open spec fn guard_open(name: Seq<char>, style: Style) -> Seq<char> {
    match style {
        Style::Macro => "#ifndef "@ + guard_macro(name) + "\n#define "@ + guard_macro(name) + "\n\n"@,
        Style::Pragma => "#pragma once\n\n"@,
        Style::Unguarded => Seq::empty(),
    }
}

/// The line that closes a header in `style`.
pub open spec fn guard_close(name: Seq<char>, style: Style) -> Seq<char> {
    if style == Style::Macro {
        "#endif // "@ + guard_macro(name) + "\n"@
    } else {
        Seq::empty()
    }
}

/// The number of filler lines of a header, and the state after drawing it.
pub open spec fn header_lines(state: u64) -> (u64, nat) {
    let (s1, big) = percent_s(state, 5);
    if big {
        let (s2, r) = below_s(s1, 160);
        (s2, 40 + r)
    } else {
        let (s2, r) = below_s(s1, 25);
        (s2, 3 + r)
    }
}

/// A header named `name` guarded in `style`, with `includes` and filler code
/// drawn from `state`; and the state afterwards.
pub open spec fn header_text_spec(state: u64, name: Seq<char>, style: Style, includes: Seq<(Seq<char>, bool)>) -> (
    u64,
    Seq<char>,
) {
    let (s1, lines) = header_lines(state);
    let (s2, b) = body_spec(s1, name, lines);
    (
        s2,
        header_banner(name) + guard_open(name, style) + includes_text(includes, includes.len() as int) + b
            + guard_close(name, style),
    )
}

/// A header named `name` guarded in `style`, with `includes` and filler code.
fn header_text(rng: &mut Rng, name: &str, style: Style, includes: &Vec<(String, bool)>) -> (r: String)
    ensures
        (final(rng).state(), r@) == header_text_spec(old(rng).state(), name@, style, incl_view(includes@)),
{
    let mut text = String::new();
    push_str(&mut text, "// ");
    push_str(&mut text, name);
    push_str(&mut text, ": generated header\n\n");
    let ghost banner = text@;
    proof {
        assert(banner =~= header_banner(name@));
    }
    let mut guard = String::new();
    push_upper(&mut guard, name);
    push_str(&mut guard, "_H");
    proof {
        assert(guard@ =~= guard_macro(name@));
    }
    match style {
        Style::Macro => {
            push_str(&mut text, "#ifndef ");
            push_str(&mut text, guard.as_str());
            push_str(&mut text, "\n#define ");
            push_str(&mut text, guard.as_str());
            push_str(&mut text, "\n\n");
        },
        Style::Pragma => push_str(&mut text, "#pragma once\n\n"),
        Style::Unguarded => {},
    }
    let ghost t1 = text@;
    proof {
        assert(t1 =~= banner + guard_open(name@, style));
    }
    write_includes(&mut text, includes);
    let ghost t2 = text@;
    let ghost s0 = rng.state();
    let lines = if rng.percent(5) {
        40 + rng.below(160)
    } else {
        3 + rng.below(25)
    };
    proof {
        assert((rng.state(), lines as nat) == header_lines(s0));
    }
    body(rng, &mut text, name, lines);
    let ghost t3 = text@;
    if style == Style::Macro {
        push_str(&mut text, "#endif // ");
        push_str(&mut text, guard.as_str());
        push_str(&mut text, "\n");
    }
    proof {
        assert(text@ =~= t3 + guard_close(name@, style));
        assert(incl_view(includes@).len() == includes@.len());
        assert(text@ =~= header_banner(name@) + guard_open(name@, style) + includes_text(
            incl_view(includes@),
            includes@.len() as int,
        ) + body_spec(header_lines(s0).0, name@, header_lines(s0).1).1 + guard_close(name@, style));
    }
    text
}

/// `mod{k}_h{local}`
fn header_name(k: usize, local: usize) -> (r: String)
    ensures
        r@ == "mod"@ + decimal(k as nat) + "_h"@ + decimal(local as nat),
{
    let mut r = String::new();
    push_str(&mut r, "mod");
    push_decimal(&mut r, k as u64);
    push_str(&mut r, "_h");
    push_decimal(&mut r, local as u64);
    proof {
        assert(r@ =~= "mod"@ + decimal(k as nat) + "_h"@ + decimal(local as nat));
    }
    r
}

/// The modules above `k` in the binary tree of modules, nearest first.
pub open spec fn ancestors_spec(k: nat) -> Seq<nat>
    decreases k,
{
    if k == 0 {
        Seq::empty()
    } else {
        let m = ((k - 1) / 2) as nat;
        seq![m] + ancestors_spec(m)
    }
}

pub open spec fn nats(v: Seq<usize>) -> Seq<nat> {
    v.map_values(|x: usize| x as nat)
}

/// The modules above `k` in the binary tree of modules, nearest first.
fn ancestors(k: usize) -> (out: Vec<usize>)
    ensures
        forall|i: int| 0 <= i < out@.len() ==> #[trigger] out@[i] < k,
        nats(out@) == ancestors_spec(k as nat),
{
    let mut out: Vec<usize> = Vec::new();
    let mut m = k;
    while m > 0
        invariant
            m <= k,
            forall|i: int| 0 <= i < out@.len() ==> #[trigger] out@[i] < k,
            nats(out@) + ancestors_spec(m as nat) == ancestors_spec(k as nat),
        decreases m,
    {
        let ghost before = nats(out@);
        let ghost m0 = m;
        m = (m - 1) / 2;
        out.push(m);
        proof {
            assert(nats(out@) =~= before.push(m as nat));
            assert(ancestors_spec(m0 as nat) == seq![m as nat] + ancestors_spec(m as nat));
            assert(nats(out@) + ancestors_spec(m as nat) =~= before + ancestors_spec(m0 as nat));
        }
    }
    proof {
        assert(nats(out@) + ancestors_spec(0) =~= nats(out@));
    }
    out
}

/// A header of module `k` drawn from `state`, and the state afterwards.
pub open spec fn header_in_s(state: u64, k: nat, module_size: nat, headers: nat) -> (u64, nat) {
    let start = k * module_size;
    let end = if headers - start > module_size {
        start + module_size
    } else {
        headers
    };
    let (s, r) = below_s(state, (end - start) as nat);
    (s, start + r)
}

/// A header of module `k`, chosen at random.
fn header_in(rng: &mut Rng, k: usize, module_size: usize, headers: usize) -> (h: usize)
    requires
        module_size > 0,
        k * module_size < headers,
    ensures
        k * module_size <= h < headers,
        h / module_size == k,
        (final(rng).state(), h as nat) == header_in_s(old(rng).state(), k as nat, module_size as nat, headers as nat),
{
    let start = k * module_size;
    let end = if headers - start > module_size {
        start + module_size
    } else {
        headers
    };
    let h = start + rng.below(end - start);
    proof {
        assert(k * module_size <= h < (k + 1) * module_size) by (nonlinear_arith)
            requires
                start == k * module_size,
                start <= h < end,
                end <= start + module_size,
        ;
        lemma_div_in_block(h, k, module_size);
    }
    h
}

proof fn lemma_div_in_block(h: usize, k: usize, m: usize)
    requires
        m > 0,
        k * m <= h < (k + 1) * m,
    ensures
        h / m == k,
{
    vstd::arithmetic::div_mod::lemma_fundamental_div_mod(h as int, m as int);
    assert(h / m == k) by (nonlinear_arith)
        requires
            m > 0,
            k * m <= h < (k + 1) * m,
            h == m * (h / m) + h % m,
            0 <= h % m < m,
    ;
}

/// One drawn include of header `h` (module `k`, index `local` in it), with
/// `missing` missing includes made so far: the state afterwards, the new
/// count, and the include unless the draw found no header to include.
pub open spec fn include_step_s(
    state: u64,
    cfg: GenConfig,
    h: nat,
    k: nat,
    local: nat,
    module_size: nat,
    anc: Seq<nat>,
    missing: nat,
) -> (u64, nat, Option<(Seq<char>, bool)>) {
    let (s1, miss) = percent_s(state, cfg.missing_percent);
    if miss {
        let (s2, c) = percent_s(s1, cfg.conditional_percent);
        (s2, missing + 1, Some(("\"missing/absent"@ + decimal(missing + 1) + ".h\""@, c)))
    } else {
        let (s2, same) = if local > 0 {
            if anc.len() == 0 {
                (s1, true)
            } else {
                percent_s(s1, 75)
            }
        } else {
            (s1, false)
        };
        if same {
            let (s3, r) = below_s(s2, local);
            let (s4, c) = percent_s(s3, cfg.conditional_percent);
            (s4, missing, Some((spell_spec(h, k * module_size + r, module_size), c)))
        } else if anc.len() > 0 {
            let (s3, i) = below_s(s2, anc.len());
            let (s4, t) = header_in_s(s3, anc[i as int], module_size, cfg.headers as nat);
            let (s5, c) = percent_s(s4, cfg.conditional_percent);
            (s5, missing, Some((spell_spec(h, t, module_size), c)))
        } else {
            (s2, missing, None)
        }
    }
}

/// The first `w` draws of includes.
pub open spec fn include_loop_s(
    state: u64,
    cfg: GenConfig,
    h: nat,
    k: nat,
    local: nat,
    module_size: nat,
    anc: Seq<nat>,
    missing: nat,
    w: nat,
) -> (u64, nat, Seq<(Seq<char>, bool)>)
    decreases w,
{
    if w == 0 {
        (state, missing, Seq::empty())
    } else {
        let prev = include_loop_s(state, cfg, h, k, local, module_size, anc, missing, (w - 1) as nat);
        let step = include_step_s(prev.0, cfg, h, k, local, module_size, anc, prev.1);
        (
            step.0,
            step.1,
            match step.2 {
                Some(e) => prev.2.push(e),
                None => prev.2,
            },
        )
    }
}

/// How many includes a header in `style` draws.
pub open spec fn wanted_s(state: u64, cfg: GenConfig, style: Style) -> (u64, nat) {
    if style == Style::Unguarded {
        below_s(state, 2)
    } else {
        let (s, r) = below_s(state, (cfg.includes_per_header + 1) as nat);
        (s, cfg.includes_per_header as nat / 2 + r)
    }
}

/// The include of a later header of the same module that closes a cycle,
/// when one is drawn.
pub open spec fn cycle_s(
    state: u64,
    cfg: GenConfig,
    styles: Seq<Style>,
    h: nat,
    k: nat,
    module_size: nat,
    incs: Seq<(Seq<char>, bool)>,
) -> (u64, Seq<(Seq<char>, bool)>) {
    if styles[h as int] != Style::Unguarded {
        let (s1, cyc) = percent_s(state, cfg.cycle_percent);
        if cyc {
            let start = k * module_size;
            let end: int = if cfg.headers - start > module_size {
                (start + module_size) as int
            } else {
                cfg.headers as int
            };
            if h + 1 < end {
                let (s2, r) = below_s(s1, (end - h - 1) as nat);
                let later = h + 1 + r;
                if styles[later as int] != Style::Unguarded {
                    (s2, incs.push((spell_spec(h, later, module_size), false)))
                } else {
                    (s2, incs)
                }
            } else {
                (s1, incs)
            }
        } else {
            (s1, incs)
        }
    } else {
        (state, incs)
    }
}

/// The includes of header `h`, the missing count afterwards, and the state.
pub open spec fn header_includes_spec(
    state: u64,
    cfg: GenConfig,
    styles: Seq<Style>,
    h: nat,
    module_size: nat,
    missing: nat,
) -> (u64, nat, Seq<(Seq<char>, bool)>) {
    let k = h / module_size;
    let local = h % module_size;
    let (s1, wanted) = wanted_s(state, cfg, styles[h as int]);
    let (s2, m2, incs) = include_loop_s(s1, cfg, h, k, local, module_size, ancestors_spec(k), missing, wanted);
    let (s3, incs2) = cycle_s(s2, cfg, styles, h, k, module_size, incs);
    (s3, m2, incs2)
}

/// One draw of an include of header `h`.
fn include_step(
    rng: &mut Rng,
    cfg: &GenConfig,
    h: usize,
    k: usize,
    local: usize,
    module_size: usize,
    anc: &Vec<usize>,
    missing_counter: &mut usize,
) -> (r: Option<(String, bool)>)
    requires
        h < cfg.headers,
        module_size > 0,
        k == h / module_size,
        local == h % module_size,
        k * module_size + local == h,
        forall|i: int| 0 <= i < anc@.len() ==> #[trigger] anc@[i] < k,
        *old(missing_counter) < usize::MAX,
    ensures
        ({
            let step = include_step_s(
                old(rng).state(),
                *cfg,
                h as nat,
                k as nat,
                local as nat,
                module_size as nat,
                nats(anc@),
                *old(missing_counter) as nat,
            );
            &&& final(rng).state() == step.0
            &&& *final(missing_counter) as nat == step.1
            &&& match r {
                Some(e) => step.2 == Some((e.0@, e.1)),
                None => step.2 is None,
            }
        }),
{
    if rng.percent(cfg.missing_percent) {
        *missing_counter += 1;
        let mut sp = String::new();
        push_str(&mut sp, "\"missing/absent");
        push_decimal(&mut sp, *missing_counter as u64);
        push_str(&mut sp, ".h\"");
        proof {
            assert(sp@ =~= "\"missing/absent"@ + decimal(*missing_counter as nat) + ".h\""@);
        }
        let c = rng.percent(cfg.conditional_percent);
        return Some((sp, c));
    }
    let same_module = local > 0 && (anc.len() == 0 || rng.percent(75));
    let target = if same_module {
        k * module_size + rng.below(local)
    } else if anc.len() > 0 {
        let i = rng.below(anc.len());
        let m = anc[i];
        proof {
            assert(m * module_size <= k * module_size) by (nonlinear_arith)
                requires
                    m < k,
            ;
            assert(nats(anc@)[i as int] == m as nat);
        }
        header_in(rng, m, module_size, cfg.headers)
    } else {
        return None;
    };
    let sp = spell(h, target, module_size);
    let c = rng.percent(cfg.conditional_percent);
    Some((sp, c))
}

/// The include lines of header `h`: within its module from earlier headers,
/// or from ancestor modules; sometimes a missing one, and sometimes a later
/// header that closes a cycle.
fn header_includes(
    rng: &mut Rng,
    cfg: &GenConfig,
    styles: &Vec<Style>,
    h: usize,
    module_size: usize,
    missing_counter: &mut usize,
) -> (includes: Vec<(String, bool)>)
    requires
        h < cfg.headers,
        module_size > 0,
        styles@.len() == cfg.headers,
        *old(missing_counter) + per_header_max(*cfg) <= usize::MAX,
    ensures
        includes@.len() <= per_header_max(*cfg),
        *final(missing_counter) <= *old(missing_counter) + per_header_max(*cfg),
        (final(rng).state(), *final(missing_counter) as nat, incl_view(includes@)) == header_includes_spec(
            old(rng).state(),
            *cfg,
            styles@,
            h as nat,
            module_size as nat,
            *old(missing_counter) as nat,
        ),
{
    let k = h / module_size;
    let local = h % module_size;
    proof {
        vstd::arithmetic::div_mod::lemma_fundamental_div_mod(h as int, module_size as int);
        assert(k * module_size + local == h) by (nonlinear_arith)
            requires
                k == h / module_size,
                local == h % module_size,
                h == module_size * (h / module_size) + h % module_size,
        ;
    }
    let anc = ancestors(k);
    let ghost st0 = rng.state();
    let wanted = if styles[h] == Style::Unguarded {
        rng.below(2)
    } else {
        cfg.includes_per_header / 2 + rng.below(cfg.includes_per_header + 1)
    };
    let ghost st1 = rng.state();
    proof {
        assert((st1, wanted as nat) == wanted_s(st0, *cfg, styles@[h as int]));
    }
    let ghost m0 = *missing_counter;
    let mut includes: Vec<(String, bool)> = Vec::new();
    let mut w: usize = 0;
    while w < wanted
        invariant
            w <= wanted,
            wanted + 1 <= per_header_max(*cfg),
            includes@.len() <= w,
            *missing_counter <= m0 + w,
            m0 + per_header_max(*cfg) <= usize::MAX,
            h < cfg.headers,
            module_size > 0,
            k == h / module_size,
            local == h % module_size,
            k * module_size + local == h,
            forall|i: int| 0 <= i < anc@.len() ==> #[trigger] anc@[i] < k,
            nats(anc@) == ancestors_spec(k as nat),
            (rng.state(), *missing_counter as nat, incl_view(includes@)) == include_loop_s(
                st1,
                *cfg,
                h as nat,
                k as nat,
                local as nat,
                module_size as nat,
                nats(anc@),
                m0 as nat,
                w as nat,
            ),
        decreases wanted - w,
    {
        let ghost before = incl_view(includes@);
        let ghost sb = rng.state();
        let ghost mb = *missing_counter;
        w += 1;
        let r = include_step(rng, cfg, h, k, local, module_size, &anc, missing_counter);
        match r {
            Some(e) => {
                includes.push(e);
                proof {
                    assert(incl_view(includes@) =~= before.push((includes@[includes@.len() - 1].0@, includes@[includes@.len() - 1].1)));
                }
            },
            None => {},
        }
    }
    let ghost st2 = rng.state();
    let ghost incs = incl_view(includes@);
    if styles[h] != Style::Unguarded && rng.percent(cfg.cycle_percent) {
        let start = k * module_size;
        let end = if cfg.headers - start > module_size {
            start + module_size
        } else {
            cfg.headers
        };
        if h + 1 < end {
            let later = h + 1 + rng.below(end - h - 1);
            if styles[later] != Style::Unguarded {
                includes.push((spell(h, later, module_size), false));
                proof {
                    assert(incl_view(includes@) =~= incs.push((spell_spec(h as nat, later as nat, module_size as nat), false)));
                }
            }
        }
    }
    proof {
        assert((rng.state(), incl_view(includes@)) == cycle_s(
            st2,
            *cfg,
            styles@,
            h as nat,
            k as nat,
            module_size as nat,
            incs,
        ));
    }
    includes
}

// ---------------------------------------------------------------------------
// The generator.
// ---------------------------------------------------------------------------
/// The guard styles of the first `n` headers, and the state after drawing them.
pub open spec fn styles_s(state: u64, cfg: GenConfig, n: nat) -> (u64, Seq<Style>)
    decreases n,
{
    if n == 0 {
        (state, Seq::empty())
    } else {
        let (s0, prev) = styles_s(state, cfg, (n - 1) as nat);
        let (s1, unguarded) = percent_s(s0, cfg.unguarded_percent);
        if unguarded {
            (s1, prev.push(Style::Unguarded))
        } else {
            let (s2, pragma) = percent_s(s1, cfg.pragma_once_percent);
            (s2, prev.push(if pragma { Style::Pragma } else { Style::Macro }))
        }
    }
}

/// `(path, contents)` of each generated file.
pub open spec fn files_view(v: Seq<(String, String)>) -> Seq<(Seq<char>, Seq<char>)> {
    v.map_values(|e: (String, String)| (e.0@, e.1@))
}

/// The first `n` headers: the state afterwards, the missing includes made,
/// the files, and their include lines.
pub open spec fn headers_s(state: u64, cfg: GenConfig, styles: Seq<Style>, module_size: nat, n: nat) -> (
    u64,
    nat,
    Seq<(Seq<char>, Seq<char>)>,
    nat,
)
    decreases n,
{
    if n == 0 {
        (state, 0, Seq::empty(), 0)
    } else {
        let prev = headers_s(state, cfg, styles, module_size, (n - 1) as nat);
        let h = (n - 1) as nat;
        let (s1, m1, incs) = header_includes_spec(prev.0, cfg, styles, h, module_size, prev.1);
        let name = "mod"@ + decimal(h / module_size) + "_h"@ + decimal(h % module_size);
        let (s2, text) = header_text_spec(s1, name, styles[h as int], incs);
        (s2, m1, prev.2.push((header_path_spec(h, module_size), text)), prev.3 + incs.len())
    }
}

/// The first `i` includes of a TU of module `k` with ancestors `anc`.
pub open spec fn tu_includes_s(state: u64, cfg: GenConfig, k: nat, anc: Seq<nat>, module_size: nat, i: nat) -> (
    u64,
    Seq<(Seq<char>, bool)>,
)
    decreases i,
{
    if i == 0 {
        (state, Seq::empty())
    } else {
        let (s0, prev) = tu_includes_s(state, cfg, k, anc, module_size, (i - 1) as nat);
        let (s1, m) = if anc.len() == 0 {
            (s0, k)
        } else {
            let (s, own) = percent_s(s0, 70);
            if own {
                (s, k)
            } else {
                let (s2, j) = below_s(s, anc.len());
                (s2, anc[j as int])
            }
        };
        let (s2, target) = header_in_s(s1, m, module_size, cfg.headers as nat);
        let sp = "<mod"@ + decimal(m) + "/h"@ + decimal((target - m * module_size) as nat) + ".h>"@;
        let (s3, c) = percent_s(s2, cfg.conditional_percent);
        (s3, prev.push((sp, c)))
    }
}

/// The first `n` TUs: the state afterwards, the files, and their include lines.
pub open spec fn tus_s(state: u64, cfg: GenConfig, module_size: nat, modules: nat, n: nat) -> (
    u64,
    Seq<(Seq<char>, Seq<char>)>,
    nat,
)
    decreases n,
{
    if n == 0 {
        (state, Seq::empty(), 0)
    } else {
        let prev = tus_s(state, cfg, module_size, modules, (n - 1) as nat);
        let t = (n - 1) as nat;
        let k = t % modules;
        let (s1, incs) = if cfg.headers > 0 {
            tu_includes_s(prev.0, cfg, k, ancestors_spec(k), module_size, cfg.includes_per_tu as nat)
        } else {
            (prev.0, Seq::empty())
        };
        let (s2, r) = below_s(s1, 12);
        let (s3, b) = body_spec(s2, "tu"@ + decimal(t), 4 + r);
        (s3, prev.1.push((tu_path_spec(t), includes_text(incs, incs.len() as int) + b)), prev.2 + incs.len())
    }
}

/// A bound on the include lines one header gets: at most one and a half
/// times `includes_per_header` drawn, or one for an unguarded header, plus
/// one that closes a cycle.
pub open spec fn per_header_max(cfg: GenConfig) -> int {
    cfg.includes_per_header / 2 + cfg.includes_per_header + 2
}

/// The most include lines a project of `cfg` can get; the counts of include
/// lines and of missing headers are kept in a `usize`.
pub open spec fn most_includes(cfg: GenConfig) -> int {
    cfg.headers * per_header_max(cfg) + cfg.tus * cfg.includes_per_tu
}

/// The module size used: `cfg.module_size`, or 1 when that is 0.
pub open spec fn size_of_modules(cfg: GenConfig) -> nat {
    if cfg.module_size > 0 {
        cfg.module_size as nat
    } else {
        1
    }
}

/// The number of modules: enough to hold every header, and at least one.
pub open spec fn module_count(cfg: GenConfig) -> nat {
    let ms = size_of_modules(cfg);
    let ceil = ((cfg.headers + ms - 1) / (ms as int)) as nat;
    if ceil > 0 {
        ceil
    } else {
        1
    }
}

/// The generated files, headers first, and the number of include lines,
/// drawn from the generator seeded with `cfg.seed`.
pub open spec fn generate_spec(cfg: GenConfig) -> (Seq<(Seq<char>, Seq<char>)>, nat) {
    let ms = size_of_modules(cfg);
    let (s1, styles) = styles_s(cfg.seed, cfg, cfg.headers as nat);
    let hs = headers_s(s1, cfg, styles, ms, cfg.headers as nat);
    let ts = tus_s(hs.0, cfg, ms, module_count(cfg), cfg.tus as nat);
    (hs.2 + ts.1, hs.3 + ts.2)
}

/// The include lines of TU `t`, of module `k`.
fn tu_includes(rng: &mut Rng, cfg: &GenConfig, k: usize, anc: &Vec<usize>, module_size: usize, modules: usize) -> (includes: Vec<(String, bool)>)
    requires
        k < modules,
        cfg.headers > 0,
        module_size > 0,
        (modules - 1) * module_size < cfg.headers,
        forall|j: int| 0 <= j < anc@.len() ==> #[trigger] anc@[j] < k,
    ensures
        includes@.len() == cfg.includes_per_tu,
        (final(rng).state(), incl_view(includes@)) == tu_includes_s(
            old(rng).state(),
            *cfg,
            k as nat,
            nats(anc@),
            module_size as nat,
            cfg.includes_per_tu as nat,
        ),
{
    let ghost st0 = rng.state();
    let mut includes: Vec<(String, bool)> = Vec::new();
    let mut i: usize = 0;
    while i < cfg.includes_per_tu
        invariant
            i <= cfg.includes_per_tu,
            includes@.len() == i,
            k < modules,
            cfg.headers > 0,
            module_size > 0,
            (modules - 1) * module_size < cfg.headers,
            forall|j: int| 0 <= j < anc@.len() ==> #[trigger] anc@[j] < k,
            (rng.state(), incl_view(includes@)) == tu_includes_s(
                st0,
                *cfg,
                k as nat,
                nats(anc@),
                module_size as nat,
                i as nat,
            ),
        decreases cfg.includes_per_tu - i,
    {
        let ghost before = incl_view(includes@);
        let m = if anc.len() == 0 || rng.percent(70) {
            k
        } else {
            let j = rng.below(anc.len());
            proof {
                assert(nats(anc@)[j as int] == anc@[j as int] as nat);
            }
            anc[j]
        };
        proof {
            assert(m * module_size < cfg.headers) by (nonlinear_arith)
                requires
                    m <= modules - 1,
                    (modules - 1) * module_size < cfg.headers,
                    module_size > 0,
            ;
        }
        let target = header_in(rng, m, module_size, cfg.headers);
        let local = target - m * module_size;
        let mut sp = String::new();
        push_str(&mut sp, "<mod");
        push_decimal(&mut sp, m as u64);
        push_str(&mut sp, "/h");
        push_decimal(&mut sp, local as u64);
        push_str(&mut sp, ".h>");
        proof {
            assert(sp@ =~= "<mod"@ + decimal(m as nat) + "/h"@ + decimal(local as nat) + ".h>"@);
        }
        let c = rng.percent(cfg.conditional_percent);
        includes.push((sp, c));
        proof {
            assert(incl_view(includes@) =~= before.push((includes@[i as int].0@, c)));
        }
        i += 1;
    }
    includes
}

/// Rounding `h / ms` up, without computing `h + ms - 1`.
proof fn lemma_ceil_div(h: int, ms: int)
    requires
        ms > 0,
        h >= 0,
    ensures
        h % ms == 0 ==> h / ms == (h + ms - 1) / ms,
        h % ms != 0 ==> h / ms + 1 == (h + ms - 1) / ms && h / ms + 1 <= h,
{
    let q = h / ms;
    let r = h % ms;
    vstd::arithmetic::div_mod::lemma_fundamental_div_mod(h, ms);
    assert(h == q * ms + r);
    assert(0 <= r < ms);
    if r == 0 {
        vstd::arithmetic::div_mod::lemma_fundamental_div_mod_converse(h + ms - 1, ms, q, ms - 1);
    } else {
        assert(h + ms - 1 == (q + 1) * ms + (r - 1)) by (nonlinear_arith)
            requires
                h == q * ms + r,
        ;
        vstd::arithmetic::div_mod::lemma_fundamental_div_mod_converse(h + ms - 1, ms, q + 1, r - 1);
        assert(q >= 0) by (nonlinear_arith)
            requires
                h >= 0,
                ms > 0,
                q == h / ms,
        ;
        assert(q + 1 <= h) by (nonlinear_arith)
            requires
                h == q * ms + r,
                r >= 1,
                ms >= 1,
                q >= 0,
        ;
    }
}

/// Generates a project. Module sizes below 1 count as 1.
pub fn generate(cfg: &GenConfig) -> (p: GeneratedProject)
    requires
        most_includes(*cfg) <= usize::MAX,
    ensures
        files_view(p.files@) == generate_spec(*cfg).0,
        p.include_edges == generate_spec(*cfg).1,
        p.files@.len() == cfg.headers + cfg.tus,
        p.tus@.len() == cfg.tus,
        forall|h: int|
            0 <= h < cfg.headers ==> (#[trigger] p.files@[h]).0@ == header_path_spec(h as nat, size_of_modules(*cfg)),
        forall|t: int| 0 <= t < cfg.tus ==> (#[trigger] p.tus@[t])@ == tu_path_spec(t as nat),
        forall|q: int|
            cfg.headers <= q < cfg.headers + cfg.tus ==> (#[trigger] p.files@[q]).0@ == tu_path_spec((q - cfg.headers) as nat),
        strings_view(p.include_dirs@) == seq!["include"@],
{
    let mut rng = Rng::new(cfg.seed);
    let module_size = if cfg.module_size > 0 {
        cfg.module_size
    } else {
        1
    };
    proof {
        lemma_ceil_div(cfg.headers as int, module_size as int);
    }
    let ceil = if cfg.headers % module_size == 0 {
        cfg.headers / module_size
    } else {
        cfg.headers / module_size + 1
    };
    let modules = if ceil > 0 {
        ceil
    } else {
        1
    };
    proof {
        assert(cfg.headers > 0 ==> (modules - 1) * module_size < cfg.headers) by (nonlinear_arith)
            requires
                module_size > 0,
                ceil == (cfg.headers + module_size - 1) as int / module_size as int,
                modules == if ceil > 0 { ceil } else { 1 },
                cfg.headers >= 0,
        ;
        assert(modules as nat == module_count(*cfg));
    }
    let mut styles: Vec<Style> = Vec::new();
    let mut s: usize = 0;
    while s < cfg.headers
        invariant
            s <= cfg.headers,
            styles@.len() == s,
            (rng.state(), styles@) == styles_s(cfg.seed, *cfg, s as nat),
        decreases cfg.headers - s,
    {
        let st = if rng.percent(cfg.unguarded_percent) {
            Style::Unguarded
        } else if rng.percent(cfg.pragma_once_percent) {
            Style::Pragma
        } else {
            Style::Macro
        };
        styles.push(st);
        s += 1;
    }
    let ghost st1 = rng.state();
    let mut files: Vec<(String, String)> = Vec::new();
    let mut include_edges: usize = 0;
    let mut missing_counter: usize = 0;
    let mut h: usize = 0;
    let ghost pm: int = per_header_max(*cfg);
    proof {
        assert(0 <= cfg.tus * cfg.includes_per_tu) by (nonlinear_arith);
        assert(0 <= h * pm) by (nonlinear_arith)
            requires
                pm >= 0,
        ;
    }
    while h < cfg.headers
        invariant
            h <= cfg.headers,
            pm == per_header_max(*cfg),
            cfg.headers * pm <= usize::MAX,
            module_size == size_of_modules(*cfg),
            module_size > 0,
            styles@.len() == cfg.headers,
            (st1, styles@) == styles_s(cfg.seed, *cfg, cfg.headers as nat),
            files@.len() == h,
            forall|q: int| 0 <= q < h ==> (#[trigger] files@[q]).0@ == header_path_spec(q as nat, module_size as nat),
            include_edges <= h * pm,
            missing_counter <= h * pm,
            (rng.state(), missing_counter as nat, files_view(files@), include_edges as nat) == headers_s(
                st1,
                *cfg,
                styles@,
                module_size as nat,
                h as nat,
            ),
        decreases cfg.headers - h,
    {
        let ghost f0 = files_view(files@);
        let ghost fs0 = files@;
        let k = h / module_size;
        let local = h % module_size;
        proof {
            assert(h * pm + pm <= cfg.headers * pm && (h + 1) * pm == h * pm + pm) by (nonlinear_arith)
                requires
                    h + 1 <= cfg.headers,
                    pm >= 0,
            ;
        }
        let includes = header_includes(&mut rng, cfg, &styles, h, module_size, &mut missing_counter);
        include_edges += includes.len();
        let name = header_name(k, local);
        let path = header_path(h, module_size);
        let text = header_text(&mut rng, name.as_str(), styles[h], &includes);
        files.push((path, text));
        proof {
            assert(incl_view(includes@).len() == includes@.len());
            assert(files_view(files@) =~= f0.push((files@[h as int].0@, files@[h as int].1@)));
            assert forall|q: int| 0 <= q < h + 1 implies (#[trigger] files@[q]).0@ == header_path_spec(
                q as nat,
                module_size as nat,
            ) by {
                if q < h {
                    assert(files@[q] == fs0[q]);
                }
            }
        }
        h += 1;
    }
    let ghost hs = headers_s(st1, *cfg, styles@, module_size as nat, cfg.headers as nat);
    let ghost st2 = rng.state();
    let mut tus: Vec<String> = Vec::new();
    let mut t: usize = 0;
    while t < cfg.tus
        invariant
            t <= cfg.tus,
            pm == per_header_max(*cfg),
            cfg.headers * pm + cfg.tus * cfg.includes_per_tu <= usize::MAX,
            module_size > 0,
            module_size == size_of_modules(*cfg),
            modules > 0,
            modules == module_count(*cfg),
            cfg.headers > 0 ==> (modules - 1) * module_size < cfg.headers,
            files@.len() == cfg.headers + t,
            tus@.len() == t,
            forall|q: int| 0 <= q < cfg.headers ==> (#[trigger] files@[q]).0@ == header_path_spec(q as nat, module_size as nat),
            forall|q: int| 0 <= q < t ==> (#[trigger] tus@[q])@ == tu_path_spec(q as nat),
            forall|q: int| cfg.headers <= q < cfg.headers + t ==> (#[trigger] files@[q]).0@ == tu_path_spec((q - cfg.headers) as nat),
            include_edges <= cfg.headers * pm + t * cfg.includes_per_tu,
            hs.2.len() == cfg.headers,
            st2 == hs.0,
            (rng.state(), files_view(files@), include_edges as nat) == ({
                let ts = tus_s(st2, *cfg, module_size as nat, modules as nat, t as nat);
                (ts.0, hs.2 + ts.1, hs.3 + ts.2)
            }),
        decreases cfg.tus - t,
    {
        let k = t % modules;
        let anc = ancestors(k);
        let ghost sb = rng.state();
        let includes = if cfg.headers > 0 {
            tu_includes(&mut rng, cfg, k, &anc, module_size, modules)
        } else {
            Vec::new()
        };
        proof {
            if cfg.headers == 0 {
                assert(incl_view(includes@) =~= Seq::<(Seq<char>, bool)>::empty());
            }
        }
        let ghost sa = rng.state();
        proof {
            assert(t * cfg.includes_per_tu + cfg.includes_per_tu <= cfg.tus * cfg.includes_per_tu) by (nonlinear_arith)
                requires
                    t + 1 <= cfg.tus,
            ;
        }
        include_edges += includes.len();
        let rel = tu_path(t);
        let mut text = String::new();
        write_includes(&mut text, &includes);
        let lines = 4 + rng.below(12);
        let mut name = String::new();
        push_str(&mut name, "tu");
        push_decimal(&mut name, t as u64);
        proof {
            assert(name@ =~= "tu"@ + decimal(t as nat));
        }
        body(&mut rng, &mut text, name.as_str(), lines);
        let ghost f0 = files@;
        let ghost fv0 = files_view(files@);
        let ghost u0 = tus@;
        let ghost rv = rel@;
        let rel2 = rel.clone();
        proof {
            assert(rel2@ == rv);
        }
        tus.push(rel2);
        files.push((rel, text));
        proof {
            assert(include_edges <= cfg.headers * pm + (t + 1) * cfg.includes_per_tu) by (nonlinear_arith)
                requires
                    include_edges <= cfg.headers * pm + t * cfg.includes_per_tu + cfg.includes_per_tu,
            ;
            assert forall|q: int| 0 <= q < cfg.headers implies (#[trigger] files@[q]).0@ == header_path_spec(q as nat, module_size as nat) by {
                assert(files@[q] == f0[q]);
            }
            assert forall|q: int| 0 <= q < t + 1 implies (#[trigger] tus@[q])@ == tu_path_spec(q as nat) by {
                if q < t {
                    assert(tus@[q] == u0[q]);
                } else {
                    assert(tus@[q]@ == rv);
                }
            }
            assert forall|q: int| cfg.headers <= q < cfg.headers + t + 1 implies (#[trigger] files@[q]).0@ == tu_path_spec((q - cfg.headers) as nat) by {
                if q < cfg.headers + t {
                    assert(files@[q] == f0[q]);
                } else {
                    assert(files@[q].0@ == rv);
                }
            }
            assert(incl_view(includes@).len() == includes@.len());
            let ts0 = tus_s(st2, *cfg, module_size as nat, modules as nat, t as nat);
            let ts1 = tus_s(st2, *cfg, module_size as nat, modules as nat, (t + 1) as nat);
            assert(ts1.1 == ts0.1.push((tu_path_spec(t as nat), files@[files@.len() - 1].1@)));
            assert(files_view(files@) =~= fv0.push((files@[files@.len() - 1].0@, files@[files@.len() - 1].1@)));
            assert(files_view(files@) =~= hs.2 + ts1.1);
        }
        t += 1;
    }
    let mut include_dirs: Vec<String> = Vec::new();
    include_dirs.push("include".to_owned());
    proof {
        assert(strings_view(include_dirs@) =~= seq!["include"@]);
    }
    GeneratedProject { files, tus, include_dirs, include_edges }
}

// ---------------------------------------------------------------------------
// Using a generated project.
// ---------------------------------------------------------------------------
/// The file system after writing the first `k` files under `root`.
pub open spec fn memfs_upto(files: Seq<(String, String)>, root: Seq<char>, k: int) -> Map<Seq<char>, Seq<u8>>
    decreases k,
{
    if k <= 0 {
        Map::empty()
    } else {
        memfs_upto(files, root, k - 1).insert(
            normalize_spec(join_spec(root, files[k - 1].0@)),
            vstd::utf8::encode_utf8(files[k - 1].1@),
        )
    }
}

/// The compiler arguments of one TU: `c++ -std=c++17 -I<dir>... -c <tu>`.
pub open spec fn arguments_spec(include_dirs: Seq<Seq<char>>, tu: Seq<char>) -> Seq<Seq<char>> {
    seq!["c++"@, "-std=c++17"@] + include_dirs.map_values(|d: Seq<char>| "-I"@ + d) + seq!["-c"@, tu]
}

impl GeneratedProject {
    /// The compiler arguments of `tu`.
    pub fn arguments(&self, tu: &str) -> (args: Vec<String>)
        ensures
            strings_view(args@) == arguments_spec(strings_view(self.include_dirs@), tu@),
    {
        let mut args: Vec<String> = Vec::new();
        args.push("c++".to_owned());
        args.push("-std=c++17".to_owned());
        let mut i: usize = 0;
        while i < self.include_dirs.len()
            invariant
                i <= self.include_dirs@.len(),
                strings_view(args@) == seq!["c++"@, "-std=c++17"@] + strings_view(self.include_dirs@).take(i as int).map_values(
                    |d: Seq<char>| "-I"@ + d,
                ),
            decreases self.include_dirs@.len() - i,
        {
            let mut a = String::new();
            push_str(&mut a, "-I");
            push_str(&mut a, self.include_dirs[i].as_str());
            let ghost before = strings_view(args@);
            args.push(a);
            proof {
                assert(strings_view(args@) =~= before.push("-I"@ + self.include_dirs@[i as int]@));
                assert(strings_view(self.include_dirs@).take(i + 1) =~= strings_view(self.include_dirs@).take(i as int).push(
                    self.include_dirs@[i as int]@,
                ));
                assert(strings_view(self.include_dirs@).take(i + 1).map_values(|d: Seq<char>| "-I"@ + d) =~= strings_view(
                    self.include_dirs@,
                ).take(i as int).map_values(|d: Seq<char>| "-I"@ + d).push("-I"@ + self.include_dirs@[i as int]@));
            }
            i += 1;
        }
        let ghost mid = strings_view(args@);
        args.push("-c".to_owned());
        args.push(tu.to_owned());
        proof {
            assert(strings_view(self.include_dirs@).take(self.include_dirs@.len() as int) =~= strings_view(self.include_dirs@));
            assert(strings_view(args@) =~= mid + seq!["-c"@, tu@]);
        }
        args
    }

    /// Loads the project into memory under `root`, with one compile command
    /// per TU using `-I<root>/include`.
    pub fn to_memfs(&self, root: &str) -> (r: (MemFs, Vec<CompileCommand>))
        ensures
            r.0@ == memfs_upto(self.files@, root@, self.files@.len() as int),
            r.1@.len() == self.tus@.len(),
            forall|i: int|
                0 <= i < self.tus@.len() ==> (#[trigger] r.1@[i]).directory@ == normalize_spec(root@) && r.1@[i].file@
                    == normalize_spec(join_spec(root@, self.tus@[i]@)) && search_view(r.1@[i].search) == args_fold(
                    arguments_spec(strings_view(self.include_dirs@), self.tus@[i]@),
                    root@,
                    0,
                    no_dirs(),
                ),
    {
        let mut fs = MemFs::new();
        let mut k: usize = 0;
        while k < self.files.len()
            invariant
                k <= self.files@.len(),
                fs@ == memfs_upto(self.files@, root@, k as int),
            decreases self.files@.len() - k,
        {
            let path = join(root, self.files[k].0.as_str());
            fs.insert(path.as_str(), self.files[k].1.as_str().as_bytes());
            k += 1;
        }
        let mut commands: Vec<CompileCommand> = Vec::new();
        let mut i: usize = 0;
        while i < self.tus.len()
            invariant
                i <= self.tus@.len(),
                commands@.len() == i,
                forall|j: int|
                    0 <= j < i ==> (#[trigger] commands@[j]).directory@ == normalize_spec(root@) && commands@[j].file@
                        == normalize_spec(join_spec(root@, self.tus@[j]@)) && search_view(commands@[j].search) == args_fold(
                        arguments_spec(strings_view(self.include_dirs@), self.tus@[j]@),
                        root@,
                        0,
                        no_dirs(),
                    ),
            decreases self.tus@.len() - i,
        {
            let tu = self.tus[i].as_str();
            let args = self.arguments(tu);
            let directory = normalize(root);
            let file = normalize(join(root, tu).as_str());
            let search = search_paths_from_args(args.as_slice(), root);
            commands.push(CompileCommand { directory, file, search });
            i += 1;
        }
        (fs, commands)
    }
}
} // verus!
