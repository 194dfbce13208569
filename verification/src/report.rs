//! Text and JSON rendering of an [`Analysis`].
//!
//! The share of exclusive bytes in inclusive bytes is a floating-point
//! figure; callers format it and hand the text in, one entry per shown
//! header.

use crate::json::{escaped_all, quote};
use crate::order::{path_components, path_tags, tags_view};
use crate::scan::Guard;
use crate::summary::{Analysis, HeaderCost};
use crate::text::{decimal, push_char, push_decimal, push_str};
use vstd::prelude::*;

verus! {

// ---------------------------------------------------------------------------
// Byte counts.
// ---------------------------------------------------------------------------
pub open spec fn p2(n: nat) -> nat
    decreases n,
{
    if n == 0 {
        1
    } else {
        2 * p2((n - 1) as nat)
    }
}

/// Bits dropped when `b` is rounded to a 53-bit significand.
pub open spec fn excess_bits(b: nat) -> nat
    decreases b,
{
    if b < 0x20_0000_0000_0000 {
        0
    } else {
        1 + excess_bits(b / 2)
    }
}

/// `b` rounded to the nearest number with a 53-bit significand, ties to
/// even: the value of `b as f64`.
pub open spec fn round53(b: nat) -> nat {
    let e = excess_bits(b);
    if e == 0 {
        b
    } else {
        let q = b / p2(e);
        let rem = b % p2(e);
        let half = p2((e - 1) as nat);
        let q2 = if rem > half || (rem == half && q % 2 == 1) {
            q + 1
        } else {
            q
        };
        q2 * p2(e)
    }
}

/// The unit a value of `r` bytes (at least 1 KiB) is shown in: 0 KiB, 1 MiB,
/// 2 GiB, 3 TiB.
pub open spec fn unit_of(r: nat) -> nat {
    if r < p2(20) {
        0
    } else if r < p2(30) {
        1
    } else if r < p2(40) {
        2
    } else {
        3
    }
}

/// `num / den` rounded to the nearest integer, ties to even.
pub open spec fn round_div(num: nat, den: nat) -> nat {
    let q = num / den;
    let rem = num % den;
    if 2 * rem > den || (2 * rem == den && q % 2 == 1) {
        q + 1
    } else {
        q
    }
}

pub open spec fn unit_name(u: nat) -> Seq<char> {
    if u == 0 {
        "KiB"@
    } else if u == 1 {
        "MiB"@
    } else if u == 2 {
        "GiB"@
    } else {
        "TiB"@
    }
}

/// Human-readable byte count: exact below 1 KiB, one decimal above, in the
/// largest of KiB, MiB, GiB and TiB that keeps the figure at least 1.
pub open spec fn human_bytes_spec(b: nat) -> Seq<char> {
    if b < 1024 {
        decimal(b) + " B"@
    } else {
        let r = round53(b);
        let u = unit_of(r);
        let tenths = round_div(r * 10, p2(10 * (u + 1)));
        decimal(tenths / 10) + "."@ + decimal(tenths % 10) + " "@ + unit_name(u)
    }
}

proof fn lemma_p2_add(a: nat, b: nat)
    ensures
        p2(a + b) == p2(a) * p2(b),
    decreases b,
{
    if b > 0 {
        lemma_p2_add(a, (b - 1) as nat);
        let x = p2(a);
        let y = p2((b - 1) as nat);
        assert(p2(a + b) == 2 * p2((a + b - 1) as nat));
        assert(p2((a + b - 1) as nat) == x * y);
        assert(p2(b) == 2 * y);
        assert(x * (2 * y) == 2 * (x * y)) by (nonlinear_arith);
        assert(p2(a) * p2(b) == x * (2 * y));
    } else {
        assert(p2(0) == 1);
        assert(p2(a) * 1 == p2(a));
        assert(a + b == a);
    }
}

proof fn lemma_p2_facts()
    ensures
        p2(10) == 1024,
        p2(11) == 2048,
        p2(20) == 1024 * 1024,
        p2(30) == 1024 * 1024 * 1024,
        p2(40) == 1024 * 1024 * 1024 * 1024,
        p2(53) == 0x20_0000_0000_0000,
{
    reveal_with_fuel(p2, 14);
    assert(p2(13) == 8192);
    lemma_p2_add(10, 10);
    lemma_p2_add(20, 10);
    lemma_p2_add(30, 10);
    lemma_p2_add(40, 13);
}

/// Human-readable byte count: exact below 1 KiB, one decimal above.
pub fn human_bytes(b: u64) -> (s: String)
    ensures
        s@ == human_bytes_spec(b as nat),
{
    let mut s = String::new();
    if b < 1024 {
        push_decimal(&mut s, b);
        push_str(&mut s, " B");
        proof {
            assert(s@ =~= human_bytes_spec(b as nat));
        }
        return s;
    }
    let r = rounded(b);
    proof {
        lemma_p2_facts();
    }
    let (unit, den): (u64, u128) = if r < 1024 * 1024 {
        (0, 1024)
    } else if r < 1024 * 1024 * 1024 {
        (1, 1024 * 1024)
    } else if r < 1024 * 1024 * 1024 * 1024 {
        (2, 1024 * 1024 * 1024)
    } else {
        (3, 1024 * 1024 * 1024 * 1024)
    };
    proof {
        assert(den == p2(10 * (unit + 1) as nat));
    }
    let num: u128 = r * 10;
    let q = num / den;
    let rem = num % den;
    let tenths: u128 = if 2 * rem > den || (2 * rem == den && q % 2 == 1) {
        q + 1
    } else {
        q
    };
    proof {
        assert(r <= 0x1_0000_0000_0000_0000);
        vstd::arithmetic::div_mod::lemma_div_is_ordered_by_denominator(num as int, 1024, den as int);
        assert(tenths <= 0x1000_0000_0000_0000);
    }
    push_decimal(&mut s, (tenths / 10) as u64);
    push_str(&mut s, ".");
    push_decimal(&mut s, (tenths % 10) as u64);
    push_str(&mut s, " ");
    let name = if unit == 0 {
        "KiB"
    } else if unit == 1 {
        "MiB"
    } else if unit == 2 {
        "GiB"
    } else {
        "TiB"
    };
    push_str(&mut s, name);
    proof {
        assert(unit == unit_of(r as nat));
        assert(s@ =~= human_bytes_spec(b as nat));
    }
    s
}

/// `b` rounded to a 53-bit significand, ties to even.
fn rounded(b: u64) -> (r: u128)
    requires
        b >= 1024,
    ensures
        r == round53(b as nat),
        r <= 0x1_0000_0000_0000_0000,
        r >= 1024,
{
    proof {
        lemma_p2_facts();
    }
    if b < 0x20_0000_0000_0000 {
        return b as u128;
    }
    let mut e: u32 = 0;
    let mut q: u64 = b;
    let mut scale: u128 = 1;
    while q >= 0x20_0000_0000_0000
        invariant
            e <= 11,
            scale == p2(e as nat),
            scale <= 2048,
            p2(10) == 1024,
            p2(11) == 2048,
            p2(53) == 0x20_0000_0000_0000,
            q as nat == b as nat / p2(e as nat),
            excess_bits(b as nat) == e + excess_bits(q as nat),
            b >= 0x20_0000_0000_0000,
        decreases q,
    {
        proof {
            lemma_div_twice(b as nat, e as nat);
            if e == 11 {
                assert(b as nat / 2048 <= 0x1F_FFFF_FFFF_FFFF) by (nonlinear_arith)
                    requires
                        b <= u64::MAX,
                ;
                assert(q < 0x20_0000_0000_0000);
            }
            lemma_p2_monotone(10);
            assert(scale <= 1024);
        }
        q = q / 2;
        e = e + 1;
        scale = scale * 2;
    }
    proof {
        assert(e >= 1);
        assert(excess_bits(q as nat) == 0);
        lemma_p2_monotone(e as nat);
        vstd::arithmetic::div_mod::lemma_fundamental_div_mod(b as int, scale as int);
        assert((q as int) * (scale as int) <= b) by (nonlinear_arith)
            requires
                b as int == (scale as int) * ((b as int) / (scale as int)) + (b as int) % (scale as int),
                q as int == (b as int) / (scale as int),
                (b as int) % (scale as int) >= 0,
        ;
    }
    let rem: u128 = (b as u128) - (q as u128) * scale;
    let half: u128 = scale / 2;
    let q2: u128 = if rem > half || (rem == half && q % 2 == 1) {
        (q as u128) + 1
    } else {
        q as u128
    };
    proof {
        assert(rem == (b as nat) % p2(e as nat));
        assert(half == p2((e - 1) as nat));
        assert(q2 * scale <= 0x1_0000_0000_0000_0000) by (nonlinear_arith)
            requires
                q2 <= 0x20_0000_0000_0000,
                scale <= 2048,
        ;
        assert(q2 * scale >= 1024) by (nonlinear_arith)
            requires
                q2 >= q,
                scale >= 1,
                q * scale + rem == b,
                rem < scale,
                scale <= 2048,
                b >= 0x20_0000_0000_0000,
        ;
    }
    q2 * scale
}

proof fn lemma_div_twice(b: nat, e: nat)
    ensures
        b / p2(e) / 2 == b / p2(e + 1),
{
    lemma_p2_monotone(e);
    vstd::arithmetic::div_mod::lemma_div_denominator(b as int, p2(e) as int, 2);
}

proof fn lemma_p2_monotone(e: nat)
    ensures
        p2(e) >= 1,
        forall|f: nat| f <= e ==> p2(f) <= p2(e),
    decreases e,
{
    if e > 0 {
        lemma_p2_monotone((e - 1) as nat);
    }
}


// ---------------------------------------------------------------------------
// Paths as shown.
// ---------------------------------------------------------------------------
/// The text of one component.
pub open spec fn tag_name(t: (u8, Seq<char>)) -> Seq<char> {
    if t.0 == 2 {
        "."@
    } else if t.0 == 3 {
        ".."@
    } else if t.0 == 4 {
        t.1
    } else {
        Seq::empty()
    }
}

/// Components other than the root, joined by slashes.
pub open spec fn join_tags(ts: Seq<(u8, Seq<char>)>) -> Seq<char>
    decreases ts.len(),
{
    if ts.len() == 0 {
        Seq::empty()
    } else if ts.len() == 1 {
        tag_name(ts[0])
    } else {
        tag_name(ts[0]) + "/"@ + join_tags(ts.drop_first())
    }
}

/// A path made of the components `ts`.
pub open spec fn render_tags(ts: Seq<(u8, Seq<char>)>) -> Seq<char> {
    if ts.len() > 0 && ts[0].0 == 1 {
        "/"@ + join_tags(ts.drop_first())
    } else {
        join_tags(ts)
    }
}

/// `path` relative to `base` when `base`'s components begin it; `path`
/// itself otherwise.
pub open spec fn display_spec(path: Seq<char>, base: Seq<char>) -> Seq<char> {
    let pt = path_tags(path);
    let bt = path_tags(base);
    if bt.len() <= pt.len() && pt.subrange(0, bt.len() as int) == bt {
        render_tags(pt.skip(bt.len() as int))
    } else {
        path
    }
}

fn tag_equal(x: &(u8, Vec<char>), y: &(u8, Vec<char>)) -> (r: bool)
    ensures
        r == ((x.0, x.1@) == (y.0, y.1@)),
{
    if x.0 != y.0 || x.1.len() != y.1.len() {
        return false;
    }
    let mut i: usize = 0;
    while i < x.1.len()
        invariant
            x.1@.len() == y.1@.len(),
            i <= x.1@.len(),
            forall|j: int| 0 <= j < i ==> x.1@[j] == y.1@[j],
        decreases x.1@.len() - i,
    {
        if x.1[i] != y.1[i] {
            return false;
        }
        i += 1;
    }
    proof {
        assert(x.1@ =~= y.1@);
    }
    true
}

/// `path` as shown relative to `base`.
pub fn display_path(path: &str, base: &str) -> (r: String)
    ensures
        r@ == display_spec(path@, base@),
{
    let pt = path_components(path);
    let bt = path_components(base);
    let ghost pv = tags_view(pt@);
    let ghost bv = tags_view(bt@);
    let mut prefix = bt.len() <= pt.len();
    let mut i: usize = 0;
    while prefix && i < bt.len()
        invariant
            pv == tags_view(pt@),
            bv == tags_view(bt@),
            i <= bt@.len(),
            prefix ==> bt@.len() <= pt@.len(),
            prefix ==> forall|j: int| 0 <= j < i ==> pv[j] == bv[j],
            !prefix ==> !(bv.len() <= pv.len() && pv.subrange(0, bv.len() as int) == bv),
        decreases bt@.len() - i,
    {
        if !tag_equal(&pt[i], &bt[i]) {
            proof {
                assert(pv[i as int] != bv[i as int]);
                if pv.subrange(0, bv.len() as int) == bv {
                    assert(pv.subrange(0, bv.len() as int)[i as int] == pv[i as int]);
                }
            }
            prefix = false;
        }
        i += 1;
    }
    if !prefix {
        return path.to_owned();
    }
    proof {
        assert(pv.subrange(0, bv.len() as int) =~= bv);
    }
    let k = bt.len();
    let mut out = String::new();
    let mut j = k;
    if j < pt.len() && pt[j].0 == 1 {
        push_str(&mut out, "/");
        j += 1;
    }
    let ghost start = j as int;
    let mut first = true;
    while j < pt.len()
        invariant
            pv == tags_view(pt@),
            k <= start <= j <= pt@.len(),
            first == (j == start),
            out@ == (if start > k {
                "/"@
            } else {
                Seq::<char>::empty()
            }) + join_front(pv.subrange(start, j as int)),
        decreases pt@.len() - j,
    {
        let ghost before = out@;
        if !first {
            push_str(&mut out, "/");
        }
        let t = &pt[j];
        if t.0 == 2 {
            push_str(&mut out, ".");
        } else if t.0 == 3 {
            push_str(&mut out, "..");
        } else if t.0 == 4 {
            crate::text::push_chars(&mut out, t.1.as_slice());
        }
        proof {
            assert(pv[j as int] == (t.0, t.1@));
            lemma_join_front_push(pv.subrange(start, j as int), pv[j as int]);
            assert(pv.subrange(start, j + 1) =~= pv.subrange(start, j as int).push(pv[j as int]));
        }
        first = false;
        j += 1;
    }
    proof {
        let rest = pv.skip(k as int);
        if start > k {
            assert(rest.drop_first() =~= pv.subrange(start, pv.len() as int));
        } else {
            assert(rest =~= pv.subrange(start, pv.len() as int));
        }
        lemma_join_front_eq(pv.subrange(start, pv.len() as int));
    }
    out
}

/// Components joined by slashes, built from the back.
pub open spec fn join_front(ts: Seq<(u8, Seq<char>)>) -> Seq<char>
    decreases ts.len(),
{
    if ts.len() == 0 {
        Seq::empty()
    } else if ts.len() == 1 {
        tag_name(ts[0])
    } else {
        join_front(ts.drop_last()) + "/"@ + tag_name(ts.last())
    }
}

proof fn lemma_join_front_push(ts: Seq<(u8, Seq<char>)>, t: (u8, Seq<char>))
    ensures
        join_front(ts.push(t)) == if ts.len() == 0 {
            tag_name(t)
        } else {
            join_front(ts) + "/"@ + tag_name(t)
        },
{
    assert(ts.push(t).drop_last() =~= ts);
}

proof fn lemma_join_front_eq(ts: Seq<(u8, Seq<char>)>)
    ensures
        join_front(ts) == join_tags(ts),
    decreases ts.len(),
{
    if ts.len() > 1 {
        lemma_join_front_eq(ts.drop_first());
        lemma_join_front_eq(ts.drop_last());
        lemma_join_front_eq(ts.drop_first().drop_last());
        assert(ts.drop_first().drop_last() =~= ts.drop_last().drop_first());
        if ts.len() > 2 {
            assert(join_tags(ts.drop_last()) == tag_name(ts[0]) + "/"@ + join_tags(ts.drop_last().drop_first()));
            assert(ts.drop_first().last() == ts.last());
            assert(join_front(ts.drop_first()) == join_front(ts.drop_first().drop_last()) + "/"@ + tag_name(ts.last()));
            assert(join_front(ts) =~= tag_name(ts[0]) + "/"@ + join_tags(ts.drop_first()));
        } else {
            assert(ts.drop_first().len() == 1);
            assert(ts.drop_last().len() == 1);
            assert(join_front(ts) =~= join_tags(ts));
        }
    }
}

/// How many headers a report shows: `top` of them, or all when `top` is 0.
pub open spec fn shown_spec(total: nat, top: nat) -> nat {
    if top == 0 || top > total {
        total
    } else {
        top
    }
}

/// How many headers a report with `top` shows.
pub fn shown(analysis: &Analysis, top: usize) -> (n: usize)
    ensures
        n == shown_spec(analysis.headers@.len(), top as nat),
{
    let total = analysis.headers.len();
    if top == 0 || top > total {
        total
    } else {
        top
    }
}

// ---------------------------------------------------------------------------
// The text report.
// ---------------------------------------------------------------------------
pub open spec fn spaces(n: int) -> Seq<char> {
    Seq::new(if n > 0 {
        n as nat
    } else {
        0
    }, |i: int| ' ')
}

/// `s` right-aligned in `w` characters.
pub open spec fn pad(s: Seq<char>, w: int) -> Seq<char> {
    if s.len() < w {
        spaces(w - s.len()) + s
    } else {
        s
    }
}

/// `items` joined by `sep`.
pub open spec fn join_with(items: Seq<Seq<char>>, sep: Seq<char>) -> Seq<char>
    decreases items.len(),
{
    if items.len() == 0 {
        Seq::empty()
    } else if items.len() == 1 {
        items[0]
    } else {
        join_with(items.drop_last(), sep) + sep + items.last()
    }
}

/// The notes after a header's path.
pub open spec fn note_text(h: HeaderCost) -> Seq<char> {
    let parts = (if h.guard is Unguarded {
        seq!["unguarded, "@ + decimal(h.expansions as nat) + " expansions"@]
    } else {
        Seq::empty()
    }) + (if h.conditional {
        seq!["conditional"@]
    } else {
        Seq::empty()
    });
    if parts.len() == 0 {
        Seq::empty()
    } else {
        "  ["@ + join_with(parts, "; "@) + "]"@
    }
}

/// The columns of a header's row: rank, exclusive, inclusive, share, TUs, path.
pub open spec fn row_head(rank: nat, h: HeaderCost, pct: Seq<char>, base: Seq<char>) -> Seq<char> {
    pad(decimal(rank), 4) + "  "@ + pad(human_bytes_spec(h.exclusive as nat), 10) + "  "@ + pad(
        human_bytes_spec(h.inclusive as nat),
        10,
    ) + "  "@ + pct + "%  "@ + pad(decimal(h.tus as nat), 5) + "  "@ + display_spec(h.path@, base)
}

/// One header's row: its columns, then its notes.
pub open spec fn row_text(rank: nat, h: HeaderCost, pct: Seq<char>, base: Seq<char>) -> Seq<char> {
    row_head(rank, h, pct, base) + note_text(h) + "\n"@
}

/// A header's row ends with the tag `unguarded, N expansions` exactly when
/// the header has neither an include guard nor `#pragma once`, and with
/// `conditional` exactly when it was included conditionally: a guarded or
/// `#pragma once` header never carries the unguarded tag.
pub proof fn lemma_row_tags(rank: nat, h: HeaderCost, pct: Seq<char>, base: Seq<char>)
    ensures
        row_text(rank, h, pct, base) == row_head(rank, h, pct, base) + (match (h.guard, h.conditional) {
            (Guard::Unguarded, true) => "  ["@ + "unguarded, "@ + decimal(h.expansions as nat) + " expansions"@ + "; "@
                + "conditional"@ + "]"@,
            (Guard::Unguarded, false) => "  ["@ + "unguarded, "@ + decimal(h.expansions as nat) + " expansions"@
                + "]"@,
            (_, true) => "  ["@ + "conditional"@ + "]"@,
            (_, false) => Seq::<char>::empty(),
        }) + "\n"@,
{
    let u = "unguarded, "@ + decimal(h.expansions as nat) + " expansions"@;
    if h.guard is Unguarded && h.conditional {
        let parts = seq![u, "conditional"@];
        assert(parts =~= seq![u] + seq!["conditional"@]);
        assert(parts.drop_last() =~= seq![u]);
        reveal_with_fuel(join_with, 2);
        assert(join_with(parts, "; "@) == u + "; "@ + "conditional"@);
        assert(note_text(h) =~= "  ["@ + "unguarded, "@ + decimal(h.expansions as nat) + " expansions"@ + "; "@
            + "conditional"@ + "]"@);
    } else if h.guard is Unguarded {
        assert(seq![u] + Seq::<Seq<char>>::empty() =~= seq![u]);
        assert(note_text(h) =~= "  ["@ + "unguarded, "@ + decimal(h.expansions as nat) + " expansions"@ + "]"@);
    } else if h.conditional {
        assert(Seq::<Seq<char>>::empty() + seq!["conditional"@] =~= seq!["conditional"@]);
        assert(note_text(h) =~= "  ["@ + "conditional"@ + "]"@);
    } else {
        assert(Seq::<Seq<char>>::empty() + Seq::<Seq<char>>::empty() =~= Seq::<Seq<char>>::empty());
    }
}

/// One carried child: its path and bytes.
pub open spec fn carry_item(c: (String, u64), base: Seq<char>) -> Seq<char> {
    display_spec(c.0@, base) + " "@ + human_bytes_spec(c.1 as nat)
}

pub open spec fn carry_items(cs: Seq<(String, u64)>, base: Seq<char>) -> Seq<Seq<char>>
    decreases cs.len(),
{
    if cs.len() == 0 {
        Seq::empty()
    } else {
        carry_items(cs.drop_last(), base).push(carry_item(cs.last(), base))
    }
}

/// The line listing what a header carries, if it carries anything.
pub open spec fn carries_text(h: HeaderCost, base: Seq<char>) -> Seq<char> {
    if h.carries@.len() == 0 {
        Seq::empty()
    } else {
        spaces(44) + "carries: "@ + join_with(carry_items(h.carries@, base), ", "@) + "\n"@
    }
}

/// The rows of the first `k` headers.
pub open spec fn rows_text(hs: Seq<HeaderCost>, pcts: Seq<String>, base: Seq<char>, k: int) -> Seq<char>
    decreases k,
{
    if k <= 0 {
        Seq::empty()
    } else {
        rows_text(hs, pcts, base, k - 1) + row_text(k as nat, hs[k - 1], pcts[k - 1]@, base) + carries_text(hs[k - 1], base)
    }
}

/// One unresolved directive.
pub open spec fn unresolved_line(u: (String, u32, String, bool), base: Seq<char>) -> Seq<char> {
    "  "@ + display_spec(u.0@, base) + ":"@ + decimal(u.1 as nat) + ": "@ + (if u.3 {
        "<"@
    } else {
        "\""@
    }) + u.2@ + (if u.3 {
        ">"@
    } else {
        "\""@
    }) + "\n"@
}

pub open spec fn unresolved_lines(us: Seq<(String, u32, String, bool)>, base: Seq<char>, k: int) -> Seq<char>
    decreases k,
{
    if k <= 0 {
        Seq::empty()
    } else {
        unresolved_lines(us, base, k - 1) + unresolved_line(us[k - 1], base)
    }
}

/// The unresolved section: the first ten, and how many more there are.
pub open spec fn unresolved_text(us: Seq<(String, u32, String, bool)>, base: Seq<char>) -> Seq<char> {
    if us.len() == 0 {
        Seq::empty()
    } else {
        "\nunresolved includes:\n"@ + unresolved_lines(us, base, if us.len() < 10 {
            us.len() as int
        } else {
            10
        }) + (if us.len() > 10 {
            "  ... "@ + decimal((us.len() - 10) as nat) + " more (see --json)\n"@
        } else {
            Seq::empty()
        })
    }
}

pub open spec fn missing_text(ms: Seq<String>, k: int) -> Seq<char>
    decreases k,
{
    if k <= 0 {
        Seq::empty()
    } else {
        missing_text(ms, k - 1) + "warning: source file not found, TU skipped: "@ + ms[k - 1]@ + "\n"@
    }
}

pub open spec fn cycles_text(cs: Seq<(String, String)>, base: Seq<char>, k: int) -> Seq<char>
    decreases k,
{
    if k <= 0 {
        Seq::empty()
    } else {
        cycles_text(cs, base, k - 1) + "warning: include cycle through unguarded headers cut at "@ + display_spec(
            cs[k - 1].0@,
            base,
        ) + " -> "@ + display_spec(cs[k - 1].1@, base) + "\n"@
    }
}

/// The opening lines: totals and counts of includes.
pub open spec fn totals_text(a: Analysis) -> Seq<char> {
    decimal(a.translation_units as nat) + " translation units, "@ + decimal(a.headers@.len()) + " headers, "@
        + human_bytes_spec(a.total_bytes as nat) + " preprocessed in total\n"@ + decimal(a.unresolved@.len())
        + " unresolved includes, "@ + decimal(a.conditional_includes as nat)
        + " conditional includes (treated as taken), "@ + decimal(a.computed_includes as nat)
        + " computed includes (skipped)\n"@ + "\n"@ + "rank   exclusive   inclusive   excl%    TUs  header\n"@
}

/// The line saying how many headers were left out.
pub open spec fn more_text(total: nat, n: nat) -> Seq<char> {
    if n < total {
        "... "@ + decimal((total - n) as nat) + " more (use --top 0 for all)\n"@
    } else {
        Seq::empty()
    }
}

/// The warning for TUs cut short.
pub open spec fn truncated_text(t: nat) -> Seq<char> {
    if t > 0 {
        "warning: "@ + decimal(t) + " TUs exceeded the node limit; their costs are incomplete\n"@
    } else {
        Seq::empty()
    }
}

/// The text report: totals, a ranked table of the first `shown` headers with
/// the share column `pcts` written by the caller, then unresolved includes
/// and warnings.
pub open spec fn text_spec(a: Analysis, top: nat, base: Seq<char>, pcts: Seq<String>) -> Seq<char> {
    let total = a.headers@.len();
    let n = shown_spec(total, top);
    totals_text(a) + rows_text(a.headers@, pcts, base, n as int) + more_text(total, n) + unresolved_text(
        a.unresolved@,
        base,
    ) + missing_text(a.missing_sources@, a.missing_sources@.len() as int) + cycles_text(
        a.unguarded_cycles@,
        base,
        a.unguarded_cycles@.len() as int,
    ) + truncated_text(a.truncated_tus as nat)
}

fn push_spaces(out: &mut String, n: usize)
    ensures
        final(out)@ == old(out)@ + spaces(n as int),
{
    let mut i: usize = 0;
    while i < n
        invariant
            i <= n,
            out@ == old(out)@ + spaces(i as int),
        decreases n - i,
    {
        push_char(out, ' ');
        proof {
            assert(spaces(i + 1) =~= spaces(i as int).push(' '));
        }
        i += 1;
    }
}

fn push_padded(out: &mut String, s: &str, w: usize)
    ensures
        final(out)@ == old(out)@ + pad(s@, w as int),
{
    let n = s.unicode_len();
    if n < w {
        push_spaces(out, w - n);
    }
    push_str(out, s);
    proof {
        if n < w {
            assert(final(out)@ =~= old(out)@ + pad(s@, w as int)) by {
                assert(out@ =~= old(out)@ + spaces((w - n) as int) + s@);
            }
        } else {
            assert(pad(s@, w as int) == s@);
        }
    }
}

fn decimal_text(n: u64) -> (s: String)
    ensures
        s@ == decimal(n as nat),
{
    crate::text::decimal_string(n)
}

fn push_row_head(out: &mut String, rank: usize, h: &HeaderCost, pct: &String, base: &str)
    requires
        rank <= u64::MAX,
    ensures
        final(out)@ == old(out)@ + row_head(rank as nat, *h, pct@, base@),
{
    let ghost o = out@;
    push_padded(out, decimal_text(rank as u64).as_str(), 4);
    push_str(out, "  ");
    push_padded(out, human_bytes(h.exclusive).as_str(), 10);
    push_str(out, "  ");
    push_padded(out, human_bytes(h.inclusive).as_str(), 10);
    push_str(out, "  ");
    push_str(out, pct.as_str());
    push_str(out, "%  ");
    push_padded(out, decimal_text(h.tus as u64).as_str(), 5);
    push_str(out, "  ");
    push_str(out, display_path(h.path.as_str(), base).as_str());
    proof {
        assert(out@ =~= o + row_head(rank as nat, *h, pct@, base@));
    }
}

fn push_notes(out: &mut String, h: &HeaderCost)
    ensures
        final(out)@ == old(out)@ + note_text(*h),
{
    let ghost before_notes = out@;
    let unguarded = match h.guard {
        Guard::Unguarded => true,
        _ => false,
    };
    if unguarded || h.conditional {
        push_str(out, "  [");
        if unguarded {
            push_str(out, "unguarded, ");
            push_decimal(out, h.expansions);
            push_str(out, " expansions");
            if h.conditional {
                push_str(out, "; ");
            }
        }
        if h.conditional {
            push_str(out, "conditional");
        }
        push_str(out, "]");
    }
    proof {
        let u = "unguarded, "@ + decimal(h.expansions as nat) + " expansions"@;
        if unguarded && h.conditional {
            let parts = seq![u, "conditional"@];
            assert(parts =~= seq![u] + seq!["conditional"@]);
            assert(parts.drop_last() =~= seq![u]);
            reveal_with_fuel(join_with, 2);
            assert(join_with(parts, "; "@) == u + "; "@ + "conditional"@);
        } else if unguarded {
            assert(seq![u] + Seq::<Seq<char>>::empty() =~= seq![u]);
        } else if h.conditional {
            assert(Seq::<Seq<char>>::empty() + seq!["conditional"@] =~= seq!["conditional"@]);
        } else {
            assert(Seq::<Seq<char>>::empty() + Seq::<Seq<char>>::empty() =~= Seq::<Seq<char>>::empty());
        }
        assert(out@ =~= before_notes + note_text(*h));
    }
}

fn push_row(out: &mut String, rank: usize, h: &HeaderCost, pct: &String, base: &str)
    requires
        rank <= u64::MAX,
    ensures
        final(out)@ == old(out)@ + row_text(rank as nat, *h, pct@, base@),
{
    let ghost o = out@;
    push_row_head(out, rank, h, pct, base);
    push_notes(out, h);
    push_str(out, "\n");
    proof {
        assert(out@ =~= o + row_text(rank as nat, *h, pct@, base@));
    }
}

fn push_carries(out: &mut String, h: &HeaderCost, base: &str)
    ensures
        final(out)@ == old(out)@ + carries_text(*h, base@),
{
    if h.carries.len() == 0 {
        proof {
            assert(out@ =~= old(out)@ + carries_text(*h, base@));
        }
        return ;
    }
    push_spaces(out, 44);
    push_str(out, "carries: ");
    let ghost head = out@;
    let mut i: usize = 0;
    while i < h.carries.len()
        invariant
            i <= h.carries@.len(),
            h.carries@.len() > 0,
            out@ == head + join_with(carry_items(h.carries@.take(i as int), base@), ", "@),
        decreases h.carries@.len() - i,
    {
        let ghost before = out@;
        if i > 0 {
            push_str(out, ", ");
        }
        push_str(out, display_path(h.carries[i].0.as_str(), base).as_str());
        push_str(out, " ");
        push_str(out, human_bytes(h.carries[i].1).as_str());
        proof {
            let t = h.carries@.take(i + 1);
            assert(t.drop_last() =~= h.carries@.take(i as int));
            let items = carry_items(t, base@);
            assert(items.drop_last() =~= carry_items(h.carries@.take(i as int), base@));
            assert(items.last() == carry_item(h.carries@[i as int], base@));
            if i == 0 {
                assert(carry_items(h.carries@.take(0), base@) =~= Seq::<Seq<char>>::empty());
                assert(items.len() == 1);
                assert(out@ =~= head + join_with(items, ", "@));
            } else {
                assert(out@ =~= head + join_with(items, ", "@));
            }
        }
        i += 1;
    }
    push_str(out, "\n");
    proof {
        assert(h.carries@.take(h.carries@.len() as int) =~= h.carries@);
        assert(out@ =~= old(out)@ + carries_text(*h, base@));
    }
}

fn push_totals(out: &mut String, analysis: &Analysis)
    ensures
        final(out)@ == old(out)@ + totals_text(*analysis),
{
    push_decimal(out, analysis.translation_units as u64);
    push_str(out, " translation units, ");
    push_decimal(out, analysis.headers.len() as u64);
    push_str(out, " headers, ");
    push_str(out, human_bytes(analysis.total_bytes).as_str());
    push_str(out, " preprocessed in total\n");
    push_decimal(out, analysis.unresolved.len() as u64);
    push_str(out, " unresolved includes, ");
    push_decimal(out, analysis.conditional_includes as u64);
    push_str(out, " conditional includes (treated as taken), ");
    push_decimal(out, analysis.computed_includes as u64);
    push_str(out, " computed includes (skipped)\n");
    push_str(out, "\n");
    push_str(out, "rank   exclusive   inclusive   excl%    TUs  header\n");
    proof {
        assert(out@ =~= old(out)@ + totals_text(*analysis));
    }
}

fn push_rows(out: &mut String, analysis: &Analysis, n: usize, base: &str, pcts: &Vec<String>)
    requires
        n <= analysis.headers@.len(),
        pcts@.len() >= n,
    ensures
        final(out)@ == old(out)@ + rows_text(analysis.headers@, pcts@, base@, n as int),
{
    let mut i: usize = 0;
    while i < n
        invariant
            n <= analysis.headers@.len(),
            pcts@.len() >= n,
            i <= n,
            out@ == old(out)@ + rows_text(analysis.headers@, pcts@, base@, i as int),
        decreases n - i,
    {
        push_row(out, i + 1, &analysis.headers[i], &pcts[i], base);
        push_carries(out, &analysis.headers[i], base);
        proof {
            assert(out@ =~= old(out)@ + rows_text(analysis.headers@, pcts@, base@, i + 1));
        }
        i += 1;
    }
}

fn push_unresolved_line(out: &mut String, u: &(String, u32, String, bool), base: &str)
    ensures
        final(out)@ == old(out)@ + unresolved_line(*u, base@),
{
    push_str(out, "  ");
    push_str(out, display_path(u.0.as_str(), base).as_str());
    push_str(out, ":");
    push_decimal(out, u.1 as u64);
    push_str(out, ": ");
    if u.3 {
        push_str(out, "<");
    } else {
        push_str(out, "\"");
    }
    push_str(out, u.2.as_str());
    if u.3 {
        push_str(out, ">");
    } else {
        push_str(out, "\"");
    }
    push_str(out, "\n");
    proof {
        assert(out@ =~= old(out)@ + unresolved_line(*u, base@));
    }
}

fn push_unresolved(out: &mut String, us: &Vec<(String, u32, String, bool)>, base: &str)
    ensures
        final(out)@ == old(out)@ + unresolved_text(us@, base@),
{
    let nu = us.len();
    if nu == 0 {
        proof {
            assert(out@ =~= old(out)@ + unresolved_text(us@, base@));
        }
        return ;
    }
    push_str(out, "\nunresolved includes:\n");
    let ghost uh = out@;
    let shown_u = if nu < 10 {
        nu
    } else {
        10
    };
    let mut k: usize = 0;
    while k < shown_u
        invariant
            shown_u <= nu,
            nu == us@.len(),
            k <= shown_u,
            out@ == uh + unresolved_lines(us@, base@, k as int),
        decreases shown_u - k,
    {
        push_unresolved_line(out, &us[k], base);
        proof {
            assert(out@ =~= uh + unresolved_lines(us@, base@, k + 1));
        }
        k += 1;
    }
    if nu > 10 {
        push_str(out, "  ... ");
        push_decimal(out, (nu - 10) as u64);
        push_str(out, " more (see --json)\n");
    }
    proof {
        assert(out@ =~= old(out)@ + unresolved_text(us@, base@));
    }
}

fn push_warnings(out: &mut String, analysis: &Analysis, base: &str)
    ensures
        final(out)@ == old(out)@ + missing_text(analysis.missing_sources@, analysis.missing_sources@.len() as int)
            + cycles_text(analysis.unguarded_cycles@, base@, analysis.unguarded_cycles@.len() as int) + truncated_text(
            analysis.truncated_tus as nat,
        ),
{
    let mut m: usize = 0;
    while m < analysis.missing_sources.len()
        invariant
            m <= analysis.missing_sources@.len(),
            out@ == old(out)@ + missing_text(analysis.missing_sources@, m as int),
        decreases analysis.missing_sources@.len() - m,
    {
        push_str(out, "warning: source file not found, TU skipped: ");
        push_str(out, analysis.missing_sources[m].as_str());
        push_str(out, "\n");
        proof {
            assert(out@ =~= old(out)@ + missing_text(analysis.missing_sources@, m + 1));
        }
        m += 1;
    }
    let ghost after_missing = out@;
    let mut c: usize = 0;
    while c < analysis.unguarded_cycles.len()
        invariant
            c <= analysis.unguarded_cycles@.len(),
            out@ == after_missing + cycles_text(analysis.unguarded_cycles@, base@, c as int),
        decreases analysis.unguarded_cycles@.len() - c,
    {
        push_str(out, "warning: include cycle through unguarded headers cut at ");
        push_str(out, display_path(analysis.unguarded_cycles[c].0.as_str(), base).as_str());
        push_str(out, " -> ");
        push_str(out, display_path(analysis.unguarded_cycles[c].1.as_str(), base).as_str());
        push_str(out, "\n");
        proof {
            assert(out@ =~= after_missing + cycles_text(analysis.unguarded_cycles@, base@, c + 1));
        }
        c += 1;
    }
    let ghost after_cycles = out@;
    if analysis.truncated_tus > 0 {
        push_str(out, "warning: ");
        push_decimal(out, analysis.truncated_tus as u64);
        push_str(out, " TUs exceeded the node limit; their costs are incomplete\n");
    }
    proof {
        assert(out@ =~= after_cycles + truncated_text(analysis.truncated_tus as nat));
        assert(out@ =~= old(out)@ + missing_text(analysis.missing_sources@, analysis.missing_sources@.len() as int)
            + cycles_text(analysis.unguarded_cycles@, base@, analysis.unguarded_cycles@.len() as int) + truncated_text(
            analysis.truncated_tus as nat,
        ));
    }
}

/// The text report, with the share column `pcts` of each shown header.
pub fn text_report(analysis: &Analysis, top: usize, base: &str, pcts: &Vec<String>) -> (out: String)
    requires
        pcts@.len() >= shown_spec(analysis.headers@.len(), top as nat),
    ensures
        out@ == text_spec(*analysis, top as nat, base@, pcts@),
{
    let total = analysis.headers.len();
    let n = shown(analysis, top);
    let mut out = String::new();
    push_totals(&mut out, analysis);
    let ghost a1 = out@;
    push_rows(&mut out, analysis, n, base, pcts);
    let ghost a2 = out@;
    if n < total {
        push_str(&mut out, "... ");
        push_decimal(&mut out, (total - n) as u64);
        push_str(&mut out, " more (use --top 0 for all)\n");
    }
    proof {
        assert(out@ =~= a2 + more_text(total as nat, n as nat));
    }
    let ghost a3 = out@;
    push_unresolved(&mut out, &analysis.unresolved, base);
    let ghost a4 = out@;
    push_warnings(&mut out, analysis, base);
    proof {
        assert(out@ =~= text_spec(*analysis, top as nat, base@, pcts@));
    }
    out
}


// ---------------------------------------------------------------------------
// The JSON report.
// ---------------------------------------------------------------------------
/// `s` as a JSON string literal.
pub open spec fn quoted(s: Seq<char>) -> Seq<char> {
    seq!['"'] + escaped_all(s) + seq!['"']
}

pub open spec fn bool_text(b: bool) -> Seq<char> {
    if b {
        "true"@
    } else {
        "false"@
    }
}

pub open spec fn guard_text(g: Guard) -> Seq<char> {
    match g {
        Guard::Unguarded => "none"@,
        Guard::Macro => "macro"@,
        Guard::PragmaOnce => "pragma_once"@,
    }
}

pub open spec fn carry_json(c: (String, u64), base: Seq<char>) -> Seq<char> {
    "{\"path\": "@ + quoted(display_spec(c.0@, base)) + ", \"bytes\": "@ + decimal(c.1 as nat) + "}"@
}

pub open spec fn carries_json(cs: Seq<(String, u64)>, base: Seq<char>) -> Seq<Seq<char>>
    decreases cs.len(),
{
    if cs.len() == 0 {
        Seq::empty()
    } else {
        carries_json(cs.drop_last(), base).push(carry_json(cs.last(), base))
    }
}

/// Header `i` as a JSON object, after a comma unless it is the first.
pub open spec fn header_json_head(h: HeaderCost, ratio: Seq<char>, base: Seq<char>) -> Seq<char> {
    "\n    {\"path\": "@ + quoted(display_spec(h.path@, base)) + ", \"exclusive_bytes\": "@ + decimal(
        h.exclusive as nat,
    ) + ", \"inclusive_bytes\": "@ + decimal(h.inclusive as nat) + ", \"ratio\": "@ + ratio
}

pub open spec fn header_json_tail(h: HeaderCost, base: Seq<char>) -> Seq<char> {
    ", \"tus\": "@ + decimal(h.tus as nat) + ", \"expansions\": "@ + decimal(h.expansions as nat)
        + ", \"guard\": \""@ + guard_text(h.guard) + "\", \"conditional\": "@ + bool_text(h.conditional)
        + ", \"carries\": ["@ + join_with(carries_json(h.carries@, base), ", "@) + "]}"@
}

/// The `i`-th header's object, with the comma that separates it from the one before.
pub open spec fn header_json(i: nat, h: HeaderCost, ratio: Seq<char>, base: Seq<char>) -> Seq<char> {
    (if i == 0 {
        Seq::empty()
    } else {
        ","@
    }) + header_json_head(h, ratio, base) + header_json_tail(h, base)
}

pub open spec fn headers_json(hs: Seq<HeaderCost>, ratios: Seq<String>, base: Seq<char>, k: int) -> Seq<char>
    decreases k,
{
    if k <= 0 {
        Seq::empty()
    } else {
        headers_json(hs, ratios, base, k - 1) + header_json((k - 1) as nat, hs[k - 1], ratios[k - 1]@, base)
    }
}

/// Unresolved directive `i` as a JSON object, after a comma unless it is the first.
pub open spec fn unresolved_body(u: (String, u32, String, bool), base: Seq<char>) -> Seq<char> {
    "\n    {\"includer\": "@ + quoted(display_spec(u.0@, base)) + ", \"line\": "@ + decimal(u.1 as nat)
        + ", \"spelling\": "@ + quoted(u.2@) + ", \"angled\": "@ + bool_text(u.3) + "}"@
}

/// The `i`-th unresolved include's object, with its separating comma.
pub open spec fn unresolved_json(i: nat, u: (String, u32, String, bool), base: Seq<char>) -> Seq<char> {
    (if i == 0 {
        Seq::empty()
    } else {
        ","@
    }) + unresolved_body(u, base)
}

pub open spec fn unresolveds_json(us: Seq<(String, u32, String, bool)>, base: Seq<char>, k: int) -> Seq<char>
    decreases k,
{
    if k <= 0 {
        Seq::empty()
    } else {
        unresolveds_json(us, base, k - 1) + unresolved_json((k - 1) as nat, us[k - 1], base)
    }
}

pub open spec fn missing_json(ms: Seq<String>) -> Seq<Seq<char>>
    decreases ms.len(),
{
    if ms.len() == 0 {
        Seq::empty()
    } else {
        missing_json(ms.drop_last()).push(quoted(ms.last()@))
    }
}

pub open spec fn cycles_json(cs: Seq<(String, String)>, base: Seq<char>) -> Seq<Seq<char>>
    decreases cs.len(),
{
    if cs.len() == 0 {
        Seq::empty()
    } else {
        cycles_json(cs.drop_last(), base).push(
            "["@ + quoted(display_spec(cs.last().0@, base)) + ", "@ + quoted(display_spec(cs.last().1@, base)) + "]"@,
        )
    }
}

pub open spec fn json_totals(a: Analysis) -> Seq<char> {
    "{\n"@ + "  \"translation_units\": "@ + decimal(a.translation_units as nat) + ",\n"@ + "  \"headers_total\": "@
        + decimal(a.headers@.len()) + ",\n"@ + "  \"total_bytes\": "@ + decimal(a.total_bytes as nat) + ",\n"@
        + "  \"conditional_includes\": "@ + decimal(a.conditional_includes as nat) + ",\n"@
        + "  \"computed_includes\": "@ + decimal(a.computed_includes as nat) + ",\n"@ + "  \"headers\": ["@
}

/// The JSON report: totals, the first `shown` headers with the ratio
/// `ratios` written by the caller, unresolved includes, missing sources,
/// cut cycles and truncated TUs.
pub open spec fn json_spec(a: Analysis, top: nat, base: Seq<char>, ratios: Seq<String>) -> Seq<char> {
    let n = shown_spec(a.headers@.len(), top);
    json_totals(a) + headers_json(a.headers@, ratios, base, n as int) + "\n  ],\n  \"unresolved\": ["@ + unresolveds_json(
        a.unresolved@,
        base,
        a.unresolved@.len() as int,
    ) + "\n  ],\n  \"missing_sources\": ["@ + join_with(missing_json(a.missing_sources@), ", "@)
        + "],\n  \"unguarded_cycles\": ["@ + join_with(cycles_json(a.unguarded_cycles@, base), ", "@)
        + "],\n  \"truncated_tus\": "@ + decimal(a.truncated_tus as nat) + "\n}\n"@
}

fn push_bool(out: &mut String, b: bool)
    ensures
        final(out)@ == old(out)@ + bool_text(b),
{
    if b {
        push_str(out, "true");
    } else {
        push_str(out, "false");
    }
}

/// Pushes the items of `items` joined by `", "`, given one at a time.
proof fn lemma_join_push(items: Seq<Seq<char>>, x: Seq<char>)
    ensures
        join_with(items.push(x), ", "@) == if items.len() == 0 {
            x
        } else {
            join_with(items, ", "@) + ", "@ + x
        },
{
    assert(items.push(x).drop_last() =~= items);
}

fn push_carries_json(out: &mut String, cs: &Vec<(String, u64)>, base: &str)
    ensures
        final(out)@ == old(out)@ + join_with(carries_json(cs@, base@), ", "@),
{
    let mut i: usize = 0;
    while i < cs.len()
        invariant
            i <= cs@.len(),
            out@ == old(out)@ + join_with(carries_json(cs@.take(i as int), base@), ", "@),
        decreases cs@.len() - i,
    {
        let ghost before = out@;
        if i > 0 {
            push_str(out, ", ");
        }
        push_str(out, "{\"path\": ");
        push_str(out, quote(display_path(cs[i].0.as_str(), base).as_str()).as_str());
        push_str(out, ", \"bytes\": ");
        push_decimal(out, cs[i].1);
        push_str(out, "}");
        proof {
            let t = cs@.take(i + 1);
            assert(t.drop_last() =~= cs@.take(i as int));
            lemma_join_push(carries_json(cs@.take(i as int), base@), carry_json(cs@[i as int], base@));
            assert(carries_json(t, base@) == carries_json(cs@.take(i as int), base@).push(carry_json(cs@[i as int], base@)));
            assert(out@ =~= old(out)@ + join_with(carries_json(t, base@), ", "@));
        }
        i += 1;
    }
    proof {
        assert(cs@.take(cs@.len() as int) =~= cs@);
    }
}

fn push_header_json_head(out: &mut String, h: &HeaderCost, ratio: &String, base: &str)
    ensures
        final(out)@ == old(out)@ + header_json_head(*h, ratio@, base@),
{
    push_str(out, "\n    {\"path\": ");
    push_str(out, quote(display_path(h.path.as_str(), base).as_str()).as_str());
    push_str(out, ", \"exclusive_bytes\": ");
    push_decimal(out, h.exclusive);
    push_str(out, ", \"inclusive_bytes\": ");
    push_decimal(out, h.inclusive);
    push_str(out, ", \"ratio\": ");
    push_str(out, ratio.as_str());
    proof {
        assert(out@ =~= old(out)@ + header_json_head(*h, ratio@, base@));
    }
}

fn push_header_json_tail(out: &mut String, h: &HeaderCost, base: &str)
    ensures
        final(out)@ == old(out)@ + header_json_tail(*h, base@),
{
    push_str(out, ", \"tus\": ");
    push_decimal(out, h.tus as u64);
    push_str(out, ", \"expansions\": ");
    push_decimal(out, h.expansions);
    push_str(out, ", \"guard\": \"");
    let g = match h.guard {
        Guard::Unguarded => "none",
        Guard::Macro => "macro",
        Guard::PragmaOnce => "pragma_once",
    };
    push_str(out, g);
    push_str(out, "\", \"conditional\": ");
    push_bool(out, h.conditional);
    push_str(out, ", \"carries\": [");
    push_carries_json(out, &h.carries, base);
    push_str(out, "]}");
    proof {
        assert(out@ =~= old(out)@ + header_json_tail(*h, base@));
    }
}

fn push_header_json(out: &mut String, i: usize, h: &HeaderCost, ratio: &String, base: &str)
    ensures
        final(out)@ == old(out)@ + header_json(i as nat, *h, ratio@, base@),
{
    let ghost o = out@;
    if i > 0 {
        push_str(out, ",");
    }
    let ghost m = out@;
    push_header_json_head(out, h, ratio, base);
    push_header_json_tail(out, h, base);
    proof {
        assert(m == o + (if i == 0 { Seq::<char>::empty() } else { ","@ }));
        assert(out@ =~= o + header_json(i as nat, *h, ratio@, base@));
    }
}

fn push_unresolved_body(out: &mut String, u: &(String, u32, String, bool), base: &str)
    ensures
        final(out)@ == old(out)@ + unresolved_body(*u, base@),
{
    push_str(out, "\n    {\"includer\": ");
    push_str(out, quote(display_path(u.0.as_str(), base).as_str()).as_str());
    push_str(out, ", \"line\": ");
    push_decimal(out, u.1 as u64);
    push_str(out, ", \"spelling\": ");
    push_str(out, quote(u.2.as_str()).as_str());
    push_str(out, ", \"angled\": ");
    push_bool(out, u.3);
    push_str(out, "}");
    proof {
        assert(out@ =~= old(out)@ + unresolved_body(*u, base@));
    }
}

fn push_unresolved_json(out: &mut String, i: usize, u: &(String, u32, String, bool), base: &str)
    ensures
        final(out)@ == old(out)@ + unresolved_json(i as nat, *u, base@),
{
    let ghost o = out@;
    if i > 0 {
        push_str(out, ",");
    }
    let ghost m = out@;
    push_unresolved_body(out, u, base);
    proof {
        assert(m == o + (if i == 0 { Seq::<char>::empty() } else { ","@ }));
        assert(out@ =~= o + unresolved_json(i as nat, *u, base@));
    }
}

fn push_lists_json(out: &mut String, analysis: &Analysis, base: &str)
    ensures
        final(out)@ == old(out)@ + join_with(missing_json(analysis.missing_sources@), ", "@) + "],\n  \"unguarded_cycles\": ["@
            + join_with(cycles_json(analysis.unguarded_cycles@, base@), ", "@),
{
    let ms = &analysis.missing_sources;
    let mut i: usize = 0;
    while i < ms.len()
        invariant
            i <= ms@.len(),
            out@ == old(out)@ + join_with(missing_json(ms@.take(i as int)), ", "@),
        decreases ms@.len() - i,
    {
        if i > 0 {
            push_str(out, ", ");
        }
        push_str(out, quote(ms[i].as_str()).as_str());
        proof {
            let t = ms@.take(i + 1);
            assert(t.drop_last() =~= ms@.take(i as int));
            lemma_join_push(missing_json(ms@.take(i as int)), quoted(ms@[i as int]@));
            assert(out@ =~= old(out)@ + join_with(missing_json(t), ", "@));
        }
        i += 1;
    }
    proof {
        assert(ms@.take(ms@.len() as int) =~= ms@);
    }
    push_str(out, "],\n  \"unguarded_cycles\": [");
    let ghost mid = out@;
    let cs = &analysis.unguarded_cycles;
    let mut c: usize = 0;
    while c < cs.len()
        invariant
            c <= cs@.len(),
            out@ == mid + join_with(cycles_json(cs@.take(c as int), base@), ", "@),
        decreases cs@.len() - c,
    {
        if c > 0 {
            push_str(out, ", ");
        }
        push_str(out, "[");
        push_str(out, quote(display_path(cs[c].0.as_str(), base).as_str()).as_str());
        push_str(out, ", ");
        push_str(out, quote(display_path(cs[c].1.as_str(), base).as_str()).as_str());
        push_str(out, "]");
        proof {
            let t = cs@.take(c + 1);
            assert(t.drop_last() =~= cs@.take(c as int));
            let item = "["@ + quoted(display_spec(cs@[c as int].0@, base@)) + ", "@ + quoted(display_spec(cs@[c as int].1@, base@)) + "]"@;
            lemma_join_push(cycles_json(cs@.take(c as int), base@), item);
            assert(out@ =~= mid + join_with(cycles_json(t, base@), ", "@));
        }
        c += 1;
    }
    proof {
        assert(cs@.take(cs@.len() as int) =~= cs@);
        assert(out@ =~= old(out)@ + join_with(missing_json(analysis.missing_sources@), ", "@) + "],\n  \"unguarded_cycles\": ["@
            + join_with(cycles_json(analysis.unguarded_cycles@, base@), ", "@));
    }
}

/// The JSON report, with the ratio text `ratios` of each shown header.
pub fn json_report(analysis: &Analysis, top: usize, base: &str, ratios: &Vec<String>) -> (out: String)
    requires
        ratios@.len() >= shown_spec(analysis.headers@.len(), top as nat),
    ensures
        out@ == json_spec(*analysis, top as nat, base@, ratios@),
{
    let n = shown(analysis, top);
    let mut out = String::new();
    push_str(&mut out, "{\n");
    push_str(&mut out, "  \"translation_units\": ");
    push_decimal(&mut out, analysis.translation_units as u64);
    push_str(&mut out, ",\n");
    push_str(&mut out, "  \"headers_total\": ");
    push_decimal(&mut out, analysis.headers.len() as u64);
    push_str(&mut out, ",\n");
    push_str(&mut out, "  \"total_bytes\": ");
    push_decimal(&mut out, analysis.total_bytes);
    push_str(&mut out, ",\n");
    push_str(&mut out, "  \"conditional_includes\": ");
    push_decimal(&mut out, analysis.conditional_includes as u64);
    push_str(&mut out, ",\n");
    push_str(&mut out, "  \"computed_includes\": ");
    push_decimal(&mut out, analysis.computed_includes as u64);
    push_str(&mut out, ",\n");
    push_str(&mut out, "  \"headers\": [");
    proof {
        assert(out@ =~= json_totals(*analysis));
    }
    let ghost a1 = out@;
    let mut i: usize = 0;
    while i < n
        invariant
            n == shown_spec(analysis.headers@.len(), top as nat),
            n <= analysis.headers@.len(),
            ratios@.len() >= n,
            i <= n,
            out@ == a1 + headers_json(analysis.headers@, ratios@, base@, i as int),
        decreases n - i,
    {
        push_header_json(&mut out, i, &analysis.headers[i], &ratios[i], base);
        proof {
            assert(out@ =~= a1 + headers_json(analysis.headers@, ratios@, base@, i + 1));
        }
        i += 1;
    }
    push_str(&mut out, "\n  ],\n  \"unresolved\": [");
    let ghost a2 = out@;
    let mut k: usize = 0;
    while k < analysis.unresolved.len()
        invariant
            k <= analysis.unresolved@.len(),
            out@ == a2 + unresolveds_json(analysis.unresolved@, base@, k as int),
        decreases analysis.unresolved@.len() - k,
    {
        push_unresolved_json(&mut out, k, &analysis.unresolved[k], base);
        proof {
            assert(out@ =~= a2 + unresolveds_json(analysis.unresolved@, base@, k + 1));
        }
        k += 1;
    }
    push_str(&mut out, "\n  ],\n  \"missing_sources\": [");
    let ghost a3 = out@;
    push_lists_json(&mut out, analysis, base);
    let ghost a4 = out@;
    push_str(&mut out, "],\n  \"truncated_tus\": ");
    push_decimal(&mut out, analysis.truncated_tus as u64);
    push_str(&mut out, "\n}\n");
    proof {
        assert(out@ =~= json_spec(*analysis, top as nat, base@, ratios@));
    }
    out
}
} // verus!
