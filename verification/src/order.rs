//! The order in which reports list paths and ranked entries.
//!
//! Paths compare the way `Path` values do: component by component, the root
//! before `.`, `.` before `..`, `..` before names, and names by their
//! characters.

use crate::fs::{dot, dotdot, kept, pieces, rooted};
use crate::text::chars_of;
use vstd::prelude::*;

verus! {

// ---------------------------------------------------------------------------
// Lexicographic order.
// ---------------------------------------------------------------------------
/// `a` comes before `b` in the lexicographic extension of `less`.
pub open spec fn lex_less<T>(a: Seq<T>, b: Seq<T>, less: spec_fn(T, T) -> bool) -> bool
    decreases a.len(),
{
    if b.len() == 0 {
        false
    } else if a.len() == 0 {
        true
    } else if a[0] == b[0] {
        lex_less(a.drop_first(), b.drop_first(), less)
    } else {
        less(a[0], b[0])
    }
}

/// `less` is irreflexive, transitive and total on distinct values.
pub open spec fn strict_total<T>(less: spec_fn(T, T) -> bool) -> bool {
    &&& forall|x: T| !#[trigger] less(x, x)
    &&& forall|x: T, y: T, z: T| #[trigger] less(x, y) && #[trigger] less(y, z) ==> less(x, z)
    &&& forall|x: T, y: T| x != y ==> #[trigger] less(x, y) || #[trigger] less(y, x)
}

proof fn lemma_lex_irreflexive<T>(a: Seq<T>, less: spec_fn(T, T) -> bool)
    requires
        strict_total(less),
    ensures
        !lex_less(a, a, less),
    decreases a.len(),
{
    if a.len() > 0 {
        lemma_lex_irreflexive(a.drop_first(), less);
    }
}

proof fn lemma_lex_transitive<T>(a: Seq<T>, b: Seq<T>, c: Seq<T>, less: spec_fn(T, T) -> bool)
    requires
        strict_total(less),
        lex_less(a, b, less),
        lex_less(b, c, less),
    ensures
        lex_less(a, c, less),
    decreases a.len(),
{
    if a.len() > 0 && a[0] == b[0] && b[0] == c[0] {
        lemma_lex_transitive(a.drop_first(), b.drop_first(), c.drop_first(), less);
    }
}

proof fn lemma_lex_total<T>(a: Seq<T>, b: Seq<T>, less: spec_fn(T, T) -> bool)
    requires
        strict_total(less),
        a != b,
    ensures
        lex_less(a, b, less) || lex_less(b, a, less),
    decreases a.len(),
{
    if a.len() == 0 {
        assert(b.len() > 0) by {
            if b.len() == 0 {
                assert(a =~= b);
            }
        }
    } else if b.len() == 0 {
    } else if a[0] == b[0] {
        assert(a.drop_first() != b.drop_first()) by {
            if a.drop_first() == b.drop_first() {
                assert(a =~= seq![a[0]] + a.drop_first());
                assert(b =~= seq![b[0]] + b.drop_first());
            }
        }
        lemma_lex_total(a.drop_first(), b.drop_first(), less);
    }
}

/// The lexicographic extension of a strict total order is one.
pub proof fn lemma_lex_strict_total<T>(less: spec_fn(T, T) -> bool)
    requires
        strict_total(less),
    ensures
        strict_total(|a: Seq<T>, b: Seq<T>| lex_less(a, b, less)),
{
    let l = |a: Seq<T>, b: Seq<T>| lex_less(a, b, less);
    assert forall|x: Seq<T>| !#[trigger] l(x, x) by {
        lemma_lex_irreflexive(x, less);
    }
    assert forall|x: Seq<T>, y: Seq<T>, z: Seq<T>| #[trigger] l(x, y) && #[trigger] l(y, z) implies l(x, z) by {
        lemma_lex_transitive(x, y, z, less);
    }
    assert forall|x: Seq<T>, y: Seq<T>| x != y implies #[trigger] l(x, y) || #[trigger] l(y, x) by {
        lemma_lex_total(x, y, less);
    }
}

proof fn lemma_lex_skip<T>(a: Seq<T>, b: Seq<T>, i: int, less: spec_fn(T, T) -> bool)
    requires
        0 <= i <= a.len(),
        i <= b.len(),
        a.take(i) == b.take(i),
    ensures
        lex_less(a, b, less) == lex_less(a.skip(i), b.skip(i), less),
    decreases i,
{
    if i > 0 {
        assert(a[0] == a.take(i)[0]);
        assert(b[0] == b.take(i)[0]);
        assert(a.drop_first().take(i - 1) =~= a.take(i).drop_first());
        assert(b.drop_first().take(i - 1) =~= b.take(i).drop_first());
        lemma_lex_skip(a.drop_first(), b.drop_first(), i - 1, less);
        assert(a.drop_first().skip(i - 1) =~= a.skip(i));
        assert(b.drop_first().skip(i - 1) =~= b.skip(i));
        assert(a[0] == b[0]);
        assert(lex_less(a, b, less) == lex_less(a.drop_first(), b.drop_first(), less));
    } else {
        assert(a.skip(0) =~= a);
        assert(b.skip(0) =~= b);
    }
}

// ---------------------------------------------------------------------------
// Path components.
// ---------------------------------------------------------------------------
/// Characters by code point.
pub open spec fn char_order() -> spec_fn(char, char) -> bool {
    |a: char, b: char| (a as u32) < (b as u32)
}

/// Names by their characters.
pub open spec fn name_order() -> spec_fn(Seq<char>, Seq<char>) -> bool {
    |a: Seq<char>, b: Seq<char>| lex_less(a, b, char_order())
}

/// Components: by kind (1 root, 2 `.`, 3 `..`, 4 name), then by name.
pub open spec fn tag_order() -> spec_fn((u8, Seq<char>), (u8, Seq<char>)) -> bool {
    |x: (u8, Seq<char>), y: (u8, Seq<char>)| x.0 < y.0 || (x.0 == y.0 && lex_less(x.1, y.1, char_order()))
}

/// Whole paths, component by component.
pub open spec fn tags_order() -> spec_fn(Seq<(u8, Seq<char>)>, Seq<(u8, Seq<char>)>) -> bool {
    |a: Seq<(u8, Seq<char>)>, b: Seq<(u8, Seq<char>)>| lex_less(a, b, tag_order())
}

pub proof fn lemma_orders_strict_total()
    ensures
        strict_total(char_order()),
        strict_total(name_order()),
        strict_total(tag_order()),
        strict_total(tags_order()),
{
    assert forall|x: char, y: char| x != y implies #[trigger] char_order()(x, y) || #[trigger] char_order()(y, x) by {
        if (x as u32) == (y as u32) {
            vstd::utf8::char_u32_cast(x, x as u32);
            vstd::utf8::char_u32_cast(y, x as u32);
        }
    }
    lemma_lex_strict_total(char_order());
    assert(name_order() =~= |a: Seq<char>, b: Seq<char>| lex_less(a, b, char_order()));
    let t = tag_order();
    assert forall|x: (u8, Seq<char>)| !#[trigger] t(x, x) by {
        lemma_lex_irreflexive(x.1, char_order());
    }
    assert forall|x: (u8, Seq<char>), y: (u8, Seq<char>), z: (u8, Seq<char>)| #[trigger] t(x, y) && #[trigger] t(y, z) implies t(x, z) by {
        if x.0 == y.0 && y.0 == z.0 {
            lemma_lex_transitive(x.1, y.1, z.1, char_order());
        }
    }
    assert forall|x: (u8, Seq<char>), y: (u8, Seq<char>)| x != y implies #[trigger] t(x, y) || #[trigger] t(y, x) by {
        if x.0 == y.0 {
            lemma_lex_total(x.1, y.1, char_order());
        }
    }
    lemma_lex_strict_total(tag_order());
    assert(tags_order() =~= |a: Seq<(u8, Seq<char>)>, b: Seq<(u8, Seq<char>)>| lex_less(a, b, tag_order()));
}

/// The component a piece between slashes stands for, if any.
pub open spec fn piece_tag(c: Seq<char>) -> Seq<(u8, Seq<char>)> {
    if !kept(c) {
        Seq::empty()
    } else if c == dotdot() {
        seq![(3u8, Seq::<char>::empty())]
    } else {
        seq![(4u8, c)]
    }
}

pub open spec fn piece_tags(ps: Seq<Seq<char>>) -> Seq<(u8, Seq<char>)>
    decreases ps.len(),
{
    if ps.len() == 0 {
        Seq::empty()
    } else {
        piece_tags(ps.drop_last()) + piece_tag(ps.last())
    }
}

/// What comes before the named components: the root, or a leading `.`.
pub open spec fn head_tags(at_root: bool, ps: Seq<Seq<char>>) -> Seq<(u8, Seq<char>)> {
    if at_root {
        seq![(1u8, Seq::<char>::empty())]
    } else if ps.len() > 0 && ps[0] == dot() {
        seq![(2u8, Seq::<char>::empty())]
    } else {
        Seq::empty()
    }
}

/// The components of `p`, as `Path::components` yields them.
pub open spec fn path_tags(p: Seq<char>) -> Seq<(u8, Seq<char>)> {
    head_tags(rooted(p), pieces(p)) + piece_tags(pieces(p))
}

pub open spec fn tags_view(t: Seq<(u8, Vec<char>)>) -> Seq<(u8, Seq<char>)> {
    t.map_values(|e: (u8, Vec<char>)| (e.0, e.1@))
}

fn is_dot(seg: &Vec<char>) -> (r: bool)
    ensures
        r == (seg@ == dot()),
{
    let r = seg.len() == 1 && seg[0] == '.';
    proof {
        if r {
            assert(seg@ =~= dot());
        }
    }
    r
}

fn is_dotdot(seg: &Vec<char>) -> (r: bool)
    ensures
        r == (seg@ == dotdot()),
{
    let r = seg.len() == 2 && seg[0] == '.' && seg[1] == '.';
    proof {
        if r {
            assert(seg@ =~= dotdot());
        }
    }
    r
}

fn push_piece(out: &mut Vec<(u8, Vec<char>)>, seg: Vec<char>)
    ensures
        tags_view(final(out)@) == tags_view(old(out)@) + piece_tag(seg@),
{
    let ghost before = tags_view(out@);
    if seg.len() == 0 || is_dot(&seg) {
        proof {
            assert(tags_view(out@) =~= before + piece_tag(seg@));
        }
        return ;
    }
    let ghost s = seg@;
    if is_dotdot(&seg) {
        out.push((3, Vec::new()));
    } else {
        out.push((4, seg));
    }
    proof {
        assert(tags_view(out@) =~= before + piece_tag(s));
    }
}

/// The components of `path`, as `Path::components` yields them.
pub fn path_components(path: &str) -> (r: Vec<(u8, Vec<char>)>)
    ensures
        tags_view(r@) == path_tags(path@),
{
    let cs = chars_of(path);
    let at_root = cs.len() > 0 && cs[0] == '/';
    let mut out: Vec<(u8, Vec<char>)> = Vec::new();
    if at_root {
        out.push((1, Vec::new()));
    }
    let mut seg: Vec<char> = Vec::new();
    let mut first = true;
    let ghost mut done: Seq<Seq<char>> = Seq::empty();
    let mut i: usize = 0;
    proof {
        assert(cs@.take(0) =~= Seq::<char>::empty());
        assert(seq![Seq::<char>::empty()] =~= done.push(seg@));
        assert(tags_view(out@) =~= head_tags(at_root, done) + piece_tags(done));
    }
    while i < cs.len()
        invariant
            cs@ == path@,
            at_root == rooted(path@),
            i <= cs@.len(),
            first == (done.len() == 0),
            pieces(cs@.take(i as int)) == done.push(seg@),
            tags_view(out@) == head_tags(at_root, done) + piece_tags(done),
        decreases cs@.len() - i,
    {
        let c = cs[i];
        proof {
            let p = cs@.take(i as int + 1);
            assert(p.drop_last() =~= cs@.take(i as int));
            assert(p.last() == c);
        }
        if c == '/' {
            let finished = seg;
            seg = Vec::new();
            let ghost fin = finished@;
            let ghost before = tags_view(out@);
            if first && !at_root && is_dot(&finished) {
                out.push((2, Vec::new()));
            }
            push_piece(&mut out, finished);
            proof {
                let d1 = done.push(fin);
                assert(d1.drop_last() =~= done);
                assert(d1[0] == if done.len() == 0 { fin } else { done[0] });
                assert(tags_view(out@) =~= head_tags(at_root, d1) + piece_tags(d1));
                done = d1;
                assert(pieces(cs@.take(i as int + 1)) =~= done.push(seg@));
            }
            first = false;
        } else {
            seg.push(c);
            proof {
                assert(pieces(cs@.take(i as int + 1)) =~= done.push(seg@));
            }
        }
        i += 1;
    }
    let ghost fin = seg@;
    if first && !at_root && is_dot(&seg) {
        out.push((2, Vec::new()));
    }
    let ghost before = tags_view(out@);
    push_piece(&mut out, seg);
    proof {
        assert(cs@.take(cs@.len() as int) =~= cs@);
        let d1 = done.push(fin);
        assert(d1.drop_last() =~= done);
        assert(d1[0] == if done.len() == 0 { fin } else { done[0] });
        assert(tags_view(out@) =~= head_tags(at_root, d1) + piece_tags(d1));
    }
    out
}

/// `a` sorts before `b`, character by character.
fn names_less(a: &Vec<char>, b: &Vec<char>) -> (r: bool)
    ensures
        r == lex_less(a@, b@, char_order()),
{
    let mut i: usize = 0;
    while i < a.len() && i < b.len()
        invariant
            i <= a@.len(),
            i <= b@.len(),
            a@.take(i as int) == b@.take(i as int),
        decreases a@.len() - i,
    {
        if a[i] != b[i] {
            proof {
                lemma_lex_skip(a@, b@, i as int, char_order());
                assert(a@.skip(i as int)[0] == a@[i as int]);
                assert(b@.skip(i as int)[0] == b@[i as int]);
            }
            return (a[i] as u32) < (b[i] as u32);
        }
        proof {
            assert(a@.take(i as int + 1) =~= a@.take(i as int).push(a@[i as int]));
            assert(b@.take(i as int + 1) =~= b@.take(i as int).push(b@[i as int]));
        }
        i += 1;
    }
    proof {
        lemma_lex_skip(a@, b@, i as int, char_order());
    }
    i == a.len() && i < b.len()
}

/// `a` sorts before `b`, component by component.
pub fn tags_less(a: &Vec<(u8, Vec<char>)>, b: &Vec<(u8, Vec<char>)>) -> (r: bool)
    ensures
        r == lex_less(tags_view(a@), tags_view(b@), tag_order()),
{
    let ghost av = tags_view(a@);
    let ghost bv = tags_view(b@);
    let mut i: usize = 0;
    while i < a.len() && i < b.len()
        invariant
            av == tags_view(a@),
            bv == tags_view(b@),
            i <= a@.len(),
            i <= b@.len(),
            av.take(i as int) == bv.take(i as int),
        decreases a@.len() - i,
    {
        let x = &a[i];
        let y = &b[i];
        proof {
            assert(av[i as int] == (x.0, x.1@));
            assert(bv[i as int] == (y.0, y.1@));
        }
        if x.0 != y.0 {
            proof {
                lemma_lex_skip(av, bv, i as int, tag_order());
                assert(av.skip(i as int)[0] == av[i as int]);
                assert(bv.skip(i as int)[0] == bv[i as int]);
            }
            return x.0 < y.0;
        }
        let lt = names_less(&x.1, &y.1);
        let gt = names_less(&y.1, &x.1);
        if lt || gt {
            proof {
                lemma_orders_strict_total();
                lemma_lex_irreflexive(x.1@, char_order());
                assert(x.1@ != y.1@);
                lemma_lex_skip(av, bv, i as int, tag_order());
                assert(av.skip(i as int)[0] == av[i as int]);
                assert(bv.skip(i as int)[0] == bv[i as int]);
            }
            return lt;
        }
        proof {
            lemma_orders_strict_total();
            if x.1@ != y.1@ {
                lemma_lex_total(x.1@, y.1@, char_order());
            }
            assert(av.take(i as int + 1) =~= av.take(i as int).push(av[i as int]));
            assert(bv.take(i as int + 1) =~= bv.take(i as int).push(bv[i as int]));
        }
        i += 1;
    }
    proof {
        lemma_lex_skip(av, bv, i as int, tag_order());
    }
    i == a.len() && i < b.len()
}

/// Both lists name the same components.
pub fn tags_equal(a: &Vec<(u8, Vec<char>)>, b: &Vec<(u8, Vec<char>)>) -> (r: bool)
    ensures
        r == (tags_view(a@) == tags_view(b@)),
{
    let lt = tags_less(a, b);
    let gt = tags_less(b, a);
    proof {
        lemma_orders_strict_total();
        if tags_view(a@) != tags_view(b@) {
            lemma_lex_total(tags_view(a@), tags_view(b@), tag_order());
        } else {
            lemma_lex_irreflexive(tags_view(a@), tag_order());
        }
    }
    !lt && !gt
}

// ---------------------------------------------------------------------------
// Ranking.
// ---------------------------------------------------------------------------
/// An entry to rank: larger `major`, then larger `minor`, then smaller
/// `first` path, then smaller `second` path come first.
pub struct Ranked {
    pub major: u64,
    pub minor: u64,
    pub first: Vec<(u8, Vec<char>)>,
    pub second: Vec<(u8, Vec<char>)>,
}

/// What ranking reads of an entry.
pub open spec fn rank_key(r: Ranked) -> (u64, u64, Seq<(u8, Seq<char>)>, Seq<(u8, Seq<char>)>) {
    (r.major, r.minor, tags_view(r.first@), tags_view(r.second@))
}

/// Entry with key `x` ranks strictly before one with key `y`.
pub open spec fn ranks_before(
    x: (u64, u64, Seq<(u8, Seq<char>)>, Seq<(u8, Seq<char>)>),
    y: (u64, u64, Seq<(u8, Seq<char>)>, Seq<(u8, Seq<char>)>),
) -> bool {
    ||| x.0 > y.0
    ||| x.0 == y.0 && x.1 > y.1
    ||| x.0 == y.0 && x.1 == y.1 && lex_less(x.2, y.2, tag_order())
    ||| x.0 == y.0 && x.1 == y.1 && x.2 == y.2 && lex_less(x.3, y.3, tag_order())
}

pub proof fn lemma_ranks_before_order(
    x: (u64, u64, Seq<(u8, Seq<char>)>, Seq<(u8, Seq<char>)>),
    y: (u64, u64, Seq<(u8, Seq<char>)>, Seq<(u8, Seq<char>)>),
    z: (u64, u64, Seq<(u8, Seq<char>)>, Seq<(u8, Seq<char>)>),
)
    ensures
        !ranks_before(x, x),
        ranks_before(x, y) && ranks_before(y, z) ==> ranks_before(x, z),
        x != y ==> ranks_before(x, y) || ranks_before(y, x),
{
    lemma_orders_strict_total();
    lemma_lex_irreflexive(x.2, tag_order());
    lemma_lex_irreflexive(x.3, tag_order());
    if ranks_before(x, y) && ranks_before(y, z) {
        if x.0 == y.0 && y.0 == z.0 && x.1 == y.1 && y.1 == z.1 {
            if lex_less(x.2, y.2, tag_order()) && lex_less(y.2, z.2, tag_order()) {
                lemma_lex_transitive(x.2, y.2, z.2, tag_order());
            }
            if x.2 == y.2 && y.2 == z.2 {
                lemma_lex_transitive(x.3, y.3, z.3, tag_order());
            }
        }
    }
    if x != y {
        if x.0 == y.0 && x.1 == y.1 {
            if x.2 != y.2 {
                lemma_lex_total(x.2, y.2, tag_order());
            } else {
                assert(x.3 != y.3);
                lemma_lex_total(x.3, y.3, tag_order());
            }
        }
    }
}

fn ranked_before(x: &Ranked, y: &Ranked) -> (r: bool)
    ensures
        r == ranks_before(rank_key(*x), rank_key(*y)),
{
    if x.major != y.major {
        return x.major > y.major;
    }
    if x.minor != y.minor {
        return x.minor > y.minor;
    }
    if tags_less(&x.first, &y.first) {
        return true;
    }
    if !tags_equal(&x.first, &y.first) {
        return false;
    }
    tags_less(&x.second, &y.second)
}

/// The positions of `items` in ranked order: every position once, and no
/// entry ranked strictly before an entry listed ahead of it.
pub fn rank_order(items: &Vec<Ranked>) -> (order: Vec<usize>)
    ensures
        order@.len() == items@.len(),
        order@.no_duplicates(),
        forall|i: int| 0 <= i < order@.len() ==> #[trigger] order@[i] < items@.len(),
        forall|x: usize| x < items@.len() ==> #[trigger] order@.contains(x),
        forall|i: int, j: int|
            0 <= i < j < order@.len() ==> !ranks_before(
                rank_key(#[trigger] items@[order@[j] as int]),
                rank_key(#[trigger] items@[order@[i] as int]),
            ),
{
    let mut order: Vec<usize> = Vec::new();
    let mut k: usize = 0;
    while k < items.len()
        invariant
            k <= items@.len(),
            order@.len() == k,
            order@.no_duplicates(),
            forall|i: int| 0 <= i < order@.len() ==> #[trigger] order@[i] < k,
            forall|x: usize| x < k ==> #[trigger] order@.contains(x),
            forall|i: int, j: int|
                0 <= i < j < order@.len() ==> !ranks_before(
                    rank_key(#[trigger] items@[order@[j] as int]),
                    rank_key(#[trigger] items@[order@[i] as int]),
                ),
        decreases items@.len() - k,
    {
        let x = &items[k];
        let mut p: usize = 0;
        while p < order.len() && !ranked_before(x, &items[order[p]])
            invariant
                k < items@.len(),
                x == items@[k as int],
                p <= order@.len(),
                forall|i: int| 0 <= i < order@.len() ==> #[trigger] order@[i] < k,
                forall|i: int| 0 <= i < p ==> !ranks_before(rank_key(*x), rank_key(#[trigger] items@[order@[i] as int])),
            decreases order@.len() - p,
        {
            p += 1;
        }
        let ghost o0 = order@;
        proof {
            assert forall|j: int| p <= j < o0.len() implies !ranks_before(
                rank_key(#[trigger] items@[o0[j] as int]),
                rank_key(*x),
            ) by {
                let kp = rank_key(items@[o0[p as int] as int]);
                let kj = rank_key(items@[o0[j] as int]);
                let kx = rank_key(*x);
                lemma_ranks_before_order(kj, kx, kp);
                lemma_ranks_before_order(kp, kj, kx);
                if j > p {
                    assert(!ranks_before(kj, kp));
                }
            }
        }
        order.insert(p, k);
        proof {
            assert forall|x: usize| x < k + 1 implies #[trigger] order@.contains(x) by {
                if x == k {
                    assert(order@[p as int] == k);
                } else {
                    assert(o0.contains(x));
                    let i = choose|i: int| 0 <= i < o0.len() && o0[i] == x;
                    if i < p {
                        assert(order@[i] == x);
                    } else {
                        assert(order@[i + 1] == x);
                    }
                }
            }
            assert forall|i: int| 0 <= i < order@.len() implies #[trigger] order@[i] < k + 1 by {
                if i < p {
                    assert(order@[i] == o0[i]);
                } else if i > p {
                    assert(order@[i] == o0[i - 1]);
                }
            }
            assert(order@.no_duplicates()) by {
                assert forall|a: int, b: int| 0 <= a < order@.len() && 0 <= b < order@.len() && a != b implies order@[a]
                    != order@[b] by {
                    if a != p as int && b != p as int {
                        let a0 = if a < p { a } else { a - 1 };
                        let b0 = if b < p { b } else { b - 1 };
                        assert(order@[a] == o0[a0]);
                        assert(order@[b] == o0[b0]);
                    } else if a == p {
                        let b0 = if b < p { b } else { b - 1 };
                        assert(order@[b] == o0[b0]);
                    } else {
                        let a0 = if a < p { a } else { a - 1 };
                        assert(order@[a] == o0[a0]);
                    }
                }
            }
            assert forall|i: int, j: int| 0 <= i < j < order@.len() implies !ranks_before(
                rank_key(#[trigger] items@[order@[j] as int]),
                rank_key(#[trigger] items@[order@[i] as int]),
            ) by {
                let i0 = if i < p { i } else { i - 1 };
                let j0 = if j < p { j } else { j - 1 };
                if i == p {
                    assert(order@[j] == o0[j0]);
                } else if j == p {
                    assert(order@[i] == o0[i0]);
                } else {
                    assert(order@[i] == o0[i0]);
                    assert(order@[j] == o0[j0]);
                }
            }
        }
        k += 1;
    }
    order
}

} // verus!
