//! Why a dominator subtree is what disappears: the weight that
//! `Dominators::subtree_weights` gives a node equals the weight that stops
//! being reachable when the node is deleted.

use crate::dominators::{
    children_sum, climb, dominates, lemma_avoid_not_skip, lemma_climb_dominates, lemma_dom_reachable,
    lemma_dom_self, lemma_dom_trans, lemma_weighted_agree, lemma_weighted_none, lemma_weighted_set,
    parent_earlier, path_between, reach_set, reachable, reachable_avoiding, step_ok, weighted, Dominators,
    UNREACHABLE,
};
use vstd::prelude::*;

verus! {

/// What `dominators(g, root)` guarantees of `d` for the adjacency `gv`: a
/// well-formed tree of the reachable nodes, hung under strict dominators,
/// whose ancestors of each reachable node are exactly its dominators.
pub open spec fn dominator_tree_of(gv: Seq<Seq<u32>>, root: u32, d: Dominators) -> bool {
    &&& d.wf()
    &&& d.idom@.len() == gv.len()
    &&& gv.len() > 0 ==> d.rpo@.len() > 0 && d.rpo@[0] == root && d.idom@[root as int] == root
    &&& forall|v: u32| v < gv.len() ==> (d.rpo@.contains(v) <==> reachable(gv, root, v))
    &&& forall|v: u32|
        v < gv.len() && v != root && #[trigger] reachable(gv, root, v) ==> d.idom@[v as int] != v
            && d.idom@[v as int] < gv.len() && dominates(gv, root, d.idom@[v as int], v)
    &&& forall|v: u32, a: u32|
        v < gv.len() && reachable(gv, root, v) ==> (#[trigger] dominates(gv, root, a, v) <==> exists|k: nat|
            climb(d.idom@, v, k) == a)
}

/// What `subtree_weights` guarantees of `acc`: each reached node weighs its
/// own weight plus its children's totals; the others weigh 0.
pub open spec fn subtree_sums(d: Dominators, weights: Seq<u64>, acc: Seq<u64>) -> bool {
    &&& acc.len() == d.idom@.len()
    &&& forall|i: int|
        0 <= i < d.rpo@.len() ==> #[trigger] acc[d.rpo@[i] as int] == weights[d.rpo@[i] as int] + children_sum(
            d.rpo@,
            d.idom@,
            acc,
            d.rpo@[i],
            1,
        )
    &&& forall|v: int| 0 <= v < d.idom@.len() && !d.rpo@.contains(v as u32) ==> #[trigger] acc[v] == 0
}

/// The reachable nodes that `v` dominates.
pub open spec fn dom_flags(gv: Seq<Seq<u32>>, root: u32, v: u32) -> Seq<bool> {
    Seq::new(gv.len(), |x: int| reachable(gv, root, x as u32) && dominates(gv, root, v, x as u32))
}

/// The nodes dominated by a child of `v` that sits at position `lo` or later.
pub open spec fn child_flags(gv: Seq<Seq<u32>>, root: u32, d: Dominators, v: u32, lo: int) -> Seq<bool> {
    Seq::new(
        gv.len(),
        |x: int|
            exists|i: int|
                lo <= i < d.rpo@.len() && d.idom@[d.rpo@[i] as int] == v && #[trigger] dom_flags(
                    gv,
                    root,
                    d.rpo@[i],
                )[x],
    )
}

/// The weight of a disjoint union is the sum of the weights.
pub proof fn lemma_weighted_split(w: Seq<u64>, f: Seq<bool>, h1: Seq<bool>, h2: Seq<bool>, k: int)
    requires
        k <= f.len(),
        k <= h1.len(),
        k <= h2.len(),
        forall|x: int| 0 <= x < k ==> #[trigger] f[x] == (h1[x] || h2[x]),
        forall|x: int| 0 <= x < k ==> !(#[trigger] h1[x] && h2[x]),
    ensures
        weighted(w, f, k) == weighted(w, h1, k) + weighted(w, h2, k),
    decreases k,
{
    if k > 0 {
        assert(f[k - 1] == (h1[k - 1] || h2[k - 1]));
        assert(!(h1[k - 1] && h2[k - 1]));
        lemma_weighted_split(w, f, h1, h2, k - 1);
    }
}

/// Two distinct nodes cannot dominate each other.
pub proof fn lemma_mutual(gv: Seq<Seq<u32>>, root: u32, a: u32, b: u32, p: Seq<u32>)
    requires
        path_between(gv, p, root, a),
        dominates(gv, root, b, a),
        a != b,
    ensures
        !dominates(gv, root, a, b),
    decreases p.len(),
{
    if !dominates(gv, root, a, b) {
        return;
    }
    assert(p.contains(b));
    let i = choose|i: int| 0 <= i < p.len() && p[i] == b;
    assert(i < p.len() - 1) by {
        assert(p[p.len() - 1] == a);
    }
    let q = p.subrange(0, i + 1);
    assert forall|k: int| 0 <= k < q.len() - 1 implies #[trigger] step_ok(gv, q, k) by {
        assert(step_ok(gv, p, k));
    }
    assert forall|k: int| 0 <= k < q.len() implies #[trigger] q[k] < gv.len() by {
        assert(p[k] < gv.len());
    }
    assert(path_between(gv, q, root, b));
    assert(q.contains(a));
    let j = choose|j: int| 0 <= j < q.len() && q[j] == a;
    let r = p.subrange(0, j + 1);
    assert forall|k: int| 0 <= k < r.len() - 1 implies #[trigger] step_ok(gv, r, k) by {
        assert(step_ok(gv, p, k));
    }
    assert forall|k: int| 0 <= k < r.len() implies #[trigger] r[k] < gv.len() by {
        assert(p[k] < gv.len());
    }
    assert(r[j] == q[j]);
    assert(path_between(gv, r, root, a));
    lemma_mutual(gv, root, a, b, r);
}

pub proof fn lemma_climb_add(idom: Seq<u32>, x: u32, a: nat, b: nat)
    ensures
        climb(idom, x, a + b) == climb(idom, climb(idom, x, a), b),
    decreases a,
{
    if a > 0 {
        lemma_climb_add(idom, idom[x as int], (a - 1) as nat, b);
        assert((a + b - 1) as nat == ((a - 1) as nat + b) as nat);
    }
}

/// A node hung directly under `v` that lies on the climb from `x` to `v`.
proof fn lemma_find_child(gv: Seq<Seq<u32>>, root: u32, d: Dominators, v: u32, x: u32, k: nat) -> (c: u32)
    requires
        dominator_tree_of(gv, root, d),
        x < gv.len(),
        reachable(gv, root, x),
        x != v,
        climb(d.idom@, x, k) == v,
    ensures
        c < gv.len(),
        c != v,
        c != root,
        d.idom@[c as int] == v,
        reachable(gv, root, c),
        dominates(gv, root, c, x),
    decreases k,
{
    assert(k > 0);
    let y = d.idom@[x as int];
    assert(climb(d.idom@, x, k) == climb(d.idom@, y, (k - 1) as nat));
    if x == root {
        lemma_find_child(gv, root, d, v, x, (k - 1) as nat)
    } else {
        assert(dominates(gv, root, y, x));
        if y == v {
            lemma_dom_self(gv, root, x);
            x
        } else {
            lemma_dom_reachable(gv, root, y, x);
            let c = lemma_find_child(gv, root, d, v, y, (k - 1) as nat);
            lemma_dom_trans(gv, root, c, y, x);
            c
        }
    }
}

/// A child that lies above another child of the same parent would dominate
/// its own parent.
proof fn lemma_child_not_above(gv: Seq<Seq<u32>>, root: u32, d: Dominators, v: u32, c1: u32, c2: u32, j: nat)
    requires
        dominator_tree_of(gv, root, d),
        c1 < gv.len(),
        c2 < gv.len(),
        v < gv.len(),
        reachable(gv, root, v),
        reachable(gv, root, c2),
        c2 != root,
        d.idom@[c1 as int] == v,
        d.idom@[c2 as int] == v,
        c2 != v,
        c1 != c2,
    ensures
        climb(d.idom@, c1, j) != c2,
{
    if climb(d.idom@, c1, j) != c2 {
        return;
    }
    assert(j > 0);
    assert(climb(d.idom@, c1, j) == climb(d.idom@, v, (j - 1) as nat));
    lemma_climb_dominates(gv, root, d.idom@, v, (j - 1) as nat);
    assert(dominates(gv, root, c2, v));
    assert(dominates(gv, root, v, c2));
    let p = choose|p: Seq<u32>| #[trigger] path_between(gv, p, root, c2);
    lemma_mutual(gv, root, c2, v, p);
}

/// Two different children of one node dominate disjoint sets.
proof fn lemma_children_disjoint(gv: Seq<Seq<u32>>, root: u32, d: Dominators, v: u32, c1: u32, c2: u32, x: u32)
    requires
        dominator_tree_of(gv, root, d),
        c1 < gv.len(),
        c2 < gv.len(),
        v < gv.len(),
        x < gv.len(),
        reachable(gv, root, v),
        reachable(gv, root, c1),
        reachable(gv, root, c2),
        reachable(gv, root, x),
        c1 != root,
        c2 != root,
        d.idom@[c1 as int] == v,
        d.idom@[c2 as int] == v,
        c1 != v,
        c2 != v,
        c1 != c2,
    ensures
        !(dominates(gv, root, c1, x) && dominates(gv, root, c2, x)),
{
    if !(dominates(gv, root, c1, x) && dominates(gv, root, c2, x)) {
        return;
    }
    let k1 = choose|k: nat| climb(d.idom@, x, k) == c1;
    let k2 = choose|k: nat| climb(d.idom@, x, k) == c2;
    if k1 <= k2 {
        lemma_climb_add(d.idom@, x, k1, (k2 - k1) as nat);
        assert((k1 + (k2 - k1) as nat) as nat == k2);
        lemma_child_not_above(gv, root, d, v, c1, c2, (k2 - k1) as nat);
    } else {
        lemma_climb_add(d.idom@, x, k2, (k1 - k2) as nat);
        assert((k2 + (k1 - k2) as nat) as nat == k1);
        lemma_child_not_above(gv, root, d, v, c2, c1, (k1 - k2) as nat);
    }
}

/// Facts about the node at position `i` of the tree.
proof fn lemma_position(gv: Seq<Seq<u32>>, root: u32, d: Dominators, i: int)
    requires
        dominator_tree_of(gv, root, d),
        0 <= i < d.rpo@.len(),
    ensures
        d.rpo@[i] < gv.len(),
        reachable(gv, root, d.rpo@[i]),
        i > 0 ==> d.rpo@[i] != root,
        i > 0 ==> d.idom@[d.rpo@[i] as int] != d.rpo@[i],
{
    assert(d.rpo@[i] < d.idom@.len());
    assert(d.rpo@.contains(d.rpo@[i]));
    if i > 0 {
        assert(d.rpo@[0] == root);
        assert(d.rpo@[i] != d.rpo@[0]);
    }
}

/// The sum over the children at positions `lo` and later, given the claim for
/// every position after `t`, the position of `v`.
proof fn lemma_children(
    gv: Seq<Seq<u32>>,
    root: u32,
    d: Dominators,
    w: Seq<u64>,
    acc: Seq<u64>,
    v: u32,
    t: int,
    lo: int,
)
    requires
        dominator_tree_of(gv, root, d),
        subtree_sums(d, w, acc),
        w.len() == gv.len(),
        0 <= t < d.rpo@.len(),
        d.rpo@[t] == v,
        1 <= lo <= d.rpo@.len(),
        forall|i: int|
            t < i < d.rpo@.len() ==> #[trigger] acc[d.rpo@[i] as int] == weighted(
                w,
                dom_flags(gv, root, d.rpo@[i]),
                gv.len() as int,
            ),
    ensures
        children_sum(d.rpo@, d.idom@, acc, v, lo) == weighted(w, child_flags(gv, root, d, v, lo), gv.len() as int),
    decreases d.rpo@.len() - lo,
{
    let n = gv.len() as int;
    let m = d.rpo@.len() as int;
    let f = child_flags(gv, root, d, v, lo);
    if lo == m {
        assert forall|x: int| 0 <= x < n implies !#[trigger] f[x] by {}
        lemma_weighted_none(w, f, n);
    } else {
        lemma_children(gv, root, d, w, acc, v, t, lo + 1);
        let g = child_flags(gv, root, d, v, lo + 1);
        let c = d.rpo@[lo];
        lemma_position(gv, root, d, lo);
        lemma_position(gv, root, d, t);
        if d.idom@[c as int] == v {
            assert(parent_earlier(d.rpo@, d.idom@, lo));
            let j = choose|j: int| 0 <= j < lo && d.rpo@[j] == d.idom@[d.rpo@[lo] as int];
            assert(j == t);
            let h = dom_flags(gv, root, c);
            assert forall|x: int| 0 <= x < n implies #[trigger] f[x] == (g[x] || h[x]) by {
                if f[x] {
                    let i = choose|i: int|
                        lo <= i < m && d.idom@[d.rpo@[i] as int] == v && #[trigger] dom_flags(gv, root, d.rpo@[i])[x];
                    if i > lo {
                        assert(g[x]);
                    }
                }
                if h[x] {
                    assert(dom_flags(gv, root, d.rpo@[lo])[x]);
                }
            }
            assert forall|x: int| 0 <= x < n implies !(#[trigger] g[x] && h[x]) by {
                if g[x] && h[x] {
                    let i = choose|i: int|
                        lo + 1 <= i < m && d.idom@[d.rpo@[i] as int] == v && #[trigger] dom_flags(
                            gv,
                            root,
                            d.rpo@[i],
                        )[x];
                    lemma_position(gv, root, d, i);
                    assert(d.rpo@[i] != c);
                    lemma_children_disjoint(gv, root, d, v, c, d.rpo@[i], x as u32);
                }
            }
            lemma_weighted_split(w, f, g, h, n);
        } else {
            assert forall|x: int| 0 <= x < n implies #[trigger] f[x] == g[x] by {
                if f[x] {
                    let i = choose|i: int|
                        lo <= i < m && d.idom@[d.rpo@[i] as int] == v && #[trigger] dom_flags(gv, root, d.rpo@[i])[x];
                    assert(i != lo);
                    assert(g[x]);
                }
            }
            lemma_weighted_agree(w, f, g, n);
        }
    }
}

/// A node's dominated set is itself plus what its children dominate.
proof fn lemma_dom_flags_split(gv: Seq<Seq<u32>>, root: u32, d: Dominators, w: Seq<u64>, v: u32, t: int)
    requires
        dominator_tree_of(gv, root, d),
        w.len() == gv.len(),
        0 <= t < d.rpo@.len(),
        d.rpo@[t] == v,
    ensures
        weighted(w, dom_flags(gv, root, v), gv.len() as int) == w[v as int] + weighted(
            w,
            child_flags(gv, root, d, v, 1),
            gv.len() as int,
        ),
{
    let n = gv.len() as int;
    let m = d.rpo@.len() as int;
    lemma_position(gv, root, d, t);
    let f = dom_flags(gv, root, v);
    let g = child_flags(gv, root, d, v, 1);
    let none = Seq::new(n as nat, |x: int| false);
    let one = none.update(v as int, true);
    assert forall|x: int| 0 <= x < n implies #[trigger] f[x] == (one[x] || g[x]) by {
        let y = x as u32;
        if f[x] && x != v {
            assert(dominates(gv, root, v, y));
            let k = choose|k: nat| #[trigger] climb(d.idom@, y, k) == v;
            let c = lemma_find_child(gv, root, d, v, y, k);
            assert(d.rpo@.contains(c));
            let i = choose|i: int| 0 <= i < m && d.rpo@[i] == c;
            assert(i != 0) by {
                assert(d.rpo@[0] == root);
            }
            assert(dom_flags(gv, root, d.rpo@[i])[x]);
        }
        if x == v {
            lemma_dom_self(gv, root, v);
        }
        if g[x] {
            let i = choose|i: int| 1 <= i < m && d.idom@[d.rpo@[i] as int] == v && #[trigger] dom_flags(
                gv,
                root,
                d.rpo@[i],
            )[x];
            lemma_position(gv, root, d, i);
            let c = d.rpo@[i];
            assert(dominates(gv, root, v, c));
            lemma_dom_trans(gv, root, v, c, x as u32);
        }
    }
    assert forall|x: int| 0 <= x < n implies !(#[trigger] one[x] && g[x]) by {
        if one[x] && g[x] {
            let i = choose|i: int| 1 <= i < m && d.idom@[d.rpo@[i] as int] == v && #[trigger] dom_flags(
                gv,
                root,
                d.rpo@[i],
            )[x];
            lemma_position(gv, root, d, i);
            let c = d.rpo@[i];
            assert(dominates(gv, root, c, v));
            assert(dominates(gv, root, v, c));
            let p = choose|p: Seq<u32>| #[trigger] path_between(gv, p, root, v);
            lemma_mutual(gv, root, v, c, p);
        }
    }
    lemma_weighted_split(w, f, one, g, n);
    assert forall|x: int| 0 <= x < n implies !#[trigger] none[x] by {}
    lemma_weighted_none(w, none, n);
    lemma_weighted_set(w, none, v as int, n);
}

/// The claim for every position from `t` on.
proof fn lemma_subtree_from(gv: Seq<Seq<u32>>, root: u32, d: Dominators, w: Seq<u64>, acc: Seq<u64>, t: int)
    requires
        dominator_tree_of(gv, root, d),
        subtree_sums(d, w, acc),
        w.len() == gv.len(),
        0 <= t <= d.rpo@.len(),
    ensures
        forall|i: int|
            t <= i < d.rpo@.len() ==> #[trigger] acc[d.rpo@[i] as int] == weighted(
                w,
                dom_flags(gv, root, d.rpo@[i]),
                gv.len() as int,
            ),
    decreases d.rpo@.len() - t,
{
    if t < d.rpo@.len() {
        lemma_subtree_from(gv, root, d, w, acc, t + 1);
        let v = d.rpo@[t];
        lemma_children(gv, root, d, w, acc, v, t, 1);
        lemma_dom_flags_split(gv, root, d, w, v, t);
    }
}

/// The removal law: the subtree weight of every node equals the weight
/// reachable from the root minus the weight still reachable once the node is
/// deleted, which is what `brute_force_exclusive` computes; unreachable nodes
/// weigh nothing.
pub proof fn lemma_subtree_is_removal_cost(
    gv: Seq<Seq<u32>>,
    root: u32,
    d: Dominators,
    w: Seq<u64>,
    acc: Seq<u64>,
    v: u32,
)
    requires
        gv.len() < u32::MAX,
        root < gv.len(),
        dominator_tree_of(gv, root, d),
        subtree_sums(d, w, acc),
        w.len() == gv.len(),
        v < gv.len(),
    ensures
        acc[v as int] == (if reachable(gv, root, v) {
            weighted(w, reach_set(gv, root, UNREACHABLE), gv.len() as int) - weighted(
                w,
                reach_set(gv, root, v),
                gv.len() as int,
            )
        } else {
            0int
        }),
{
    let n = gv.len() as int;
    if reachable(gv, root, v) {
        lemma_subtree_from(gv, root, d, w, acc, 0);
        assert(d.rpo@.contains(v));
        let t = choose|t: int| 0 <= t < d.rpo@.len() && d.rpo@[t] == v;
        assert(acc[d.rpo@[t] as int] == weighted(w, dom_flags(gv, root, d.rpo@[t]), n));
        let all = reach_set(gv, root, UNREACHABLE);
        let kept = reach_set(gv, root, v);
        let gone = dom_flags(gv, root, v);
        assert forall|x: int| 0 <= x < n implies #[trigger] all[x] == (kept[x] || gone[x]) by {
            let y = x as u32;
            if reachable(gv, root, y) {
                let p = choose|p: Seq<u32>| #[trigger] path_between(gv, p, root, y);
                if p.contains(UNREACHABLE) {
                    let i = choose|i: int| 0 <= i < p.len() && p[i] == UNREACHABLE;
                    assert(p[i] < gv.len());
                }
                assert(reachable_avoiding(gv, root, UNREACHABLE, y));
                if !dominates(gv, root, v, y) {
                    let q = choose|q: Seq<u32>| #[trigger] path_between(gv, q, root, y) && !q.contains(v);
                    assert(reachable_avoiding(gv, root, v, y));
                }
            }
            if all[x] {
                lemma_avoid_not_skip(gv, root, UNREACHABLE, y);
            }
            if kept[x] {
                lemma_avoid_not_skip(gv, root, v, y);
            }
        }
        assert forall|x: int| 0 <= x < n implies !(#[trigger] kept[x] && gone[x]) by {
            if kept[x] && gone[x] {
                let q = choose|q: Seq<u32>| #[trigger] path_between(gv, q, root, x as u32) && !q.contains(v);
                assert(q.contains(v));
            }
        }
        lemma_weighted_split(w, all, kept, gone, n);
    } else {
        assert(!d.rpo@.contains(v));
    }
}

} // verus!
