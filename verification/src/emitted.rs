//! What the preprocessor emits for a TU is what the root of its include
//! graph reaches: the walk of `walk.rs` and the graph of `tugraph.rs` agree
//! for every choice of emptied node. With the removal law of `removal.rs`
//! this makes a dominator subtree weigh exactly what emptying its node saves.

use crate::analyze::{
    costs_basis, costs_spec, expansions_upto, exclusive_upto, is_site, lemma_exclusive_covers_site, lemma_expansions_has,
    nested_at, sat, subtree_ok, TuCosts,
};
use crate::dominators::{
    edge, is_path, path_between, reach_set, rpo_sum, step_ok, weighted, lemma_weighted_none,
    lemma_weighted_set, Dominators, UNREACHABLE,
};
use crate::project::{Project, NO_PARENT};
use crate::removal::{dominator_tree_of, lemma_subtree_is_removal_cost, lemma_weighted_split, subtree_sums};
use crate::tugraph::{
    chain_has, child_node, dir_succ, expanded, expanded_at, is_child, is_once_node, lemma_every_node_reached,
    lemma_succ_upto_has, lemma_tu_graph_shape, node_ok, node_succ, nodes_ok, once_node, succ_upto, tu_graph_spec, Node,
    TuGraph,
};
use crate::walk::{
    at_key, count_true, key_spec, lemma_bound_mono, lemma_bound_once, lemma_count_true_le,
    lemma_count_true_set, lemma_falses_count, no_marks, parents_earlier, preprocessed_spec, walk_bound,
    walk_dirs, walk_expand, walk_start_seen,
};
use vstd::prelude::*;

verus! {

/// The nodes `nodes` and adjacency `gv` of a TU graph rooted at file
/// `root` under `config`, with every include expanded.
pub open spec fn graph_ctx(p: Project, config: int, root: u32, nodes: Seq<Node>, gv: Seq<Seq<u32>>) -> bool {
    &&& nodes_ok(p, config, root, nodes)
    &&& gv.len() == nodes.len()
    &&& nodes.len() < u32::MAX
    &&& p.paths@.len() < u32::MAX
    &&& forall|v: int| 0 <= v < nodes.len() ==> #[trigger] gv[v] == node_succ(p, config, nodes, v)
    &&& forall|v: int| 0 <= v < nodes.len() ==> #[trigger] expanded(p, config, nodes, v)
}

/// Number of directives of node `x`.
pub open spec fn dir_count(p: Project, config: int, nodes: Seq<Node>, x: int) -> int {
    p.spec_targets(config, nodes[x].file as int).len() as int
}

proof fn lemma_parents_earlier(p: Project, config: int, root: u32, nodes: Seq<Node>)
    requires
        nodes_ok(p, config, root, nodes),
    ensures
        parents_earlier(nodes),
{
    assert forall|u: int| 0 <= u < nodes.len() && (#[trigger] nodes[u]).parent != NO_PARENT implies nodes[u].parent
        < u by {
        if u > 0 {
            assert(node_ok(p, config, nodes, u));
        }
    }
}

// ---------------------------------------------------------------------------
// Edges and directives.
// ---------------------------------------------------------------------------
proof fn lemma_succ_upto_member(p: Project, config: int, nodes: Seq<Node>, v: int, k: int, u: u32) -> (j: int)
    requires
        succ_upto(p, config, nodes, v, k).contains(u),
    ensures
        0 <= j < k,
        dir_succ(p, config, nodes, v, j).contains(u),
    decreases k,
{
    if k <= 0 {
        assert(succ_upto(p, config, nodes, v, k).len() == 0);
        0
    } else {
        let s = succ_upto(p, config, nodes, v, k - 1);
        let d = dir_succ(p, config, nodes, v, k - 1);
        assert(succ_upto(p, config, nodes, v, k) == s + d);
        let idx = choose|idx: int| 0 <= idx < (s + d).len() && (s + d)[idx] == u;
        if idx < s.len() {
            assert(s[idx] == u);
            lemma_succ_upto_member(p, config, nodes, v, k - 1, u)
        } else {
            assert(d[idx - s.len()] == u);
            k - 1
        }
    }
}

/// What directive `j` of `x` leads to: a guarded file's node, or the
/// inclusion site of `j` under `x`.
proof fn lemma_dir_succ_shape(p: Project, config: int, root: u32, nodes: Seq<Node>, x: int, j: int, w: u32)
    requires
        nodes_ok(p, config, root, nodes),
        nodes.len() < u32::MAX,
        0 <= x < nodes.len(),
        dir_succ(p, config, nodes, x, j).contains(w),
    ensures
        w < nodes.len(),
        dir_succ(p, config, nodes, x, j) == seq![w],
        p.spec_targets(config, nodes[x].file as int)[j] == Some(nodes[w as int].file),
        nodes[w as int].parent == NO_PARENT ==> p.spec_once(nodes[w as int].file as int),
        nodes[w as int].parent != NO_PARENT ==> {
            &&& nodes[w as int].parent == x
            &&& nodes[w as int].directive == j
            &&& !p.spec_once(nodes[w as int].file as int)
            &&& !chain_has(nodes, x, nodes[w as int].file)
        },
{
    match p.spec_targets(config, nodes[x].file as int)[j] {
        None => {},
        Some(t) => {
            if p.spec_once(t as int) {
                let u = once_node(nodes, t)->0;
                assert(once_node(nodes, t) is Some);
                assert(is_once_node(nodes, u, t));
                assert(dir_succ(p, config, nodes, x, j) == seq![u as u32]);
                assert(seq![u as u32][0] == w);
            } else {
                let u = child_node(nodes, x, j)->0;
                assert(child_node(nodes, x, j) is Some);
                assert(is_child(nodes, u, x, j));
                assert(dir_succ(p, config, nodes, x, j) == seq![u as u32]);
                assert(seq![u as u32][0] == w);
                assert(u != 0);
                assert(node_ok(p, config, nodes, u));
            }
        },
    }
}

proof fn lemma_edge_dir(p: Project, config: int, root: u32, nodes: Seq<Node>, gv: Seq<Seq<u32>>, u: u32, w: u32) -> (j: int)
    requires
        graph_ctx(p, config, root, nodes, gv),
        edge(gv, u, w),
    ensures
        0 <= j < dir_count(p, config, nodes, u as int),
        dir_succ(p, config, nodes, u as int, j).contains(w),
{
    assert(gv[u as int] == node_succ(p, config, nodes, u as int));
    lemma_succ_upto_member(p, config, nodes, u as int, dir_count(p, config, nodes, u as int), w)
}

proof fn lemma_dir_edge(p: Project, config: int, root: u32, nodes: Seq<Node>, gv: Seq<Seq<u32>>, x: int, j: int, c: u32)
    requires
        graph_ctx(p, config, root, nodes, gv),
        0 <= x < nodes.len(),
        0 <= j < dir_count(p, config, nodes, x),
        dir_succ(p, config, nodes, x, j).contains(c),
    ensures
        edge(gv, x as u32, c),
{
    lemma_dir_succ_shape(p, config, root, nodes, x, j, c);
    lemma_succ_upto_has(p, config, nodes, x, dir_count(p, config, nodes, x), j, c);
    assert(gv[x] == node_succ(p, config, nodes, x));
}

/// An inclusion site is entered only from the node it hangs off.
proof fn lemma_edge_into_site(p: Project, config: int, root: u32, nodes: Seq<Node>, gv: Seq<Seq<u32>>, u: u32, w: u32)
    requires
        graph_ctx(p, config, root, nodes, gv),
        edge(gv, u, w),
    ensures
        nodes[w as int].parent != NO_PARENT ==> nodes[w as int].parent == u,
        nodes[w as int].parent == NO_PARENT ==> p.spec_once(nodes[w as int].file as int),
{
    let j = lemma_edge_dir(p, config, root, nodes, gv, u, w);
    lemma_dir_succ_shape(p, config, root, nodes, u as int, j, w);
}

// ---------------------------------------------------------------------------
// Anchors: each inclusion site hangs, through its parents, off one node that
// is not a site (the root or a guarded file).
// ---------------------------------------------------------------------------
/// The node that `z`'s chain of inclusion sites hangs off.
pub open spec fn anchor_of(nodes: Seq<Node>, z: int) -> int
    decreases z,
{
    if 0 <= z < nodes.len() && nodes[z].parent != NO_PARENT && nodes[z].parent < z {
        anchor_of(nodes, nodes[z].parent as int)
    } else {
        z
    }
}

/// `a` is an inclusion site on the chain from `z` up to its anchor.
pub open spec fn below(nodes: Seq<Node>, a: int, z: int) -> bool
    decreases z,
{
    if 0 <= z < nodes.len() && nodes[z].parent != NO_PARENT && nodes[z].parent < z {
        z == a || below(nodes, a, nodes[z].parent as int)
    } else {
        false
    }
}

proof fn lemma_anchor(nodes: Seq<Node>, z: int)
    requires
        parents_earlier(nodes),
        0 <= z < nodes.len(),
    ensures
        0 <= anchor_of(nodes, z) <= z,
        nodes[anchor_of(nodes, z)].parent == NO_PARENT,
    decreases z,
{
    if nodes[z].parent != NO_PARENT {
        lemma_anchor(nodes, nodes[z].parent as int);
    }
}

proof fn lemma_below(nodes: Seq<Node>, a: int, z: int)
    requires
        parents_earlier(nodes),
        below(nodes, a, z),
    ensures
        0 <= a <= z < nodes.len(),
        nodes[a].parent != NO_PARENT,
        anchor_of(nodes, a) == anchor_of(nodes, z),
    decreases z,
{
    if z != a {
        lemma_below(nodes, a, nodes[z].parent as int);
    }
}

proof fn lemma_below_linear(nodes: Seq<Node>, a: int, b: int, z: int)
    requires
        parents_earlier(nodes),
        below(nodes, a, z),
        below(nodes, b, z),
    ensures
        below(nodes, a, b) || below(nodes, b, a),
    decreases z,
{
    if z != a && z != b {
        lemma_below_linear(nodes, a, b, nodes[z].parent as int);
    }
}

/// Two sites hanging off the same node are not on one chain unless equal.
proof fn lemma_below_siblings(nodes: Seq<Node>, a: int, b: int, z: int)
    requires
        parents_earlier(nodes),
        below(nodes, a, z),
        below(nodes, b, z),
        nodes[a].parent == nodes[b].parent,
    ensures
        a == b,
{
    lemma_below_linear(nodes, a, b, z);
    lemma_below(nodes, a, z);
    lemma_below(nodes, b, z);
    if below(nodes, a, b) && a != b {
        lemma_below(nodes, a, nodes[b].parent as int);
    }
    if below(nodes, b, a) && a != b {
        lemma_below(nodes, b, nodes[a].parent as int);
    }
}

/// A walk into an inclusion site either passes through its anchor or starts
/// on the chain of sites above it.
proof fn lemma_entry(p: Project, config: int, root: u32, nodes: Seq<Node>, gv: Seq<Seq<u32>>, q: Seq<u32>)
    requires
        graph_ctx(p, config, root, nodes, gv),
        is_path(gv, q),
    ensures
        q.contains(anchor_of(nodes, q.last() as int) as u32) || below(nodes, q[0] as int, q.last() as int),
    decreases q.len(),
{
    lemma_parents_earlier(p, config, root, nodes);
    let z = q.last() as int;
    assert(q[q.len() - 1] < gv.len());
    if nodes[z].parent == NO_PARENT {
        assert(q[q.len() - 1] == anchor_of(nodes, z) as u32);
    } else if q.len() == 1 {
        assert(below(nodes, q[0] as int, z));
    } else {
        let r = q.drop_last();
        assert(step_ok(gv, q, q.len() - 2));
        assert forall|i: int| 0 <= i < r.len() implies #[trigger] r[i] < gv.len() by {
            assert(q[i] < gv.len());
        }
        assert forall|i: int| 0 <= i < r.len() - 1 implies #[trigger] step_ok(gv, r, i) by {
            assert(step_ok(gv, q, i));
        }
        let u = r.last();
        lemma_edge_into_site(p, config, root, nodes, gv, u, q.last());
        lemma_entry(p, config, root, nodes, gv, r);
        if r.contains(anchor_of(nodes, u as int) as u32) {
            let i = choose|i: int| 0 <= i < r.len() && r[i] == anchor_of(nodes, u as int) as u32;
            assert(q[i] == r[i]);
        }
    }
}

/// No edge enters the root unless the root is guarded.
proof fn lemma_into_root(p: Project, config: int, root: u32, nodes: Seq<Node>, gv: Seq<Seq<u32>>, x: int, j: int)
    requires
        graph_ctx(p, config, root, nodes, gv),
        0 <= x < nodes.len(),
        dir_succ(p, config, nodes, x, j).contains(0),
    ensures
        p.spec_once(root as int),
{
    lemma_dir_succ_shape(p, config, root, nodes, x, j, 0);
}

// ---------------------------------------------------------------------------
// Node names.
// ---------------------------------------------------------------------------
proof fn lemma_key_injective(p: Project, config: int, root: u32, nodes: Seq<Node>, x: int, y: int)
    requires
        nodes_ok(p, config, root, nodes),
        0 <= x < nodes.len(),
        0 <= y < nodes.len(),
        key_spec(nodes, x) == key_spec(nodes, y),
    ensures
        x == y,
    decreases x,
{
    lemma_parents_earlier(p, config, root, nodes);
    let kx = key_spec(nodes, x);
    let ky = key_spec(nodes, y);
    if nodes[x].parent == NO_PARENT && nodes[y].parent == NO_PARENT {
        assert(nodes[x].file == nodes[y].file);
    } else if nodes[x].parent == NO_PARENT {
        assert(ky.1.len() >= 1);
    } else if nodes[y].parent == NO_PARENT {
        assert(kx.1.len() >= 1);
    } else {
        let px = nodes[x].parent as int;
        let py = nodes[y].parent as int;
        assert(kx.1.last() == nodes[x].directive);
        assert(ky.1.last() == nodes[y].directive);
        assert(key_spec(nodes, px).1 =~= kx.1.drop_last());
        assert(key_spec(nodes, py).1 =~= ky.1.drop_last());
        lemma_key_injective(p, config, root, nodes, px, py);
    }
}

// ---------------------------------------------------------------------------
// Walks that avoid blocked nodes.
// ---------------------------------------------------------------------------
/// Node `z` is not entered: it is the emptied node `s`, or the node of a
/// guarded file that `seen` records as expanded already.
pub open spec fn blocked(nodes: Seq<Node>, seen: Seq<bool>, s: u32, z: u32) -> bool {
    z == s || (nodes[z as int].parent == NO_PARENT && (nodes[z as int].file as int) < seen.len()
        && seen[nodes[z as int].file as int])
}

/// `q` is a walk through nodes none of which is blocked.
pub open spec fn free_path(gv: Seq<Seq<u32>>, nodes: Seq<Node>, seen: Seq<bool>, s: u32, q: Seq<u32>) -> bool {
    &&& is_path(gv, q)
    &&& forall|i: int| 0 <= i < q.len() ==> !#[trigger] blocked(nodes, seen, s, q[i])
}

/// Some walk from `a` to `z` enters no blocked node.
pub open spec fn free_reach(gv: Seq<Seq<u32>>, nodes: Seq<Node>, seen: Seq<bool>, s: u32, a: u32, z: u32) -> bool {
    exists|q: Seq<u32>| #[trigger] free_path(gv, nodes, seen, s, q) && q[0] == a && q.last() == z
}

/// The nodes that `a` reaches without entering a blocked node.
pub open spec fn reach_flags(gv: Seq<Seq<u32>>, nodes: Seq<Node>, seen: Seq<bool>, s: u32, a: u32) -> Seq<bool> {
    Seq::new(nodes.len(), |z: int| free_reach(gv, nodes, seen, s, a, z as u32))
}

/// The nodes reached that way from what directives `i` on of `x` include.
pub open spec fn dirs_flags(
    p: Project,
    config: int,
    gv: Seq<Seq<u32>>,
    nodes: Seq<Node>,
    seen: Seq<bool>,
    s: u32,
    x: int,
    i: int,
) -> Seq<bool> {
    Seq::new(
        nodes.len(),
        |z: int|
            exists|j: int, c: u32|
                i <= j < dir_count(p, config, nodes, x) && #[trigger] dir_succ(p, config, nodes, x, j).contains(c)
                    && free_reach(gv, nodes, seen, s, c, z as u32),
    )
}

/// What expanding node `x` emits: `x` itself and what its directives
/// reach; nothing when `x` is the emptied node.
pub open spec fn expand_flags(
    p: Project,
    config: int,
    gv: Seq<Seq<u32>>,
    nodes: Seq<Node>,
    seen: Seq<bool>,
    s: u32,
    x: int,
) -> Seq<bool> {
    if x == s as int {
        Seq::new(nodes.len(), |z: int| false)
    } else {
        dirs_flags(p, config, gv, nodes, seen, s, x, 0).update(x, true)
    }
}

/// `after` keeps every mark of `seen` and blocks what `seen` blocks plus the
/// guarded nodes among `flags`, and nothing else.
pub open spec fn marks_ok(p: Project, nodes: Seq<Node>, seen: Seq<bool>, s: u32, flags: Seq<bool>, after: Seq<bool>) -> bool {
    &&& after.len() == seen.len()
    &&& forall|f: int| 0 <= f < seen.len() && seen[f] ==> #[trigger] after[f]
    &&& forall|z: u32|
        z < nodes.len() ==> (#[trigger] blocked(nodes, after, s, z) <==> (blocked(nodes, seen, s, z) || (
        flags[z as int] && nodes[z as int].parent == NO_PARENT && p.spec_once(nodes[z as int].file as int))))
}

/// The node that the sites above `x` hang off is blocked, or is a root that
/// no edge enters.
pub open spec fn anchor_ok(p: Project, root: u32, nodes: Seq<Node>, seen: Seq<bool>, x: int) -> bool {
    let a = anchor_of(nodes, x);
    (a == 0 && !p.spec_once(root as int)) || ((nodes[a].file as int) < seen.len() && seen[nodes[a].file as int])
}

proof fn lemma_sub_path(gv: Seq<Seq<u32>>, nodes: Seq<Node>, seen: Seq<bool>, s: u32, q: Seq<u32>, lo: int, hi: int)
    requires
        free_path(gv, nodes, seen, s, q),
        0 <= lo < hi <= q.len(),
    ensures
        free_path(gv, nodes, seen, s, q.subrange(lo, hi)),
{
    let r = q.subrange(lo, hi);
    assert forall|i: int| 0 <= i < r.len() implies #[trigger] r[i] < gv.len() && !blocked(nodes, seen, s, r[i]) by {
        assert(r[i] == q[lo + i]);
        assert(q[lo + i] < gv.len());
        assert(!blocked(nodes, seen, s, q[lo + i]));
    }
    assert forall|i: int| 0 <= i < r.len() - 1 implies #[trigger] step_ok(gv, r, i) by {
        assert(step_ok(gv, q, lo + i));
    }
}

/// Joins a free walk ending at `q[k]` with the rest of `q` after `k`.
proof fn lemma_join(gv: Seq<Seq<u32>>, nodes: Seq<Node>, seen: Seq<bool>, s: u32, q1: Seq<u32>, q: Seq<u32>, k: int)
    requires
        free_path(gv, nodes, seen, s, q1),
        free_path(gv, nodes, seen, s, q),
        0 <= k < q.len(),
        q1.last() == q[k],
    ensures
        free_path(gv, nodes, seen, s, q1 + q.subrange(k + 1, q.len() as int)),
        (q1 + q.subrange(k + 1, q.len() as int))[0] == q1[0],
        (q1 + q.subrange(k + 1, q.len() as int)).last() == q.last(),
{
    let t = q.subrange(k + 1, q.len() as int);
    let r = q1 + t;
    assert forall|i: int| 0 <= i < r.len() implies #[trigger] r[i] < gv.len() && !blocked(nodes, seen, s, r[i]) by {
        if i < q1.len() {
            assert(r[i] == q1[i]);
            assert(q1[i] < gv.len());
            assert(!blocked(nodes, seen, s, q1[i]));
        } else {
            assert(r[i] == q[k + 1 + i - q1.len()]);
            assert(q[k + 1 + i - q1.len()] < gv.len());
            assert(!blocked(nodes, seen, s, q[k + 1 + i - q1.len()]));
        }
    }
    assert forall|i: int| 0 <= i < r.len() - 1 implies #[trigger] step_ok(gv, r, i) by {
        if i < q1.len() - 1 {
            assert(step_ok(gv, q1, i));
        } else if i == q1.len() - 1 {
            assert(step_ok(gv, q, k));
            assert(r[i] == q[k]);
            assert(r[i + 1] == q[k + 1]);
        } else {
            assert(step_ok(gv, q, k + 1 + i - q1.len()));
            assert(r[i] == q[k + 1 + i - q1.len()]);
            assert(r[i + 1] == q[k + 2 + i - q1.len()]);
        }
    }
    if t.len() == 0 {
        assert(r =~= q1);
        assert(q.last() == q[k]);
    } else {
        assert(r.last() == t.last());
    }
}

/// The last position of `a` in `q`.
proof fn lemma_last_index(q: Seq<u32>, a: u32) -> (k: int)
    requires
        q.contains(a),
    ensures
        0 <= k < q.len(),
        q[k] == a,
        forall|i: int| k < i < q.len() ==> q[i] != a,
    decreases q.len(),
{
    if q.last() == a {
        (q.len() - 1) as int
    } else {
        let r = q.drop_last();
        let i0 = choose|i: int| 0 <= i < q.len() && q[i] == a;
        assert(r[i0] == a);
        let k = lemma_last_index(r, a);
        assert(q[k] == r[k]);
        assert forall|i: int| k < i < q.len() implies q[i] != a by {
            if i < r.len() {
                assert(q[i] == r[i]);
            }
        }
        k
    }
}

/// A walk that starts at what a directive includes and passes the root
/// means the root is guarded.
proof fn lemma_path_to_root(p: Project, config: int, root: u32, nodes: Seq<Node>, gv: Seq<Seq<u32>>, q: Seq<u32>, x: int, j: int)
    requires
        graph_ctx(p, config, root, nodes, gv),
        is_path(gv, q),
        0 <= x < nodes.len(),
        dir_succ(p, config, nodes, x, j).contains(q[0]),
        q.contains(0),
    ensures
        p.spec_once(root as int),
{
    let k = choose|k: int| 0 <= k < q.len() && q[k] == 0;
    if k == 0 {
        lemma_into_root(p, config, root, nodes, gv, x, j);
    } else {
        assert(step_ok(gv, q, k - 1));
        lemma_edge_into_site(p, config, root, nodes, gv, q[k - 1], 0);
    }
}

/// A non-site node at the end of a walk that starts at what a directive
/// includes is a guarded file.
proof fn lemma_reached_once(p: Project, config: int, root: u32, nodes: Seq<Node>, gv: Seq<Seq<u32>>, q: Seq<u32>, x: int, j: int)
    requires
        graph_ctx(p, config, root, nodes, gv),
        is_path(gv, q),
        0 <= x < nodes.len(),
        dir_succ(p, config, nodes, x, j).contains(q[0]),
        nodes[q.last() as int].parent == NO_PARENT,
    ensures
        p.spec_once(nodes[q.last() as int].file as int),
{
    if q.len() == 1 {
        lemma_dir_succ_shape(p, config, root, nodes, x, j, q[0]);
    } else {
        assert(step_ok(gv, q, q.len() - 2));
        lemma_edge_into_site(p, config, root, nodes, gv, q[q.len() - 2], q.last());
    }
}

// ---------------------------------------------------------------------------
// Entering a node, and one directive after another.
// ---------------------------------------------------------------------------
/// What `a` reaches is `a` and what its directives reach once `a` is
/// entered, where entering blocks at most `a` itself.
proof fn lemma_enter(
    p: Project,
    config: int,
    root: u32,
    nodes: Seq<Node>,
    gv: Seq<Seq<u32>>,
    seen: Seq<bool>,
    seen2: Seq<bool>,
    s: u32,
    a: u32,
)
    requires
        graph_ctx(p, config, root, nodes, gv),
        a < nodes.len(),
        a == s || !blocked(nodes, seen, s, a),
        forall|z: u32| z < nodes.len() && blocked(nodes, seen, s, z) ==> #[trigger] blocked(nodes, seen2, s, z),
        forall|z: u32| z < nodes.len() && #[trigger] blocked(nodes, seen2, s, z) ==> blocked(nodes, seen, s, z) || z == a,
    ensures
        reach_flags(gv, nodes, seen, s, a) == expand_flags(p, config, gv, nodes, seen2, s, a as int),
{
    let n = nodes.len();
    let lhs = reach_flags(gv, nodes, seen, s, a);
    let rhs = expand_flags(p, config, gv, nodes, seen2, s, a as int);
    if a == s {
        assert forall|z: int| 0 <= z < n implies lhs[z] == rhs[z] by {
            if lhs[z] {
                let q = choose|q: Seq<u32>| #[trigger] free_path(gv, nodes, seen, s, q) && q[0] == a && q.last() == z as u32;
                assert(!blocked(nodes, seen, s, q[0]));
            }
        }
    } else {
        assert forall|z: int| 0 <= z < n implies lhs[z] == rhs[z] by {
            let d = dirs_flags(p, config, gv, nodes, seen2, s, a as int, 0);
            if z == a as int {
                let q = seq![a];
                assert(q[0] == a);
                assert(free_path(gv, nodes, seen, s, q));
                assert(free_reach(gv, nodes, seen, s, a, z as u32));
            } else {
                if d[z] {
                    let (j, c) = choose|j: int, c: u32|
                        0 <= j < dir_count(p, config, nodes, a as int) && #[trigger] dir_succ(p, config, nodes, a as int, j).contains(c)
                            && free_reach(gv, nodes, seen2, s, c, z as u32);
                    let q2 = choose|q: Seq<u32>| #[trigger] free_path(gv, nodes, seen2, s, q) && q[0] == c && q.last() == z as u32;
                    lemma_dir_edge(p, config, root, nodes, gv, a as int, j, c);
                    let q = seq![a] + q2;
                    assert forall|i: int| 0 <= i < q.len() implies #[trigger] q[i] < gv.len() && !blocked(nodes, seen, s, q[i]) by {
                        if i > 0 {
                            assert(q[i] == q2[i - 1]);
                            assert(q2[i - 1] < gv.len());
                            assert(!blocked(nodes, seen2, s, q2[i - 1]));
                        }
                    }
                    assert forall|i: int| 0 <= i < q.len() - 1 implies #[trigger] step_ok(gv, q, i) by {
                        if i > 0 {
                            assert(step_ok(gv, q2, i - 1));
                            assert(q[i] == q2[i - 1]);
                            assert(q[i + 1] == q2[i]);
                        } else {
                            assert(q[1] == q2[0]);
                        }
                    }
                    assert(q.last() == q2.last());
                    assert(free_path(gv, nodes, seen, s, q));
                    assert(free_reach(gv, nodes, seen, s, a, z as u32));
                }
                if lhs[z] {
                    let q = choose|q: Seq<u32>| #[trigger] free_path(gv, nodes, seen, s, q) && q[0] == a && q.last() == z as u32;
                    assert(q[0] == a);
                    let k = lemma_last_index(q, a);
                    assert(k < q.len() - 1);
                    let c = q[k + 1];
                    assert(step_ok(gv, q, k));
                    let j = lemma_edge_dir(p, config, root, nodes, gv, a, c);
                    lemma_sub_path(gv, nodes, seen, s, q, k + 1, q.len() as int);
                    let q2 = q.subrange(k + 1, q.len() as int);
                    assert forall|i: int| 0 <= i < q2.len() implies !#[trigger] blocked(nodes, seen2, s, q2[i]) by {
                        assert(q2[i] == q[k + 1 + i]);
                        assert(q2[i] < gv.len());
                        assert(!blocked(nodes, seen, s, q2[i]));
                    }
                    assert(free_path(gv, nodes, seen2, s, q2));
                    assert(q2.last() == q.last());
                    assert(free_reach(gv, nodes, seen2, s, c, z as u32));
                    assert(dir_succ(p, config, nodes, a as int, j).contains(c));
                    assert(d[z]);
                }
            }
        }
    }
    assert(lhs =~= rhs);
}

/// Nothing that a blocked node reaches.
proof fn lemma_blocked_reaches_nothing(gv: Seq<Seq<u32>>, nodes: Seq<Node>, seen: Seq<bool>, s: u32, a: u32, z: u32)
    requires
        blocked(nodes, seen, s, a),
    ensures
        !free_reach(gv, nodes, seen, s, a, z),
{
    if free_reach(gv, nodes, seen, s, a, z) {
        let q = choose|q: Seq<u32>| #[trigger] free_path(gv, nodes, seen, s, q) && q[0] == a && q.last() == z;
        assert(!blocked(nodes, seen, s, q[0]));
    }
}

/// A directive that includes nothing, or only a blocked node, adds nothing.
proof fn lemma_dirs_skip(
    p: Project,
    config: int,
    root: u32,
    nodes: Seq<Node>,
    gv: Seq<Seq<u32>>,
    seen: Seq<bool>,
    s: u32,
    x: int,
    i: int,
)
    requires
        graph_ctx(p, config, root, nodes, gv),
        0 <= x < nodes.len(),
        0 <= i < dir_count(p, config, nodes, x),
        forall|c: u32| #[trigger] dir_succ(p, config, nodes, x, i).contains(c) ==> blocked(nodes, seen, s, c),
    ensures
        dirs_flags(p, config, gv, nodes, seen, s, x, i) == dirs_flags(p, config, gv, nodes, seen, s, x, i + 1),
{
    let a = dirs_flags(p, config, gv, nodes, seen, s, x, i);
    let b = dirs_flags(p, config, gv, nodes, seen, s, x, i + 1);
    assert forall|z: int| 0 <= z < nodes.len() implies a[z] == b[z] by {
        if a[z] {
            let (j, c) = choose|j: int, c: u32|
                i <= j < dir_count(p, config, nodes, x) && #[trigger] dir_succ(p, config, nodes, x, j).contains(c)
                    && free_reach(gv, nodes, seen, s, c, z as u32);
            if j == i {
                lemma_blocked_reaches_nothing(gv, nodes, seen, s, c, z as u32);
            }
        }
    }
    assert(a =~= b);
}

/// The anchor of an inclusion site is the anchor of the node it hangs off.
proof fn lemma_anchor_site(p: Project, config: int, root: u32, nodes: Seq<Node>, c: int)
    requires
        nodes_ok(p, config, root, nodes),
        0 <= c < nodes.len(),
        nodes[c].parent != NO_PARENT,
    ensures
        anchor_of(nodes, c) == anchor_of(nodes, nodes[c].parent as int),
        (nodes[c].parent as int) < c,
{
    lemma_parents_earlier(p, config, root, nodes);
}

/// A guarded anchor that is blocked, or an unguarded root, is on no walk
/// that starts at what a directive includes and avoids blocked nodes.
proof fn lemma_anchor_avoided(
    p: Project,
    config: int,
    root: u32,
    nodes: Seq<Node>,
    gv: Seq<Seq<u32>>,
    seen: Seq<bool>,
    s: u32,
    q: Seq<u32>,
    x: int,
    j: int,
    a: int,
)
    requires
        graph_ctx(p, config, root, nodes, gv),
        free_path(gv, nodes, seen, s, q),
        0 <= x < nodes.len(),
        dir_succ(p, config, nodes, x, j).contains(q[0]),
        0 <= a < nodes.len(),
        nodes[a].parent == NO_PARENT,
        (a == 0 && !p.spec_once(root as int)) || ((nodes[a].file as int) < seen.len() && seen[nodes[a].file as int]),
    ensures
        !q.contains(a as u32),
{
    if q.contains(a as u32) {
        let k = choose|k: int| 0 <= k < q.len() && q[k] == a as u32;
        if a == 0 && !p.spec_once(root as int) {
            lemma_path_to_root(p, config, root, nodes, gv, q, x, j);
        } else {
            assert(!blocked(nodes, seen, s, q[k]));
        }
    }
}

/// What directive `i` of `x` reaches and what later directives reach once
/// that is recorded share no node.
proof fn lemma_disjoint(
    p: Project,
    config: int,
    root: u32,
    nodes: Seq<Node>,
    gv: Seq<Seq<u32>>,
    seen: Seq<bool>,
    s1: Seq<bool>,
    s: u32,
    x: int,
    i: int,
    y: u32,
    z: u32,
)
    requires
        graph_ctx(p, config, root, nodes, gv),
        0 <= x < nodes.len(),
        0 <= i < dir_count(p, config, nodes, x),
        dir_succ(p, config, nodes, x, i).contains(y),
        marks_ok(p, nodes, seen, s, reach_flags(gv, nodes, seen, s, y), s1),
        anchor_ok(p, root, nodes, seen, x),
        z < nodes.len(),
    ensures
        !(free_reach(gv, nodes, seen, s, y, z) && dirs_flags(p, config, gv, nodes, s1, s, x, i + 1)[z as int]),
{
    lemma_parents_earlier(p, config, root, nodes);
    let xf = reach_flags(gv, nodes, seen, s, y);
    if free_reach(gv, nodes, seen, s, y, z) && dirs_flags(p, config, gv, nodes, s1, s, x, i + 1)[z as int] {
        let q1 = choose|q: Seq<u32>| #[trigger] free_path(gv, nodes, seen, s, q) && q[0] == y && q.last() == z;
        let (j, c2) = choose|j: int, c: u32|
            i + 1 <= j < dir_count(p, config, nodes, x) && #[trigger] dir_succ(p, config, nodes, x, j).contains(c)
                && free_reach(gv, nodes, s1, s, c, z);
        let q2 = choose|q: Seq<u32>| #[trigger] free_path(gv, nodes, s1, s, q) && q[0] == c2 && q.last() == z;
        assert(q1[0] == y);
        assert(q2[0] == c2);
        assert(!blocked(nodes, s1, s, q2[q2.len() - 1]));
        if nodes[z as int].parent == NO_PARENT {
            lemma_reached_once(p, config, root, nodes, gv, q1, x, i);
            assert(xf[z as int]);
            assert(blocked(nodes, s1, s, z));
        } else {
            let a = anchor_of(nodes, z as int);
            lemma_anchor(nodes, z as int);
            lemma_entry(p, config, root, nodes, gv, q1);
            lemma_entry(p, config, root, nodes, gv, q2);
            lemma_anchor(nodes, x);
            lemma_dir_succ_shape(p, config, root, nodes, x, i, y);
            lemma_dir_succ_shape(p, config, root, nodes, x, j, c2);
            if q1.contains(a as u32) {
                // The anchor is reached from `y`, so it is recorded in `s1`.
                let k = choose|k: int| 0 <= k < q1.len() && q1[k] == a as u32;
                lemma_sub_path(gv, nodes, seen, s, q1, 0, k + 1);
                let pre = q1.subrange(0, k + 1);
                assert(pre.last() == a as u32);
                assert(free_reach(gv, nodes, seen, s, y, a as u32));
                assert(xf[a]);
                lemma_reached_once(p, config, root, nodes, gv, pre, x, i);
                assert(blocked(nodes, s1, s, a as u32));
                if q2.contains(a as u32) {
                    let k2 = choose|k2: int| 0 <= k2 < q2.len() && q2[k2] == a as u32;
                    assert(!blocked(nodes, s1, s, q2[k2]));
                } else {
                    // `c2` sits above `z`, so `a` is the anchor of `x`.
                    lemma_below(nodes, c2 as int, z as int);
                    lemma_anchor_site(p, config, root, nodes, c2 as int);
                    lemma_anchor_avoided(p, config, root, nodes, gv, seen, s, q1, x, i, a);
                }
            } else {
                // `y` sits above `z`, so `a` is the anchor of `x`.
                lemma_below(nodes, y as int, z as int);
                lemma_anchor_site(p, config, root, nodes, y as int);
                assert(a == anchor_of(nodes, x));
                if q2.contains(a as u32) {
                    if a == 0 && !p.spec_once(root as int) {
                        lemma_path_to_root(p, config, root, nodes, gv, q2, x, j);
                    } else {
                        assert(blocked(nodes, seen, s, a as u32));
                        assert(blocked(nodes, s1, s, a as u32));
                        let k2 = choose|k2: int| 0 <= k2 < q2.len() && q2[k2] == a as u32;
                        assert(!blocked(nodes, s1, s, q2[k2]));
                    }
                } else {
                    lemma_below(nodes, c2 as int, z as int);
                    lemma_below_siblings(nodes, y as int, c2 as int, z as int);
                }
            }
        }
    }
}

/// Directives `i` on of `x` reach what directive `i` does together with what
/// the later ones reach once that is recorded, and the two are disjoint.
proof fn lemma_compose(
    p: Project,
    config: int,
    root: u32,
    nodes: Seq<Node>,
    gv: Seq<Seq<u32>>,
    seen: Seq<bool>,
    s1: Seq<bool>,
    s: u32,
    x: int,
    i: int,
    y: u32,
)
    requires
        graph_ctx(p, config, root, nodes, gv),
        0 <= x < nodes.len(),
        0 <= i < dir_count(p, config, nodes, x),
        dir_succ(p, config, nodes, x, i).contains(y),
        marks_ok(p, nodes, seen, s, reach_flags(gv, nodes, seen, s, y), s1),
        anchor_ok(p, root, nodes, seen, x),
    ensures
        forall|z: int|
            0 <= z < nodes.len() ==> #[trigger] dirs_flags(p, config, gv, nodes, seen, s, x, i)[z] == (reach_flags(
                gv,
                nodes,
                seen,
                s,
                y,
            )[z] || dirs_flags(p, config, gv, nodes, s1, s, x, i + 1)[z]),
        forall|z: int|
            0 <= z < nodes.len() ==> !(#[trigger] reach_flags(gv, nodes, seen, s, y)[z] && dirs_flags(
                p,
                config,
                gv,
                nodes,
                s1,
                s,
                x,
                i + 1,
            )[z]),
{
    let xf = reach_flags(gv, nodes, seen, s, y);
    let d0 = dirs_flags(p, config, gv, nodes, seen, s, x, i);
    let d1 = dirs_flags(p, config, gv, nodes, s1, s, x, i + 1);
    lemma_dir_succ_shape(p, config, root, nodes, x, i, y);
    assert forall|z: int| 0 <= z < nodes.len() implies #[trigger] d0[z] == (xf[z] || d1[z]) by {
        if d0[z] {
            let (j, c) = choose|j: int, c: u32|
                i <= j < dir_count(p, config, nodes, x) && #[trigger] dir_succ(p, config, nodes, x, j).contains(c)
                    && free_reach(gv, nodes, seen, s, c, z as u32);
            if j == i {
                assert(seq![y].contains(c));
                assert(c == seq![y][0]);
            } else {
                let q = choose|q: Seq<u32>| #[trigger] free_path(gv, nodes, seen, s, q) && q[0] == c && q.last() == z as u32;
                if free_path(gv, nodes, s1, s, q) {
                    assert(free_reach(gv, nodes, s1, s, c, z as u32));
                } else {
                    let k = choose|k: int| 0 <= k < q.len() && #[trigger] blocked(nodes, s1, s, q[k]);
                    assert(q[k] < gv.len());
                    assert(!blocked(nodes, seen, s, q[k]));
                    assert(xf[q[k] as int]);
                    let q1 = choose|r: Seq<u32>| #[trigger] free_path(gv, nodes, seen, s, r) && r[0] == y && r.last() == q[k];
                    lemma_join(gv, nodes, seen, s, q1, q, k);
                    let r = q1 + q.subrange(k + 1, q.len() as int);
                    assert(free_path(gv, nodes, seen, s, r) && r[0] == y && r.last() == z as u32);
                    assert(xf[z]);
                }
            }
        }
        if xf[z] {
            assert(dir_succ(p, config, nodes, x, i).contains(y));
            assert(free_reach(gv, nodes, seen, s, y, z as u32));
        }
        if d1[z] {
            let (j, c) = choose|j: int, c: u32|
                i + 1 <= j < dir_count(p, config, nodes, x) && #[trigger] dir_succ(p, config, nodes, x, j).contains(c)
                    && free_reach(gv, nodes, s1, s, c, z as u32);
            let q = choose|q: Seq<u32>| #[trigger] free_path(gv, nodes, s1, s, q) && q[0] == c && q.last() == z as u32;
            assert forall|k: int| 0 <= k < q.len() implies !#[trigger] blocked(nodes, seen, s, q[k]) by {
                assert(q[k] < gv.len());
                assert(!blocked(nodes, s1, s, q[k]));
            }
            assert(free_path(gv, nodes, seen, s, q));
            assert(free_reach(gv, nodes, seen, s, c, z as u32));
        }
    }
    assert forall|z: int| 0 <= z < nodes.len() implies !(#[trigger] xf[z] && d1[z]) by {
        lemma_disjoint(p, config, root, nodes, gv, seen, s1, s, x, i, y, z as u32);
    }
}

/// Nothing that `x`'s directives reach leads back to `x`.
proof fn lemma_no_return(
    p: Project,
    config: int,
    root: u32,
    nodes: Seq<Node>,
    gv: Seq<Seq<u32>>,
    seen: Seq<bool>,
    s: u32,
    x: int,
)
    requires
        graph_ctx(p, config, root, nodes, gv),
        0 <= x < nodes.len(),
        anchor_ok(p, root, nodes, seen, x),
    ensures
        !dirs_flags(p, config, gv, nodes, seen, s, x, 0)[x],
{
    lemma_parents_earlier(p, config, root, nodes);
    if dirs_flags(p, config, gv, nodes, seen, s, x, 0)[x] {
        let (j, c) = choose|j: int, c: u32|
            0 <= j < dir_count(p, config, nodes, x) && #[trigger] dir_succ(p, config, nodes, x, j).contains(c)
                && free_reach(gv, nodes, seen, s, c, x as u32);
        let q = choose|q: Seq<u32>| #[trigger] free_path(gv, nodes, seen, s, q) && q[0] == c && q.last() == x as u32;
        assert(q[0] == c);
        lemma_entry(p, config, root, nodes, gv, q);
        lemma_anchor(nodes, x);
        lemma_dir_succ_shape(p, config, root, nodes, x, j, c);
        if q.contains(anchor_of(nodes, x) as u32) {
            lemma_anchor_avoided(p, config, root, nodes, gv, seen, s, q, x, j, anchor_of(nodes, x));
        } else {
            lemma_below(nodes, c as int, x);
        }
    }
}

// ---------------------------------------------------------------------------
// The walk, step by step.
// ---------------------------------------------------------------------------
/// The files of the inclusion sites from `x` up to its anchor.
pub open spec fn chain_flags(nodes: Seq<Node>, x: int, nf: nat) -> Seq<bool> {
    Seq::new(nf, |f: int| chain_has(nodes, x, f as u32))
}

/// The name of node `s`, or none when `s` is not a node.
pub open spec fn emptied_at(nodes: Seq<Node>, s: u32) -> Option<(u32, Seq<u32>)> {
    if (s as int) < nodes.len() {
        Some(key_spec(nodes, s as int))
    } else {
        None
    }
}

/// Each node weighs what its file does.
pub open spec fn weights_ok(p: Project, nodes: Seq<Node>, w: Seq<u64>) -> bool {
    &&& w.len() == nodes.len()
    &&& forall|v: int| 0 <= v < nodes.len() ==> #[trigger] w[v] == p.spec_weight(nodes[v].file as int)
}

/// The walk is about to expand node `x`, named `(anchor, path)`, with the
/// guarded files `seen` expanded and the files `on` on the stack of sites.
pub open spec fn walk_state(
    p: Project,
    config: int,
    root: u32,
    nodes: Seq<Node>,
    gv: Seq<Seq<u32>>,
    seen: Seq<bool>,
    on: Seq<bool>,
    path: Seq<u32>,
    anchor: u32,
    x: int,
) -> bool {
    &&& graph_ctx(p, config, root, nodes, gv)
    &&& 0 <= x < nodes.len()
    &&& seen.len() == p.paths@.len()
    &&& on == chain_flags(nodes, x, p.paths@.len())
    &&& key_spec(nodes, x) == (anchor, path)
    &&& anchor_ok(p, root, nodes, seen, x)
}

proof fn lemma_at_key(p: Project, config: int, root: u32, nodes: Seq<Node>, s: u32, x: int, anchor: u32, path: Seq<u32>)
    requires
        nodes_ok(p, config, root, nodes),
        0 <= x < nodes.len(),
        key_spec(nodes, x) == (anchor, path),
    ensures
        at_key(emptied_at(nodes, s), anchor, path) <==> x == s as int,
{
    if (s as int) < nodes.len() && at_key(emptied_at(nodes, s), anchor, path) {
        lemma_key_injective(p, config, root, nodes, x, s as int);
    }
}

proof fn lemma_count_true_mono(a: Seq<bool>, b: Seq<bool>)
    requires
        a.len() == b.len(),
        forall|f: int| 0 <= f < a.len() && a[f] ==> #[trigger] b[f],
    ensures
        count_true(a) <= count_true(b),
    decreases a.len(),
{
    if a.len() > 0 {
        assert forall|f: int| 0 <= f < a.drop_last().len() && a.drop_last()[f] implies #[trigger] b.drop_last()[f] by {
            assert(a.drop_last()[f] == a[f]);
            assert(b.drop_last()[f] == b[f]);
        }
        lemma_count_true_mono(a.drop_last(), b.drop_last());
        assert(a.last() ==> b[b.len() - 1]);
    }
}

proof fn lemma_chain_file(p: Project, config: int, root: u32, nodes: Seq<Node>, v: int, t: u32)
    requires
        nodes_ok(p, config, root, nodes),
        chain_has(nodes, v, t),
    ensures
        (t as int) < p.paths@.len(),
    decreases v,
{
    if nodes[v].file != t {
        lemma_chain_file(p, config, root, nodes, nodes[v].parent as int, t);
    }
}

proof fn lemma_walk_bound_pos(seen: Seq<bool>, on: Seq<bool>)
    ensures
        walk_bound(seen, on) >= 1,
{
    lemma_count_true_le(seen);
    lemma_count_true_le(on);
    let a = seen.len() - count_true(seen);
    assert(a * (seen.len() + 1) >= 0) by (nonlinear_arith)
        requires
            a >= 0,
    ;
}

/// Entering a node marks at most that node's guarded file.
proof fn lemma_marks_enter(
    p: Project,
    nodes: Seq<Node>,
    seen: Seq<bool>,
    seen2: Seq<bool>,
    s: u32,
    flags: Seq<bool>,
    after: Seq<bool>,
)
    requires
        marks_ok(p, nodes, seen2, s, flags, after),
        seen.len() == seen2.len(),
        forall|f: int| 0 <= f < seen.len() && seen[f] ==> #[trigger] seen2[f],
        forall|z: u32|
            z < nodes.len() && #[trigger] blocked(nodes, seen2, s, z) ==> blocked(nodes, seen, s, z) || (flags[z as int]
                && nodes[z as int].parent == NO_PARENT && p.spec_once(nodes[z as int].file as int)),
        forall|z: u32| z < nodes.len() && blocked(nodes, seen, s, z) ==> #[trigger] blocked(nodes, seen2, s, z),
    ensures
        marks_ok(p, nodes, seen, s, flags, after),
{
    assert forall|f: int| 0 <= f < seen.len() && seen[f] implies #[trigger] after[f] by {
        assert(seen2[f]);
    }
}

/// Recording one directive's nodes and then the later directives' nodes
/// records the nodes of both.
proof fn lemma_marks_trans(
    p: Project,
    nodes: Seq<Node>,
    seen: Seq<bool>,
    s1: Seq<bool>,
    s2: Seq<bool>,
    s: u32,
    xf: Seq<bool>,
    d1: Seq<bool>,
    d0: Seq<bool>,
)
    requires
        marks_ok(p, nodes, seen, s, xf, s1),
        marks_ok(p, nodes, s1, s, d1, s2),
        forall|z: int| 0 <= z < nodes.len() ==> #[trigger] d0[z] == (xf[z] || d1[z]),
    ensures
        marks_ok(p, nodes, seen, s, d0, s2),
{
    assert forall|f: int| 0 <= f < seen.len() && seen[f] implies #[trigger] s2[f] by {
        assert(s1[f]);
    }
    assert forall|z: u32| z < nodes.len() implies (#[trigger] blocked(nodes, s2, s, z) <==> (blocked(nodes, seen, s, z) || (
    d0[z as int] && nodes[z as int].parent == NO_PARENT && p.spec_once(nodes[z as int].file as int)))) by {
        assert(blocked(nodes, s2, s, z) == (blocked(nodes, s1, s, z) || (d1[z as int] && nodes[z as int].parent == NO_PARENT
            && p.spec_once(nodes[z as int].file as int))));
        assert(blocked(nodes, s1, s, z) == (blocked(nodes, seen, s, z) || (xf[z as int] && nodes[z as int].parent == NO_PARENT
            && p.spec_once(nodes[z as int].file as int))));
        assert(d0[z as int] == (xf[z as int] || d1[z as int]));
    }
}

/// Expanding node `x` emits the weight of what it reaches and records the
/// guarded files among them.
proof fn lemma_expand(
    p: Project,
    config: int,
    root: u32,
    nodes: Seq<Node>,
    gv: Seq<Seq<u32>>,
    w: Seq<u64>,
    s: u32,
    seen: Seq<bool>,
    on: Seq<bool>,
    path: Seq<u32>,
    anchor: u32,
    x: int,
    fuel: nat,
)
    requires
        walk_state(p, config, root, nodes, gv, seen, on, path, anchor, x),
        weights_ok(p, nodes, w),
        fuel >= walk_bound(seen, on),
    ensures
        ({
            let r = walk_expand(p, config, emptied_at(nodes, s), seen, on, path, anchor, nodes[x].file, fuel);
            let e = expand_flags(p, config, gv, nodes, seen, s, x);
            &&& r.0 == weighted(w, e, nodes.len() as int)
            &&& marks_ok(p, nodes, seen, s, e, r.1)
        }),
    decreases fuel, 1nat, 0int, 0nat,
{
    let n = nodes.len() as int;
    let f = nodes[x].file;
    let ev = emptied_at(nodes, s);
    let e = expand_flags(p, config, gv, nodes, seen, s, x);
    lemma_at_key(p, config, root, nodes, s, x, anchor, path);
    if x == s as int {
        lemma_weighted_none(w, e, n);
    } else {
        lemma_dirs(p, config, root, nodes, gv, w, s, seen, on, path, anchor, x, 0, fuel);
        let r = walk_dirs(p, config, ev, seen, on, path, anchor, f, 0, fuel);
        let d0 = dirs_flags(p, config, gv, nodes, seen, s, x, 0);
        lemma_no_return(p, config, root, nodes, gv, seen, s, x);
        lemma_weighted_set(w, d0, x, n);
        assert(w[x] == p.spec_weight(f as int));
        lemma_parents_earlier(p, config, root, nodes);
        lemma_anchor(nodes, x);
        assert forall|z: u32| z < nodes.len() implies (#[trigger] blocked(nodes, r.1, s, z) <==> (blocked(nodes, seen, s, z) || (
        e[z as int] && nodes[z as int].parent == NO_PARENT && p.spec_once(nodes[z as int].file as int)))) by {
            assert(blocked(nodes, r.1, s, z) == (blocked(nodes, seen, s, z) || (d0[z as int] && nodes[z as int].parent
                == NO_PARENT && p.spec_once(nodes[z as int].file as int))));
            if z as int == x && nodes[x].parent == NO_PARENT && p.spec_once(f as int) {
                assert(anchor_of(nodes, x) == x);
                assert(nodes[0].file == root);
                assert(blocked(nodes, seen, s, z));
            }
        }
    }
}

/// Directives `i` on of node `x` emit the weight of what they reach and
/// record the guarded files among them.
proof fn lemma_dirs(
    p: Project,
    config: int,
    root: u32,
    nodes: Seq<Node>,
    gv: Seq<Seq<u32>>,
    w: Seq<u64>,
    s: u32,
    seen: Seq<bool>,
    on: Seq<bool>,
    path: Seq<u32>,
    anchor: u32,
    x: int,
    i: int,
    fuel: nat,
)
    requires
        walk_state(p, config, root, nodes, gv, seen, on, path, anchor, x),
        weights_ok(p, nodes, w),
        0 <= i <= dir_count(p, config, nodes, x),
        fuel >= walk_bound(seen, on),
    ensures
        ({
            let r = walk_dirs(p, config, emptied_at(nodes, s), seen, on, path, anchor, nodes[x].file, i, fuel);
            let d = dirs_flags(p, config, gv, nodes, seen, s, x, i);
            &&& r.0 == weighted(w, d, nodes.len() as int)
            &&& marks_ok(p, nodes, seen, s, d, r.1)
        }),
    decreases fuel, 0nat, dir_count(p, config, nodes, x) - i, 1nat,
{
    let n = nodes.len() as int;
    let f = nodes[x].file;
    let ts = p.spec_targets(config, f as int);
    let ev = emptied_at(nodes, s);
    let d = dirs_flags(p, config, gv, nodes, seen, s, x, i);
    lemma_walk_bound_pos(seen, on);
    if i >= dir_count(p, config, nodes, x) {
        assert forall|z: int| 0 <= z < n implies !#[trigger] d[z] by {}
        lemma_weighted_none(w, d, n);
    } else {
        assert(expanded(p, config, nodes, x));
        assert(expanded_at(p, config, nodes, x, i));
        match ts[i] {
            None => {
                lemma_dirs_skip(p, config, root, nodes, gv, seen, s, x, i);
                lemma_dirs(p, config, root, nodes, gv, w, s, seen, on, path, anchor, x, i + 1, fuel);
            },
            Some(t) => {
                if p.spec_once(t as int) {
                    assert(once_node(nodes, t) is Some);
                    let gn = once_node(nodes, t)->0;
                    assert(is_once_node(nodes, gn, t));
                    assert(dir_succ(p, config, nodes, x, i) == seq![gn as u32]);
                    if 0 <= t < seen.len() && seen[t as int] {
                        assert forall|c: u32| #[trigger] dir_succ(p, config, nodes, x, i).contains(c) implies blocked(
                            nodes,
                            seen,
                            s,
                            c,
                        ) by {
                            assert(seq![gn as u32][0] == c);
                        }
                        lemma_dirs_skip(p, config, root, nodes, gv, seen, s, x, i);
                        lemma_dirs(p, config, root, nodes, gv, w, s, seen, on, path, anchor, x, i + 1, fuel);
                    } else {
                        lemma_step_guarded(p, config, root, nodes, gv, w, s, seen, on, path, anchor, x, i, fuel, t, gn);
                    }
                } else if 0 <= t < on.len() && on[t as int] {
                    assert(chain_has(nodes, x, t));
                    lemma_dirs_skip(p, config, root, nodes, gv, seen, s, x, i);
                    lemma_dirs(p, config, root, nodes, gv, w, s, seen, on, path, anchor, x, i + 1, fuel);
                } else {
                    if chain_has(nodes, x, t) {
                        lemma_chain_file(p, config, root, nodes, x, t);
                    }
                    assert(child_node(nodes, x, i) is Some);
                    let c = child_node(nodes, x, i)->0;
                    assert(is_child(nodes, c, x, i));
                    assert(dir_succ(p, config, nodes, x, i) == seq![c as u32]);
                    lemma_step_site(p, config, root, nodes, gv, w, s, seen, on, path, anchor, x, i, fuel, t, c);
                }
            },
        }
    }
}

/// Directive `i` of `x` names a guarded file not expanded yet.
proof fn lemma_step_guarded(
    p: Project,
    config: int,
    root: u32,
    nodes: Seq<Node>,
    gv: Seq<Seq<u32>>,
    w: Seq<u64>,
    s: u32,
    seen: Seq<bool>,
    on: Seq<bool>,
    path: Seq<u32>,
    anchor: u32,
    x: int,
    i: int,
    fuel: nat,
    t: u32,
    gn: int,
)
    requires
        walk_state(p, config, root, nodes, gv, seen, on, path, anchor, x),
        weights_ok(p, nodes, w),
        0 <= i < dir_count(p, config, nodes, x),
        fuel >= walk_bound(seen, on),
        p.spec_targets(config, nodes[x].file as int)[i] == Some(t),
        p.spec_once(t as int),
        !(0 <= t < seen.len() && seen[t as int]),
        is_once_node(nodes, gn, t),
        dir_succ(p, config, nodes, x, i) == seq![gn as u32],
    ensures
        ({
            let r = walk_dirs(p, config, emptied_at(nodes, s), seen, on, path, anchor, nodes[x].file, i, fuel);
            let d = dirs_flags(p, config, gv, nodes, seen, s, x, i);
            &&& r.0 == weighted(w, d, nodes.len() as int)
            &&& marks_ok(p, nodes, seen, s, d, r.1)
        }),
    decreases fuel, 0nat, dir_count(p, config, nodes, x) - i, 0nat,
{
    let n = nodes.len() as int;
    let nf = p.paths@.len();
    let f = nodes[x].file;
    let ev = emptied_at(nodes, s);
    let seen2 = seen.update(t as int, true);
    let on2 = no_marks(on.len());
    let g = gn as u32;
    assert(nodes[gn].file == t);
    assert((t as int) < nf);
    lemma_walk_bound_pos(seen, on);
    lemma_count_true_le(seen);
    lemma_count_true_le(on);
    lemma_count_true_set(seen, t as int);
    lemma_falses_count(nf);
    lemma_bound_once(nf as int, count_true(seen) as int, count_true(on) as int, fuel as int);
    assert(on2 =~= chain_flags(nodes, gn, nf));
    assert(key_spec(nodes, gn) == (t, Seq::<u32>::empty()));
    assert(anchor_of(nodes, gn) == gn);
    lemma_expand(p, config, root, nodes, gv, w, s, seen2, on2, Seq::empty(), t, gn, (fuel - 1) as nat);
    let a = walk_expand(p, config, ev, seen2, on2, Seq::empty(), t, t, (fuel - 1) as nat);
    assert forall|z: u32| z < nodes.len() && #[trigger] blocked(nodes, seen2, s, z) implies blocked(nodes, seen, s, z)
        || z == g by {
        if !blocked(nodes, seen, s, z) && z != g {
            assert(nodes[z as int].file == t);
            assert(nodes[z as int].file == nodes[gn].file);
        }
    }
    assert forall|z: u32| z < nodes.len() && blocked(nodes, seen, s, z) implies #[trigger] blocked(nodes, seen2, s, z) by {}
    lemma_enter(p, config, root, nodes, gv, seen, seen2, s, g);
    let xf = reach_flags(gv, nodes, seen, s, g);
    if g != s {
        assert(free_path(gv, nodes, seen, s, seq![g]));
        assert(free_reach(gv, nodes, seen, s, g, g));
        assert(xf[gn]);
    }
    assert forall|z: u32|
        z < nodes.len() && #[trigger] blocked(nodes, seen2, s, z) implies blocked(nodes, seen, s, z) || (xf[z as int]
            && nodes[z as int].parent == NO_PARENT && p.spec_once(nodes[z as int].file as int)) by {
        if !blocked(nodes, seen, s, z) {
            assert(z == g);
        }
    }
    assert forall|ff: int| 0 <= ff < seen.len() && seen[ff] implies #[trigger] seen2[ff] by {}
    lemma_marks_enter(p, nodes, seen, seen2, s, xf, a.1);
    let s1 = a.1;
    lemma_count_true_mono(seen, s1);
    lemma_count_true_le(s1);
    lemma_bound_mono(nf as int, count_true(seen) as int, count_true(s1) as int, count_true(on) as int, fuel as int);
    lemma_parents_earlier(p, config, root, nodes);
    lemma_anchor(nodes, x);
    let an = anchor_of(nodes, x);
    if (nodes[an].file as int) < seen.len() && seen[nodes[an].file as int] {
        assert(s1[nodes[an].file as int]);
    }
    lemma_dirs(p, config, root, nodes, gv, w, s, s1, on, path, anchor, x, i + 1, fuel);
    let b = walk_dirs(p, config, ev, s1, on, path, anchor, f, i + 1, fuel);
    let d1 = dirs_flags(p, config, gv, nodes, s1, s, x, i + 1);
    let d0 = dirs_flags(p, config, gv, nodes, seen, s, x, i);
    lemma_compose(p, config, root, nodes, gv, seen, s1, s, x, i, g);
    lemma_weighted_split(w, d0, xf, d1, n);
    lemma_marks_trans(p, nodes, seen, s1, b.1, s, xf, d1, d0);
    assert(walk_dirs(p, config, ev, seen, on, path, anchor, f, i, fuel) == (a.0 + b.0, b.1));
}

/// Directive `i` of `x` names an unguarded file that closes no cycle.
proof fn lemma_step_site(
    p: Project,
    config: int,
    root: u32,
    nodes: Seq<Node>,
    gv: Seq<Seq<u32>>,
    w: Seq<u64>,
    s: u32,
    seen: Seq<bool>,
    on: Seq<bool>,
    path: Seq<u32>,
    anchor: u32,
    x: int,
    i: int,
    fuel: nat,
    t: u32,
    c: int,
)
    requires
        walk_state(p, config, root, nodes, gv, seen, on, path, anchor, x),
        weights_ok(p, nodes, w),
        0 <= i < dir_count(p, config, nodes, x),
        fuel >= walk_bound(seen, on),
        p.spec_targets(config, nodes[x].file as int)[i] == Some(t),
        !p.spec_once(t as int),
        !(0 <= t < on.len() && on[t as int]),
        is_child(nodes, c, x, i),
        dir_succ(p, config, nodes, x, i) == seq![c as u32],
    ensures
        ({
            let r = walk_dirs(p, config, emptied_at(nodes, s), seen, on, path, anchor, nodes[x].file, i, fuel);
            let d = dirs_flags(p, config, gv, nodes, seen, s, x, i);
            &&& r.0 == weighted(w, d, nodes.len() as int)
            &&& marks_ok(p, nodes, seen, s, d, r.1)
        }),
    decreases fuel, 0nat, dir_count(p, config, nodes, x) - i, 0nat,
{
    let n = nodes.len() as int;
    let nf = p.paths@.len();
    let f = nodes[x].file;
    let ev = emptied_at(nodes, s);
    let on2 = on.update(t as int, true);
    let path2 = path.push(i as u32);
    let cc = c as u32;
    assert(c != 0);
    assert(node_ok(p, config, nodes, c));
    assert(nodes[c].file == t);
    assert((t as int) < nf);
    lemma_walk_bound_pos(seen, on);
    lemma_count_true_le(seen);
    lemma_count_true_le(on);
    lemma_count_true_set(on, t as int);
    lemma_parents_earlier(p, config, root, nodes);
    assert forall|ff: int| 0 <= ff < nf implies #[trigger] on2[ff] == chain_flags(nodes, c, nf)[ff] by {
        assert(nodes[c].parent as int == x);
        assert(chain_has(nodes, c, ff as u32) == (nodes[c].file == ff as u32 || chain_has(nodes, x, ff as u32)));
        assert(on[ff] == chain_has(nodes, x, ff as u32));
    }
    assert(on2 =~= chain_flags(nodes, c, nf));
    assert(key_spec(nodes, c) == (anchor, path2));
    lemma_anchor_site(p, config, root, nodes, c);
    lemma_expand(p, config, root, nodes, gv, w, s, seen, on2, path2, anchor, c, (fuel - 1) as nat);
    let a = walk_expand(p, config, ev, seen, on2, path2, anchor, t, (fuel - 1) as nat);
    lemma_enter(p, config, root, nodes, gv, seen, seen, s, cc);
    let xf = reach_flags(gv, nodes, seen, s, cc);
    let s1 = a.1;
    lemma_count_true_mono(seen, s1);
    lemma_count_true_le(s1);
    lemma_bound_mono(nf as int, count_true(seen) as int, count_true(s1) as int, count_true(on) as int, fuel as int);
    lemma_anchor(nodes, x);
    let an = anchor_of(nodes, x);
    if (nodes[an].file as int) < seen.len() && seen[nodes[an].file as int] {
        assert(s1[nodes[an].file as int]);
    }
    lemma_dirs(p, config, root, nodes, gv, w, s, s1, on, path, anchor, x, i + 1, fuel);
    let b = walk_dirs(p, config, ev, s1, on, path, anchor, f, i + 1, fuel);
    let d1 = dirs_flags(p, config, gv, nodes, s1, s, x, i + 1);
    let d0 = dirs_flags(p, config, gv, nodes, seen, s, x, i);
    assert(seq![cc][0] == cc);
    assert(dir_succ(p, config, nodes, x, i).contains(cc));
    lemma_compose(p, config, root, nodes, gv, seen, s1, s, x, i, cc);
    lemma_weighted_split(w, d0, xf, d1, n);
    lemma_marks_trans(p, nodes, seen, s1, b.1, s, xf, d1, d0);
    assert(walk_dirs(p, config, ev, seen, on, path, anchor, f, i, fuel) == (a.0 + b.0, b.1));
}

// ---------------------------------------------------------------------------
// The laws.
// ---------------------------------------------------------------------------
/// Reaching without `s` is reaching without blocked nodes when nothing but
/// `s` is blocked.
proof fn lemma_plain_reach(nodes: Seq<Node>, gv: Seq<Seq<u32>>, nf: nat, s: u32)
    requires
        gv.len() == nodes.len(),
    ensures
        reach_flags(gv, nodes, no_marks(nf), s, 0) == reach_set(gv, 0, s),
{
    let free = no_marks(nf);
    let lhs = reach_flags(gv, nodes, free, s, 0);
    let rhs = reach_set(gv, 0, s);
    assert forall|z: int| 0 <= z < nodes.len() implies lhs[z] == rhs[z] by {
        if lhs[z] {
            let q = choose|q: Seq<u32>| #[trigger] free_path(gv, nodes, free, s, q) && q[0] == 0 && q.last() == z as u32;
            if q.contains(s) {
                let k = choose|k: int| 0 <= k < q.len() && q[k] == s;
                assert(!blocked(nodes, free, s, q[k]));
            }
            assert(path_between(gv, q, 0, z as u32) && !q.contains(s));
        }
        if rhs[z] {
            let q = choose|q: Seq<u32>| #[trigger] path_between(gv, q, 0, z as u32) && !q.contains(s);
            assert forall|i: int| 0 <= i < q.len() implies !#[trigger] blocked(nodes, free, s, q[i]) by {
                assert(q[i] != s);
            }
            assert(free_path(gv, nodes, free, s, q));
        }
    }
    assert(lhs =~= rhs);
}

/// Reachable is emitted: walking TU `tu` the way the preprocessor does,
/// with node `s` emptied (or nothing emptied when `s` is not a node), emits
/// exactly the weight of the nodes that the root of its include graph
/// reaches without passing `s`.
pub proof fn lemma_emitted_is_reached(p: Project, tu: int, g: TuGraph, s: u32)
    requires
        p.wf(),
        0 <= tu < p.tus@.len(),
        tu_graph_spec(p, tu, g),
        !g.truncated,
    ensures
        preprocessed_spec(p, tu, emptied_at(g.nodes@, s)) == weighted(
            g.weights@,
            reach_set(g.graph@, 0, s),
            g.nodes@.len() as int,
        ),
{
    let root = p.tus@[tu].file;
    let config = p.tus@[tu].config as int;
    let nodes = g.nodes@;
    let gv = g.graph@;
    let w = g.weights@;
    let nf = p.paths@.len();
    let n = nodes.len() as int;
    g.graph.lemma_wf();
    assert forall|x: int| 0 <= x < nodes.len() implies #[trigger] gv[x] == node_succ(p, config, nodes, x) && expanded(
        p,
        config,
        nodes,
        x,
    ) by {
        assert(g.graph@[x] == node_succ(p, config, nodes, x) && expanded(p, config, nodes, x));
    }
    assert forall|x: int| 0 <= x < nodes.len() implies #[trigger] expanded(p, config, nodes, x) by {
        assert(g.graph@[x] == node_succ(p, config, nodes, x) && expanded(p, config, nodes, x));
    }
    assert(nodes_ok(p, config, root, nodes));
    assert(gv.len() == nodes.len());
    assert(nodes.len() < u32::MAX);
    assert(p.paths@.len() < u32::MAX);
    assert(graph_ctx(p, config, root, nodes, gv));
    let seen = walk_start_seen(p, root);
    let on = no_marks(nf);
    lemma_walk_bound_pos(seen, on);
    let fuel = walk_bound(seen, on) as nat;
    assert(on =~= chain_flags(nodes, 0, nf));
    assert(key_spec(nodes, 0) == (root, Seq::<u32>::empty()));
    assert(anchor_of(nodes, 0) == 0);
    assert(nodes[0].file == root);
    lemma_expand(p, config, root, nodes, gv, w, s, seen, on, Seq::empty(), root, 0, fuel);
    let free = no_marks(nf);
    assert forall|z: u32| z < nodes.len() && #[trigger] blocked(nodes, seen, s, z) implies blocked(nodes, free, s, z)
        || z == 0 by {
        if z != s && z != 0 {
            assert(nodes[z as int].file == root);
            assert(nodes[z as int].file == nodes[0].file);
        }
    }
    lemma_enter(p, config, root, nodes, gv, free, seen, s, 0);
    lemma_plain_reach(nodes, gv, nf, s);
}

/// The central claim, on every node of every fully expanded TU graph: the
/// weight of the node's dominator subtree equals the bytes the preprocessor
/// emits for the TU minus the bytes it emits with that node emptied.
pub proof fn lemma_subtree_is_saving(
    p: Project,
    tu: int,
    g: TuGraph,
    d: Dominators,
    acc: Seq<u64>,
    v: u32,
)
    requires
        p.wf(),
        0 <= tu < p.tus@.len(),
        tu_graph_spec(p, tu, g),
        !g.truncated,
        dominator_tree_of(g.graph@, 0, d),
        subtree_sums(d, g.weights@, acc),
        v < g.nodes@.len(),
    ensures
        acc[v as int] == preprocessed_spec(p, tu, None) - preprocessed_spec(
            p,
            tu,
            Some(key_spec(g.nodes@, v as int)),
        ),
{
    g.graph.lemma_wf();
    let n = g.nodes@.len();
    lemma_emitted_is_reached(p, tu, g, UNREACHABLE);
    lemma_emitted_is_reached(p, tu, g, v);
    assert(emptied_at(g.nodes@, UNREACHABLE) is None);
    lemma_every_node_reached(p, tu, g, v as int);
    lemma_subtree_is_removal_cost(g.graph@, 0, d, g.weights@, acc, v);
}

/// The same claim for the numbers `tu_costs` works from: when a TU's table
/// is complete, the subtree weight of each node of its graph is what emptying
/// that node saves on re-preprocessing the TU.
pub proof fn lemma_costs_are_savings(
    p: Project,
    tu: int,
    g: TuGraph,
    d: Dominators,
    sub: Seq<u64>,
    c: TuCosts,
    v: u32,
)
    requires
        p.wf(),
        0 <= tu < p.tus@.len(),
        costs_basis(p, tu, g, d, sub, c),
        !c.truncated,
        v < g.nodes@.len(),
    ensures
        sub[v as int] == preprocessed_spec(p, tu, None) - preprocessed_spec(p, tu, Some(key_spec(g.nodes@, v as int))),
{
    g.graph.lemma_wf();
    assert(rpo_sum(d.rpo@, g.weights@, d.rpo@.len() as int) <= u64::MAX);
    assert(dominator_tree_of(g.graph@, 0, d));
    assert(subtree_sums(d, g.weights@, sub));
    lemma_subtree_is_saving(p, tu, g, d, sub, v);
}

/// A complete cost table counts every byte the preprocessor emits for its
/// TU: its total is the TU's preprocessed size.
pub proof fn lemma_total_is_preprocessed(p: Project, tu: int, g: TuGraph, d: Dominators, sub: Seq<u64>, c: TuCosts)
    requires
        p.wf(),
        0 <= tu < p.tus@.len(),
        costs_basis(p, tu, g, d, sub, c),
        !c.truncated,
    ensures
        c.total == preprocessed_spec(p, tu, None),
{
    g.graph.lemma_wf();
    let n = g.nodes@.len();
    assert(d.rpo@[0] == 0);
    lemma_costs_are_savings(p, tu, g, d, sub, c, 0);
    lemma_emitted_is_reached(p, tu, g, 0);
    let f = reach_set(g.graph@, 0, 0);
    assert forall|v: int| 0 <= v < n implies !#[trigger] f[v] by {
        if f[v] {
            let q = choose|q: Seq<u32>| #[trigger] path_between(g.graph@, q, 0, v as u32) && !q.contains(0);
            assert(q[0] == 0);
        }
    }
    lemma_weighted_none(g.weights@, f, n as int);
}

/// Only position `pos` of `rpo` holds a node of `f`, and it is counted:
/// the sums over positions `1..k` hold that node alone once `k` passes it.
proof fn lemma_single_position(
    nodes: Seq<Node>,
    rpo: Seq<u32>,
    idom: Seq<u32>,
    sub: Seq<u64>,
    f: u32,
    pos: int,
    k: int,
)
    requires
        1 <= pos < rpo.len(),
        0 <= k <= rpo.len(),
        nodes[rpo[pos] as int].file == f,
        !nested_at(nodes, rpo, idom, pos),
        forall|j: int| 1 <= j < rpo.len() && j != pos ==> nodes[#[trigger] rpo[j] as int].file != f,
    ensures
        exclusive_upto(nodes, rpo, idom, sub, f, k) == if pos < k {
            sub[rpo[pos] as int] as int
        } else {
            0int
        },
        expansions_upto(nodes, rpo, f, k) == if pos < k {
            1int
        } else {
            0int
        },
    decreases k,
{
    if k > 1 {
        lemma_single_position(nodes, rpo, idom, sub, f, pos, k - 1);
        if k - 1 != pos {
            assert(nodes[rpo[k - 1] as int].file != f);
        }
    }
}

/// The claim for a guarded header of a complete cost table: expanded once,
/// its exclusive bytes are what emptying the header saves on
/// re-preprocessing the TU.
pub proof fn lemma_once_exclusive_is_saving(
    p: Project,
    tu: int,
    g: TuGraph,
    d: Dominators,
    sub: Seq<u64>,
    c: TuCosts,
    v: u32,
)
    requires
        p.wf(),
        0 <= tu < p.tus@.len(),
        costs_basis(p, tu, g, d, sub, c),
        !c.truncated,
        0 < v < g.nodes@.len(),
        p.spec_once(g.nodes@[v as int].file as int),
    ensures
        c.files@.contains_key(g.nodes@[v as int].file),
        c.files@[g.nodes@[v as int].file].expansions == 1,
        c.files@[g.nodes@[v as int].file].exclusive == preprocessed_spec(p, tu, None) - preprocessed_spec(
            p,
            tu,
            Some((g.nodes@[v as int].file, Seq::<u32>::empty())),
        ),
{
    g.graph.lemma_wf();
    let nodes = g.nodes@;
    let rpo = d.rpo@;
    let n = rpo.len() as int;
    let f = nodes[v as int].file;
    lemma_tu_graph_shape(p, tu, g);
    lemma_every_node_reached(p, tu, g, v as int);
    assert(rpo.contains(v));
    let pos = choose|pos: int| 0 <= pos < n && rpo[pos] == v;
    assert(pos != 0);
    assert(nodes[v as int].parent == NO_PARENT);
    assert(!nested_at(nodes, rpo, d.idom@, pos));
    assert forall|j: int| 1 <= j < n && j != pos implies nodes[#[trigger] rpo[j] as int].file != f by {
        assert(rpo[j] != rpo[pos]);
        assert(rpo[j] < nodes.len());
    }
    lemma_single_position(nodes, rpo, d.idom@, sub, f, pos, n);
    assert(rpo_sum(rpo, g.weights@, n) <= u64::MAX);
    assert(costs_spec(nodes, rpo, d.idom@, sub, c));
    assert(c.files@.contains_key(f));
    assert(c.files@[f].expansions == sat(expansions_upto(nodes, rpo, f, n)));
    assert(c.files@[f].exclusive == sat(exclusive_upto(nodes, rpo, d.idom@, sub, f, n)));
    lemma_costs_are_savings(p, tu, g, d, sub, c, v);
    assert(key_spec(nodes, v as int) == (f, Seq::<u32>::empty()));
}

/// The claim for an inclusion site of an unguarded header of a complete cost
/// table: what emptying that one site saves on re-preprocessing the TU is at
/// most the header's exclusive bytes.
pub proof fn lemma_site_saving_within_exclusive(
    p: Project,
    tu: int,
    g: TuGraph,
    d: Dominators,
    sub: Seq<u64>,
    c: TuCosts,
    v: u32,
)
    requires
        p.wf(),
        0 <= tu < p.tus@.len(),
        costs_basis(p, tu, g, d, sub, c),
        !c.truncated,
        v < g.nodes@.len(),
        g.nodes@[v as int].parent != NO_PARENT,
    ensures
        c.files@.contains_key(g.nodes@[v as int].file),
        preprocessed_spec(p, tu, None) - preprocessed_spec(p, tu, Some(key_spec(g.nodes@, v as int)))
            <= c.files@[g.nodes@[v as int].file].exclusive,
{
    g.graph.lemma_wf();
    let nodes = g.nodes@;
    let rpo = d.rpo@;
    let n = rpo.len() as int;
    let f = nodes[v as int].file;
    lemma_tu_graph_shape(p, tu, g);
    lemma_every_node_reached(p, tu, g, v as int);
    assert(rpo.contains(v));
    let pos = choose|pos: int| 0 <= pos < n && rpo[pos] == v;
    assert(rpo[0] == 0);
    assert(pos != 0);
    assert(!is_site(nodes, rpo[0]));
    assert(rpo_sum(rpo, g.weights@, n) <= u64::MAX);
    assert(subtree_ok(d, g.weights@, sub));
    lemma_exclusive_covers_site(nodes, d, g.weights@, sub, pos);
    lemma_expansions_has(nodes, rpo, f, pos, n);
    assert(costs_spec(nodes, rpo, d.idom@, sub, c));
    assert(c.files@.contains_key(f));
    assert(c.files@[f].exclusive == sat(exclusive_upto(nodes, rpo, d.idom@, sub, f, n)));
    lemma_costs_are_savings(p, tu, g, d, sub, c, v);
}

} // verus!
