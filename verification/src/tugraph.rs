//! The include graph of one translation unit.
//!
//! A guarded (or `#pragma once`) file is expanded at most once in a TU, so it
//! is a single node however many routes reach it. An unguarded file is
//! expanded at every inclusion site, so each site is its own node, named by
//! the including node and the index of the directive. Under these semantics
//! the expanded code is the set of nodes reachable from the root, which is
//! what makes dominator subtrees equal to removal cost.

use crate::csr::{lemma_out_list_push, out_list};
use crate::dominators::Graph;
use crate::project::{lemma_push_contains, FileId, Project, MAX_TU_NODES, NO_PARENT};
use vstd::prelude::*;

verus! {

#[derive(Clone, Copy, Debug, PartialEq, Eq, Structural)]
pub struct Node {
    pub file: FileId,
    /// For an inclusion-site node of an unguarded file: the including node.
    /// [`NO_PARENT`] for the root and for guarded files.
    pub parent: u32,
    pub directive: u32,
}

pub struct TuGraph {
    pub nodes: Vec<Node>,
    pub graph: Graph,
    pub weights: Vec<u64>,
    /// `(includer, included)` edges dropped because they close a cycle of
    /// unguarded files.
    pub cut_cycles: Vec<(FileId, FileId)>,
    pub truncated: bool,
}

/// Walking up the inclusion sites from `v` (while they have a parent), some
/// site is of `file`. Such an include would repeat an unguarded file inside
/// its own expansion: a cycle that would never end.
pub open spec fn chain_has(nodes: Seq<Node>, v: int, file: u32) -> bool
    decreases v,
{
    if v < 0 || v >= nodes.len() {
        false
    } else if nodes[v].parent == NO_PARENT {
        false
    } else if nodes[v].file == file {
        true
    } else if nodes[v].parent < v {
        chain_has(nodes, nodes[v].parent as int, file)
    } else {
        false
    }
}

/// The node of a guarded file.
pub open spec fn is_once_node(nodes: Seq<Node>, u: int, t: u32) -> bool {
    0 <= u < nodes.len() && nodes[u].file == t && nodes[u].parent == NO_PARENT
}

/// The node of a guarded file, if it has one.
pub open spec fn once_node(nodes: Seq<Node>, t: u32) -> Option<int> {
    if exists|u: int| #[trigger] is_once_node(nodes, u, t) {
        Some(choose|u: int| #[trigger] is_once_node(nodes, u, t))
    } else {
        None
    }
}

/// The inclusion site of directive `i` of node `v`.
pub open spec fn is_child(nodes: Seq<Node>, u: int, v: int, i: int) -> bool {
    0 <= u < nodes.len() && nodes[u].parent != NO_PARENT && nodes[u].parent == v
        && nodes[u].directive == i
}

/// The inclusion site of directive `i` of node `v`, if it has one.
pub open spec fn child_node(nodes: Seq<Node>, v: int, i: int) -> Option<int> {
    if exists|u: int| #[trigger] is_child(nodes, u, v, i) {
        Some(choose|u: int| #[trigger] is_child(nodes, u, v, i))
    } else {
        None
    }
}

/// The node that directive `i` of node `v` includes, if any: a guarded
/// target's single node; for an unguarded target, the site node, unless the
/// include closes a cycle of unguarded files.
pub open spec fn dir_succ(p: Project, config: int, nodes: Seq<Node>, v: int, i: int) -> Seq<u32> {
    match p.spec_targets(config, nodes[v].file as int)[i] {
        None => Seq::empty(),
        Some(t) => if p.spec_once(t as int) {
            match once_node(nodes, t) {
                Some(u) => seq![u as u32],
                None => Seq::empty(),
            }
        } else if chain_has(nodes, v, t) {
            Seq::empty()
        } else {
            match child_node(nodes, v, i) {
                Some(u) => seq![u as u32],
                None => Seq::empty(),
            }
        },
    }
}

/// Successors of `v` from its first `k` directives, in directive order.
pub open spec fn succ_upto(p: Project, config: int, nodes: Seq<Node>, v: int, k: int) -> Seq<u32>
    decreases k,
{
    if k <= 0 {
        Seq::empty()
    } else {
        succ_upto(p, config, nodes, v, k - 1) + dir_succ(p, config, nodes, v, k - 1)
    }
}

/// Successors of `v`: one per directive that includes something.
pub open spec fn node_succ(p: Project, config: int, nodes: Seq<Node>, v: int) -> Seq<u32> {
    succ_upto(p, config, nodes, v, p.spec_targets(config, nodes[v].file as int).len() as int)
}

/// Node `u` exists for a reason: a guarded file's node was reached by a
/// directive of an earlier node; a site node hangs off an earlier node's
/// directive that names its file and closes no cycle.
pub open spec fn node_ok(p: Project, config: int, nodes: Seq<Node>, u: int) -> bool {
    let n = nodes[u];
    if n.parent == NO_PARENT {
        &&& p.spec_once(n.file as int)
        &&& exists|v: int, i: int|
            0 <= v < u && 0 <= i < p.spec_targets(config, nodes[v].file as int).len()
                && #[trigger] p.spec_targets(config, nodes[v].file as int)[i] == Some(n.file)
    } else {
        &&& n.parent < u
        &&& !p.spec_once(n.file as int)
        &&& n.directive < p.spec_targets(config, nodes[n.parent as int].file as int).len()
        &&& p.spec_targets(config, nodes[n.parent as int].file as int)[n.directive as int] == Some(
            n.file,
        )
        &&& !chain_has(nodes, n.parent as int, n.file)
    }
}

/// A guarded file has at most one node, and a directive at most one site.
pub open spec fn nodes_unique(nodes: Seq<Node>) -> bool {
    &&& forall|u: int, w: int|
        0 <= u < nodes.len() && 0 <= w < nodes.len() && u != w && nodes[u].parent == NO_PARENT
            && nodes[w].parent == NO_PARENT ==> (#[trigger] nodes[u]).file != (#[trigger] nodes[w]).file
    &&& forall|u: int, w: int|
        0 <= u < nodes.len() && 0 <= w < nodes.len() && u != w && nodes[u].parent != NO_PARENT
            && nodes[u].parent == nodes[w].parent ==> (#[trigger] nodes[u]).directive != (
        #[trigger] nodes[w]).directive
}

/// The nodes of a TU graph rooted at `root`: the root first, every other
/// node justified, none repeated.
pub open spec fn nodes_ok(p: Project, config: int, root: u32, nodes: Seq<Node>) -> bool {
    &&& nodes.len() >= 1
    &&& nodes[0] == Node { file: root, parent: NO_PARENT, directive: 0 }
    &&& forall|u: int| 1 <= u < nodes.len() ==> #[trigger] node_ok(p, config, nodes, u)
    &&& nodes_unique(nodes)
    &&& forall|u: int| 0 <= u < nodes.len() ==> (#[trigger] nodes[u]).file < p.paths@.len()
}

/// Directive `i` of `v` was expanded: a guarded target has its node; an
/// unguarded one has its site node unless it closes a cycle.
pub open spec fn expanded_at(p: Project, config: int, nodes: Seq<Node>, v: int, i: int) -> bool {
    p.spec_targets(config, nodes[v].file as int)[i] matches Some(t) ==> (if p.spec_once(t as int) {
        once_node(nodes, t) is Some
    } else {
        chain_has(nodes, v, t) || child_node(nodes, v, i) is Some
    })
}

/// Every directive of `v` was expanded.
pub open spec fn expanded(p: Project, config: int, nodes: Seq<Node>, v: int) -> bool {
    forall|i: int|
        0 <= i < p.spec_targets(config, nodes[v].file as int).len() ==> #[trigger] expanded_at(
            p,
            config,
            nodes,
            v,
            i,
        )
}

/// Directive `i` of node `v` was dropped as a cycle of unguarded files.
pub open spec fn is_cut(p: Project, config: int, nodes: Seq<Node>, v: int, i: int) -> bool {
    &&& 0 <= v < nodes.len()
    &&& 0 <= i < p.spec_targets(config, nodes[v].file as int).len()
    &&& p.spec_targets(config, nodes[v].file as int)[i] is Some
    &&& !p.spec_once(p.spec_targets(config, nodes[v].file as int)[i]->0 as int)
    &&& chain_has(nodes, v, p.spec_targets(config, nodes[v].file as int)[i]->0)
}

/// `pair` is (includer, included) of a directive dropped as a cycle.
pub open spec fn cut_reported(p: Project, config: int, nodes: Seq<Node>, pair: (FileId, FileId)) -> bool {
    exists|v: int, i: int|
        #[trigger] is_cut(p, config, nodes, v, i) && pair == (
            nodes[v].file,
            p.spec_targets(config, nodes[v].file as int)[i]->0,
        )
}

/// The graph of TU `tu` of `p`: its nodes are justified and unique, each
/// node's successors are exactly what its directives include, in directive
/// order, and each node weighs what its file does. Unless the graph was
/// truncated, every include was expanded.
pub open spec fn tu_graph_spec(p: Project, tu: int, g: TuGraph) -> bool {
    let root = p.tus@[tu].file;
    let config = p.tus@[tu].config as int;
    let nodes = g.nodes@;
    &&& nodes_ok(p, config, root, nodes)
    &&& g.graph.wf()
    &&& g.graph.spec_node_count() == nodes.len()
    &&& g.weights@.len() == nodes.len()
    &&& forall|v: int| 0 <= v < nodes.len() ==> #[trigger] g.weights@[v] == p.spec_weight(nodes[v].file as int)
    &&& forall|k: int| 0 <= k < g.cut_cycles@.len() ==> #[trigger] cut_reported(p, config, nodes, g.cut_cycles@[k])
    &&& g.truncated ==> at_limit(nodes.len(), g.graph.spec_edge_count())
    &&& forall|v: int, j: int|
        0 <= v < nodes.len() && 0 <= j < p.spec_targets(config, nodes[v].file as int).len() && #[trigger] is_cut(
            p,
            config,
            nodes,
            v,
            j,
        ) ==> g.cut_cycles@.contains(cut_pair(p, config, nodes, v, j))
    &&& forall|v: int, j: int|
        0 <= v < nodes.len() && 0 <= j < g.graph@[v].len() ==> #[trigger] edge_from_directive(
            p,
            config,
            nodes,
            (v as u32, g.graph@[v][j]),
        )
    &&& !g.truncated ==> forall|v: int|
        0 <= v < nodes.len() ==> #[trigger] g.graph@[v] == node_succ(p, config, nodes, v) && expanded(
            p,
            config,
            nodes,
            v,
        )
}

// ---------------------------------------------------------------------------
// Appending a node keeps what earlier nodes include.
// ---------------------------------------------------------------------------
pub proof fn lemma_chain_push(nodes: Seq<Node>, x: Node, v: int, t: u32)
    requires
        0 <= v < nodes.len(),
    ensures
        chain_has(nodes.push(x), v, t) == chain_has(nodes, v, t),
    decreases v,
{
    assert(nodes.push(x)[v] == nodes[v]);
    if nodes[v].parent != NO_PARENT && nodes[v].file != t && nodes[v].parent < v {
        lemma_chain_push(nodes, x, nodes[v].parent as int, t);
    }
}

pub proof fn lemma_once_node_push(nodes: Seq<Node>, x: Node, t: u32)
    requires
        nodes_unique(nodes),
    ensures
        (x.parent != NO_PARENT || x.file != t) ==> once_node(nodes.push(x), t) == once_node(nodes, t),
        (x.parent == NO_PARENT && x.file == t && once_node(nodes, t) is None) ==> once_node(
            nodes.push(x),
            t,
        ) == Some(nodes.len() as int),
{
    let np = nodes.push(x);
    assert forall|u: int| 0 <= u < nodes.len() implies is_once_node(np, u, t) == is_once_node(nodes, u, t) by {
        assert(np[u] == nodes[u]);
    }
    if x.parent != NO_PARENT || x.file != t {
        assert forall|u: int| #[trigger] is_once_node(np, u, t) implies is_once_node(nodes, u, t) by {
            assert(u != nodes.len());
        }
        if exists|u: int| #[trigger] is_once_node(nodes, u, t) {
            let a = choose|u: int| #[trigger] is_once_node(nodes, u, t);
            assert(is_once_node(np, a, t));
            let b = choose|u: int| #[trigger] is_once_node(np, u, t);
            assert(is_once_node(nodes, b, t));
            if a != b {
                assert(nodes[a].file != nodes[b].file);
            }
        }
    } else if once_node(nodes, t) is None {
        assert(is_once_node(np, nodes.len() as int, t));
        let b = choose|u: int| #[trigger] is_once_node(np, u, t);
        if b != nodes.len() {
            assert(is_once_node(nodes, b, t));
        }
    }
}

pub proof fn lemma_child_node_push(nodes: Seq<Node>, x: Node, v: int, i: int)
    requires
        nodes_unique(nodes),
    ensures
        (x.parent == NO_PARENT || x.parent != v || x.directive != i) ==> child_node(nodes.push(x), v, i)
            == child_node(nodes, v, i),
        (x.parent != NO_PARENT && x.parent == v && x.directive == i && child_node(nodes, v, i) is None)
            ==> child_node(nodes.push(x), v, i) == Some(nodes.len() as int),
{
    let np = nodes.push(x);
    assert forall|u: int| 0 <= u < nodes.len() implies is_child(np, u, v, i) == is_child(nodes, u, v, i) by {
        assert(np[u] == nodes[u]);
    }
    if x.parent == NO_PARENT || x.parent != v || x.directive != i {
        assert forall|u: int| #[trigger] is_child(np, u, v, i) implies is_child(nodes, u, v, i) by {
            assert(u != nodes.len());
        }
        if exists|u: int| #[trigger] is_child(nodes, u, v, i) {
            let a = choose|u: int| #[trigger] is_child(nodes, u, v, i);
            assert(is_child(np, a, v, i));
            let b = choose|u: int| #[trigger] is_child(np, u, v, i);
            assert(is_child(nodes, b, v, i));
            if a != b {
                assert(nodes[a].directive != nodes[b].directive);
            }
        }
    } else if child_node(nodes, v, i) is None {
        assert(is_child(np, nodes.len() as int, v, i));
        let b = choose|u: int| #[trigger] is_child(np, u, v, i);
        if b != nodes.len() {
            assert(is_child(nodes, b, v, i));
        }
    }
}

/// Appending `x` leaves directive `i` of `v` alone, unless `x` is the first
/// node of a guarded file that directive names, or the directive's own site.
pub open spec fn untouched(p: Project, config: int, nodes: Seq<Node>, x: Node, v: int, i: int) -> bool {
    &&& x.parent == NO_PARENT ==> once_node(nodes, x.file) is None
    &&& !(x.parent == NO_PARENT && p.spec_targets(config, nodes[v].file as int)[i] == Some(x.file))
    &&& !(x.parent != NO_PARENT && x.parent == v && x.directive == i)
}

pub proof fn lemma_dir_succ_push(p: Project, config: int, nodes: Seq<Node>, x: Node, v: int, i: int)
    requires
        nodes_unique(nodes),
        0 <= v < nodes.len(),
        untouched(p, config, nodes, x, v, i),
    ensures
        dir_succ(p, config, nodes.push(x), v, i) == dir_succ(p, config, nodes, v, i),
{
    let np = nodes.push(x);
    assert(np[v] == nodes[v]);
    match p.spec_targets(config, nodes[v].file as int)[i] {
        None => {},
        Some(t) => {
            lemma_once_node_push(nodes, x, t);
            lemma_chain_push(nodes, x, v, t);
            lemma_child_node_push(nodes, x, v, i);
        },
    }
}

pub proof fn lemma_succ_upto_push(p: Project, config: int, nodes: Seq<Node>, x: Node, v: int, k: int)
    requires
        nodes_unique(nodes),
        0 <= v < nodes.len(),
        forall|j: int| 0 <= j < k ==> #[trigger] untouched(p, config, nodes, x, v, j),
    ensures
        succ_upto(p, config, nodes.push(x), v, k) == succ_upto(p, config, nodes, v, k),
    decreases k,
{
    if k > 0 {
        lemma_succ_upto_push(p, config, nodes, x, v, k - 1);
        assert(untouched(p, config, nodes, x, v, k - 1));
        lemma_dir_succ_push(p, config, nodes, x, v, k - 1);
    }
}

// ---------------------------------------------------------------------------
// The state of the construction.
// ---------------------------------------------------------------------------
/// A guarded target of directive `i` of `v` has its node.
pub open spec fn once_ok_at(p: Project, config: int, nodes: Seq<Node>, v: int, i: int) -> bool {
    p.spec_targets(config, nodes[v].file as int)[i] matches Some(t) ==> (p.spec_once(t as int)
        ==> once_node(nodes, t) is Some)
}

/// Node `v` has been processed: unless the graph was truncated, its guarded
/// includes have nodes, its edges are exactly its successors, and every
/// include was expanded.
pub open spec fn done(
    p: Project,
    config: int,
    nodes: Seq<Node>,
    edges: Seq<(u32, u32)>,
    truncated: bool,
    v: int,
) -> bool {
    !truncated ==> {
        &&& forall|i: int|
            0 <= i < p.spec_targets(config, nodes[v].file as int).len() ==> #[trigger] once_ok_at(
                p,
                config,
                nodes,
                v,
                i,
            )
        &&& out_list(edges, v) == node_succ(p, config, nodes, v)
        &&& expanded(p, config, nodes, v)
    }
}

/// Node `v` waits to be processed: no edges and no sites yet.
pub open spec fn pending(nodes: Seq<Node>, edges: Seq<(u32, u32)>, v: int) -> bool {
    &&& out_list(edges, v) == Seq::<u32>::empty()
    &&& forall|u: int| 0 <= u < nodes.len() ==> (#[trigger] nodes[u]).parent != v
}

pub open spec fn status_ok(
    p: Project,
    config: int,
    nodes: Seq<Node>,
    work: Seq<u32>,
    edges: Seq<(u32, u32)>,
    truncated: bool,
    v: int,
) -> bool {
    if work.contains(v as u32) {
        pending(nodes, edges, v)
    } else {
        done(p, config, nodes, edges, truncated, v)
    }
}

/// Edge `e` is what some directive of its source includes.
pub open spec fn edge_from_directive(p: Project, config: int, nodes: Seq<Node>, e: (u32, u32)) -> bool {
    exists|i: int|
        0 <= i < p.spec_targets(config, nodes[e.0 as int].file as int).len() && #[trigger] dir_succ(
            p,
            config,
            nodes,
            e.0 as int,
            i,
        ) == seq![e.1]
}

/// The pair that directive `j` of node `v` would report when cut.
pub open spec fn cut_pair(p: Project, config: int, nodes: Seq<Node>, v: int, j: int) -> (FileId, FileId) {
    (nodes[v].file, p.spec_targets(config, nodes[v].file as int)[j]->0)
}

/// Every directive of `v` before `i` that closes a cycle of unguarded files
/// is listed in `cut`.
pub open spec fn cuts_listed(p: Project, config: int, nodes: Seq<Node>, cut: Seq<(u32, u32)>, v: int, i: int) -> bool {
    forall|j: int| 0 <= j < i && #[trigger] is_cut(p, config, nodes, v, j) ==> cut.contains(cut_pair(p, config, nodes, v, j))
}

/// A processed node has listed all its cuts.
pub open spec fn cuts_done(p: Project, config: int, nodes: Seq<Node>, work: Seq<u32>, cut: Seq<(u32, u32)>, v: int) -> bool {
    !work.contains(v as u32) ==> cuts_listed(p, config, nodes, cut, v, p.spec_targets(config, nodes[v].file as int).len() as int)
}

proof fn lemma_chain_prefix(nodes: Seq<Node>, n2: Seq<Node>, v: int, t: u32)
    requires
        0 <= v < nodes.len() <= n2.len(),
        forall|k: int| 0 <= k < nodes.len() ==> n2[k] == nodes[k],
    ensures
        chain_has(n2, v, t) == chain_has(nodes, v, t),
    decreases v,
{
    assert(n2[v] == nodes[v]);
    if nodes[v].parent != NO_PARENT && nodes[v].file != t && nodes[v].parent < v {
        lemma_chain_prefix(nodes, n2, nodes[v].parent as int, t);
    }
}

/// Growing the nodes and the cut list keeps what `v` has listed.
proof fn lemma_cuts_grow(
    p: Project,
    config: int,
    nodes: Seq<Node>,
    n2: Seq<Node>,
    cut: Seq<(u32, u32)>,
    c2: Seq<(u32, u32)>,
    v: int,
    i: int,
)
    requires
        0 <= v < nodes.len() <= n2.len(),
        forall|k: int| 0 <= k < nodes.len() ==> n2[k] == nodes[k],
        cut.len() <= c2.len(),
        forall|k: int| 0 <= k < cut.len() ==> c2[k] == cut[k],
        cuts_listed(p, config, nodes, cut, v, i),
    ensures
        cuts_listed(p, config, n2, c2, v, i),
{
    assert(n2[v] == nodes[v]);
    assert forall|j: int| 0 <= j < i && #[trigger] is_cut(p, config, n2, v, j) implies c2.contains(
        cut_pair(p, config, n2, v, j),
    ) by {
        let t = p.spec_targets(config, nodes[v].file as int)[j]->0;
        lemma_chain_prefix(nodes, n2, v, t);
        assert(is_cut(p, config, nodes, v, j));
        let k = choose|k: int| 0 <= k < cut.len() && cut[k] == cut_pair(p, config, nodes, v, j);
        assert(c2[k] == cut[k]);
    }
}

/// One directive of `v` processed: every node keeps its listed cuts, and `v`
/// has listed one directive more.
proof fn lemma_cuts_step(
    p: Project,
    config: int,
    n0: Seq<Node>,
    n1: Seq<Node>,
    w0: Seq<u32>,
    w1: Seq<u32>,
    c0: Seq<(u32, u32)>,
    c1: Seq<(u32, u32)>,
    v: int,
    i: int,
)
    requires
        0 <= v < n0.len() <= n1.len(),
        forall|k: int| 0 <= k < n0.len() ==> n1[k] == n0[k],
        c0.len() <= c1.len(),
        forall|k: int| 0 <= k < c0.len() ==> c1[k] == c0[k],
        forall|w: int| 0 <= w < n0.len() ==> #[trigger] w1.contains(w as u32) == w0.contains(w as u32),
        forall|w: int| n0.len() <= w < n1.len() ==> #[trigger] w1.contains(w as u32),
        forall|w: int| 0 <= w < n0.len() && w != v ==> #[trigger] cuts_done(p, config, n0, w0, c0, w),
        cuts_listed(p, config, n0, c0, v, i),
        is_cut(p, config, n1, v, i) ==> c1.contains(cut_pair(p, config, n1, v, i)),
    ensures
        forall|w: int| 0 <= w < n1.len() && w != v ==> #[trigger] cuts_done(p, config, n1, w1, c1, w),
        cuts_listed(p, config, n1, c1, v, i + 1),
{
    assert forall|w: int| 0 <= w < n1.len() && w != v implies #[trigger] cuts_done(p, config, n1, w1, c1, w) by {
        if w < n0.len() && !w1.contains(w as u32) {
            assert(cuts_done(p, config, n0, w0, c0, w));
            assert(n1[w] == n0[w]);
            lemma_cuts_grow(p, config, n0, n1, c0, c1, w, p.spec_targets(config, n0[w].file as int).len() as int);
        }
    }
    lemma_cuts_grow(p, config, n0, n1, c0, c1, v, i);
    assert forall|j: int| 0 <= j < i + 1 && #[trigger] is_cut(p, config, n1, v, j) implies c1.contains(
        cut_pair(p, config, n1, v, j),
    ) by {}
}

/// An appended node that a directive justifies keeps every edge following
/// its directive.
pub proof fn lemma_edge_push(p: Project, config: int, nodes: Seq<Node>, x: Node, v: int, i: int, e: (u32, u32))
    requires
        nodes_unique(nodes),
        fresh_for(p, config, nodes, x, v, i),
        (e.0 as int) < nodes.len(),
        edge_from_directive(p, config, nodes, e),
    ensures
        edge_from_directive(p, config, nodes.push(x), e),
{
    let a = e.0 as int;
    let j = choose|j: int|
        0 <= j < p.spec_targets(config, nodes[a].file as int).len() && #[trigger] dir_succ(p, config, nodes, a, j)
            == seq![e.1];
    assert(seq![e.1].len() == 1);
    if x.parent == NO_PARENT && p.spec_targets(config, nodes[a].file as int)[j] == Some(x.file) {
        assert(once_node(nodes, x.file) is None);
        assert(dir_succ(p, config, nodes, a, j).len() == 0);
    }
    if x.parent != NO_PARENT && x.parent == a && x.directive == j {
        assert(child_node(nodes, v, i) is None);
        assert(dir_succ(p, config, nodes, a, j).len() == 0);
    }
    assert(untouched(p, config, nodes, x, a, j));
    lemma_dir_succ_push(p, config, nodes, x, a, j);
    assert(nodes.push(x)[a] == nodes[a]);
}

/// What holds between steps of the construction, apart from the status of
/// each node.
pub open spec fn frame_ok(
    p: Project,
    config: int,
    root: u32,
    nodes: Seq<Node>,
    once_idx: Seq<u32>,
    work: Seq<u32>,
    edges: Seq<(u32, u32)>,
    cut: Seq<(u32, u32)>,
) -> bool {
    &&& nodes_ok(p, config, root, nodes)
    &&& nodes.len() < u32::MAX
    &&& once_idx.len() == p.paths@.len()
    &&& forall|t: int|
        0 <= t < once_idx.len() && #[trigger] once_idx[t] != NO_PARENT ==> is_once_node(
            nodes,
            once_idx[t] as int,
            t as u32,
        )
    &&& forall|u: int|
        0 <= u < nodes.len() && nodes[u].parent == NO_PARENT && p.spec_once((#[trigger] nodes[u]).file as int)
            ==> once_idx[nodes[u].file as int] == u
    &&& edges.len() <= u32::MAX
    &&& forall|k: int| 0 <= k < edges.len() ==> (#[trigger] edges[k]).0 < nodes.len() && edges[k].1 < nodes.len()
    &&& work.no_duplicates()
    &&& forall|k: int| 0 <= k < work.len() ==> #[trigger] work[k] < nodes.len()
    &&& forall|k: int| 0 <= k < cut.len() ==> #[trigger] cut_reported(p, config, nodes, cut[k])
    &&& forall|k: int| 0 <= k < edges.len() ==> #[trigger] edge_from_directive(p, config, nodes, edges[k])
}

pub open spec fn build_ok(
    p: Project,
    config: int,
    root: u32,
    nodes: Seq<Node>,
    once_idx: Seq<u32>,
    work: Seq<u32>,
    edges: Seq<(u32, u32)>,
    cut: Seq<(u32, u32)>,
    truncated: bool,
) -> bool {
    &&& frame_ok(p, config, root, nodes, once_idx, work, edges, cut)
    &&& forall|v: int| 0 <= v < nodes.len() ==> #[trigger] status_ok(p, config, nodes, work, edges, truncated, v)
    &&& truncated ==> at_limit(nodes.len(), edges.len())
    &&& forall|v: int| 0 <= v < nodes.len() ==> #[trigger] cuts_done(p, config, nodes, work, cut, v)
}

/// The graph has as many nodes as a TU graph may hold, or as many edges as
/// fit a `u32` count.
pub open spec fn at_limit(node_count: nat, edge_count: nat) -> bool {
    node_count >= MAX_TU_NODES || edge_count >= 0xFFFF_FFFF
}

/// A fresh node `x` that is not a site of `w` keeps `w` processed.
pub proof fn lemma_done_push(
    p: Project,
    config: int,
    nodes: Seq<Node>,
    x: Node,
    edges: Seq<(u32, u32)>,
    truncated: bool,
    w: int,
)
    requires
        nodes_unique(nodes),
        0 <= w < nodes.len(),
        done(p, config, nodes, edges, truncated, w),
        x.parent == NO_PARENT ==> p.spec_once(x.file as int) && once_node(nodes, x.file) is None,
        x.parent == NO_PARENT || x.parent != w,
    ensures
        done(p, config, nodes.push(x), edges, truncated, w),
{
    let np = nodes.push(x);
    assert(np[w] == nodes[w]);
    let ts = p.spec_targets(config, nodes[w].file as int);
    if !truncated {
        assert forall|j: int| 0 <= j < ts.len() implies #[trigger] untouched(p, config, nodes, x, w, j) by {
            assert(once_ok_at(p, config, nodes, w, j));
        }
        assert forall|j: int| 0 <= j < ts.len() implies #[trigger] once_ok_at(p, config, np, w, j) by {
            assert(once_ok_at(p, config, nodes, w, j));
            if let Some(t) = ts[j] {
                lemma_once_node_push(nodes, x, t);
            }
        }
        lemma_succ_upto_push(p, config, nodes, x, w, ts.len() as int);
        assert forall|j: int| 0 <= j < ts.len() implies #[trigger] expanded_at(p, config, np, w, j) by {
            assert(expanded_at(p, config, nodes, w, j));
            assert(untouched(p, config, nodes, x, w, j));
            if let Some(t) = ts[j] {
                lemma_once_node_push(nodes, x, t);
                lemma_chain_push(nodes, x, w, t);
                lemma_child_node_push(nodes, x, w, j);
            }
        }
    }
}

/// Cut reports stay true as nodes are appended.
pub proof fn lemma_cut_push(p: Project, config: int, nodes: Seq<Node>, x: Node, pair: (FileId, FileId))
    requires
        cut_reported(p, config, nodes, pair),
    ensures
        cut_reported(p, config, nodes.push(x), pair),
{
    let (v, i) = choose|v: int, i: int|
        #[trigger] is_cut(p, config, nodes, v, i) && pair == (
            nodes[v].file,
            p.spec_targets(config, nodes[v].file as int)[i]->0,
        );
    let t = p.spec_targets(config, nodes[v].file as int)[i]->0;
    lemma_chain_push(nodes, x, v, t);
    assert(nodes.push(x)[v] == nodes[v]);
    assert(is_cut(p, config, nodes.push(x), v, i));
}

/// A justified node stays justified as nodes are appended.
pub proof fn lemma_node_ok_push(p: Project, config: int, nodes: Seq<Node>, x: Node, u: int)
    requires
        1 <= u < nodes.len(),
        node_ok(p, config, nodes, u),
    ensures
        node_ok(p, config, nodes.push(x), u),
{
    let np = nodes.push(x);
    assert(np[u] == nodes[u]);
    if nodes[u].parent == NO_PARENT {
        let (v, i) = choose|v: int, i: int|
            0 <= v < u && 0 <= i < p.spec_targets(config, nodes[v].file as int).len()
                && #[trigger] p.spec_targets(config, nodes[v].file as int)[i] == Some(nodes[u].file);
        assert(np[v] == nodes[v]);
    } else {
        assert(np[nodes[u].parent as int] == nodes[nodes[u].parent as int]);
        lemma_chain_push(nodes, x, nodes[u].parent as int, nodes[u].file);
    }
}

pub proof fn lemma_once_node_is(nodes: Seq<Node>, u: int, t: u32)
    requires
        nodes_unique(nodes),
        is_once_node(nodes, u, t),
    ensures
        once_node(nodes, t) == Some(u),
{
    let b = choose|w: int| #[trigger] is_once_node(nodes, w, t);
    if b != u {
        assert(nodes[b].file != nodes[u].file);
    }
}

pub proof fn lemma_out_list_fresh(edges: Seq<(u32, u32)>, v: int)
    requires
        forall|k: int| 0 <= k < edges.len() ==> (#[trigger] edges[k]).0 != v,
    ensures
        out_list(edges, v) == Seq::<u32>::empty(),
    decreases edges.len(),
{
    if edges.len() > 0 {
        assert forall|k: int| 0 <= k < edges.drop_last().len() implies (#[trigger] edges.drop_last()[k]).0 != v by {
            assert(edges.drop_last()[k] == edges[k]);
        }
        lemma_out_list_fresh(edges.drop_last(), v);
        assert(edges.last() == edges[edges.len() - 1]);
    }
}

/// Unguarded files already on the inclusion stack since the nearest guarded
/// ancestor form an include cycle that would never terminate; that edge is cut.
fn site_chain_contains(nodes: &Vec<Node>, start: u32, file: FileId) -> (r: bool)
    requires
        start < nodes@.len(),
        nodes@.len() < u32::MAX,
        forall|u: int|
            0 <= u < nodes@.len() && (#[trigger] nodes@[u]).parent != NO_PARENT ==> nodes@[u].parent < u,
    ensures
        r == chain_has(nodes@, start as int, file),
{
    let mut v = start;
    while v != NO_PARENT
        invariant
            v == NO_PARENT || v < nodes@.len(),
            nodes@.len() < u32::MAX,
            forall|u: int|
                0 <= u < nodes@.len() && (#[trigger] nodes@[u]).parent != NO_PARENT ==> nodes@[u].parent < u,
            chain_has(nodes@, start as int, file) == chain_has(nodes@, v as int, file),
        decreases v,
    {
        let node = nodes[v as usize];
        if node.parent == NO_PARENT {
            return false;
        }
        if node.file == file {
            return true;
        }
        v = node.parent;
    }
    false
}

/// Directive `i` of node `v` justifies appending node `x`.
pub open spec fn fresh_for(p: Project, config: int, nodes: Seq<Node>, x: Node, v: int, i: int) -> bool {
    &&& 0 <= v < nodes.len()
    &&& 0 <= i < p.spec_targets(config, nodes[v].file as int).len()
    &&& p.spec_targets(config, nodes[v].file as int)[i] == Some(x.file)
    &&& x.file < p.paths@.len()
    &&& x.parent == NO_PARENT ==> p.spec_once(x.file as int) && once_node(nodes, x.file) is None
    &&& x.parent != NO_PARENT ==> {
        &&& x.parent == v
        &&& x.directive == i
        &&& !p.spec_once(x.file as int)
        &&& !chain_has(nodes, v, x.file)
        &&& child_node(nodes, v, i) is None
    }
}

/// Appending a justified node, with the edge to it from `v` and a place on
/// the work list, keeps the construction state of every node but `v`.
pub proof fn lemma_add_node(
    p: Project,
    config: int,
    root: u32,
    nodes: Seq<Node>,
    once_idx: Seq<u32>,
    work: Seq<u32>,
    edges: Seq<(u32, u32)>,
    cut: Seq<(u32, u32)>,
    truncated: bool,
    v: int,
    i: int,
    x: Node,
)
    requires
        frame_ok(p, config, root, nodes, once_idx, work, edges, cut),
        !work.contains(v as u32),
        forall|w: int|
            0 <= w < nodes.len() && w != v ==> #[trigger] status_ok(p, config, nodes, work, edges, truncated, w),
        fresh_for(p, config, nodes, x, v, i),
        nodes.len() + 1 < u32::MAX,
        edges.len() < u32::MAX,
    ensures
        ({
            let n2 = nodes.push(x);
            let id = nodes.len() as u32;
            let o2 = if x.parent == NO_PARENT {
                once_idx.update(x.file as int, id)
            } else {
                once_idx
            };
            let w2 = work.push(id);
            let e2 = edges.push((v as u32, id));
            &&& frame_ok(p, config, root, n2, o2, w2, e2, cut)
            &&& forall|w: int|
                0 <= w < n2.len() && w != v ==> #[trigger] status_ok(p, config, n2, w2, e2, truncated, w)
        }),
{
    let n2 = nodes.push(x);
    let id = nodes.len() as u32;
    let o2 = if x.parent == NO_PARENT {
        once_idx.update(x.file as int, id)
    } else {
        once_idx
    };
    let w2 = work.push(id);
    let e2 = edges.push((v as u32, id));
    lemma_push_contains(work, id);
    assert(!work.contains(id)) by {
        if work.contains(id) {
            let k = choose|k: int| 0 <= k < work.len() && work[k] == id;
            assert(work[k] < nodes.len());
        }
    }
    // nodes stay justified and unique
    assert forall|u: int| 1 <= u < n2.len() implies #[trigger] node_ok(p, config, n2, u) by {
        if u < nodes.len() {
            lemma_node_ok_push(p, config, nodes, x, u);
        } else {
            assert(n2[u] == x);
            assert(n2[v] == nodes[v]);
            if x.parent != NO_PARENT {
                lemma_chain_push(nodes, x, v, x.file);
            }
        }
    }
    assert(nodes_unique(n2)) by {
        assert forall|u: int, w: int|
            0 <= u < n2.len() && 0 <= w < n2.len() && u != w && n2[u].parent == NO_PARENT && n2[w].parent
                == NO_PARENT implies (#[trigger] n2[u]).file != (#[trigger] n2[w]).file by {
            if u == nodes.len() {
                if n2[w].file == x.file {
                    assert(is_once_node(nodes, w, x.file));
                }
            } else if w == nodes.len() {
                if n2[u].file == x.file {
                    assert(is_once_node(nodes, u, x.file));
                }
            }
        }
        assert forall|u: int, w: int|
            0 <= u < n2.len() && 0 <= w < n2.len() && u != w && n2[u].parent != NO_PARENT && n2[u].parent
                == n2[w].parent implies (#[trigger] n2[u]).directive != (#[trigger] n2[w]).directive by {
            if u == nodes.len() {
                if n2[w].directive == x.directive {
                    assert(is_child(nodes, w, v, i));
                }
            } else if w == nodes.len() {
                if n2[u].directive == x.directive {
                    assert(is_child(nodes, u, v, i));
                }
            }
        }
    }
    assert forall|u: int| 0 <= u < n2.len() implies (#[trigger] n2[u]).file < p.paths@.len() by {
        if u < nodes.len() {
            assert(n2[u] == nodes[u]);
        }
    }
    // the guarded-file index
    assert forall|t: int| 0 <= t < o2.len() && #[trigger] o2[t] != NO_PARENT implies is_once_node(
        n2,
        o2[t] as int,
        t as u32,
    ) by {
        if x.parent == NO_PARENT && t == x.file {
        } else {
            assert(o2[t] == once_idx[t]);
            assert(n2[once_idx[t] as int] == nodes[once_idx[t] as int]);
        }
    }
    assert forall|u: int|
        0 <= u < n2.len() && n2[u].parent == NO_PARENT && p.spec_once((#[trigger] n2[u]).file as int)
            implies o2[n2[u].file as int] == u by {
        if u < nodes.len() {
            assert(n2[u] == nodes[u]);
            if x.parent == NO_PARENT && nodes[u].file == x.file {
                assert(is_once_node(nodes, u, x.file));
            }
        }
    }
    // edges, work and cut reports
    assert forall|k: int| 0 <= k < e2.len() implies (#[trigger] e2[k]).0 < n2.len() && e2[k].1 < n2.len() by {
        if k < edges.len() {
            assert(e2[k] == edges[k]);
        }
    }
    assert forall|k: int| 0 <= k < w2.len() implies #[trigger] w2[k] < n2.len() by {
        if k < work.len() {
            assert(w2[k] == work[k]);
        }
    }
    assert(w2.no_duplicates()) by {
        assert forall|a: int, b: int| 0 <= a < w2.len() && 0 <= b < w2.len() && a != b implies w2[a] != w2[b] by {
            if a == work.len() {
                assert(work[b] < nodes.len());
            } else if b == work.len() {
                assert(work[a] < nodes.len());
            }
        }
    }
    assert forall|k: int| 0 <= k < cut.len() implies #[trigger] cut_reported(p, config, n2, cut[k]) by {
        lemma_cut_push(p, config, nodes, x, cut[k]);
    }
    assert forall|k: int| 0 <= k < e2.len() implies #[trigger] edge_from_directive(p, config, n2, e2[k]) by {
        if k < edges.len() {
            assert(e2[k] == edges[k]);
            lemma_edge_push(p, config, nodes, x, v, i, edges[k]);
        } else {
            assert(e2[k] == (v as u32, id));
            assert(n2[v] == nodes[v]);
            if x.parent == NO_PARENT {
                lemma_once_node_push(nodes, x, x.file);
                assert(is_once_node(n2, id as int, x.file));
                let u = once_node(n2, x.file)->0;
                assert(is_once_node(n2, u, x.file));
                if u != id as int {
                    assert(is_once_node(nodes, u, x.file));
                }
                assert(dir_succ(p, config, n2, v, i) == seq![id]);
            } else {
                lemma_child_node_push(nodes, x, v, i);
                lemma_chain_push(nodes, x, v, x.file);
                assert(dir_succ(p, config, n2, v, i) == seq![id]);
            }
        }
    }
    // every node but v keeps its status
    assert forall|w: int| 0 <= w < n2.len() && w != v implies #[trigger] status_ok(
        p,
        config,
        n2,
        w2,
        e2,
        truncated,
        w,
    ) by {
        lemma_out_list_push(edges, (v as u32, id), w);
        if w == nodes.len() {
            assert forall|k: int| 0 <= k < edges.len() implies (#[trigger] edges[k]).0 != w by {}
            lemma_out_list_fresh(edges, w);
            assert forall|u: int| 0 <= u < n2.len() implies (#[trigger] n2[u]).parent != w by {
                if u < nodes.len() {
                    assert(node_ok(p, config, nodes, u) || u == 0);
                    assert(n2[u] == nodes[u]);
                }
            }
        } else {
            assert(status_ok(p, config, nodes, work, edges, truncated, w));
            if work.contains(w as u32) {
                assert forall|u: int| 0 <= u < n2.len() implies (#[trigger] n2[u]).parent != w by {
                    if u < nodes.len() {
                        assert(n2[u] == nodes[u]);
                    }
                }
            } else {
                assert(!w2.contains(w as u32));
                lemma_done_push(p, config, nodes, x, edges, truncated, w);
            }
        }
    }
}

/// While processing `v`: its directives before `i` are handled, and none
/// from `i` on has a site yet.
pub open spec fn partly_done(
    p: Project,
    config: int,
    nodes: Seq<Node>,
    edges: Seq<(u32, u32)>,
    truncated: bool,
    v: int,
    i: int,
) -> bool {
    &&& forall|u: int| 0 <= u < nodes.len() && (#[trigger] nodes[u]).parent == v ==> nodes[u].directive < i
    &&& !truncated ==> {
        &&& forall|j: int| 0 <= j < i ==> #[trigger] once_ok_at(p, config, nodes, v, j)
        &&& forall|j: int| 0 <= j < i ==> #[trigger] expanded_at(p, config, nodes, v, j)
        &&& out_list(edges, v) == succ_upto(p, config, nodes, v, i)
    }
}

/// Appending a node justified by directive `i` of `v` keeps what `v` has done
/// for its earlier directives.
pub proof fn lemma_partly_done_push(
    p: Project,
    config: int,
    nodes: Seq<Node>,
    edges: Seq<(u32, u32)>,
    truncated: bool,
    v: int,
    i: int,
    x: Node,
)
    requires
        nodes_unique(nodes),
        partly_done(p, config, nodes, edges, truncated, v, i),
        fresh_for(p, config, nodes, x, v, i),
        nodes.len() < u32::MAX,
    ensures
        !truncated ==> out_list(edges, v) == succ_upto(p, config, nodes.push(x), v, i),
        !truncated ==> forall|j: int| 0 <= j < i ==> #[trigger] once_ok_at(p, config, nodes.push(x), v, j),
        !truncated ==> forall|j: int| 0 <= j < i ==> #[trigger] expanded_at(p, config, nodes.push(x), v, j),
        forall|u: int|
            0 <= u < nodes.len() + 1 && (#[trigger] nodes.push(x)[u]).parent == v ==> nodes.push(x)[u].directive
                < i + 1,
{
    let np = nodes.push(x);
    assert(np[v] == nodes[v]);
    let ts = p.spec_targets(config, nodes[v].file as int);
    if !truncated {
        assert forall|j: int| 0 <= j < i implies #[trigger] untouched(p, config, nodes, x, v, j) by {
            assert(once_ok_at(p, config, nodes, v, j));
        }
        lemma_succ_upto_push(p, config, nodes, x, v, i);
        assert forall|j: int| 0 <= j < i implies #[trigger] once_ok_at(p, config, np, v, j) by {
            assert(once_ok_at(p, config, nodes, v, j));
            if let Some(t) = ts[j] {
                lemma_once_node_push(nodes, x, t);
            }
        }
        assert forall|j: int| 0 <= j < i implies #[trigger] expanded_at(p, config, np, v, j) by {
            assert(expanded_at(p, config, nodes, v, j));
            assert(untouched(p, config, nodes, x, v, j));
            if let Some(t) = ts[j] {
                lemma_once_node_push(nodes, x, t);
                lemma_chain_push(nodes, x, v, t);
                lemma_child_node_push(nodes, x, v, j);
            }
        }
    }
    assert forall|u: int| 0 <= u < nodes.len() + 1 && (#[trigger] np[u]).parent == v implies np[u].directive
        < i + 1 by {
        if u < nodes.len() {
            assert(np[u] == nodes[u]);
        }
    }
}

/// Expands the directives of node `v`, appending the nodes and edges they
/// include.
fn process_node(
    p: &Project,
    config: u32,
    root: u32,
    v: u32,
    nodes: &mut Vec<Node>,
    once_idx: &mut Vec<u32>,
    work: &mut Vec<u32>,
    edges: &mut Vec<(u32, u32)>,
    cut: &mut Vec<(FileId, FileId)>,
    truncated: &mut bool,
)
    requires
        p.wf(),
        config < p.configs@.len(),
        frame_ok(*p, config as int, root, old(nodes)@, old(once_idx)@, old(work)@, old(edges)@, old(cut)@),
        v < old(nodes)@.len(),
        !old(work)@.contains(v),
        forall|w: int|
            0 <= w < old(nodes)@.len() && w != v ==> #[trigger] status_ok(
                *p,
                config as int,
                old(nodes)@,
                old(work)@,
                old(edges)@,
                *old(truncated),
                w,
            ),
        pending(old(nodes)@, old(edges)@, v as int),
        *old(truncated) ==> at_limit(old(nodes)@.len(), old(edges)@.len()),
        forall|w: int|
            0 <= w < old(nodes)@.len() && w != v ==> #[trigger] cuts_done(*p, config as int, old(nodes)@, old(work)@, old(cut)@, w),
    ensures
        build_ok(
            *p,
            config as int,
            root,
            final(nodes)@,
            final(once_idx)@,
            final(work)@,
            final(edges)@,
            final(cut)@,
            *final(truncated),
        ),
        final(nodes)@.len() >= old(nodes)@.len(),
        final(work)@.len() + old(nodes)@.len() == old(work)@.len() + final(nodes)@.len(),
{
    let f = nodes[v as usize].file;
    let ts = p.targets(config, f);
    let ghost tsv = ts@;
    let mut i: usize = 0;
    proof {
        assert(p.spec_targets(config as int, f as int) == tsv);
        if p.resolved@[config as int]@.contains_key(f) {
            assert(p.targets_ok(f as int, tsv));
            if p.readable(f as int) {
                assert(p.scanned@[f as int]->0.includes@.len() <= u32::MAX);
            }
        }
    }
    while i < ts.len()
        invariant
            p.wf(),
            config < p.configs@.len(),
            frame_ok(*p, config as int, root, nodes@, once_idx@, work@, edges@, cut@),
            v < nodes@.len(),
            nodes@[v as int].file == f,
            tsv == ts@,
            tsv == p.spec_targets(config as int, f as int),
            tsv.len() <= u32::MAX,
            i <= ts@.len(),
            !work@.contains(v),
            forall|w: int|
                0 <= w < nodes@.len() && w != v ==> #[trigger] status_ok(
                    *p,
                    config as int,
                    nodes@,
                    work@,
                    edges@,
                    *truncated,
                    w,
                ),
            partly_done(*p, config as int, nodes@, edges@, *truncated, v as int, i as int),
            *truncated ==> at_limit(nodes@.len(), edges@.len()),
            forall|w: int|
                0 <= w < nodes@.len() && w != v ==> #[trigger] cuts_done(*p, config as int, nodes@, work@, cut@, w),
            cuts_listed(*p, config as int, nodes@, cut@, v as int, i as int),
            nodes@.len() >= old(nodes)@.len(),
            work@.len() + old(nodes)@.len() == old(work)@.len() + nodes@.len(),
        decreases ts@.len() - i,
    {
        let ghost n0 = nodes@;
        let ghost e0 = edges@;
        let ghost tr0 = *truncated;
        let ghost w0 = work@;
        let ghost cw0 = cut@;
        proof {
            assert(n0[v as int].file == f);
        }
        match ts[i] {
            None => {
                proof {
                    assert(dir_succ(*p, config as int, n0, v as int, i as int) =~= Seq::<u32>::empty());
                    assert(succ_upto(*p, config as int, n0, v as int, i + 1) =~= succ_upto(*p, config as int, n0, v as int, i as int));
                    assert(once_ok_at(*p, config as int, n0, v as int, i as int));
                    assert(expanded_at(*p, config as int, n0, v as int, i as int));
                    assert(partly_done(*p, config as int, nodes@, edges@, *truncated, v as int, i + 1));
                }
            },
            Some(t) => {
                proof {
                    assert(p.targets_ok(f as int, tsv)) by {
                        assert(p.resolved@[config as int]@.contains_key(f));
                    }
                    assert(p.readable(t as int));
                }
                if p.once(t) {
                    let idx = once_idx[t as usize];
                    if idx != NO_PARENT {
                        if edges.len() >= 0xFFFF_FFFF {
                            *truncated = true;
                            proof {
                                assert forall|w: int| 0 <= w < nodes@.len() && w != v implies #[trigger] status_ok(
                                    *p,
                                    config as int,
                                    nodes@,
                                    work@,
                                    edges@,
                                    *truncated,
                                    w,
                                ) by {
                                    assert(status_ok(*p, config as int, n0, work@, e0, tr0, w));
                                }
                                assert(partly_done(*p, config as int, nodes@, edges@, *truncated, v as int, i + 1));
                            }
                        } else {
                            edges.push((v, idx));
                            proof {
                                assert(is_once_node(n0, idx as int, t));
                                lemma_once_node_is(n0, idx as int, t);
                                assert(dir_succ(*p, config as int, n0, v as int, i as int) =~= seq![idx]);
                                lemma_out_list_push(e0, (v, idx), v as int);
                                assert(succ_upto(*p, config as int, n0, v as int, i + 1) =~= succ_upto(
                                    *p,
                                    config as int,
                                    n0,
                                    v as int,
                                    i as int,
                                ).push(idx));
                                assert(once_ok_at(*p, config as int, n0, v as int, i as int));
                                assert(expanded_at(*p, config as int, n0, v as int, i as int));
                                assert forall|k: int| 0 <= k < edges@.len() implies (#[trigger] edges@[k]).0
                                    < nodes@.len() && edges@[k].1 < nodes@.len() by {
                                    if k < e0.len() {
                                        assert(edges@[k] == e0[k]);
                                    }
                                }
                                assert forall|w: int| 0 <= w < nodes@.len() && w != v implies #[trigger] status_ok(
                                    *p,
                                    config as int,
                                    nodes@,
                                    work@,
                                    edges@,
                                    *truncated,
                                    w,
                                ) by {
                                    lemma_out_list_push(e0, (v, idx), w);
                                    assert(status_ok(*p, config as int, n0, work@, e0, tr0, w));
                                }
                                assert(partly_done(*p, config as int, nodes@, edges@, *truncated, v as int, i + 1));
                            }
                        }
                    } else {
                        if edges.len() >= 0xFFFF_FFFF || nodes.len() >= 0xFFFF_FFFE {
                            *truncated = true;
                            proof {
                                assert forall|w: int| 0 <= w < nodes@.len() && w != v implies #[trigger] status_ok(
                                    *p,
                                    config as int,
                                    nodes@,
                                    work@,
                                    edges@,
                                    *truncated,
                                    w,
                                ) by {
                                    assert(status_ok(*p, config as int, n0, work@, e0, tr0, w));
                                }
                                assert(partly_done(*p, config as int, nodes@, edges@, *truncated, v as int, i + 1));
                            }
                        } else {
                            let id = nodes.len() as u32;
                            let x = Node { file: t, parent: NO_PARENT, directive: 0 };
                            proof {
                                assert(once_node(n0, t) is None) by {
                                    if exists|u: int| #[trigger] is_once_node(n0, u, t) {
                                        let u = choose|u: int| #[trigger] is_once_node(n0, u, t);
                                        assert(n0[u].parent == NO_PARENT && p.spec_once(n0[u].file as int));
                                    }
                                }
                                assert(fresh_for(*p, config as int, n0, x, v as int, i as int));
                                lemma_add_node(
                                    *p,
                                    config as int,
                                    root,
                                    n0,
                                    once_idx@,
                                    work@,
                                    e0,
                                    cut@,
                                    tr0,
                                    v as int,
                                    i as int,
                                    x,
                                );
                                lemma_partly_done_push(*p, config as int, n0, e0, tr0, v as int, i as int, x);
                                lemma_once_node_push(n0, x, t);
                            }
                            nodes.push(x);
                            once_idx.set(t as usize, id);
                            work.push(id);
                            proof {
                                assert(work@[work@.len() - 1] == id);
                            }
                            edges.push((v, id));
                            proof {
                                let n2 = nodes@;
                                assert(n2 == n0.push(x));
                                assert(n2[v as int] == n0[v as int]);
                                lemma_out_list_push(e0, (v, id), v as int);
                                assert(dir_succ(*p, config as int, n2, v as int, i as int) =~= seq![id]);
                                assert(once_ok_at(*p, config as int, n2, v as int, i as int));
                                assert(expanded_at(*p, config as int, n2, v as int, i as int));
                                lemma_push_contains(old(work)@, id);
                                assert(!work@.contains(v)) by {
                                    lemma_push_contains(work@.drop_last(), id);
                                    assert(work@.drop_last().push(id) == work@);
                                }
                                assert(succ_upto(*p, config as int, n2, v as int, i + 1) =~= succ_upto(
                                    *p,
                                    config as int,
                                    n2,
                                    v as int,
                                    i as int,
                                ).push(id));
                                assert(partly_done(*p, config as int, nodes@, edges@, *truncated, v as int, i + 1));
                            }
                        }
                    }
                } else if {
                    proof {
                        assert forall|u: int|
                            0 <= u < n0.len() && (#[trigger] n0[u]).parent != NO_PARENT implies n0[u].parent < u by {
                            if u > 0 {
                                assert(node_ok(*p, config as int, n0, u));
                            }
                        }
                    }
                    site_chain_contains(nodes, v, t)
                } {
                    let ghost c0 = cut@;
                    cut.push((f, t));
                    proof {
                        assert(cut@[cut@.len() - 1] == (f, t));
                    }
                    proof {
                        assert forall|w: int| 0 <= w < nodes@.len() && w != v implies #[trigger] status_ok(
                            *p,
                            config as int,
                            nodes@,
                            work@,
                            edges@,
                            *truncated,
                            w,
                        ) by {
                            assert(status_ok(*p, config as int, n0, work@, e0, tr0, w));
                        }
                        assert(is_cut(*p, config as int, n0, v as int, i as int));
                        assert(cut_reported(*p, config as int, n0, (f, t)));
                        assert forall|k: int| 0 <= k < cut@.len() implies #[trigger] cut_reported(
                            *p,
                            config as int,
                            nodes@,
                            cut@[k],
                        ) by {
                            if k < c0.len() {
                                assert(cut@[k] == c0[k]);
                            }
                        }
                        assert(dir_succ(*p, config as int, n0, v as int, i as int) =~= Seq::<u32>::empty());
                        assert(succ_upto(*p, config as int, n0, v as int, i + 1) =~= succ_upto(
                            *p,
                            config as int,
                            n0,
                            v as int,
                            i as int,
                        ));
                        assert(once_ok_at(*p, config as int, n0, v as int, i as int));
                        assert(expanded_at(*p, config as int, n0, v as int, i as int));
                        assert(partly_done(*p, config as int, nodes@, edges@, *truncated, v as int, i + 1));
                    }
                } else if nodes.len() >= MAX_TU_NODES || edges.len() >= 0xFFFF_FFFF {
                    *truncated = true;
                    proof {
                                assert forall|w: int| 0 <= w < nodes@.len() && w != v implies #[trigger] status_ok(
                                    *p,
                                    config as int,
                                    nodes@,
                                    work@,
                                    edges@,
                                    *truncated,
                                    w,
                                ) by {
                                    assert(status_ok(*p, config as int, n0, work@, e0, tr0, w));
                                }
                                assert(partly_done(*p, config as int, nodes@, edges@, *truncated, v as int, i + 1));
                            }
                } else {
                    let id = nodes.len() as u32;
                    let x = Node { file: t, parent: v, directive: i as u32 };
                    proof {
                        assert(child_node(n0, v as int, i as int) is None) by {
                            if exists|u: int| #[trigger] is_child(n0, u, v as int, i as int) {
                                let u = choose|u: int| #[trigger] is_child(n0, u, v as int, i as int);
                                assert(n0[u].parent == v);
                            }
                        }
                        assert(fresh_for(*p, config as int, n0, x, v as int, i as int));
                        lemma_add_node(
                            *p,
                            config as int,
                            root,
                            n0,
                            once_idx@,
                            work@,
                            e0,
                            cut@,
                            tr0,
                            v as int,
                            i as int,
                            x,
                        );
                        lemma_partly_done_push(*p, config as int, n0, e0, tr0, v as int, i as int, x);
                        lemma_child_node_push(n0, x, v as int, i as int);
                        lemma_chain_push(n0, x, v as int, t);
                    }
                    nodes.push(x);
                    work.push(id);
                    proof {
                        assert(work@[work@.len() - 1] == id);
                    }
                    edges.push((v, id));
                    proof {
                        let n2 = nodes@;
                        assert(n2 == n0.push(x));
                        assert(n2[v as int] == n0[v as int]);
                        lemma_out_list_push(e0, (v, id), v as int);
                        assert(dir_succ(*p, config as int, n2, v as int, i as int) =~= seq![id]);
                        assert(once_ok_at(*p, config as int, n2, v as int, i as int));
                        assert(expanded_at(*p, config as int, n2, v as int, i as int));
                        assert(!work@.contains(v)) by {
                            lemma_push_contains(work@.drop_last(), id);
                            assert(work@.drop_last().push(id) == work@);
                        }
                        assert(succ_upto(*p, config as int, n2, v as int, i + 1) =~= succ_upto(
                            *p,
                            config as int,
                            n2,
                            v as int,
                            i as int,
                        ).push(id));
                        assert(partly_done(*p, config as int, nodes@, edges@, *truncated, v as int, i + 1));
                    }
                }
            },
        }
        proof {
            assert forall|k: int| 0 <= k < n0.len() implies nodes@[k] == n0[k] by {}
            assert forall|k: int| 0 <= k < cw0.len() implies cut@[k] == cw0[k] by {}
            assert forall|w: int| 0 <= w < n0.len() implies #[trigger] work@.contains(w as u32) == w0.contains(w as u32) by {
                if w0.contains(w as u32) {
                    let k = choose|k: int| 0 <= k < w0.len() && w0[k] == w as u32;
                    assert(work@[k] == w0[k]);
                }
                if work@.contains(w as u32) {
                    let k = choose|k: int| 0 <= k < work@.len() && work@[k] == w as u32;
                    if k >= w0.len() {
                        assert(work@[k] == n0.len());
                    } else {
                        assert(work@[k] == w0[k]);
                    }
                }
            }
            assert forall|w: int| n0.len() <= w < nodes@.len() implies #[trigger] work@.contains(w as u32) by {}
            assert(is_cut(*p, config as int, nodes@, v as int, i as int) ==> cut@.contains(
                cut_pair(*p, config as int, nodes@, v as int, i as int),
            ));
            lemma_cuts_step(*p, config as int, n0, nodes@, w0, work@, cw0, cut@, v as int, i as int);
        }
        i += 1;
    }
    proof {
        assert forall|w: int| 0 <= w < nodes@.len() implies #[trigger] status_ok(
            *p,
            config as int,
            nodes@,
            work@,
            edges@,
            *truncated,
            w,
        ) by {
            if w == v {
                assert(nodes@[v as int].file == f);
            }
        }
    }
}

impl Project {
    /// Builds the include graph of one TU.
    pub fn tu_graph(&self, tu: usize) -> (g: TuGraph)
        requires
            self.wf(),
            tu < self.tus@.len(),
        ensures
            tu_graph_spec(*self, tu as int, g),
    {
        let root = self.tus[tu].file;
        let config = self.tus[tu].config;
        let mut nodes: Vec<Node> = Vec::new();
        nodes.push(Node { file: root, parent: NO_PARENT, directive: 0 });
        let mut once_idx: Vec<u32> = vec![NO_PARENT; self.paths.len()];
        if self.once(root) {
            once_idx.set(root as usize, 0);
        }
        let mut edges: Vec<(u32, u32)> = Vec::new();
        let mut cut: Vec<(FileId, FileId)> = Vec::new();
        let mut truncated = false;
        let mut work: Vec<u32> = Vec::new();
        work.push(0);
        proof {
            assert(self.readable(root as int));
            lemma_push_contains(Seq::empty(), 0);
            assert(nodes@[0] == Node { file: root, parent: NO_PARENT, directive: 0 });
            assert forall|u: int| 0 <= u < nodes@.len() implies (#[trigger] nodes@[u]).file < self.paths@.len() by {}
            assert(out_list(edges@, 0) =~= Seq::<u32>::empty());
            assert forall|v: int| 0 <= v < nodes@.len() implies #[trigger] status_ok(
                *self,
                config as int,
                nodes@,
                work@,
                edges@,
                truncated,
                v,
            ) by {
                assert(work@.contains(0));
            }
            assert forall|t: int|
                0 <= t < once_idx@.len() && #[trigger] once_idx@[t] != NO_PARENT implies is_once_node(
                nodes@,
                once_idx@[t] as int,
                t as u32,
            ) by {}
        }
        while work.len() > 0
            invariant
                self.wf(),
                config < self.configs@.len(),
                build_ok(*self, config as int, root, nodes@, once_idx@, work@, edges@, cut@, truncated),
            decreases 2 * (u32::MAX - nodes@.len()) + work@.len(),
        {
            let ghost w0 = work@;
            let v = work.pop().unwrap();
            proof {
                assert(w0 == work@.push(v));
                lemma_push_contains(work@, v);
                assert(w0[w0.len() - 1] == v);
                assert(!work@.contains(v)) by {
                    if work@.contains(v) {
                        let k = choose|k: int| 0 <= k < work@.len() && work@[k] == v;
                        assert(w0[k] == w0[w0.len() - 1]);
                    }
                }
                assert(work@.no_duplicates()) by {
                    assert forall|a: int, b: int| 0 <= a < work@.len() && 0 <= b < work@.len() && a != b implies work@[a] != work@[b] by {
                        assert(work@[a] == w0[a]);
                        assert(work@[b] == w0[b]);
                    }
                }
                assert forall|k: int| 0 <= k < work@.len() implies #[trigger] work@[k] < nodes@.len() by {
                    assert(work@[k] == w0[k]);
                }
                assert(status_ok(*self, config as int, nodes@, w0, edges@, truncated, v as int));
                assert forall|w: int| 0 <= w < nodes@.len() && w != v implies #[trigger] status_ok(
                    *self,
                    config as int,
                    nodes@,
                    work@,
                    edges@,
                    truncated,
                    w,
                ) by {
                    assert(status_ok(*self, config as int, nodes@, w0, edges@, truncated, w));
                    assert(w0.contains(w as u32) == work@.contains(w as u32));
                }
                assert forall|w: int| 0 <= w < nodes@.len() && w != v implies #[trigger] cuts_done(
                    *self,
                    config as int,
                    nodes@,
                    work@,
                    cut@,
                    w,
                ) by {
                    assert(cuts_done(*self, config as int, nodes@, w0, cut@, w));
                    assert(w0.contains(w as u32) == work@.contains(w as u32));
                }
            }
            process_node(
                self,
                config,
                root,
                v,
                &mut nodes,
                &mut once_idx,
                &mut work,
                &mut edges,
                &mut cut,
                &mut truncated,
            );
        }
        let graph = Graph::from_edges(nodes.len(), edges.as_slice());
        let mut weights: Vec<u64> = Vec::new();
        let mut k: usize = 0;
        while k < nodes.len()
            invariant
                k <= nodes@.len(),
                weights@.len() == k,
                self.wf(),
                nodes_ok(*self, config as int, root, nodes@),
                forall|v: int| 0 <= v < k ==> #[trigger] weights@[v] == self.spec_weight(nodes@[v].file as int),
            decreases nodes@.len() - k,
        {
            weights.push(self.weight(nodes[k].file));
            k += 1;
        }
        proof {
            assert forall|v: int| 0 <= v < nodes@.len() implies #[trigger] status_ok(
                *self,
                config as int,
                nodes@,
                work@,
                edges@,
                truncated,
                v,
            ) by {}
            assert(work@.len() == 0);
            assert forall|v: int, j: int|
                0 <= v < nodes@.len() && 0 <= j < self.spec_targets(config as int, nodes@[v].file as int).len()
                    && #[trigger] is_cut(*self, config as int, nodes@, v, j) implies cut@.contains(
                cut_pair(*self, config as int, nodes@, v, j),
            ) by {
                assert(cuts_done(*self, config as int, nodes@, work@, cut@, v));
            }
            assert forall|v: int, j: int|
                0 <= v < nodes@.len() && 0 <= j < graph@[v].len() implies #[trigger] edge_from_directive(
                *self,
                config as int,
                nodes@,
                (v as u32, graph@[v][j]),
            ) by {
                assert(graph@[v] == out_list(edges@, v));
                crate::csr::lemma_out_list_member(edges@, v, j);
                let k = choose|k: int| 0 <= k < edges@.len() && edges@[k].0 == v && edges@[k].1 == out_list(edges@, v)[j];
                assert(edge_from_directive(*self, config as int, nodes@, edges@[k]));
                assert(edges@[k] == (v as u32, graph@[v][j]));
            }
            if !truncated {
                assert forall|v: int| 0 <= v < nodes@.len() implies #[trigger] graph@[v] == node_succ(
                    *self,
                    config as int,
                    nodes@,
                    v,
                ) && expanded(*self, config as int, nodes@, v) by {
                    assert(status_ok(*self, config as int, nodes@, work@, edges@, truncated, v));
                    assert(!work@.contains(v as u32));
                    assert(graph@[v] == out_list(edges@, v));
                }
            }
        }
        let g = TuGraph { nodes, graph, weights, cut_cycles: cut, truncated };
        proof {
            assert(g.nodes@ == nodes@);
            assert(self.tus@[tu as int].file == root);
            assert(self.tus@[tu as int].config == config);
        }
        g
    }
}

// ---------------------------------------------------------------------------
// Every node is reached.
// ---------------------------------------------------------------------------
pub(crate) proof fn lemma_succ_upto_has(p: Project, config: int, nodes: Seq<Node>, v: int, k: int, i: int, u: u32)
    requires
        0 <= i < k,
        dir_succ(p, config, nodes, v, i).contains(u),
    ensures
        succ_upto(p, config, nodes, v, k).contains(u),
    decreases k,
{
    let s = succ_upto(p, config, nodes, v, k - 1);
    let d = dir_succ(p, config, nodes, v, k - 1);
    assert(succ_upto(p, config, nodes, v, k) == s + d);
    if i < k - 1 {
        lemma_succ_upto_has(p, config, nodes, v, k - 1, i, u);
        let j = choose|j: int| 0 <= j < s.len() && s[j] == u;
        assert((s + d)[j] == u);
    } else {
        let j = choose|j: int| 0 <= j < d.len() && d[j] == u;
        assert((s + d)[s.len() + j] == u);
    }
}

/// An expanded graph holds only what the root reaches: every node of a TU
/// graph that was not truncated is reachable from the root node.
pub proof fn lemma_every_node_reached(p: Project, tu: int, g: TuGraph, u: int)
    requires
        0 <= tu < p.tus@.len(),
        tu_graph_spec(p, tu, g),
        !g.truncated,
        0 <= u < g.nodes@.len(),
    ensures
        crate::dominators::reachable(g.graph@, 0, u as u32),
    decreases u,
{
    let config = p.tus@[tu].config as int;
    let nodes = g.nodes@;
    g.graph.lemma_wf();
    if u == 0 {
        crate::dominators::lemma_reach_root(g.graph@, 0);
    } else {
        assert(node_ok(p, config, nodes, u));
        let n = nodes[u];
        if n.parent == NO_PARENT {
            let (v, i) = choose|v: int, i: int|
                0 <= v < u && 0 <= i < p.spec_targets(config, nodes[v].file as int).len()
                    && #[trigger] p.spec_targets(config, nodes[v].file as int)[i] == Some(n.file);
            assert(is_once_node(nodes, u, n.file));
            let w = choose|w: int| #[trigger] is_once_node(nodes, w, n.file);
            assert(w == u) by {
                if w != u {
                    assert(nodes[w].file == nodes[u].file);
                }
            }
            assert(dir_succ(p, config, nodes, v, i) == seq![u as u32]);
            assert(dir_succ(p, config, nodes, v, i)[0] == u as u32);
            lemma_succ_upto_has(p, config, nodes, v, p.spec_targets(config, nodes[v].file as int).len() as int, i, u as u32);
            assert(g.graph@[v] == node_succ(p, config, nodes, v));
            lemma_every_node_reached(p, tu, g, v);
            crate::dominators::lemma_reach_step(g.graph@, 0, v as u32, u as u32);
        } else {
            let v = n.parent as int;
            let i = n.directive as int;
            assert(is_child(nodes, u, v, i));
            let w = choose|w: int| #[trigger] is_child(nodes, w, v, i);
            assert(w == u) by {
                if w != u {
                    assert(nodes[w].directive == nodes[u].directive);
                }
            }
            assert(dir_succ(p, config, nodes, v, i) == seq![u as u32]);
            assert(dir_succ(p, config, nodes, v, i)[0] == u as u32);
            lemma_succ_upto_has(p, config, nodes, v, p.spec_targets(config, nodes[v].file as int).len() as int, i, u as u32);
            assert(g.graph@[v] == node_succ(p, config, nodes, v));
            lemma_every_node_reached(p, tu, g, v);
            crate::dominators::lemma_reach_step(g.graph@, 0, v as u32, u as u32);
        }
    }
}

/// The shape of a TU graph: the TU's source is node 0; each node carries its
/// file's weight; a guarded file has at most one node; a node hangs under
/// an inclusion site exactly when it is not the root and its file is not
/// guarded; and a graph that was not truncated reaches all of its nodes from
/// the root.
pub proof fn lemma_tu_graph_shape(p: Project, tu: int, g: TuGraph)
    requires
        0 <= tu < p.tus@.len(),
        tu_graph_spec(p, tu, g),
    ensures
        g.nodes@[0].file == p.tus@[tu].file,
        g.graph.spec_node_count() == g.nodes@.len() == g.weights@.len(),
        forall|v: int| 0 <= v < g.nodes@.len() ==> #[trigger] g.weights@[v] == p.spec_weight(g.nodes@[v].file as int),
        forall|u: int, w: int|
            0 <= u < g.nodes@.len() && 0 <= w < g.nodes@.len() && u != w && p.spec_once(
                (#[trigger] g.nodes@[u]).file as int,
            ) ==> (#[trigger] g.nodes@[w]).file != g.nodes@[u].file,
        forall|v: int|
            0 <= v < g.nodes@.len() ==> ((#[trigger] g.nodes@[v]).parent != NO_PARENT <==> (v != 0
                && !p.spec_once(g.nodes@[v].file as int))),
        !g.truncated ==> forall|v: int|
            0 <= v < g.nodes@.len() ==> #[trigger] crate::dominators::reachable(g.graph@, 0, v as u32),
{
    let config = p.tus@[tu].config as int;
    let nodes = g.nodes@;
    assert forall|v: int| 0 <= v < nodes.len() implies ((#[trigger] nodes[v]).parent != NO_PARENT <==> (v != 0
        && !p.spec_once(nodes[v].file as int))) by {
        if v != 0 {
            assert(node_ok(p, config, nodes, v));
        }
    }
    assert forall|u: int, w: int|
        0 <= u < nodes.len() && 0 <= w < nodes.len() && u != w && p.spec_once(
            (#[trigger] nodes[u]).file as int,
        ) implies (#[trigger] nodes[w]).file != nodes[u].file by {
        if nodes[w].file == nodes[u].file {
            if u != 0 {
                assert(node_ok(p, config, nodes, u));
            }
            if w != 0 {
                assert(node_ok(p, config, nodes, w));
            }
        }
    }
    if !g.truncated {
        assert forall|v: int| 0 <= v < nodes.len() implies #[trigger] crate::dominators::reachable(
            g.graph@,
            0,
            v as u32,
        ) by {
            lemma_every_node_reached(p, tu, g, v);
        }
    }
}

} // verus!
