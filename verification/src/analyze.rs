//! Per-TU dominator analysis and aggregation across the whole database.

use crate::dominators::{
    children_sum, climb, dominates, dominators, fill_u32, parent_earlier, reachable, rpo_sum, zeros_u64, Dominators, Graph,
    UNREACHABLE,
};
use crate::csr::zeros_u32;
use crate::project::{FileId, Project, NO_PARENT};
use crate::scan::Guard;
use crate::tugraph::{tu_graph_spec, Node, TuGraph};
use std::collections::HashMap;
use vstd::prelude::*;

pub use crate::closure::closure_weights;
pub use crate::summary::{analyze, summarize, Analysis, HeaderCost, Options};

verus! {

broadcast use vstd::std_specs::hash::group_hash_axioms;

/// Per-TU results for one file.
#[derive(Clone, Copy, Debug, Default, PartialEq, Eq)]
pub struct TuFileCost {
    pub exclusive: u64,
    pub expansions: u64,
}

/// Exclusive cost of every file in one TU, keyed by file, plus dominated
/// children `((parent file, child file), bytes)`, plus the TU's total bytes.
pub struct TuCosts {
    pub files: HashMap<FileId, TuFileCost>,
    pub children: Vec<((FileId, FileId), u64)>,
    pub total: u64,
    pub cut_cycles: Vec<(FileId, FileId)>,
    pub truncated: bool,
}

/// `x`, or `u64::MAX` when it does not fit.
pub open spec fn sat(x: int) -> int {
    if x > u64::MAX {
        u64::MAX as int
    } else {
        x
    }
}

// ---------------------------------------------------------------------------
// Positions in the dominator tree.
// ---------------------------------------------------------------------------
/// The position in `rpo` of the dominator-tree parent of `rpo[i]`.
pub open spec fn parent_pos(rpo: Seq<u32>, idom: Seq<u32>, i: int) -> int {
    choose|j: int| 0 <= j < i && rpo[j] == idom[rpo[i] as int]
}

/// An inclusion site rather than the root or a guarded file's node.
pub open spec fn is_site(nodes: Seq<Node>, v: u32) -> bool {
    nodes[v as int].parent != NO_PARENT
}

/// Some proper dominator-tree ancestor of `rpo[i]` is a site of `file`.
pub open spec fn site_above(nodes: Seq<Node>, rpo: Seq<u32>, idom: Seq<u32>, i: int, file: u32) -> bool
    decreases i,
{
    if !(0 < i < rpo.len()) {
        false
    } else {
        let j = parent_pos(rpo, idom, i);
        if !(0 <= j < i) {
            false
        } else {
            (is_site(nodes, rpo[j]) && nodes[rpo[j] as int].file == file) || site_above(
                nodes,
                rpo,
                idom,
                j,
                file,
            )
        }
    }
}

/// The site at position `i` lies inside another site of its own file, whose
/// subtree already counts it.
pub open spec fn nested_at(nodes: Seq<Node>, rpo: Seq<u32>, idom: Seq<u32>, i: int) -> bool {
    is_site(nodes, rpo[i]) && site_above(nodes, rpo, idom, i, nodes[rpo[i] as int].file)
}

/// Nodes of file `f` at positions `1..k`.
pub open spec fn expansions_upto(nodes: Seq<Node>, rpo: Seq<u32>, f: u32, k: int) -> int
    decreases k,
{
    if k <= 1 {
        0
    } else {
        expansions_upto(nodes, rpo, f, k - 1) + if nodes[rpo[k - 1] as int].file == f {
            1int
        } else {
            0int
        }
    }
}

/// Subtree bytes of the nodes of file `f` at positions `1..k` that are not
/// nested in a site of their own file.
pub open spec fn exclusive_upto(
    nodes: Seq<Node>,
    rpo: Seq<u32>,
    idom: Seq<u32>,
    sub: Seq<u64>,
    f: u32,
    k: int,
) -> int
    decreases k,
{
    if k <= 1 {
        0
    } else {
        exclusive_upto(nodes, rpo, idom, sub, f, k - 1) + if nodes[rpo[k - 1] as int].file == f
            && !nested_at(nodes, rpo, idom, k - 1) {
            sub[rpo[k - 1] as int] as int
        } else {
            0int
        }
    }
}

/// Node `rpo[i]` is a dominator-tree child of a counted node of file `f`
/// (not the root) and belongs to another file `c`.
pub open spec fn child_contrib(nodes: Seq<Node>, rpo: Seq<u32>, idom: Seq<u32>, i: int, f: u32, c: u32) -> bool {
    let j = parent_pos(rpo, idom, i);
    &&& 0 < j
    &&& !nested_at(nodes, rpo, idom, j)
    &&& nodes[rpo[j] as int].file == f
    &&& nodes[rpo[i] as int].file == c
    &&& c != f
}

/// Bytes that counted nodes of `f` carry of file `c`, over positions `1..k`.
pub open spec fn child_upto(
    nodes: Seq<Node>,
    rpo: Seq<u32>,
    idom: Seq<u32>,
    sub: Seq<u64>,
    f: u32,
    c: u32,
    k: int,
) -> int
    decreases k,
{
    if k <= 1 {
        0
    } else {
        child_upto(nodes, rpo, idom, sub, f, c, k - 1) + if child_contrib(nodes, rpo, idom, k - 1, f, c) {
            sub[rpo[k - 1] as int] as int
        } else {
            0int
        }
    }
}

/// Some position in `1..k` carries bytes of `c` for `f`.
pub open spec fn child_seen(nodes: Seq<Node>, rpo: Seq<u32>, idom: Seq<u32>, f: u32, c: u32, k: int) -> bool {
    exists|i: int| 1 <= i < k && #[trigger] child_contrib(nodes, rpo, idom, i, f, c)
}

/// The costs of a TU from its graph, its dominator tree and subtree weights:
/// each file present at a position other than the root's gets its count of
/// nodes and the subtree bytes of those not nested in a site of their own
/// file; each (file, other file) pair gets the subtree bytes of the
/// dominator-tree children of the first file's counted nodes that belong to
/// the second. Sums saturate at `u64::MAX`.
pub open spec fn costs_spec(nodes: Seq<Node>, rpo: Seq<u32>, idom: Seq<u32>, sub: Seq<u64>, c: TuCosts) -> bool {
    let n = rpo.len() as int;
    &&& c.total == sub[rpo[0] as int]
    &&& forall|f: u32| #[trigger] c.files@.contains_key(f) <==> expansions_upto(nodes, rpo, f, n) > 0
    &&& forall|f: u32|
        #[trigger] c.files@.contains_key(f) ==> c.files@[f].expansions == sat(
            expansions_upto(nodes, rpo, f, n),
        ) && c.files@[f].exclusive == sat(exclusive_upto(nodes, rpo, idom, sub, f, n))
    &&& forall|a: int, b: int|
        0 <= a < c.children@.len() && 0 <= b < c.children@.len() && a != b ==> (#[trigger] c.children@[a]).0
            != (#[trigger] c.children@[b]).0
    &&& forall|k: int|
        0 <= k < c.children@.len() ==> child_seen(nodes, rpo, idom, (#[trigger] c.children@[k]).0.0, c.children@[k].0.1, n)
            && c.children@[k].1 == sat(child_upto(nodes, rpo, idom, sub, c.children@[k].0.0, c.children@[k].0.1, n))
    &&& forall|f: u32, g: u32|
        #[trigger] child_seen(nodes, rpo, idom, f, g, n) ==> exists|k: int|
            0 <= k < c.children@.len() && (#[trigger] c.children@[k]).0 == (f, g)
}

proof fn lemma_parent_pos(rpo: Seq<u32>, idom: Seq<u32>, i: int, j: int)
    requires
        rpo.no_duplicates(),
        0 <= j < i < rpo.len(),
        rpo[j] == idom[rpo[i] as int],
    ensures
        parent_pos(rpo, idom, i) == j,
{
    let k = parent_pos(rpo, idom, i);
    assert(0 <= k < i && rpo[k] == idom[rpo[i] as int]);
}

proof fn lemma_expansions_outside(nodes: Seq<Node>, rpo: Seq<u32>, f: u32, k: int, nfiles: int)
    requires
        f >= nfiles,
        k <= rpo.len(),
        forall|i: int| 0 <= i < rpo.len() ==> #[trigger] nodes[rpo[i] as int].file < nfiles,
    ensures
        expansions_upto(nodes, rpo, f, k) == 0,
    decreases k,
{
    if k > 1 {
        lemma_expansions_outside(nodes, rpo, f, k - 1, nfiles);
        assert(nodes[rpo[k - 1] as int].file < nfiles);
    }
}

proof fn lemma_child_upto_unseen(
    nodes: Seq<Node>,
    rpo: Seq<u32>,
    idom: Seq<u32>,
    sub: Seq<u64>,
    f: u32,
    c: u32,
    k: int,
)
    requires
        !child_seen(nodes, rpo, idom, f, c, k),
    ensures
        child_upto(nodes, rpo, idom, sub, f, c, k) == 0,
    decreases k,
{
    if k > 1 {
        assert(!child_contrib(nodes, rpo, idom, k - 1, f, c));
        assert(!child_seen(nodes, rpo, idom, f, c, k - 1)) by {
            if child_seen(nodes, rpo, idom, f, c, k - 1) {
                let w = choose|w: int| 1 <= w < k - 1 && #[trigger] child_contrib(nodes, rpo, idom, w, f, c);
                assert(child_contrib(nodes, rpo, idom, w, f, c));
            }
        }
        lemma_child_upto_unseen(nodes, rpo, idom, sub, f, c, k - 1);
    }
}

/// The costs of a TU from its graph, the graph's dominator tree and the
/// subtree weights of that tree.
pub fn graph_costs(g: TuGraph, dom: &Dominators, sub: &Vec<u64>) -> (c: TuCosts)
    requires
        dom.wf(),
        dom.idom@.len() == g.nodes@.len(),
        dom.rpo@.len() >= 1,
        dom.rpo@[0] == 0,
        sub@.len() == g.nodes@.len(),
        forall|v: int| 0 <= v < g.nodes@.len() ==> (#[trigger] g.nodes@[v]).file < 0xFFFF_FFFEu32,
    ensures
        costs_spec(g.nodes@, dom.rpo@, dom.idom@, sub@, c),
        c.cut_cycles == g.cut_cycles,
        c.truncated == g.truncated,
{
    let ghost nodes = g.nodes@;
    let ghost rpo = dom.rpo@;
    let ghost idom = dom.idom@;
    let n = g.nodes.len();
    let len = dom.rpo.len();
    // position of each reached node
    let mut order = fill_u32(n, UNREACHABLE);
    let mut i: usize = 0;
    while i < len
        invariant
            dom.wf(),
            n == dom.idom@.len(),
            len == dom.rpo@.len(),
            i <= len,
            order@.len() == n,
            forall|j: int| 0 <= j < i ==> order@[#[trigger] dom.rpo@[j] as int] == j,
        decreases len - i,
    {
        let v = dom.rpo[i];
        let ghost o0 = order@;
        order.set(v as usize, i as u32);
        proof {
            assert forall|j: int| 0 <= j < i + 1 implies order@[#[trigger] dom.rpo@[j] as int] == j by {
                if j < i {
                    assert(dom.rpo@[j] != dom.rpo@[i as int]);
                    assert(order@[dom.rpo@[j] as int] == o0[dom.rpo@[j] as int]);
                }
            }
        }
        i += 1;
    }
    // which positions are sites nested in a site of their own file
    let mut nested: Vec<bool> = Vec::new();
    let mut i: usize = 0;
    while i < len
        invariant
            dom.wf(),
            nodes == g.nodes@,
            rpo == dom.rpo@,
            idom == dom.idom@,
            n == nodes.len(),
            n == idom.len(),
            len == rpo.len(),
            i <= len,
            order@.len() == n,
            forall|j: int| 0 <= j < len ==> order@[#[trigger] rpo[j] as int] == j,
            nested@.len() == i,
            forall|j: int| 0 <= j < i ==> nested@[j] == nested_at(nodes, rpo, idom, j),
        decreases len - i,
    {
        let v = dom.rpo[i];
        let mut found = false;
        if i > 0 && g.nodes[v as usize].parent != NO_PARENT {
            let file = g.nodes[v as usize].file;
            let mut j: usize = i;
            while j > 0 && !found
                invariant
                    dom.wf(),
                    nodes == g.nodes@,
                    rpo == dom.rpo@,
                    idom == dom.idom@,
                    n == nodes.len(),
                    n == idom.len(),
                    len == rpo.len(),
                    j <= i < len,
                    order@.len() == n,
                    forall|k: int| 0 <= k < len ==> order@[#[trigger] rpo[k] as int] == k,
                    site_above(nodes, rpo, idom, i as int, file) == (found || site_above(nodes, rpo, idom, j as int, file)),
                decreases j + (if found {
                    0int
                } else {
                    1int
                }),
            {
                proof {
                    assert(parent_earlier(rpo, idom, j as int));
                }
                let u = dom.rpo[j];
                let pv = dom.idom[u as usize];
                let pj = order[pv as usize] as usize;
                proof {
                    let w = choose|w: int| 0 <= w < j && rpo[w] == idom[rpo[j as int] as int];
                    assert(order@[rpo[w] as int] == w);
                    lemma_parent_pos(rpo, idom, j as int, w);
                }
                if g.nodes[pv as usize].parent != NO_PARENT && g.nodes[pv as usize].file == file {
                    found = true;
                } else {
                    j = pj;
                }
            }
        }
        nested.push(found);
        i += 1;
    }
    // per-file totals
    let mut nfiles: usize = 0;
    let mut k: usize = 0;
    while k < n
        invariant
            nodes == g.nodes@,
            n == nodes.len(),
            k <= n,
            nfiles <= 0xFFFF_FFFE,
            forall|v: int| 0 <= v < nodes.len() ==> (#[trigger] nodes[v]).file < 0xFFFF_FFFEu32,
            forall|v: int| 0 <= v < k ==> (#[trigger] nodes[v]).file < nfiles,
        decreases n - k,
    {
        if g.nodes[k].file as usize >= nfiles {
            nfiles = g.nodes[k].file as usize + 1;
        }
        k += 1;
    }
    let mut exp = zeros_u64(nfiles);
    let mut excl = zeros_u64(nfiles);
    let mut i: usize = 1;
    while i < len
        invariant
            dom.wf(),
            nodes == g.nodes@,
            rpo == dom.rpo@,
            idom == dom.idom@,
            n == nodes.len(),
            n == idom.len(),
            len == rpo.len(),
            1 <= i <= len,
            sub@.len() == n,
            nested@.len() == len,
            forall|j: int| 0 <= j < len ==> nested@[j] == nested_at(nodes, rpo, idom, j),
            nfiles <= 0xFFFF_FFFE,
            forall|v: int| 0 <= v < n ==> (#[trigger] nodes[v]).file < nfiles,
            exp@.len() == nfiles,
            excl@.len() == nfiles,
            forall|f: int| 0 <= f < nfiles ==> #[trigger] exp@[f] == sat(expansions_upto(nodes, rpo, f as u32, i as int)),
            forall|f: int| 0 <= f < nfiles ==> #[trigger] excl@[f] == sat(exclusive_upto(nodes, rpo, idom, sub@, f as u32, i as int)),
        decreases len - i,
    {
        let v = dom.rpo[i];
        let f = g.nodes[v as usize].file as usize;
        let ghost exp0 = exp@;
        let ghost excl0 = excl@;
        let e = exp[f].saturating_add(1);
        exp.set(f, e);
        if !nested[i] {
            let x = excl[f].saturating_add(sub[v as usize]);
            excl.set(f, x);
        }
        proof {
            assert(nodes[v as int].file < nfiles);
            assert forall|q: int| 0 <= q < nfiles implies #[trigger] exp@[q] == sat(
                expansions_upto(nodes, rpo, q as u32, i + 1),
            ) by {
                assert(exp0[q] == sat(expansions_upto(nodes, rpo, q as u32, i as int)));
            }
            assert forall|q: int| 0 <= q < nfiles implies #[trigger] excl@[q] == sat(
                exclusive_upto(nodes, rpo, idom, sub@, q as u32, i + 1),
            ) by {
                assert(excl0[q] == sat(exclusive_upto(nodes, rpo, idom, sub@, q as u32, i as int)));
            }
        }
        i += 1;
    }
    // dominated children of other files
    let mut children: Vec<((FileId, FileId), u64)> = Vec::new();
    let mut i: usize = 1;
    while i < len
        invariant
            dom.wf(),
            nodes == g.nodes@,
            rpo == dom.rpo@,
            idom == dom.idom@,
            n == nodes.len(),
            n == idom.len(),
            len == rpo.len(),
            1 <= i <= len,
            sub@.len() == n,
            order@.len() == n,
            forall|j: int| 0 <= j < len ==> order@[#[trigger] rpo[j] as int] == j,
            nested@.len() == len,
            forall|j: int| 0 <= j < len ==> nested@[j] == nested_at(nodes, rpo, idom, j),
            forall|a: int, b: int|
                0 <= a < children@.len() && 0 <= b < children@.len() && a != b ==> (#[trigger] children@[a]).0
                    != (#[trigger] children@[b]).0,
            forall|k: int|
                0 <= k < children@.len() ==> child_seen(nodes, rpo, idom, (#[trigger] children@[k]).0.0, children@[k].0.1, i as int)
                    && children@[k].1 == sat(child_upto(nodes, rpo, idom, sub@, children@[k].0.0, children@[k].0.1, i as int)),
            forall|f: u32, h: u32|
                #[trigger] child_seen(nodes, rpo, idom, f, h, i as int) ==> exists|k: int|
                    0 <= k < children@.len() && (#[trigger] children@[k]).0 == (f, h),
        decreases len - i,
    {
        proof {
            assert(parent_earlier(rpo, idom, i as int));
        }
        let c = dom.rpo[i];
        let pv = dom.idom[c as usize];
        let j = order[pv as usize] as usize;
        proof {
            let w = choose|w: int| 0 <= w < i && rpo[w] == idom[rpo[i as int] as int];
            assert(order@[rpo[w] as int] == w);
            lemma_parent_pos(rpo, idom, i as int, w);
        }
        let fp = g.nodes[pv as usize].file;
        let fc = g.nodes[c as usize].file;
        let ghost ch0 = children@;
        if j > 0 && !nested[j] && fp != fc {
            let mut k: usize = 0;
            let mut at: usize = children.len();
            while k < children.len()
                invariant
                    k <= children@.len(),
                    at == children@.len() || (at < k && children@[at as int].0 == (fp, fc)),
                    at == children@.len() ==> forall|m: int| 0 <= m < k ==> (#[trigger] children@[m]).0 != (fp, fc),
                decreases children@.len() - k,
            {
                if children[k].0.0 == fp && children[k].0.1 == fc {
                    at = k;
                }
                k += 1;
            }
            let add = sub[c as usize];
            if at < children.len() {
                let b = children[at].1.saturating_add(add);
                children.set(at, ((fp, fc), b));
            } else {
                children.push(((fp, fc), add));
            }
            proof {
                assert(child_contrib(nodes, rpo, idom, i as int, fp, fc));
                assert forall|a: int, b: int|
                    0 <= a < children@.len() && 0 <= b < children@.len() && a != b implies (#[trigger] children@[a]).0
                        != (#[trigger] children@[b]).0 by {
                    if a < ch0.len() && b < ch0.len() {
                        assert(children@[a].0 == ch0[a].0);
                        assert(children@[b].0 == ch0[b].0);
                    }
                }
                assert forall|k: int| 0 <= k < children@.len() implies child_seen(
                    nodes,
                    rpo,
                    idom,
                    (#[trigger] children@[k]).0.0,
                    children@[k].0.1,
                    i + 1,
                ) && children@[k].1 == sat(
                    child_upto(nodes, rpo, idom, sub@, children@[k].0.0, children@[k].0.1, i + 1),
                ) by {
                    let key = children@[k].0;
                    if key == (fp, fc) {
                        assert(child_contrib(nodes, rpo, idom, i as int, key.0, key.1));
                        if k < ch0.len() {
                            assert(k == at);
                            assert(child_seen(nodes, rpo, idom, key.0, key.1, i as int));
                        } else {
                            assert(!child_seen(nodes, rpo, idom, key.0, key.1, i as int)) by {
                                if child_seen(nodes, rpo, idom, key.0, key.1, i as int) {
                                    let m = choose|m: int| 0 <= m < ch0.len() && (#[trigger] ch0[m]).0 == (key.0, key.1);
                                    assert(ch0[m].0 == (fp, fc));
                                }
                            }
                            lemma_child_upto_unseen(nodes, rpo, idom, sub@, key.0, key.1, i as int);
                        }
                    } else {
                        assert(children@[k] == ch0[k]);
                        assert(child_seen(nodes, rpo, idom, key.0, key.1, i as int));
                        let w = choose|w: int| 1 <= w < i && #[trigger] child_contrib(nodes, rpo, idom, w, key.0, key.1);
                        assert(child_contrib(nodes, rpo, idom, w, key.0, key.1));
                    }
                }
                assert forall|f: u32, h: u32| #[trigger] child_seen(nodes, rpo, idom, f, h, i + 1) implies exists|k: int|
                    0 <= k < children@.len() && (#[trigger] children@[k]).0 == (f, h) by {
                    if (f, h) == (fp, fc) {
                        if at < ch0.len() {
                            assert(children@[at as int].0 == (f, h));
                        } else {
                            assert(children@[ch0.len() as int].0 == (f, h));
                        }
                    } else {
                        let w = choose|w: int| 1 <= w < i + 1 && #[trigger] child_contrib(nodes, rpo, idom, w, f, h);
                        assert(w != i);
                        assert(child_seen(nodes, rpo, idom, f, h, i as int));
                        let k = choose|k: int| 0 <= k < ch0.len() && (#[trigger] ch0[k]).0 == (f, h);
                        assert(children@[k].0 == (f, h));
                    }
                }
            }
        } else {
            proof {
                assert forall|f: u32, h: u32| !child_contrib(nodes, rpo, idom, i as int, f, h) by {}
                assert forall|k: int| 0 <= k < children@.len() implies child_seen(
                    nodes,
                    rpo,
                    idom,
                    (#[trigger] children@[k]).0.0,
                    children@[k].0.1,
                    i + 1,
                ) && children@[k].1 == sat(
                    child_upto(nodes, rpo, idom, sub@, children@[k].0.0, children@[k].0.1, i + 1),
                ) by {
                    let key = children@[k].0;
                    assert(child_seen(nodes, rpo, idom, key.0, key.1, i as int));
                    let w = choose|w: int| 1 <= w < i && #[trigger] child_contrib(nodes, rpo, idom, w, key.0, key.1);
                    assert(child_contrib(nodes, rpo, idom, w, key.0, key.1));
                }
                assert forall|f: u32, h: u32| #[trigger] child_seen(nodes, rpo, idom, f, h, i + 1) implies exists|k: int|
                    0 <= k < children@.len() && (#[trigger] children@[k]).0 == (f, h) by {
                    let w = choose|w: int| 1 <= w < i + 1 && #[trigger] child_contrib(nodes, rpo, idom, w, f, h);
                    assert(w != i);
                    assert(child_seen(nodes, rpo, idom, f, h, i as int));
                }
            }
        }
        i += 1;
    }
    // the per-file map
    let mut files: HashMap<FileId, TuFileCost> = HashMap::new();
    let mut f: usize = 0;
    while f < nfiles
        invariant
            nodes == g.nodes@,
            rpo == dom.rpo@,
            idom == dom.idom@,
            len == rpo.len(),
            f <= nfiles,
            nfiles <= 0xFFFF_FFFE,
            exp@.len() == nfiles,
            excl@.len() == nfiles,
            forall|q: int| 0 <= q < nfiles ==> #[trigger] exp@[q] == sat(expansions_upto(nodes, rpo, q as u32, len as int)),
            forall|q: int| 0 <= q < nfiles ==> #[trigger] excl@[q] == sat(exclusive_upto(nodes, rpo, idom, sub@, q as u32, len as int)),
            forall|q: u32| #[trigger] files@.contains_key(q) ==> q < f && expansions_upto(nodes, rpo, q, len as int) > 0
                && files@[q].expansions == sat(expansions_upto(nodes, rpo, q, len as int))
                && files@[q].exclusive == sat(exclusive_upto(nodes, rpo, idom, sub@, q, len as int)),
            forall|q: u32| q < f && expansions_upto(nodes, rpo, q, len as int) > 0 ==> #[trigger] files@.contains_key(q),
        decreases nfiles - f,
    {
        if exp[f] > 0 {
            files.insert(f as u32, TuFileCost { exclusive: excl[f], expansions: exp[f] });
        }
        f += 1;
    }
    proof {
        assert forall|q: u32| #[trigger] files@.contains_key(q) <== expansions_upto(nodes, rpo, q, len as int) > 0 by {
            if q >= nfiles {
                lemma_expansions_outside(nodes, rpo, q, len as int, nfiles as int);
            }
        }
    }
    TuCosts { files, children, total: sub[dom.rpo[0] as usize], cut_cycles: g.cut_cycles, truncated: g.truncated }
}

/// What `dominators` guarantees of `d` for a graph with adjacency `gv` on `n`
/// nodes: a well-formed tree in reverse postorder of exactly the reachable
/// nodes, each hung under a node that dominates it, whose ancestors of each
/// reachable node are exactly its dominators.
pub open spec fn dominator_tree(gv: Seq<Seq<u32>>, n: nat, root: u32, d: Dominators) -> bool {
    &&& d.wf()
    &&& d.idom@.len() == n
    &&& n > 0 ==> d.rpo@.len() > 0 && d.rpo@[0] == root && d.idom@[root as int] == root
    &&& forall|v: u32| v < n ==> (d.rpo@.contains(v) <==> reachable(gv, root, v))
    &&& forall|v: u32| v < n ==> (#[trigger] d.idom@[v as int] == UNREACHABLE <==> !reachable(gv, root, v))
    &&& forall|v: u32|
        v < n && v != root && #[trigger] reachable(gv, root, v) ==> d.idom@[v as int] != v && d.idom@[v as int]
            < n && dominates(gv, root, d.idom@[v as int], v)
    &&& forall|v: u32, a: u32|
        v < n && reachable(gv, root, v) ==> (#[trigger] dominates(gv, root, a, v) <==> exists|k: nat|
            climb(d.idom@, v, k) == a)
}

/// What `subtree_weights` guarantees: each reached node weighs its own
/// weight plus its dominator-tree children's totals; the others weigh 0.
pub open spec fn subtree_ok(d: Dominators, weights: Seq<u64>, sub: Seq<u64>) -> bool {
    &&& sub.len() == d.idom@.len()
    &&& forall|i: int|
        0 <= i < d.rpo@.len() ==> #[trigger] sub[d.rpo@[i] as int] == weights[d.rpo@[i] as int] + children_sum(
            d.rpo@,
            d.idom@,
            sub,
            d.rpo@[i],
            1,
        )
    &&& forall|v: int| 0 <= v < d.idom@.len() && !d.rpo@.contains(v as u32) ==> #[trigger] sub[v] == 0
}

/// `c` is the cost table of TU `tu` of `p` for graph `g`, its dominator tree
/// `d` and subtree weights `sub`; when the TU's total would not fit a `u64`,
/// the table is empty and marked truncated.
pub open spec fn costs_basis(p: Project, tu: int, g: TuGraph, d: Dominators, sub: Seq<u64>, c: TuCosts) -> bool {
    &&& tu_graph_spec(p, tu, g)
    &&& dominator_tree(g.graph@, g.nodes@.len(), 0, d)
    &&& c.cut_cycles == g.cut_cycles
    &&& if rpo_sum(d.rpo@, g.weights@, d.rpo@.len() as int) <= u64::MAX {
        &&& subtree_ok(d, g.weights@, sub)
        &&& costs_spec(g.nodes@, d.rpo@, d.idom@, sub, c)
        &&& c.truncated == g.truncated
    } else {
        &&& c.truncated
        &&& c.files@ == Map::<FileId, TuFileCost>::empty()
        &&& c.children@.len() == 0
        &&& c.total == u64::MAX
    }
}

/// The cost table of one TU.
#[verifier::loop_isolation(false)]
pub fn tu_costs(project: &Project, tu: usize) -> (c: TuCosts)
    requires
        project.wf(),
        tu < project.tus@.len(),
    ensures
        exists|g: TuGraph, d: Dominators, sub: Seq<u64>| #[trigger] costs_basis(*project, tu as int, g, d, sub, c),
{
    let g = project.tu_graph(tu);
    let dom = dominators(&g.graph, 0);
    let ghost gg = g;
    let len = dom.rpo.len();
    let mut total: u64 = 0;
    let mut k: usize = 0;
    proof {
        assert(g.nodes@.len() >= 1);
    }
    while k < len
        invariant
            len == dom.rpo@.len(),
            dom.wf(),
            dom.idom@.len() == g.weights@.len(),
            k <= len,
            total == rpo_sum(dom.rpo@, g.weights@, k as int),
        decreases len - k,
    {
        let w = g.weights[dom.rpo[k] as usize];
        match total.checked_add(w) {
            Some(t) => total = t,
            None => {
                proof {
                    lemma_rpo_sum_mono(dom.rpo@, g.weights@, k + 1, len as int);
                }
                let c = TuCosts {
                    files: HashMap::new(),
                    children: Vec::new(),
                    total: u64::MAX,
                    cut_cycles: g.cut_cycles,
                    truncated: true,
                };
                proof {
                    assert(c.files@ =~= Map::<FileId, TuFileCost>::empty());
                    assert(rpo_sum(dom.rpo@, g.weights@, k + 1) > u64::MAX);
                    assert(rpo_sum(dom.rpo@, gg.weights@, len as int) > u64::MAX);
                    assert(tu_graph_spec(*project, tu as int, gg));
                    assert(dominator_tree(gg.graph@, gg.nodes@.len(), 0, dom));
                    assert(c.cut_cycles == gg.cut_cycles);
                    assert(costs_basis(*project, tu as int, gg, dom, Seq::empty(), c));
                }
                return c;
            },
        }
        k += 1;
    }
    let sub = dom.subtree_weights(g.weights.as_slice());
    let ghost sv = sub@;
    proof {
        assert forall|v: int| 0 <= v < g.nodes@.len() implies (#[trigger] g.nodes@[v]).file < 0xFFFF_FFFEu32 by {
            assert(g.nodes@[v].file < project.paths@.len());
        }
    }
    let c = graph_costs(g, &dom, &sub);
    proof {
        assert(costs_basis(*project, tu as int, gg, dom, sv, c));
    }
    c
}

/// A TU's cost table names only files of the project, each pair of files once.
pub proof fn lemma_costs_bounded(p: Project, tu: int, g: TuGraph, d: Dominators, sub: Seq<u64>, c: TuCosts)
    requires
        p.wf(),
        0 <= tu < p.tus@.len(),
        costs_basis(p, tu, g, d, sub, c),
    ensures
        forall|f: u32| #[trigger] c.files@.contains_key(f) ==> f < p.paths@.len(),
        keys_unique(c.children@),
{
    if rpo_sum(d.rpo@, g.weights@, d.rpo@.len() as int) <= u64::MAX {
        assert forall|f: u32| #[trigger] c.files@.contains_key(f) implies f < p.paths@.len() by {
            if f >= p.paths@.len() {
                assert forall|i: int| 0 <= i < d.rpo@.len() implies #[trigger] g.nodes@[d.rpo@[i] as int].file < p.paths@.len() by {
                    assert(d.rpo@[i] < d.idom@.len());
                    assert(g.nodes@[d.rpo@[i] as int].file < p.paths@.len());
                }
                lemma_expansions_outside(g.nodes@, d.rpo@, f, d.rpo@.len() as int, p.paths@.len() as int);
            }
        }
    }
}

proof fn lemma_rpo_sum_mono(rpo: Seq<u32>, vals: Seq<u64>, a: int, b: int)
    requires
        0 <= a <= b,
    ensures
        rpo_sum(rpo, vals, a) <= rpo_sum(rpo, vals, b),
    decreases b - a,
{
    if a < b {
        lemma_rpo_sum_mono(rpo, vals, a, b - 1);
    }
}

// ---------------------------------------------------------------------------
// Accumulating over TUs.
// ---------------------------------------------------------------------------
/// Running totals over the TUs analyzed so far, per file id and per config.
pub struct Accum {
    pub exclusive: Vec<u64>,
    pub expansions: Vec<u64>,
    /// Per config, per file: the number of TUs that expand the file.
    pub presence: Vec<Vec<u32>>,
    pub children: Vec<((FileId, FileId), u64)>,
    pub total: u64,
    pub cycles: Vec<(FileId, FileId)>,
    pub truncated: usize,
}

/// `x`, or `u32::MAX` when it does not fit.
pub open spec fn sat32(x: int) -> int {
    if x > u32::MAX {
        u32::MAX as int
    } else {
        x
    }
}

/// `x`, or `usize::MAX` when it does not fit.
pub open spec fn sat_usize(x: int) -> int {
    if x > usize::MAX {
        usize::MAX as int
    } else {
        x
    }
}

/// The entry of `key` in a list of keyed byte counts, 0 when absent.
pub open spec fn keyed(list: Seq<((FileId, FileId), u64)>, key: (FileId, FileId)) -> int {
    if exists|k: int| 0 <= k < list.len() && (#[trigger] list[k]).0 == key {
        list[choose|k: int| 0 <= k < list.len() && (#[trigger] list[k]).0 == key].1 as int
    } else {
        0
    }
}

/// Each key occurs once.
pub open spec fn keys_unique(list: Seq<((FileId, FileId), u64)>) -> bool {
    forall|a: int, b: int|
        0 <= a < list.len() && 0 <= b < list.len() && a != b ==> (#[trigger] list[a]).0 != (#[trigger] list[b]).0
}

/// Some entry has the key.
pub open spec fn has_key(list: Seq<((FileId, FileId), u64)>, key: (FileId, FileId)) -> bool {
    exists|k: int| 0 <= k < list.len() && (#[trigger] list[k]).0 == key
}

pub(crate) proof fn lemma_keyed_at(list: Seq<((FileId, FileId), u64)>, k: int)
    requires
        keys_unique(list),
        0 <= k < list.len(),
    ensures
        keyed(list, list[k].0) == list[k].1,
        has_key(list, list[k].0),
{
    let key = list[k].0;
    assert(exists|j: int| 0 <= j < list.len() && (#[trigger] list[j]).0 == key);
    let j = choose|j: int| 0 <= j < list.len() && (#[trigger] list[j]).0 == key;
    if j != k {
        assert(list[j].0 != list[k].0);
    }
}

proof fn lemma_keyed_push(list: Seq<((FileId, FileId), u64)>, e: ((FileId, FileId), u64), key: (FileId, FileId))
    requires
        keys_unique(list.push(e)),
    ensures
        keyed(list.push(e), key) == (if key == e.0 {
            e.1 as int
        } else {
            keyed(list, key)
        }),
        has_key(list.push(e), key) == (has_key(list, key) || key == e.0),
        keys_unique(list),
{
    let l1 = list.push(e);
    assert forall|a: int, b: int| 0 <= a < list.len() && 0 <= b < list.len() && a != b implies (#[trigger] list[a]).0
        != (#[trigger] list[b]).0 by {
        assert(l1[a] == list[a]);
        assert(l1[b] == list[b]);
    }
    lemma_keyed_at(l1, list.len() as int);
    if has_key(list, key) {
        let j = choose|j: int| 0 <= j < list.len() && (#[trigger] list[j]).0 == key;
        assert(l1[j] == list[j]);
        lemma_keyed_at(l1, j);
        lemma_keyed_at(list, j);
    }
    if has_key(l1, key) {
        let j = choose|j: int| 0 <= j < l1.len() && (#[trigger] l1[j]).0 == key;
        if j < list.len() {
            assert(l1[j] == list[j]);
        }
    }
}

/// What a TU's table adds for file `f`: exclusive bytes.
pub open spec fn file_ex(c: TuCosts, f: u32) -> int {
    if c.files@.contains_key(f) {
        c.files@[f].exclusive as int
    } else {
        0
    }
}

/// What a TU's table adds for file `f`: expansions.
pub open spec fn file_exp(c: TuCosts, f: u32) -> int {
    if c.files@.contains_key(f) {
        c.files@[f].expansions as int
    } else {
        0
    }
}

impl Accum {
    /// Sized for `nfiles` file ids and `nconfigs` configs.
    pub open spec fn shaped(&self, nfiles: nat, nconfigs: nat) -> bool {
        &&& self.exclusive@.len() == nfiles
        &&& self.expansions@.len() == nfiles
        &&& self.presence@.len() == nconfigs
        &&& forall|c: int| 0 <= c < nconfigs ==> (#[trigger] self.presence@[c])@.len() == nfiles
        &&& keys_unique(self.children@)
    }

    /// All zero, for `nfiles` file ids and `nconfigs` configs.
    pub fn new(nfiles: usize, nconfigs: usize) -> (a: Accum)
        ensures
            a.shaped(nfiles as nat, nconfigs as nat),
            forall|f: int| 0 <= f < nfiles ==> a.exclusive@[f] == 0 && a.expansions@[f] == 0,
            forall|c: int, f: int| 0 <= c < nconfigs && 0 <= f < nfiles ==> #[trigger] a.presence@[c]@[f] == 0,
            a.children@.len() == 0,
            a.total == 0,
            a.cycles@.len() == 0,
            a.truncated == 0,
    {
        let mut presence: Vec<Vec<u32>> = Vec::new();
        let mut c: usize = 0;
        while c < nconfigs
            invariant
                c <= nconfigs,
                presence@.len() == c,
                forall|k: int| 0 <= k < c ==> (#[trigger] presence@[k])@.len() == nfiles,
                forall|k: int, f: int| 0 <= k < c && 0 <= f < nfiles ==> #[trigger] presence@[k]@[f] == 0,
            decreases nconfigs - c,
        {
            presence.push(zeros_u32(nfiles));
            c += 1;
        }
        Accum {
            exclusive: zeros_u64(nfiles),
            expansions: zeros_u64(nfiles),
            presence,
            children: Vec::new(),
            total: 0,
            cycles: Vec::new(),
            truncated: 0,
        }
    }

    /// Adds the cost table of one TU analyzed under `config`.
    pub fn add(&mut self, config: u32, c: TuCosts)
        requires
            old(self).shaped(old(self).exclusive@.len(), old(self).presence@.len()),
            old(self).exclusive@.len() <= u32::MAX,
            config < old(self).presence@.len(),
            forall|f: u32| #[trigger] c.files@.contains_key(f) ==> f < old(self).exclusive@.len(),
            keys_unique(c.children@),
        ensures
            final(self).shaped(old(self).exclusive@.len(), old(self).presence@.len()),
            forall|f: int|
                0 <= f < old(self).exclusive@.len() ==> #[trigger] final(self).exclusive@[f] == sat(
                    old(self).exclusive@[f] + file_ex(c, f as u32),
                ),
            forall|f: int|
                0 <= f < old(self).exclusive@.len() ==> #[trigger] final(self).expansions@[f] == sat(
                    old(self).expansions@[f] + file_exp(c, f as u32),
                ),
            forall|cc: int, f: int|
                0 <= cc < old(self).presence@.len() && 0 <= f < old(self).exclusive@.len()
                    ==> #[trigger] final(self).presence@[cc]@[f] == (if cc == config && c.files@.contains_key(f as u32) {
                    sat32(old(self).presence@[cc]@[f] + 1)
                } else {
                    old(self).presence@[cc]@[f] as int
                }),
            forall|k: (FileId, FileId)|
                #[trigger] has_key(final(self).children@, k) == (has_key(old(self).children@, k) || has_key(
                    c.children@,
                    k,
                )),
            forall|k: (FileId, FileId)|
                #[trigger] keyed(final(self).children@, k) == (if has_key(c.children@, k) {
                    sat(keyed(old(self).children@, k) + keyed(c.children@, k))
                } else {
                    keyed(old(self).children@, k)
                }),
            final(self).total == sat(old(self).total + c.total),
            final(self).cycles@ == old(self).cycles@ + c.cut_cycles@,
            final(self).truncated == sat_usize(old(self).truncated + if c.truncated {
                1int
            } else {
                0int
            }),
    {
        let nfiles = self.exclusive.len();
        let ghost nconfigs = self.presence@.len();
        let ghost a0 = *self;
        let mut f: usize = 0;
        while f < nfiles
            invariant
                nfiles == a0.exclusive@.len(),
                nfiles <= u32::MAX,
                nconfigs == a0.presence@.len(),
                config < nconfigs,
                f <= nfiles,
                self.shaped(nfiles as nat, nconfigs),
                self.children == a0.children,
                self.total == a0.total,
                self.cycles == a0.cycles,
                self.truncated == a0.truncated,
                forall|q: int|
                    0 <= q < nfiles ==> #[trigger] self.exclusive@[q] == (if q < f {
                        sat(a0.exclusive@[q] + file_ex(c, q as u32))
                    } else {
                        a0.exclusive@[q] as int
                    }),
                forall|q: int|
                    0 <= q < nfiles ==> #[trigger] self.expansions@[q] == (if q < f {
                        sat(a0.expansions@[q] + file_exp(c, q as u32))
                    } else {
                        a0.expansions@[q] as int
                    }),
                forall|cc: int, q: int|
                    0 <= cc < nconfigs && 0 <= q < nfiles ==> #[trigger] self.presence@[cc]@[q] == (if cc == config
                        && q < f && c.files@.contains_key(q as u32) {
                        sat32(a0.presence@[cc]@[q] + 1)
                    } else {
                        a0.presence@[cc]@[q] as int
                    }),
            decreases nfiles - f,
        {
            match c.files.get(&(f as u32)) {
                Some(fc) => {
                    let x = self.exclusive[f].saturating_add(fc.exclusive);
                    self.exclusive.set(f, x);
                    let y = self.expansions[f].saturating_add(fc.expansions);
                    self.expansions.set(f, y);
                    let mut row: Vec<u32> = Vec::new();
                    std::mem::swap(&mut row, &mut self.presence[config as usize]);
                    let z = row[f].saturating_add(1);
                    row.set(f, z);
                    std::mem::swap(&mut row, &mut self.presence[config as usize]);
                },
                None => {},
            }
            f += 1;
        }
        let ghost a1 = *self;
        assert(forall|q: int|
            0 <= q < nfiles ==> #[trigger] self.exclusive@[q] == sat(a0.exclusive@[q] + file_ex(c, q as u32)));
        assert(forall|q: int|
            0 <= q < nfiles ==> #[trigger] self.expansions@[q] == sat(a0.expansions@[q] + file_exp(c, q as u32)));
        let mut k: usize = 0;
        while k < c.children.len()
            invariant
                k <= c.children@.len(),
                keys_unique(c.children@),
                self.exclusive == a1.exclusive,
                self.expansions == a1.expansions,
                self.presence == a1.presence,
                self.shaped(nfiles as nat, nconfigs),
                self.exclusive@.len() == nfiles,
                self.total == a0.total,
                self.cycles == a0.cycles,
                self.truncated == a0.truncated,
                forall|q: (FileId, FileId)|
                    #[trigger] has_key(self.children@, q) == (has_key(a0.children@, q) || has_key(
                        c.children@.take(k as int),
                        q,
                    )),
                forall|q: (FileId, FileId)|
                    #[trigger] keyed(self.children@, q) == (if has_key(c.children@.take(k as int), q) {
                        sat(keyed(a0.children@, q) + keyed(c.children@.take(k as int), q))
                    } else {
                        keyed(a0.children@, q)
                    }),
            decreases c.children@.len() - k,
        {
            let e = c.children[k];
            proof {
                assert(c.children@.take(k as int + 1) == c.children@.take(k as int).push(e));
                assert(keys_unique(c.children@.take(k as int + 1))) by {
                    let t = c.children@.take(k as int + 1);
                    assert forall|a: int, b: int| 0 <= a < t.len() && 0 <= b < t.len() && a != b implies (#[trigger] t[a]).0
                        != (#[trigger] t[b]).0 by {
                        assert(t[a] == c.children@[a]);
                        assert(t[b] == c.children@[b]);
                    }
                }
            }
            let ghost before = self.children@;
            self.bump_child(e.0, e.1);
            proof {
                assert forall|q: (FileId, FileId)| true implies keyed(c.children@.take(k as int + 1), q) == (if q == e.0 {
                    e.1 as int
                } else {
                    keyed(c.children@.take(k as int), q)
                }) && has_key(c.children@.take(k as int + 1), q) == (has_key(c.children@.take(k as int), q)
                    || q == e.0) by {
                    lemma_keyed_push(c.children@.take(k as int), e, q);
                }
                assert(!has_key(c.children@.take(k as int), e.0)) by {
                    if has_key(c.children@.take(k as int), e.0) {
                        let j = choose|j: int| 0 <= j < k && (#[trigger] c.children@.take(k as int)[j]).0 == e.0;
                        assert(c.children@[j].0 == c.children@[k as int].0);
                    }
                }
            }
            k += 1;
        }
        proof {
            assert(c.children@.take(c.children@.len() as int) =~= c.children@);
        }
        self.total = self.total.saturating_add(c.total);
        let mut cy = c.cut_cycles;
        self.cycles.append(&mut cy);
        if c.truncated {
            self.truncated = self.truncated.saturating_add(1);
        }
    }

    /// Adds the totals of `other`, gathered over other TUs.
    pub fn merge(&mut self, other: Accum)
        requires
            old(self).shaped(old(self).exclusive@.len(), old(self).presence@.len()),
            other.shaped(old(self).exclusive@.len(), old(self).presence@.len()),
        ensures
            final(self).shaped(old(self).exclusive@.len(), old(self).presence@.len()),
            forall|f: int|
                0 <= f < old(self).exclusive@.len() ==> #[trigger] final(self).exclusive@[f] == sat(
                    old(self).exclusive@[f] + other.exclusive@[f],
                ),
            forall|f: int|
                0 <= f < old(self).exclusive@.len() ==> #[trigger] final(self).expansions@[f] == sat(
                    old(self).expansions@[f] + other.expansions@[f],
                ),
            forall|cc: int, f: int|
                0 <= cc < old(self).presence@.len() && 0 <= f < old(self).exclusive@.len()
                    ==> #[trigger] final(self).presence@[cc]@[f] == sat32(old(self).presence@[cc]@[f] + other.presence@[cc]@[f]),
            forall|k: (FileId, FileId)|
                #[trigger] has_key(final(self).children@, k) == (has_key(old(self).children@, k) || has_key(
                    other.children@,
                    k,
                )),
            forall|k: (FileId, FileId)|
                #[trigger] keyed(final(self).children@, k) == (if has_key(other.children@, k) {
                    sat(keyed(old(self).children@, k) + keyed(other.children@, k))
                } else {
                    keyed(old(self).children@, k)
                }),
            final(self).total == sat(old(self).total + other.total),
            final(self).cycles@ == old(self).cycles@ + other.cycles@,
            final(self).truncated == sat_usize(old(self).truncated + other.truncated),
    {
        let nfiles = self.exclusive.len();
        let nconfigs = self.presence.len();
        let ghost a0 = *self;
        let mut f: usize = 0;
        while f < nfiles
            invariant
                nfiles == a0.exclusive@.len(),
                nconfigs == a0.presence@.len(),
                other.shaped(nfiles as nat, nconfigs as nat),
                f <= nfiles,
                self.shaped(nfiles as nat, nconfigs as nat),
                self.presence == a0.presence,
                self.children == a0.children,
                self.total == a0.total,
                self.cycles == a0.cycles,
                self.truncated == a0.truncated,
                forall|q: int|
                    0 <= q < nfiles ==> #[trigger] self.exclusive@[q] == (if q < f {
                        sat(a0.exclusive@[q] + other.exclusive@[q])
                    } else {
                        a0.exclusive@[q] as int
                    }),
                forall|q: int|
                    0 <= q < nfiles ==> #[trigger] self.expansions@[q] == (if q < f {
                        sat(a0.expansions@[q] + other.expansions@[q])
                    } else {
                        a0.expansions@[q] as int
                    }),
            decreases nfiles - f,
        {
            let x = self.exclusive[f].saturating_add(other.exclusive[f]);
            self.exclusive.set(f, x);
            let y = self.expansions[f].saturating_add(other.expansions[f]);
            self.expansions.set(f, y);
            f += 1;
        }
        let mut cfg: usize = 0;
        while cfg < nconfigs
            invariant
                nfiles == a0.exclusive@.len(),
                nconfigs == a0.presence@.len(),
                other.shaped(nfiles as nat, nconfigs as nat),
                cfg <= nconfigs,
                self.shaped(nfiles as nat, nconfigs as nat),
                self.children == a0.children,
                self.total == a0.total,
                self.cycles == a0.cycles,
                self.truncated == a0.truncated,
                forall|q: int|
                    0 <= q < nfiles ==> #[trigger] self.exclusive@[q] == sat(a0.exclusive@[q] + other.exclusive@[q]),
                forall|q: int|
                    0 <= q < nfiles ==> #[trigger] self.expansions@[q] == sat(a0.expansions@[q] + other.expansions@[q]),
                forall|cc: int, q: int|
                    0 <= cc < nconfigs && 0 <= q < nfiles ==> #[trigger] self.presence@[cc]@[q] == (if cc < cfg {
                        sat32(a0.presence@[cc]@[q] + other.presence@[cc]@[q])
                    } else {
                        a0.presence@[cc]@[q] as int
                    }),
            decreases nconfigs - cfg,
        {
            let mut row: Vec<u32> = Vec::new();
            std::mem::swap(&mut row, &mut self.presence[cfg]);
            let ghost r0 = row@;
            let mut q: usize = 0;
            while q < nfiles
                invariant
                    nfiles == a0.exclusive@.len(),
                    cfg < nconfigs,
                    other.shaped(nfiles as nat, nconfigs as nat),
                    row@.len() == nfiles,
                    q <= nfiles,
                    forall|j: int| 0 <= j < nfiles ==> #[trigger] row@[j] == (if j < q {
                        sat32(r0[j] + other.presence@[cfg as int]@[j])
                    } else {
                        r0[j] as int
                    }),
                decreases nfiles - q,
            {
                let z = row[q].saturating_add(other.presence[cfg][q]);
                row.set(q, z);
                q += 1;
            }
            std::mem::swap(&mut row, &mut self.presence[cfg]);
            cfg += 1;
        }
        let ghost a1 = *self;
        let mut k: usize = 0;
        while k < other.children.len()
            invariant
                k <= other.children@.len(),
                keys_unique(other.children@),
                self.shaped(nfiles as nat, nconfigs as nat),
                self.exclusive == a1.exclusive,
                self.expansions == a1.expansions,
                self.presence == a1.presence,
                self.total == a0.total,
                self.cycles == a0.cycles,
                self.truncated == a0.truncated,
                forall|q: (FileId, FileId)|
                    #[trigger] has_key(self.children@, q) == (has_key(a0.children@, q) || has_key(
                        other.children@.take(k as int),
                        q,
                    )),
                forall|q: (FileId, FileId)|
                    #[trigger] keyed(self.children@, q) == (if has_key(other.children@.take(k as int), q) {
                        sat(keyed(a0.children@, q) + keyed(other.children@.take(k as int), q))
                    } else {
                        keyed(a0.children@, q)
                    }),
            decreases other.children@.len() - k,
        {
            let e = other.children[k];
            proof {
                assert(other.children@.take(k as int + 1) == other.children@.take(k as int).push(e));
                assert(keys_unique(other.children@.take(k as int + 1))) by {
                    let t = other.children@.take(k as int + 1);
                    assert forall|a: int, b: int| 0 <= a < t.len() && 0 <= b < t.len() && a != b implies (#[trigger] t[a]).0
                        != (#[trigger] t[b]).0 by {
                        assert(t[a] == other.children@[a]);
                        assert(t[b] == other.children@[b]);
                    }
                }
            }
            self.bump_child(e.0, e.1);
            proof {
                assert forall|q: (FileId, FileId)| true implies keyed(other.children@.take(k as int + 1), q) == (if q
                    == e.0 {
                    e.1 as int
                } else {
                    keyed(other.children@.take(k as int), q)
                }) && has_key(other.children@.take(k as int + 1), q) == (has_key(other.children@.take(k as int), q)
                    || q == e.0) by {
                    lemma_keyed_push(other.children@.take(k as int), e, q);
                }
                assert(!has_key(other.children@.take(k as int), e.0)) by {
                    if has_key(other.children@.take(k as int), e.0) {
                        let j = choose|j: int| 0 <= j < k && (#[trigger] other.children@.take(k as int)[j]).0 == e.0;
                        assert(other.children@[j].0 == other.children@[k as int].0);
                    }
                }
            }
            k += 1;
        }
        proof {
            assert(other.children@.take(other.children@.len() as int) =~= other.children@);
        }
        self.total = self.total.saturating_add(other.total);
        let mut cy = other.cycles;
        self.cycles.append(&mut cy);
        self.truncated = self.truncated.saturating_add(other.truncated);
    }

    /// Adds `bytes` to the entry of `key`, creating it when absent.
    fn bump_child(&mut self, key: (FileId, FileId), bytes: u64)
        requires
            keys_unique(old(self).children@),
        ensures
            keys_unique(final(self).children@),
            forall|k: (FileId, FileId)| #[trigger] has_key(final(self).children@, k) == (has_key(old(self).children@, k) || k == key),
            forall|k: (FileId, FileId)|
                #[trigger] keyed(final(self).children@, k) == (if k == key {
                    sat(keyed(old(self).children@, k) + bytes)
                } else {
                    keyed(old(self).children@, k)
                }),
            final(self).exclusive == old(self).exclusive,
            final(self).expansions == old(self).expansions,
            final(self).presence == old(self).presence,
            final(self).total == old(self).total,
            final(self).cycles == old(self).cycles,
            final(self).truncated == old(self).truncated,
    {
        let ghost l0 = self.children@;
        let mut k: usize = 0;
        let mut at: usize = self.children.len();
        while k < self.children.len()
            invariant
                l0 == self.children@,
                k <= l0.len(),
                at == l0.len() || (at < k && l0[at as int].0 == key),
                at == l0.len() ==> forall|m: int| 0 <= m < k ==> (#[trigger] l0[m]).0 != key,
            decreases l0.len() - k,
        {
            if self.children[k].0.0 == key.0 && self.children[k].0.1 == key.1 {
                at = k;
            }
            k += 1;
        }
        if at < self.children.len() {
            let b = self.children[at].1.saturating_add(bytes);
            self.children.set(at, (key, b));
        } else {
            self.children.push((key, bytes));
        }
        proof {
            let l1 = self.children@;
            assert(keys_unique(l1)) by {
                assert forall|a: int, b: int|
                    0 <= a < l1.len() && 0 <= b < l1.len() && a != b implies (#[trigger] l1[a]).0 != (#[trigger] l1[b]).0 by {
                    if a < l0.len() && b < l0.len() {
                        assert(l1[a].0 == l0[a].0);
                        assert(l1[b].0 == l0[b].0);
                    }
                }
            }
            assert forall|q: (FileId, FileId)| #[trigger] has_key(l1, q) == (has_key(l0, q) || q == key) by {
                if has_key(l1, q) {
                    let j = choose|j: int| 0 <= j < l1.len() && (#[trigger] l1[j]).0 == q;
                    if j < l0.len() && q != key {
                        assert(l0[j].0 == q);
                    }
                }
                if has_key(l0, q) {
                    let j = choose|j: int| 0 <= j < l0.len() && (#[trigger] l0[j]).0 == q;
                    assert(l1[j].0 == q);
                }
                if q == key {
                    if at < l0.len() {
                        assert(l1[at as int].0 == q);
                    } else {
                        assert(l1[l0.len() as int].0 == q);
                    }
                }
            }
            assert forall|q: (FileId, FileId)| #[trigger] keyed(l1, q) == (if q == key {
                sat(keyed(l0, q) + bytes)
            } else {
                keyed(l0, q)
            }) by {
                if q == key {
                    if at < l0.len() {
                        lemma_keyed_at(l0, at as int);
                        lemma_keyed_at(l1, at as int);
                    } else {
                        lemma_keyed_at(l1, l0.len() as int);
                        assert(!has_key(l0, q));
                    }
                } else {
                    if has_key(l1, q) {
                        let j = choose|j: int| 0 <= j < l1.len() && (#[trigger] l1[j]).0 == q;
                        lemma_keyed_at(l1, j);
                        assert(j < l0.len());
                        assert(l1[j] == l0[j]);
                        lemma_keyed_at(l0, j);
                    } else {
                        assert(!has_key(l0, q)) by {
                            if has_key(l0, q) {
                                let j = choose|j: int| 0 <= j < l0.len() && (#[trigger] l0[j]).0 == q;
                                assert(l1[j].0 == q);
                            }
                        }
                    }
                }
            }
        }
    }
}

/// A child's subtree bytes are part of its parent's children sum.
proof fn lemma_children_sum_has(rpo: Seq<u32>, idom: Seq<u32>, acc: Seq<u64>, v: u32, lo: int, i: int)
    requires
        0 <= lo <= i < rpo.len(),
        idom[rpo[i] as int] == v,
    ensures
        children_sum(rpo, idom, acc, v, lo) >= acc[rpo[i] as int],
    decreases rpo.len() - lo,
{
    if lo < i {
        lemma_children_sum_has(rpo, idom, acc, v, lo + 1, i);
    } else {
        lemma_children_sum_nonneg(rpo, idom, acc, v, lo + 1);
    }
}

proof fn lemma_children_sum_nonneg(rpo: Seq<u32>, idom: Seq<u32>, acc: Seq<u64>, v: u32, lo: int)
    ensures
        children_sum(rpo, idom, acc, v, lo) >= 0,
    decreases rpo.len() - lo,
{
    if 0 <= lo < rpo.len() {
        lemma_children_sum_nonneg(rpo, idom, acc, v, lo + 1);
    }
}

/// Subtree bytes never grow going down the dominator tree.
proof fn lemma_parent_holds_child(d: Dominators, w: Seq<u64>, sub: Seq<u64>, i: int)
    requires
        d.wf(),
        subtree_ok(d, w, sub),
        1 <= i < d.rpo@.len(),
    ensures
        0 <= parent_pos(d.rpo@, d.idom@, i) < i,
        sub[d.rpo@[parent_pos(d.rpo@, d.idom@, i)] as int] >= sub[d.rpo@[i] as int],
{
    let rpo = d.rpo@;
    assert(parent_earlier(rpo, d.idom@, i));
    let j = parent_pos(rpo, d.idom@, i);
    assert(sub[rpo[j] as int] == w[rpo[j] as int] + children_sum(rpo, d.idom@, sub, rpo[j], 1));
    lemma_children_sum_has(rpo, d.idom@, sub, rpo[j], 1, i);
}

/// A counted position of `f` before `k` adds its subtree to the sum.
proof fn lemma_exclusive_has(nodes: Seq<Node>, rpo: Seq<u32>, idom: Seq<u32>, sub: Seq<u64>, f: u32, q: int, k: int)
    requires
        1 <= q < k,
        nodes[rpo[q] as int].file == f,
        !nested_at(nodes, rpo, idom, q),
    ensures
        exclusive_upto(nodes, rpo, idom, sub, f, k) >= sub[rpo[q] as int],
    decreases k,
{
    if k - 1 > q {
        lemma_exclusive_has(nodes, rpo, idom, sub, f, q, k - 1);
    } else {
        lemma_exclusive_nonneg(nodes, rpo, idom, sub, f, k - 1);
    }
}

proof fn lemma_exclusive_nonneg(nodes: Seq<Node>, rpo: Seq<u32>, idom: Seq<u32>, sub: Seq<u64>, f: u32, k: int)
    ensures
        exclusive_upto(nodes, rpo, idom, sub, f, k) >= 0,
    decreases k,
{
    if k > 1 {
        lemma_exclusive_nonneg(nodes, rpo, idom, sub, f, k - 1);
    }
}

/// A site of `file` above position `i` holds at least its subtree bytes.
proof fn lemma_site_above_holds(nodes: Seq<Node>, d: Dominators, w: Seq<u64>, sub: Seq<u64>, i: int, file: u32)
    requires
        d.wf(),
        subtree_ok(d, w, sub),
        site_above(nodes, d.rpo@, d.idom@, i, file),
    ensures
        exists|j: int|
            0 <= j < i && is_site(nodes, #[trigger] d.rpo@[j]) && nodes[d.rpo@[j] as int].file == file && sub[d.rpo@[j] as int]
                >= sub[d.rpo@[i] as int],
    decreases i,
{
    let rpo = d.rpo@;
    lemma_parent_holds_child(d, w, sub, i);
    let j = parent_pos(rpo, d.idom@, i);
    if !(is_site(nodes, rpo[j]) && nodes[rpo[j] as int].file == file) {
        lemma_site_above_holds(nodes, d, w, sub, j, file);
        let k = choose|k: int|
            0 <= k < j && is_site(nodes, #[trigger] rpo[k]) && nodes[rpo[k] as int].file == file && sub[rpo[k] as int]
                >= sub[rpo[j] as int];
        assert(0 <= k < i);
    }
}

/// Every site of a file at a position past the root lies in the subtree of
/// a counted site of that file.
proof fn lemma_site_counted(nodes: Seq<Node>, d: Dominators, w: Seq<u64>, sub: Seq<u64>, i: int)
    requires
        d.wf(),
        subtree_ok(d, w, sub),
        1 <= i < d.rpo@.len(),
        is_site(nodes, d.rpo@[i]),
        !is_site(nodes, d.rpo@[0]),
    ensures
        exists|q: int|
            1 <= q <= i && !nested_at(nodes, d.rpo@, d.idom@, q) && nodes[#[trigger] d.rpo@[q] as int].file
                == nodes[d.rpo@[i] as int].file && sub[d.rpo@[q] as int] >= sub[d.rpo@[i] as int],
    decreases i,
{
    let rpo = d.rpo@;
    let file = nodes[rpo[i] as int].file;
    if nested_at(nodes, rpo, d.idom@, i) {
        lemma_site_above_holds(nodes, d, w, sub, i, file);
        let j = choose|j: int|
            0 <= j < i && is_site(nodes, #[trigger] rpo[j]) && nodes[rpo[j] as int].file == file && sub[rpo[j] as int]
                >= sub[rpo[i] as int];
        assert(j != 0);
        lemma_site_counted(nodes, d, w, sub, j);
        let q = choose|q: int|
            1 <= q <= j && !nested_at(nodes, rpo, d.idom@, q) && nodes[#[trigger] rpo[q] as int].file
                == nodes[rpo[j] as int].file && sub[rpo[q] as int] >= sub[rpo[j] as int];
        assert(1 <= q <= i);
    } else {
        assert(nodes[rpo[i] as int].file == file);
    }
}

/// The exclusive sum of a file covers the subtree of each of its sites.
pub(crate) proof fn lemma_exclusive_covers_site(nodes: Seq<Node>, d: Dominators, w: Seq<u64>, sub: Seq<u64>, i: int)
    requires
        d.wf(),
        subtree_ok(d, w, sub),
        1 <= i < d.rpo@.len(),
        is_site(nodes, d.rpo@[i]),
        !is_site(nodes, d.rpo@[0]),
    ensures
        exclusive_upto(nodes, d.rpo@, d.idom@, sub, nodes[d.rpo@[i] as int].file, d.rpo@.len() as int) >= sub[d.rpo@[i] as int],
{
    lemma_site_counted(nodes, d, w, sub, i);
    let rpo = d.rpo@;
    let q = choose|q: int|
        1 <= q <= i && !nested_at(nodes, rpo, d.idom@, q) && nodes[#[trigger] rpo[q] as int].file
            == nodes[rpo[i] as int].file && sub[rpo[q] as int] >= sub[rpo[i] as int];
    lemma_exclusive_has(nodes, rpo, d.idom@, sub, nodes[rpo[i] as int].file, q, rpo.len() as int);
}

/// A position of `f` before `k` is counted among its expansions.
pub(crate) proof fn lemma_expansions_has(nodes: Seq<Node>, rpo: Seq<u32>, f: u32, q: int, k: int)
    requires
        1 <= q < k,
        nodes[rpo[q] as int].file == f,
    ensures
        expansions_upto(nodes, rpo, f, k) >= 1,
    decreases k,
{
    if k - 1 > q {
        lemma_expansions_has(nodes, rpo, f, q, k - 1);
    } else {
        lemma_expansions_nonneg(nodes, rpo, f, k - 1);
    }
}

proof fn lemma_expansions_nonneg(nodes: Seq<Node>, rpo: Seq<u32>, f: u32, k: int)
    ensures
        expansions_upto(nodes, rpo, f, k) >= 0,
    decreases k,
{
    if k > 1 {
        lemma_expansions_nonneg(nodes, rpo, f, k - 1);
    }
}

} // verus!
