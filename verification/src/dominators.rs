//! Dominator trees with the Cooper–Harvey–Kennedy iterative algorithm
//! ("A Simple, Fast Dominance Algorithm", 2001).

use crate::csr::{
    count_below, group_by_source, lemma_count_below_mono, lemma_count_below_total,
    lemma_out_list_contains, lemma_out_list_member, out_list, zeros_u32,
};
use std::collections::VecDeque;
use vstd::prelude::*;

verus! {

/// Marks a node that the root cannot reach.
pub const UNREACHABLE: u32 = u32::MAX;

// ---------------------------------------------------------------------------
// Paths and reachability over an adjacency-list model `Seq<Seq<u32>>`.
// ---------------------------------------------------------------------------
/// `u -> v` is an edge.
pub open spec fn edge(g: Seq<Seq<u32>>, u: u32, v: u32) -> bool {
    &&& u < g.len()
    &&& v < g.len()
    &&& g[u as int].contains(v)
}

/// Step `i -> i + 1` of `p` follows an edge.
pub open spec fn step_ok(g: Seq<Seq<u32>>, p: Seq<u32>, i: int) -> bool {
    edge(g, p[i], p[i + 1])
}

/// `p` is a non-empty walk along edges.
pub open spec fn is_path(g: Seq<Seq<u32>>, p: Seq<u32>) -> bool {
    &&& p.len() > 0
    &&& forall|i: int| 0 <= i < p.len() ==> #[trigger] p[i] < g.len()
    &&& forall|i: int| 0 <= i < p.len() - 1 ==> #[trigger] step_ok(g, p, i)
}

/// `p` is a walk from `a` to `b`.
pub open spec fn path_between(g: Seq<Seq<u32>>, p: Seq<u32>, a: u32, b: u32) -> bool {
    &&& is_path(g, p)
    &&& p[0] == a
    &&& p.last() == b
}

/// Some walk leads from `root` to `v`.
pub open spec fn reachable(g: Seq<Seq<u32>>, root: u32, v: u32) -> bool {
    exists|p: Seq<u32>| #[trigger] path_between(g, p, root, v)
}

/// Some walk leads from `root` to `v` without visiting `d`.
pub open spec fn reachable_avoiding(g: Seq<Seq<u32>>, root: u32, d: u32, v: u32) -> bool {
    exists|p: Seq<u32>| #[trigger] path_between(g, p, root, v) && !p.contains(d)
}

/// Every walk from `root` to `v` visits `d`.
pub open spec fn dominates(g: Seq<Seq<u32>>, root: u32, d: u32, v: u32) -> bool {
    forall|p: Seq<u32>| #[trigger] path_between(g, p, root, v) ==> p.contains(d)
}

pub proof fn lemma_reach_root(g: Seq<Seq<u32>>, root: u32)
    requires
        root < g.len(),
    ensures
        reachable(g, root, root),
{
    let p = seq![root];
    assert(path_between(g, p, root, root));
}

pub proof fn lemma_reach_step(g: Seq<Seq<u32>>, root: u32, v: u32, w: u32)
    requires
        reachable(g, root, v),
        edge(g, v, w),
    ensures
        reachable(g, root, w),
{
    let p = choose|p: Seq<u32>| #[trigger] path_between(g, p, root, v);
    let q = p.push(w);
    assert forall|i: int| 0 <= i < q.len() - 1 implies #[trigger] step_ok(g, q, i) by {
        if i < p.len() - 1 {
            assert(step_ok(g, p, i));
        }
    }
    assert forall|i: int| 0 <= i < q.len() implies #[trigger] q[i] < g.len() by {
        if i < p.len() {
            assert(p[i] < g.len());
        }
    }
    assert(path_between(g, q, root, w));
}

/// A set of nodes that holds `root` and is closed under the edges that leave
/// its members other than `skip` holds every node reachable without `skip`.
pub proof fn lemma_closed_holds_path(g: Seq<Seq<u32>>, flags: Seq<bool>, skip: u32, p: Seq<u32>)
    requires
        flags.len() == g.len(),
        is_path(g, p),
        !p.contains(skip),
        flags[p[0] as int],
        forall|u: u32, j: int|
            u < g.len() && flags[u as int] && u != skip && 0 <= j < g[u as int].len() && g[u as int][j] != skip
                ==> #[trigger] flags[g[u as int][j] as int],
    ensures
        forall|i: int| 0 <= i < p.len() ==> #[trigger] flags[p[i] as int],
{
    assert forall|i: int| 0 <= i < p.len() implies #[trigger] flags[p[i] as int] by {
        lemma_closed_holds_prefix(g, flags, skip, p, i);
    }
}

proof fn lemma_closed_holds_prefix(g: Seq<Seq<u32>>, flags: Seq<bool>, skip: u32, p: Seq<u32>, i: int)
    requires
        flags.len() == g.len(),
        is_path(g, p),
        !p.contains(skip),
        flags[p[0] as int],
        forall|u: u32, j: int|
            u < g.len() && flags[u as int] && u != skip && 0 <= j < g[u as int].len() && g[u as int][j] != skip
                ==> #[trigger] flags[g[u as int][j] as int],
        0 <= i < p.len(),
    ensures
        flags[p[i] as int],
    decreases i,
{
    if i > 0 {
        lemma_closed_holds_prefix(g, flags, skip, p, i - 1);
        assert(step_ok(g, p, i - 1));
        let u = p[i - 1];
        assert(u != skip) by {
            if u == skip {
                assert(p.contains(skip));
            }
        }
        let j = choose|j: int| 0 <= j < g[u as int].len() && g[u as int][j] == p[i];
        assert(p[i] != skip) by {
            if p[i] == skip {
                assert(p.contains(skip));
            }
        }
        assert(flags[g[u as int][j] as int]);
    }
}

/// Every node reachable without `skip` belongs to a set that holds `root` and is
/// closed under the edges leaving its members other than `skip`.
pub proof fn lemma_closed_holds_reachable(
    g: Seq<Seq<u32>>,
    flags: Seq<bool>,
    root: u32,
    skip: u32,
    v: u32,
)
    requires
        flags.len() == g.len(),
        root < g.len(),
        flags[root as int],
        forall|u: u32, j: int|
            u < g.len() && flags[u as int] && u != skip && 0 <= j < g[u as int].len() && g[u as int][j] != skip
                ==> #[trigger] flags[g[u as int][j] as int],
        reachable_avoiding(g, root, skip, v),
    ensures
        flags[v as int],
{
    let p = choose|p: Seq<u32>| #[trigger] path_between(g, p, root, v) && !p.contains(skip);
    lemma_closed_holds_path(g, flags, skip, p);
    assert(flags[p[p.len() - 1] as int]);
}

/// Reachability without a node that is not in the graph is plain reachability.
pub proof fn lemma_avoid_absent(g: Seq<Seq<u32>>, root: u32, skip: u32, v: u32)
    requires
        skip >= g.len(),
        reachable(g, root, v),
    ensures
        reachable_avoiding(g, root, skip, v),
{
    let p = choose|p: Seq<u32>| #[trigger] path_between(g, p, root, v);
    assert(!p.contains(skip)) by {
        if p.contains(skip) {
            let i = choose|i: int| 0 <= i < p.len() && p[i] == skip;
            assert(p[i] < g.len());
        }
    }
}

// ---------------------------------------------------------------------------
// Graphs in compressed sparse row form.
// ---------------------------------------------------------------------------
/// A directed graph in compressed sparse row form.
#[derive(Clone, Debug)]
pub struct Graph {
    offsets: Vec<u32>,
    targets: Vec<u32>,
}

impl Graph {
    /// Offsets are monotone, start at 0, end at the number of targets, and
    /// every target names a node.
    pub closed spec fn wf(&self) -> bool {
        &&& self.offsets.len() >= 1
        &&& self.offsets.len() - 1 < u32::MAX
        &&& self.offsets[0] == 0
        &&& forall|a: int, b: int|
            0 <= a <= b < self.offsets.len() ==> self.offsets[a] <= self.offsets[b]
        &&& self.offsets[self.offsets.len() - 1] == self.targets.len()
        &&& forall|k: int| 0 <= k < self.targets.len() ==> self.targets[k] < self.offsets.len() - 1
    }

    pub closed spec fn spec_node_count(&self) -> nat {
        (self.offsets.len() - 1) as nat
    }

    pub closed spec fn spec_edge_count(&self) -> nat {
        self.targets.len() as nat
    }

    pub closed spec fn succ(&self, v: int) -> Seq<u32> {
        self.targets@.subrange(self.offsets[v] as int, self.offsets[v + 1] as int)
    }

    /// Facts that hold of every well-formed graph.
    pub proof fn lemma_wf(&self)
        requires
            self.wf(),
        ensures
            self@.len() == self.spec_node_count(),
            self.spec_node_count() < u32::MAX,
            self.spec_edge_count() <= u32::MAX,
            forall|v: int, j: int|
                0 <= v < self@.len() && 0 <= j < self@[v].len() ==> #[trigger] self@[v][j]
                    < self@.len(),
            forall|v: int| 0 <= v < self@.len() ==> #[trigger] self@[v].len() <= self.spec_edge_count(),
    {
        assert forall|v: int, j: int|
            0 <= v < self@.len() && 0 <= j < self@[v].len() implies #[trigger] self@[v][j]
            < self@.len() by {
            assert(self@[v][j] == self.targets[self.offsets[v] + j]);
        }
    }

    /// Builds the graph with `node_count` nodes whose edges are `edges`; the
    /// successors of each node keep the order of `edges`.
    pub fn from_edges(node_count: usize, edges: &[(u32, u32)]) -> (g: Graph)
        requires
            node_count < u32::MAX,
            edges@.len() <= u32::MAX,
            forall|k: int|
                0 <= k < edges@.len() ==> (#[trigger] edges@[k]).0 < node_count && edges@[k].1
                    < node_count,
        ensures
            g.wf(),
            g.spec_node_count() == node_count,
            g.spec_edge_count() == edges@.len(),
            forall|v: int| 0 <= v < node_count ==> #[trigger] g@[v] == out_list(edges@, v),
    {
        let (offsets, targets) = group_by_source(node_count, edges);
        proof {
            lemma_count_below_total(edges@, node_count as int);
            assert(offsets[0] == count_below(edges@, 0));
            assert(offsets[node_count as int] == count_below(edges@, node_count as int));
            assert forall|a: int, b: int| 0 <= a <= b < offsets.len() implies offsets[a]
                <= offsets[b] by {
                lemma_count_below_mono(edges@, a, b);
            }
            assert forall|k: int| 0 <= k < targets.len() implies targets[k] < node_count by {
                let v = choose_source(edges@, offsets@, node_count as int, k);
                let i = k - offsets[v];
                assert(targets@.subrange(offsets[v] as int, offsets[v + 1] as int)[i] == targets[k]);
                lemma_out_list_member(edges@, v, i);
            }
        }
        let g = Graph { offsets, targets };
        proof {
            assert forall|v: int| 0 <= v < node_count implies #[trigger] g@[v] == out_list(edges@, v) by {
                assert(g@[v] == g.succ(v));
            }
        }
        g
    }

    pub fn node_count(&self) -> (n: usize)
        requires
            self.wf(),
        ensures
            n == self.spec_node_count(),
    {
        self.offsets.len() - 1
    }

    pub fn edge_count(&self) -> (n: usize)
        requires
            self.wf(),
        ensures
            n == self.spec_edge_count(),
    {
        self.targets.len()
    }

    /// The successors of `v`, in the order their edges were given.
    pub fn successors(&self, v: u32) -> (s: &[u32])
        requires
            self.wf(),
            v < self.spec_node_count(),
        ensures
            s@ == self@[v as int],
    {
        let a = self.offsets[v as usize] as usize;
        let b = self.offsets[v as usize + 1] as usize;
        vstd::slice::slice_subrange(self.targets.as_slice(), a, b)
    }
}

impl View for Graph {
    type V = Seq<Seq<u32>>;

    closed spec fn view(&self) -> Seq<Seq<u32>> {
        Seq::new(self.spec_node_count(), |v: int| self.succ(v))
    }
}

/// The source whose row holds position `k`.
proof fn choose_source(pairs: Seq<(u32, u32)>, offsets: Seq<u32>, n: int, k: int) -> (v: int)
    requires
        n >= 0,
        offsets.len() == n + 1,
        offsets[0] == 0,
        0 <= k < offsets[n],
        forall|a: int, b: int| 0 <= a <= b <= n ==> offsets[a] <= offsets[b],
    ensures
        0 <= v < n,
        offsets[v] <= k < offsets[v + 1],
    decreases n,
{
    assert(n > 0);
    if k >= offsets[n - 1] {
        n - 1
    } else {
        choose_source(pairs, offsets.take(n), n - 1, k)
    }
}


// ---------------------------------------------------------------------------
// Depth-first search.
// ---------------------------------------------------------------------------
/// Some node before position `i` of `s` has an edge to `s[i]`.
pub open spec fn has_earlier_pred(g: Seq<Seq<u32>>, s: Seq<u32>, i: int) -> bool {
    exists|j: int| 0 <= j < i && #[trigger] edge(g, s[j], s[i])
}

/// Number of `false` entries.
pub open spec fn count_false(s: Seq<bool>) -> nat
    decreases s.len(),
{
    if s.len() == 0 {
        0
    } else {
        count_false(s.drop_last()) + (if s.last() {
            0nat
        } else {
            1nat
        })
    }
}

pub proof fn lemma_count_false_all(s: Seq<bool>)
    requires
        forall|i: int| 0 <= i < s.len() ==> !s[i],
    ensures
        count_false(s) == s.len(),
    decreases s.len(),
{
    if s.len() > 0 {
        lemma_count_false_all(s.drop_last());
    }
}

pub proof fn lemma_count_false_set(s: Seq<bool>, i: int)
    requires
        0 <= i < s.len(),
        !s[i],
    ensures
        count_false(s.update(i, true)) + 1 == count_false(s),
    decreases s.len(),
{
    let t = s.update(i, true);
    if i == s.len() - 1 {
        assert(t.drop_last() =~= s.drop_last());
    } else {
        assert(t.drop_last() =~= s.drop_last().update(i, true));
        lemma_count_false_set(s.drop_last(), i);
    }
}

/// Successors still to be explored by the entries of a DFS stack.
spec fn stack_rem(g: Seq<Seq<u32>>, s: Seq<(u32, u32)>) -> int
    decreases s.len(),
{
    if s.len() == 0 {
        0
    } else {
        stack_rem(g, s.drop_last()) + (g[s.last().0 as int].len() - s.last().1)
    }
}

proof fn lemma_stack_rem_nonneg(g: Seq<Seq<u32>>, s: Seq<(u32, u32)>)
    requires
        forall|i: int| 0 <= i < s.len() ==> (#[trigger] s[i]).0 < g.len() && s[i].1 <= g[s[i].0 as int].len(),
    ensures
        stack_rem(g, s) >= 0,
    decreases s.len(),
{
    if s.len() > 0 {
        let t = s.drop_last();
        assert forall|i: int| 0 <= i < t.len() implies (#[trigger] t[i]).0 < g.len() && t[i].1 <= g[t[i].0 as int].len() by {
            assert(t[i] == s[i]);
        }
        lemma_stack_rem_nonneg(g, t);
        assert(s[s.len() - 1] == s.last());
    }
}

spec fn stack_nodes(s: Seq<(u32, u32)>) -> Seq<u32> {
    s.map_values(|e: (u32, u32)| e.0)
}

pub fn falses(n: usize) -> (v: Vec<bool>)
    ensures
        v.len() == n,
        forall|i: int| 0 <= i < n ==> !v[i],
{
    let mut v: Vec<bool> = Vec::with_capacity(n);
    let mut i: usize = 0;
    while i < n
        invariant
            i <= n,
            v.len() == i,
            forall|j: int| 0 <= j < i ==> !v[j],
        decreases n - i,
    {
        v.push(false);
        i += 1;
    }
    v
}

/// Shape of a depth-first search state: sizes, ranges, and no node twice.
#[verifier::opaque]
spec fn dfs_basic(
    gv: Seq<Seq<u32>>,
    root: u32,
    visited: Seq<bool>,
    stack: Seq<(u32, u32)>,
    post: Seq<u32>,
    par: Seq<u32>,
) -> bool {
    let n = gv.len();
    &&& visited.len() == n
    &&& par.len() == n
    &&& root < n
    &&& visited[root as int]
    &&& stack.len() > 0 ==> stack[0].0 == root
    &&& stack.len() == 0 ==> post.len() > 0 && post[post.len() - 1] == root
    &&& forall|i: int|
        0 <= i < stack.len() ==> (#[trigger] stack[i]).0 < n && visited[stack[i].0 as int]
            && stack[i].1 <= gv[stack[i].0 as int].len()
    &&& forall|i: int| 0 <= i < post.len() ==> #[trigger] post[i] < n && visited[post[i] as int]
    &&& post.no_duplicates()
    &&& stack_nodes(stack).no_duplicates()
    &&& forall|i: int, j: int| 0 <= i < post.len() && 0 <= j < stack.len() ==> post[i] != stack[j].0
}

/// The visited nodes are reachable and are exactly those on the stack or finished.
#[verifier::opaque]
spec fn dfs_cover(gv: Seq<Seq<u32>>, root: u32, visited: Seq<bool>, stack: Seq<(u32, u32)>, post: Seq<u32>) -> bool {
    let n = gv.len();
    &&& forall|x: u32|
        x < n && #[trigger] visited[x as int] ==> post.contains(x) || stack_nodes(stack).contains(x)
    &&& forall|x: u32| x < n && #[trigger] visited[x as int] ==> reachable(gv, root, x)
}

/// Finished nodes have all successors visited; stack entries have visited the
/// successors they have passed.
#[verifier::opaque]
spec fn dfs_closed(gv: Seq<Seq<u32>>, visited: Seq<bool>, stack: Seq<(u32, u32)>, post: Seq<u32>) -> bool {
    &&& forall|i: int, j: int|
        0 <= i < post.len() && 0 <= j < gv[post[i] as int].len() ==> visited[#[trigger] gv[post[i] as int][j] as int]
    &&& forall|i: int, j: int|
        0 <= i < stack.len() && 0 <= j < stack[i].1 ==> visited[#[trigger] gv[stack[i].0 as int][j] as int]
}

/// Each stack entry was pushed from the one below it, and every finished node
/// other than the root has a predecessor still on the stack or finished later.
#[verifier::opaque]
spec fn dfs_parent(gv: Seq<Seq<u32>>, root: u32, stack: Seq<(u32, u32)>, post: Seq<u32>, par: Seq<u32>) -> bool {
    &&& forall|i: int|
        1 <= i < stack.len() ==> par[#[trigger] stack[i].0 as int] == stack[i - 1].0 && edge(gv, stack[i - 1].0, stack[i].0)
    &&& forall|i: int|
        0 <= i < post.len() && #[trigger] post[i] != root ==> edge(gv, par[post[i] as int], post[i]) && (stack_nodes(stack).contains(par[post[i] as int]) || exists|j: int| i < j < post.len() && post[j] == par[post[i] as int])
}

/// What a depth-first search from `root` keeps true.
spec fn dfs_inv(
    gv: Seq<Seq<u32>>,
    root: u32,
    visited: Seq<bool>,
    stack: Seq<(u32, u32)>,
    post: Seq<u32>,
    par: Seq<u32>,
) -> bool {
    &&& dfs_basic(gv, root, visited, stack, post, par)
    &&& dfs_cover(gv, root, visited, stack, post)
    &&& dfs_closed(gv, visited, stack, post)
    &&& dfs_parent(gv, root, stack, post, par)
}

spec fn graph_ok(gv: Seq<Seq<u32>>) -> bool {
    &&& gv.len() < u32::MAX
    &&& forall|v: int, j: int| 0 <= v < gv.len() && 0 <= j < gv[v].len() ==> #[trigger] gv[v][j] < gv.len()
}

proof fn lemma_dfs_init(gv: Seq<Seq<u32>>, root: u32, visited: Seq<bool>, par: Seq<u32>)
    requires
        graph_ok(gv),
        root < gv.len(),
        visited.len() == gv.len(),
        par.len() == gv.len(),
        forall|i: int| 0 <= i < visited.len() ==> visited[i] == (i == root),
    ensures
        dfs_inv(gv, root, visited, seq![(root, 0u32)], Seq::empty(), par),
{
    reveal(dfs_basic);
    reveal(dfs_cover);
    reveal(dfs_closed);
    reveal(dfs_parent);
    lemma_reach_root(gv, root);
    let stack = seq![(root, 0u32)];
    assert(stack_nodes(stack) =~= seq![root]);
    assert forall|x: u32| x < gv.len() && #[trigger] visited[x as int] implies Seq::<u32>::empty().contains(x) || stack_nodes(stack).contains(x) by {
        assert(x == root);
        assert(stack_nodes(stack)[0] == root);
    }
}

proof fn lemma_dfs_skip(gv: Seq<Seq<u32>>, root: u32, visited: Seq<bool>, stack: Seq<(u32, u32)>, post: Seq<u32>, par: Seq<u32>)
    requires
        graph_ok(gv),
        dfs_inv(gv, root, visited, stack, post, par),
        stack.len() > 0,
        stack.last().1 < gv[stack.last().0 as int].len(),
        visited[gv[stack.last().0 as int][stack.last().1 as int] as int],
    ensures
        dfs_inv(gv, root, visited, stack.update(stack.len() - 1, (stack.last().0, (stack.last().1 + 1) as u32)), post, par),
{
    reveal(dfs_basic);
    reveal(dfs_cover);
    reveal(dfs_closed);
    reveal(dfs_parent);
    let top = stack.len() - 1;
    let (v, next) = stack.last();
    let s2 = stack.update(top, (v, (next + 1) as u32));
    assert(stack_nodes(s2) =~= stack_nodes(stack));
    assert forall|i: int, j: int|
        0 <= i < s2.len() && 0 <= j < s2[i].1 implies visited[#[trigger] gv[s2[i].0 as int][j] as int] by {
        if i == top {
            if j < next {
                assert(stack[i].1 == next);
            }
        } else {
            assert(stack[i] == s2[i]);
        }
    }
    assert forall|i: int|
        1 <= i < s2.len() implies par[#[trigger] s2[i].0 as int] == s2[i - 1].0 && edge(gv, s2[i - 1].0, s2[i].0) by {
        assert(stack[i].0 == s2[i].0);
        assert(stack[i - 1].0 == s2[i - 1].0);
    }
    assert forall|i: int| 0 <= i < s2.len() implies (#[trigger] s2[i]).0 < gv.len() && visited[s2[i].0 as int]
            && s2[i].1 <= gv[s2[i].0 as int].len() by {
        assert(stack[i].0 == s2[i].0);
    }
    assert forall|i: int, j: int| 0 <= i < post.len() && 0 <= j < s2.len() implies post[i] != s2[j].0 by {
        assert(stack[j].0 == s2[j].0);
    }
}

proof fn lemma_dfs_push(gv: Seq<Seq<u32>>, root: u32, visited: Seq<bool>, stack: Seq<(u32, u32)>, post: Seq<u32>, par: Seq<u32>)
    requires
        graph_ok(gv),
        dfs_inv(gv, root, visited, stack, post, par),
        stack.len() > 0,
        stack.last().1 < gv[stack.last().0 as int].len(),
        !visited[gv[stack.last().0 as int][stack.last().1 as int] as int],
    ensures
        ({
            let v = stack.last().0;
            let w = gv[v as int][stack.last().1 as int];
            dfs_inv(
                gv,
                root,
                visited.update(w as int, true),
                stack.update(stack.len() - 1, (v, (stack.last().1 + 1) as u32)).push((w, 0u32)),
                post,
                par.update(w as int, v),
            )
        }),
{
    reveal(dfs_basic);
    reveal(dfs_cover);
    reveal(dfs_closed);
    reveal(dfs_parent);
    let n = gv.len();
    let top = stack.len() - 1;
    let (v, next) = stack.last();
    let w = gv[v as int][next as int];
    let s1 = stack.update(top, (v, (next + 1) as u32));
    let s2 = s1.push((w, 0u32));
    let vis2 = visited.update(w as int, true);
    let par2 = par.update(w as int, v);
    assert(stack_nodes(s1) =~= stack_nodes(stack));
    assert(stack_nodes(s2) =~= stack_nodes(s1).push(w));
    assert(edge(gv, v, w)) by {
        assert(gv[v as int][next as int] == w);
    }
    assert(stack[top].0 == v);
    assert(visited[v as int]);
    assert(reachable(gv, root, v));
    lemma_reach_step(gv, root, v, w);
    assert(!stack_nodes(stack).contains(w)) by {
        if stack_nodes(stack).contains(w) {
            let k = choose|k: int| 0 <= k < stack_nodes(stack).len() && stack_nodes(stack)[k] == w;
            assert(stack[k].0 == w);
        }
    }
    assert(!post.contains(w)) by {
        if post.contains(w) {
            let k = choose|k: int| 0 <= k < post.len() && post[k] == w;
            assert(visited[post[k] as int]);
        }
    }
    assert forall|x: u32| x < n && #[trigger] vis2[x as int] implies post.contains(x) || stack_nodes(s2).contains(x) by {
        if x != w {
            assert(visited[x as int]);
            if stack_nodes(stack).contains(x) {
                let k = choose|k: int| 0 <= k < stack_nodes(stack).len() && stack_nodes(stack)[k] == x;
                assert(stack_nodes(s2)[k] == x);
            }
        } else {
            assert(stack_nodes(s2)[s2.len() - 1] == w);
        }
    }
    assert forall|x: u32| x < n && #[trigger] vis2[x as int] implies reachable(gv, root, x) by {
        if x != w {
            assert(visited[x as int]);
        }
    }
    assert forall|i: int|
        0 <= i < post.len() && #[trigger] post[i] != root implies edge(gv, par2[post[i] as int], post[i]) && (stack_nodes(s2).contains(par2[post[i] as int]) || exists|j: int| i < j < post.len() && post[j] == par2[post[i] as int]) by {
        assert(post[i] != w);
        assert(par2[post[i] as int] == par[post[i] as int]);
        if stack_nodes(stack).contains(par[post[i] as int]) {
            let k = choose|k: int| 0 <= k < stack_nodes(stack).len() && stack_nodes(stack)[k] == par[post[i] as int];
            assert(stack_nodes(s2)[k] == par[post[i] as int]);
        }
    }
    assert forall|i: int|
        1 <= i < s2.len() implies par2[#[trigger] s2[i].0 as int] == s2[i - 1].0 && edge(gv, s2[i - 1].0, s2[i].0) by {
        if i < s2.len() - 1 {
            assert(stack[i].0 != w) by {
                assert(stack_nodes(stack)[i] == stack[i].0);
            }
            assert(stack[i].0 == s2[i].0);
            assert(stack[i - 1].0 == s2[i - 1].0);
        } else {
            assert(s2[i - 1].0 == v);
        }
    }
    assert forall|i: int, j: int|
        0 <= i < s2.len() && 0 <= j < s2[i].1 implies vis2[#[trigger] gv[s2[i].0 as int][j] as int] by {
        if i == top {
            if j < next {
                assert(stack[i].1 == next);
                assert(visited[gv[stack[i].0 as int][j] as int]);
            }
        } else if i < top {
            assert(stack[i] == s2[i]);
            assert(visited[gv[stack[i].0 as int][j] as int]);
        }
    }
    assert forall|i: int, j: int|
        0 <= i < post.len() && 0 <= j < gv[post[i] as int].len() implies vis2[#[trigger] gv[post[i] as int][j] as int] by {
        assert(visited[gv[post[i] as int][j] as int]);
    }
    assert forall|i: int| 0 <= i < s2.len() implies (#[trigger] s2[i]).0 < n && vis2[s2[i].0 as int]
            && s2[i].1 <= gv[s2[i].0 as int].len() by {
        if i < top {
            assert(stack[i] == s2[i]);
        }
    }
    assert forall|i: int| 0 <= i < post.len() implies #[trigger] post[i] < n && vis2[post[i] as int] by {
        assert(visited[post[i] as int]);
    }
    assert forall|i: int, j: int| 0 <= i < post.len() && 0 <= j < s2.len() implies post[i] != s2[j].0 by {
        if j < s2.len() - 1 {
            assert(stack[j].0 == s2[j].0);
        } else {
            assert(post[i] != w);
        }
    }
    assert(s2[0].0 == root);
}

proof fn lemma_dfs_pop(gv: Seq<Seq<u32>>, root: u32, visited: Seq<bool>, stack: Seq<(u32, u32)>, post: Seq<u32>, par: Seq<u32>)
    requires
        graph_ok(gv),
        dfs_inv(gv, root, visited, stack, post, par),
        stack.len() > 0,
        stack.last().1 >= gv[stack.last().0 as int].len(),
    ensures
        dfs_inv(gv, root, visited, stack.drop_last(), post.push(stack.last().0), par),
{
    lemma_pop_basic(gv, root, visited, stack, post, par);
    lemma_pop_cover(gv, root, visited, stack, post, par);
    lemma_pop_closed(gv, root, visited, stack, post, par);
    lemma_pop_parent(gv, root, visited, stack, post, par);
}

proof fn lemma_pop_basic(gv: Seq<Seq<u32>>, root: u32, visited: Seq<bool>, stack: Seq<(u32, u32)>, post: Seq<u32>, par: Seq<u32>)
    requires
        dfs_basic(gv, root, visited, stack, post, par),
        stack.len() > 0,
    ensures
        dfs_basic(gv, root, visited, stack.drop_last(), post.push(stack.last().0), par),
        !post.contains(stack.last().0),
{
    reveal(dfs_basic);
    let n = gv.len();
    let top = stack.len() - 1;
    let v = stack.last().0;
    let s2 = stack.drop_last();
    let p2 = post.push(v);
    assert(stack_nodes(stack) =~= stack_nodes(s2).push(v));
    assert(stack[top].0 == v);
    assert(!post.contains(v)) by {
        if post.contains(v) {
            let k = choose|k: int| 0 <= k < post.len() && post[k] == v;
            assert(post[k] != stack[top].0);
        }
    }
    assert(p2.no_duplicates()) by {
        assert forall|i: int, j: int| 0 <= i < p2.len() && 0 <= j < p2.len() && i != j implies p2[i] != p2[j] by {
            if i < p2.len() - 1 && j < p2.len() - 1 {
                assert(post[i] == p2[i] && post[j] == p2[j]);
            } else if i == p2.len() - 1 {
                assert(post[j] == p2[j]);
                assert(post[j] != stack[top].0);
            } else {
                assert(post[i] == p2[i]);
                assert(post[i] != stack[top].0);
            }
        }
    }
    assert forall|i: int| 0 <= i < p2.len() implies #[trigger] p2[i] < n && visited[p2[i] as int] by {
        if i < post.len() {
            assert(p2[i] == post[i]);
        }
    }
    assert forall|i: int, j: int| 0 <= i < p2.len() && 0 <= j < s2.len() implies p2[i] != s2[j].0 by {
        assert(s2[j] == stack[j]);
        if i == p2.len() - 1 {
            assert(stack_nodes(stack)[j] == stack[j].0);
            assert(stack_nodes(stack)[top] == v);
        } else {
            assert(p2[i] == post[i]);
        }
    }
    assert forall|i: int| 0 <= i < s2.len() implies (#[trigger] s2[i]).0 < n && visited[s2[i].0 as int]
            && s2[i].1 <= gv[s2[i].0 as int].len() by {
        assert(s2[i] == stack[i]);
    }
    assert(stack_nodes(s2).no_duplicates()) by {
        assert forall|i: int, j: int| 0 <= i < stack_nodes(s2).len() && 0 <= j < stack_nodes(s2).len() && i != j implies stack_nodes(s2)[i] != stack_nodes(s2)[j] by {
            assert(stack_nodes(s2)[i] == stack_nodes(stack)[i]);
            assert(stack_nodes(s2)[j] == stack_nodes(stack)[j]);
        }
    }
    if s2.len() > 0 {
        assert(s2[0] == stack[0]);
    } else {
        assert(top == 0);
        assert(stack[0].0 == root);
        assert(v == root);
        assert(p2[p2.len() - 1] == v);
    }
}

proof fn lemma_pop_cover(gv: Seq<Seq<u32>>, root: u32, visited: Seq<bool>, stack: Seq<(u32, u32)>, post: Seq<u32>, par: Seq<u32>)
    requires
        dfs_cover(gv, root, visited, stack, post),
        stack.len() > 0,
    ensures
        dfs_cover(gv, root, visited, stack.drop_last(), post.push(stack.last().0)),
{
    reveal(dfs_cover);
    let n = gv.len();
    let top = stack.len() - 1;
    let v = stack.last().0;
    let s2 = stack.drop_last();
    let p2 = post.push(v);
    assert(stack_nodes(stack) =~= stack_nodes(s2).push(v));
    assert forall|x: u32| x < n && #[trigger] visited[x as int] implies p2.contains(x) || stack_nodes(s2).contains(x) by {
        if x == v {
            assert(p2[p2.len() - 1] == v);
        } else if post.contains(x) {
            let k = choose|k: int| 0 <= k < post.len() && post[k] == x;
            assert(p2[k] == x);
        } else {
            let k = choose|k: int| 0 <= k < stack_nodes(stack).len() && stack_nodes(stack)[k] == x;
            assert(k != top);
            assert(stack_nodes(s2)[k] == x);
        }
    }
}

proof fn lemma_pop_closed(gv: Seq<Seq<u32>>, root: u32, visited: Seq<bool>, stack: Seq<(u32, u32)>, post: Seq<u32>, par: Seq<u32>)
    requires
        dfs_closed(gv, visited, stack, post),
        stack.len() > 0,
        stack.last().1 >= gv[stack.last().0 as int].len(),
    ensures
        dfs_closed(gv, visited, stack.drop_last(), post.push(stack.last().0)),
{
    reveal(dfs_closed);
    let top = stack.len() - 1;
    let v = stack.last().0;
    let s2 = stack.drop_last();
    let p2 = post.push(v);
    assert forall|i: int, j: int|
        0 <= i < p2.len() && 0 <= j < gv[p2[i] as int].len() implies visited[#[trigger] gv[p2[i] as int][j] as int] by {
        if i == p2.len() - 1 {
            assert(stack[top].1 >= gv[v as int].len());
            assert(stack[top].0 == v);
        } else {
            assert(p2[i] == post[i]);
        }
    }
    assert forall|i: int, j: int|
        0 <= i < s2.len() && 0 <= j < s2[i].1 implies visited[#[trigger] gv[s2[i].0 as int][j] as int] by {
        assert(s2[i] == stack[i]);
    }
}

proof fn lemma_pop_parent(gv: Seq<Seq<u32>>, root: u32, visited: Seq<bool>, stack: Seq<(u32, u32)>, post: Seq<u32>, par: Seq<u32>)
    requires
        dfs_basic(gv, root, visited, stack, post, par),
        dfs_parent(gv, root, stack, post, par),
        stack.len() > 0,
    ensures
        dfs_parent(gv, root, stack.drop_last(), post.push(stack.last().0), par),
{
    reveal(dfs_parent);
    let top = stack.len() - 1;
    let v = stack.last().0;
    let s2 = stack.drop_last();
    let p2 = post.push(v);
    assert(stack_nodes(stack) =~= stack_nodes(s2).push(v));
    assert(stack[top].0 == v);
    if v != root {
        assert(top > 0) by {
            reveal(dfs_basic);
            if top == 0 {
                assert(stack[0].0 == root);
            }
        }
        assert(par[v as int] == stack[top - 1].0);
        assert(stack_nodes(s2)[top - 1] == stack[top - 1].0);
    }
    assert forall|i: int|
        0 <= i < p2.len() && #[trigger] p2[i] != root implies edge(gv, par[p2[i] as int], p2[i]) && (stack_nodes(s2).contains(par[p2[i] as int]) || exists|j: int| i < j < p2.len() && p2[j] == par[p2[i] as int]) by {
        if i < p2.len() - 1 {
            let y = par[p2[i] as int];
            assert(p2[i] == post[i]);
            if stack_nodes(stack).contains(y) {
                let k = choose|k: int| 0 <= k < stack_nodes(stack).len() && stack_nodes(stack)[k] == y;
                if k == top {
                    assert(p2[p2.len() - 1] == y);
                } else {
                    assert(stack_nodes(s2)[k] == y);
                }
            } else {
                let j = choose|j: int| i < j < post.len() && post[j] == y;
                assert(p2[j] == y);
            }
        } else {
            assert(stack_nodes(s2)[top - 1] == par[v as int]);
        }
    }
    assert forall|i: int| 1 <= i < s2.len() implies par[#[trigger] s2[i].0 as int] == s2[i - 1].0 && edge(gv, s2[i - 1].0, s2[i].0) by {
        assert(s2[i] == stack[i]);
        assert(s2[i - 1] == stack[i - 1]);
    }
}

/// When the stack is empty, the finished nodes are exactly the reachable ones,
/// and each of them but the root has a predecessor that finished later.
proof fn lemma_dfs_done(gv: Seq<Seq<u32>>, root: u32, visited: Seq<bool>, post: Seq<u32>, par: Seq<u32>)
    requires
        graph_ok(gv),
        dfs_inv(gv, root, visited, Seq::empty(), post, par),
    ensures
        post.len() > 0,
        post[post.len() - 1] == root,
        post.no_duplicates(),
        forall|i: int| 0 <= i < post.len() ==> #[trigger] post[i] < gv.len(),
        forall|v: u32| v < gv.len() ==> (post.contains(v) <==> reachable(gv, root, v)),
{
    reveal(dfs_basic);
    reveal(dfs_cover);
    reveal(dfs_closed);
    reveal(dfs_parent);
    let n = gv.len();
    let empty: Seq<(u32, u32)> = Seq::empty();
    assert(stack_nodes(empty) =~= Seq::<u32>::empty());
    assert forall|u: u32, j: int|
        u < gv.len() && visited[u as int] && u != UNREACHABLE && 0 <= j < gv[u as int].len() && gv[u as int][j] != UNREACHABLE
            implies #[trigger] visited[gv[u as int][j] as int] by {
        let k = choose|k: int| 0 <= k < post.len() && post[k] == u;
        assert(gv[post[k] as int][j] == gv[u as int][j]);
    }
    assert forall|v: u32| v < n implies (post.contains(v) <==> reachable(gv, root, v)) by {
        if post.contains(v) {
            let k = choose|k: int| 0 <= k < post.len() && post[k] == v;
            assert(visited[post[k] as int]);
        }
        if reachable(gv, root, v) {
            lemma_avoid_absent(gv, root, UNREACHABLE, v);
            lemma_closed_holds_reachable(gv, visited, root, UNREACHABLE, v);
        }
    }
}

proof fn lemma_dfs_done_parent(gv: Seq<Seq<u32>>, root: u32, visited: Seq<bool>, post: Seq<u32>, par: Seq<u32>, i: int)
    requires
        dfs_inv(gv, root, visited, Seq::empty(), post, par),
        0 <= i < post.len() - 1,
    ensures
        exists|j: int| i < j < post.len() && #[trigger] edge(gv, post[j], post[i]),
{
    reveal(dfs_basic);
    reveal(dfs_cover);
    reveal(dfs_closed);
    reveal(dfs_parent);
    assert(post[i] != root) by {
        assert(post[post.len() - 1] == root);
    }
    let empty: Seq<(u32, u32)> = Seq::empty();
    assert(stack_nodes(empty) =~= Seq::<u32>::empty());
    let y = par[post[i] as int];
    assert(edge(gv, par[post[i] as int], post[i]));
    let j = choose|j: int| i < j < post.len() && post[j] == y;
    assert(edge(gv, post[j], post[i]));
}

proof fn lemma_reversed_parents(gv: Seq<Seq<u32>>, root: u32, visited: Seq<bool>, post: Seq<u32>, par: Seq<u32>, rpo: Seq<u32>)
    requires
        dfs_inv(gv, root, visited, Seq::empty(), post, par),
        rpo.len() == post.len(),
        forall|k: int| 0 <= k < rpo.len() ==> rpo[k] == post[post.len() - 1 - k],
    ensures
        forall|i: int|
            1 <= i < rpo.len() ==> #[trigger] has_earlier_pred(gv, rpo, i),
{
    let len = rpo.len();
    assert forall|a: int|
        1 <= a < rpo.len() implies #[trigger] has_earlier_pred(gv, rpo, a) by {
        let pi = len - 1 - a;
        assert(post[pi] == rpo[a]);
        lemma_dfs_done_parent(gv, root, visited, post, par, pi);
        let j = choose|j: int| pi < j < post.len() && #[trigger] edge(gv, post[j], post[pi]);
        let k = len - 1 - j;
        assert(rpo[k] == post[j]);
        assert(edge(gv, rpo[k], rpo[a]));
    }
}

/// Nodes reachable from `root`, each once, in reverse postorder of a
/// depth-first search that takes successors in order. Every node but the
/// first has a predecessor earlier in the order.
fn reverse_postorder(g: &Graph, root: u32) -> (rpo: Vec<u32>)
    requires
        g.wf(),
        g.spec_node_count() == 0 || root < g.spec_node_count(),
    ensures
        rpo.len() <= g.spec_node_count(),
        g.spec_node_count() == 0 ==> rpo.len() == 0,
        g.spec_node_count() > 0 ==> rpo.len() > 0 && rpo[0] == root,
        rpo@.no_duplicates(),
        forall|i: int| 0 <= i < rpo.len() ==> #[trigger] rpo[i] < g.spec_node_count(),
        forall|v: u32| v < g.spec_node_count() ==> (rpo@.contains(v) <==> reachable(g@, root, v)),
        forall|i: int|
            1 <= i < rpo.len() ==> #[trigger] has_earlier_pred(g@, rpo@, i),
{
    proof {
        g.lemma_wf();
    }
    let ghost gv = g@;
    let n = g.node_count();
    let mut post: Vec<u32> = Vec::new();
    if n == 0 {
        return post;
    }
    let mut visited = falses(n);
    let mut stack: Vec<(u32, u32)> = Vec::new();
    stack.push((root, 0));
    visited.set(root as usize, true);
    let ghost mut par: Seq<u32> = Seq::new(n as nat, |i: int| 0u32);
    proof {
        assert(stack@ =~= seq![(root, 0u32)]);
        lemma_dfs_init(gv, root, visited@, par);
        lemma_count_false_all(Seq::new(n as nat, |i: int| false));
        assert(visited@ =~= Seq::new(n as nat, |i: int| false).update(root as int, true));
        lemma_count_false_set(Seq::new(n as nat, |i: int| false), root as int);
    }
    while stack.len() > 0
        invariant
            gv == g@,
            g.wf(),
            n == g.spec_node_count(),
            gv.len() == n,
            graph_ok(gv),
            forall|v: int| 0 <= v < gv.len() ==> #[trigger] gv[v].len() <= u32::MAX,
            visited.len() == n,
            par.len() == n,
            forall|i: int|
                0 <= i < stack.len() ==> (#[trigger] stack[i]).0 < n && stack[i].1 <= gv[stack[i].0 as int].len(),
            dfs_inv(gv, root, visited@, stack@, post@, par),
            post.len() + stack.len() + count_false(visited@) == n,
        decreases count_false(visited@), stack_rem(gv, stack@), stack.len(),
    {
        let top = stack.len() - 1;
        let (v, next) = stack[top];
        let succ = g.successors(v);
        proof {
            lemma_stack_rem_nonneg(gv, stack@);
        }
        if (next as usize) < succ.len() {
            let ghost old_stack = stack@;
            let ghost old_visited = visited@;
            stack.set(top, (v, next + 1));
            proof {
                assert(stack@.drop_last() =~= old_stack.drop_last());
                assert(stack_rem(gv, stack@) == stack_rem(gv, old_stack) - 1);
            }
            let w = succ[next as usize];
            if !visited[w as usize] {
                proof {
                    lemma_dfs_push(gv, root, old_visited, old_stack, post@, par);
                    lemma_count_false_set(old_visited, w as int);
                    par = par.update(w as int, v);
                }
                visited.set(w as usize, true);
                stack.push((w, 0));
                proof {
                    assert(visited@ == old_visited.update(w as int, true));
                    assert(count_false(visited@) < count_false(old_visited));
                }
            } else {
                proof {
                    lemma_dfs_skip(gv, root, old_visited, old_stack, post@, par);
                    assert(count_false(visited@) == count_false(old_visited));
                    assert(stack_rem(gv, stack@) < stack_rem(gv, old_stack));
                    lemma_stack_rem_nonneg(gv, stack@);
                }
            }
        } else {
            proof {
                lemma_dfs_pop(gv, root, visited@, stack@, post@, par);
                assert(stack_rem(gv, stack@) == stack_rem(gv, stack@.drop_last()));
            }
            let ghost before = stack@;
            post.push(v);
            stack.pop();
            proof {
                assert(stack@ == before.drop_last());
                assert(stack_rem(gv, stack@) == stack_rem(gv, before));
            }
        }
    }
    proof {
        assert(stack@ =~= Seq::<(u32, u32)>::empty());
        assert(dfs_inv(gv, root, visited@, Seq::empty(), post@, par));
    }
    // Reverse the postorder.
    let len = post.len();
    let mut rpo: Vec<u32> = Vec::with_capacity(len);
    let mut i: usize = 0;
    while i < len
        invariant
            len == post.len(),
            len <= n,
            gv == g@,
            graph_ok(gv),
            gv.len() == n,
            dfs_inv(gv, root, visited@, Seq::empty(), post@, par),
            i <= len,
            rpo.len() == i,
            forall|k: int| 0 <= k < i ==> rpo[k] == post[len - 1 - k],
        decreases len - i,
    {
        rpo.push(post[len - 1 - i]);
        i += 1;
    }
    proof {
        lemma_dfs_done(gv, root, visited@, post@, par);
        assert forall|v: u32| v < n implies (rpo@.contains(v) <==> reachable(gv, root, v)) by {
            if rpo@.contains(v) {
                let k = choose|k: int| 0 <= k < rpo.len() && rpo[k] == v;
                assert(post[len - 1 - k] == v);
                assert(post@.contains(v));
            }
            if reachable(gv, root, v) {
                assert(post@.contains(v));
                let k = choose|k: int| 0 <= k < post.len() && post[k] == v;
                assert(rpo[len - 1 - k] == v);
            }
        }
        assert(rpo@.no_duplicates()) by {
            assert forall|a: int, b: int| 0 <= a < rpo.len() && 0 <= b < rpo.len() && a != b implies rpo[a] != rpo[b] by {
                assert(post[len - 1 - a] != post[len - 1 - b]);
            }
        }
        lemma_reversed_parents(gv, root, visited@, post@, par, rpo@);
        assert forall|a: int| 0 <= a < rpo.len() implies #[trigger] rpo[a] < n by {
            assert(post[len - 1 - a] < n);
        }
    }
    rpo
}


// ---------------------------------------------------------------------------
// The Cooper–Harvey–Kennedy iteration, on reverse-postorder positions.
// ---------------------------------------------------------------------------
/// `a` is `x` or an ancestor of `x` in the tree that `idom` describes, where
/// every defined parent is smaller than its child.
pub open spec fn anc(idom: Seq<u32>, a: int, x: int) -> bool
    decreases x,
{
    if !(0 <= x < idom.len()) {
        false
    } else if a == x {
        true
    } else if x == 0 || idom[x] == UNREACHABLE || idom[x] >= x {
        false
    } else {
        anc(idom, a, idom[x] as int)
    }
}

pub proof fn lemma_anc_trans(idom: Seq<u32>, c: int, b: int, a: int)
    requires
        anc(idom, c, b),
        anc(idom, b, a),
    ensures
        anc(idom, c, a),
    decreases a,
{
    if b != a {
        lemma_anc_trans(idom, c, b, idom[a] as int);
    }
}

pub proof fn lemma_anc_le(idom: Seq<u32>, a: int, x: int)
    requires
        anc(idom, a, x),
    ensures
        0 <= a <= x < idom.len(),
    decreases x,
{
    if a != x {
        lemma_anc_le(idom, a, idom[x] as int);
    }
}

/// Shape of the partial tree during the iteration: the root is its own parent,
/// every other defined parent is smaller than its child and defined itself.
pub open spec fn tree_shape(idom: Seq<u32>) -> bool {
    &&& idom.len() > 0 ==> idom[0] == 0
    &&& forall|x: int| 0 < x < idom.len() && idom[x] != UNREACHABLE ==> #[trigger] idom[x] < x
    &&& forall|x: int| 0 <= x < idom.len() && #[trigger] idom[x] != UNREACHABLE ==> idom[idom[x] as int] != UNREACHABLE
}

/// Nearest common ancestor walk of the iteration: the result is an ancestor of
/// both `a` and `b`.
fn intersect(idom: &Vec<u32>, a: u32, b: u32) -> (c: u32)
    requires
        tree_shape(idom@),
        idom.len() < u32::MAX,
        a < idom.len(),
        b < idom.len(),
        idom[a as int] != UNREACHABLE,
        idom[b as int] != UNREACHABLE,
    ensures
        c < idom.len(),
        idom[c as int] != UNREACHABLE,
        anc(idom@, c as int, a as int),
        anc(idom@, c as int, b as int),
        forall|z: int|
            #![trigger anc(idom@, z, a as int), anc(idom@, z, b as int)]
            anc(idom@, z, a as int) && anc(idom@, z, b as int) ==> anc(idom@, z, c as int),
{
    let mut x = a;
    let mut y = b;
    while x != y
        invariant
            tree_shape(idom@),
            x < idom.len(),
            y < idom.len(),
            idom[x as int] != UNREACHABLE,
            idom[y as int] != UNREACHABLE,
            anc(idom@, x as int, a as int),
            anc(idom@, y as int, b as int),
            forall|z: int|
                #![trigger anc(idom@, z, a as int), anc(idom@, z, b as int)]
                anc(idom@, z, a as int) && anc(idom@, z, b as int) ==> anc(idom@, z, x as int) && anc(
                    idom@,
                    z,
                    y as int,
                ),
        decreases x + y,
    {
        let ghost sx = x;
        let ghost sy = y;
        while x > y
            invariant
                tree_shape(idom@),
                x < idom.len(),
                y < idom.len(),
                idom[x as int] != UNREACHABLE,
                idom[y as int] != UNREACHABLE,
                anc(idom@, x as int, a as int),
                anc(idom@, y as int, b as int),
                forall|z: int|
                    #![trigger anc(idom@, z, a as int), anc(idom@, z, b as int)]
                    anc(idom@, z, a as int) && anc(idom@, z, b as int) ==> anc(idom@, z, x as int) && anc(
                        idom@,
                        z,
                        y as int,
                    ),
                x <= sx,
                y == sy,
            decreases x,
        {
            let nx = idom[x as usize];
            proof {
                assert(anc(idom@, nx as int, nx as int));
                assert(anc(idom@, nx as int, x as int));
                lemma_anc_trans(idom@, nx as int, x as int, a as int);
                assert forall|z: int|
                    #![trigger anc(idom@, z, a as int), anc(idom@, z, b as int)]
                    anc(idom@, z, a as int) && anc(idom@, z, b as int) implies anc(idom@, z, nx as int) && anc(
                        idom@,
                        z,
                        y as int,
                    ) by {
                    lemma_anc_le(idom@, z, y as int);
                }
            }
            x = nx;
        }
        let ghost x1 = x;
        while y > x
            invariant
                tree_shape(idom@),
                x < idom.len(),
                y < idom.len(),
                idom[x as int] != UNREACHABLE,
                idom[y as int] != UNREACHABLE,
                anc(idom@, x as int, a as int),
                anc(idom@, y as int, b as int),
                forall|z: int|
                    #![trigger anc(idom@, z, a as int), anc(idom@, z, b as int)]
                    anc(idom@, z, a as int) && anc(idom@, z, b as int) ==> anc(idom@, z, x as int) && anc(
                        idom@,
                        z,
                        y as int,
                    ),
                x == x1,
                y <= sy,
            decreases y,
        {
            let ny = idom[y as usize];
            proof {
                assert(anc(idom@, ny as int, ny as int));
                assert(anc(idom@, ny as int, y as int));
                lemma_anc_trans(idom@, ny as int, y as int, b as int);
                assert forall|z: int|
                    #![trigger anc(idom@, z, a as int), anc(idom@, z, b as int)]
                    anc(idom@, z, a as int) && anc(idom@, z, b as int) implies anc(idom@, z, x as int) && anc(
                        idom@,
                        z,
                        ny as int,
                    ) by {
                    lemma_anc_le(idom@, z, x as int);
                }
            }
            y = ny;
        }
        assert(x + y < sx + sy);
    }
    x
}

/// Weight of a partial tree for the termination argument: an undefined entry
/// counts as the number of entries, a defined one as its parent.
spec fn tree_measure(idom: Seq<u32>, m: int) -> int
    decreases idom.len(),
{
    if idom.len() == 0 {
        0
    } else {
        tree_measure(idom.drop_last(), m) + (if idom.last() == UNREACHABLE {
            m
        } else {
            idom.last() as int
        })
    }
}

proof fn lemma_tree_measure_update(idom: Seq<u32>, m: int, i: int, v: u32)
    requires
        0 <= i < idom.len(),
    ensures
        tree_measure(idom.update(i, v), m) == tree_measure(idom, m) - (if idom[i] == UNREACHABLE {
            m
        } else {
            idom[i] as int
        }) + (if v == UNREACHABLE {
            m
        } else {
            v as int
        }),
    decreases idom.len(),
{
    let t = idom.update(i, v);
    if i == idom.len() - 1 {
        assert(t.drop_last() =~= idom.drop_last());
    } else {
        assert(t.drop_last() =~= idom.drop_last().update(i, v));
        lemma_tree_measure_update(idom.drop_last(), m, i, v);
    }
}

proof fn lemma_tree_measure_nonneg(idom: Seq<u32>, m: int)
    requires
        m >= 0,
    ensures
        tree_measure(idom, m) >= 0,
    decreases idom.len(),
{
    if idom.len() > 0 {
        lemma_tree_measure_nonneg(idom.drop_last(), m);
    }
}

/// Position `b` has a predecessor at a smaller position.
spec fn has_earlier(off: Seq<u32>, preds: Seq<u32>, b: int) -> bool {
    exists|k: int| off[b] <= k < off[b + 1] && #[trigger] preds[k] < b
}

/// Every defined predecessor of `b` lies below `idom[b]` in the tree.
spec fn settled(idom: Seq<u32>, off: Seq<u32>, preds: Seq<u32>, b: int) -> bool {
    forall|k: int|
        off[b] <= k < off[b + 1] && idom[preds[k] as int] != UNREACHABLE ==> anc(idom, idom[b] as int, #[trigger] preds[k] as int)
}

/// Every strict dominator of the node at position `x` also dominates the node
/// at its parent's position.
spec fn edge_sound(gv: Seq<Seq<u32>>, root: u32, rpo: Seq<u32>, idom: Seq<u32>, x: int) -> bool {
    forall|d: u32|
        #[trigger] dominates(gv, root, d, rpo[x]) && d != rpo[x] ==> dominates(gv, root, d, rpo[idom[x] as int])
}

/// Every defined parent link of the partial tree is sound.
spec fn tree_sound(gv: Seq<Seq<u32>>, root: u32, rpo: Seq<u32>, idom: Seq<u32>) -> bool {
    forall|x: int| 0 < x < idom.len() && idom[x] != UNREACHABLE ==> #[trigger] edge_sound(gv, root, rpo, idom, x)
}

/// `a` is an ancestor of every defined predecessor among `preds[lo..hi]`.
spec fn common_upto(idom: Seq<u32>, preds: Seq<u32>, lo: int, hi: int, a: int) -> bool {
    forall|j: int| lo <= j < hi && idom[preds[j] as int] != UNREACHABLE ==> anc(idom, a, #[trigger] preds[j] as int)
}

/// Each predecessor in the row of `b` is the source of an edge into `b`.
spec fn rows_sound(gv: Seq<Seq<u32>>, rpo: Seq<u32>, off: Seq<u32>, preds: Seq<u32>, m: int) -> bool {
    forall|b: int, k: int| 0 <= b < m && off[b] <= k < off[b + 1] ==> #[trigger] edge(gv, rpo[preds[k] as int], rpo[b])
}

pub proof fn lemma_dom_self(gv: Seq<Seq<u32>>, root: u32, v: u32)
    ensures
        dominates(gv, root, v, v),
{
    assert forall|p: Seq<u32>| #[trigger] path_between(gv, p, root, v) implies p.contains(v) by {
        assert(p[p.len() - 1] == v);
    }
}

/// A strict dominator of `v` dominates each predecessor of `v`.
pub proof fn lemma_dom_pred(gv: Seq<Seq<u32>>, root: u32, d: u32, u: u32, v: u32)
    requires
        edge(gv, u, v),
        dominates(gv, root, d, v),
        d != v,
    ensures
        dominates(gv, root, d, u),
{
    assert forall|p: Seq<u32>| #[trigger] path_between(gv, p, root, u) implies p.contains(d) by {
        let q = p.push(v);
        assert forall|i: int| 0 <= i < q.len() - 1 implies #[trigger] step_ok(gv, q, i) by {
            if i < p.len() - 1 {
                assert(step_ok(gv, p, i));
            }
        }
        assert forall|i: int| 0 <= i < q.len() implies #[trigger] q[i] < gv.len() by {
            if i < p.len() {
                assert(p[i] < gv.len());
            }
        }
        assert(path_between(gv, q, root, v));
        assert(q.contains(d));
        let i = choose|i: int| 0 <= i < q.len() && q[i] == d;
        assert(i < p.len());
        assert(p[i] == d);
    }
}

/// Dominance is transitive.
pub proof fn lemma_dom_trans(gv: Seq<Seq<u32>>, root: u32, a: u32, w: u32, v: u32)
    requires
        dominates(gv, root, a, w),
        dominates(gv, root, w, v),
    ensures
        dominates(gv, root, a, v),
{
    assert forall|p: Seq<u32>| #[trigger] path_between(gv, p, root, v) implies p.contains(a) by {
        assert(p.contains(w));
        let i = choose|i: int| 0 <= i < p.len() && p[i] == w;
        let q = p.subrange(0, i + 1);
        assert forall|k: int| 0 <= k < q.len() - 1 implies #[trigger] step_ok(gv, q, k) by {
            assert(step_ok(gv, p, k));
        }
        assert forall|k: int| 0 <= k < q.len() implies #[trigger] q[k] < gv.len() by {
            assert(p[k] < gv.len());
        }
        assert(path_between(gv, q, root, w));
        assert(q.contains(a));
        let k = choose|k: int| 0 <= k < q.len() && q[k] == a;
        assert(p[k] == a);
    }
}

/// What dominates a reachable node is reachable.
pub proof fn lemma_dom_reachable(gv: Seq<Seq<u32>>, root: u32, a: u32, v: u32)
    requires
        reachable(gv, root, v),
        dominates(gv, root, a, v),
    ensures
        reachable(gv, root, a),
{
    let p = choose|p: Seq<u32>| #[trigger] path_between(gv, p, root, v);
    assert(p.contains(a));
    let i = choose|i: int| 0 <= i < p.len() && p[i] == a;
    let q = p.subrange(0, i + 1);
    assert forall|k: int| 0 <= k < q.len() - 1 implies #[trigger] step_ok(gv, q, k) by {
        assert(step_ok(gv, p, k));
    }
    assert forall|k: int| 0 <= k < q.len() implies #[trigger] q[k] < gv.len() by {
        assert(p[k] < gv.len());
    }
    assert(path_between(gv, q, root, a));
}

/// Climbing from `u` to its ancestor `q` in a sound partial tree: a node that
/// dominates `u` either sits on the climb below `q` or dominates `q`.
proof fn lemma_chain(gv: Seq<Seq<u32>>, root: u32, rpo: Seq<u32>, idom: Seq<u32>, q: int, u: int, d: u32)
    requires
        tree_shape(idom),
        idom.len() == rpo.len(),
        tree_sound(gv, root, rpo, idom),
        0 <= u < idom.len(),
        idom[u] != UNREACHABLE,
        anc(idom, q, u),
        dominates(gv, root, d, rpo[u]),
    ensures
        dominates(gv, root, d, rpo[q]) || exists|pd: int|
            0 <= pd < rpo.len() && rpo[pd] == d && anc(idom, pd, u) && anc(idom, q, pd) && pd != q,
    decreases u,
{
    if u != q {
        let p = idom[u] as int;
        assert(u != 0);
        assert(p < u);
        assert(anc(idom, q, p));
        assert(anc(idom, p, u)) by {
            assert(anc(idom, p, p));
        }
        if d == rpo[u] {
            assert(anc(idom, u, u));
        } else {
            assert(edge_sound(gv, root, rpo, idom, u));
            assert(dominates(gv, root, d, rpo[p]));
            lemma_chain(gv, root, rpo, idom, q, p, d);
            if !dominates(gv, root, d, rpo[q]) {
                let pd = choose|pd: int|
                    0 <= pd < rpo.len() && rpo[pd] == d && anc(idom, pd, p) && anc(idom, q, pd) && pd != q;
                lemma_anc_trans(idom, pd, p, u);
            }
        }
    }
}

/// Hanging position `b` under `q`, the lowest common ancestor of its defined
/// predecessors and of its previous parent, keeps the partial tree sound.
proof fn lemma_new_parent_sound(
    gv: Seq<Seq<u32>>,
    root: u32,
    rpo: Seq<u32>,
    idom: Seq<u32>,
    off: Seq<u32>,
    preds: Seq<u32>,
    b: int,
    q: int,
    witness: int,
)
    requires
        tree_shape(idom),
        idom.len() == rpo.len(),
        tree_sound(gv, root, rpo, idom),
        rpo.no_duplicates(),
        idom.len() < u32::MAX,
        0 < b < idom.len(),
        off.len() == idom.len() + 1,
        off[b] <= off[b + 1] <= preds.len(),
        forall|k: int| off[b] <= k < off[b + 1] ==> #[trigger] preds[k] < idom.len(),
        forall|k: int| off[b] <= k < off[b + 1] ==> #[trigger] edge(gv, rpo[preds[k] as int], rpo[b]),
        0 <= q < idom.len(),
        idom[q] != UNREACHABLE,
        off[b] <= witness < off[b + 1],
        idom[preds[witness] as int] != UNREACHABLE,
        common_upto(idom, preds, off[b] as int, off[b + 1] as int, q),
        idom[b] != UNREACHABLE ==> anc(idom, q, idom[b] as int),
        forall|a: int|
            #[trigger] common_upto(idom, preds, off[b] as int, off[b + 1] as int, a) && (idom[b] != UNREACHABLE
                ==> anc(idom, a, idom[b] as int)) ==> anc(idom, a, q),
    ensures
        edge_sound(gv, root, rpo, idom.update(b, q as u32), b),
{
    let t = idom.update(b, q as u32);
    let lo = off[b] as int;
    let hi = off[b + 1] as int;
    assert forall|d: u32| #[trigger] dominates(gv, root, d, rpo[b]) && d != rpo[b] implies dominates(
        gv,
        root,
        d,
        rpo[t[b] as int],
    ) by {
        assert(t[b] as int == q);
        if !dominates(gv, root, d, rpo[q]) {
            let u0 = preds[witness] as int;
            assert(edge(gv, rpo[u0], rpo[b]));
            if d == rpo[u0] {
                lemma_dom_self(gv, root, d);
            } else {
                lemma_dom_pred(gv, root, d, rpo[u0], rpo[b]);
            }
            assert(anc(idom, q, u0));
            lemma_chain(gv, root, rpo, idom, q, u0, d);
            let pd = choose|pd: int|
                0 <= pd < rpo.len() && rpo[pd] == d && anc(idom, pd, u0) && anc(idom, q, pd) && pd != q;
            assert forall|j: int| lo <= j < hi && idom[preds[j] as int] != UNREACHABLE implies anc(
                idom,
                pd,
                #[trigger] preds[j] as int,
            ) by {
                let u = preds[j] as int;
                assert(edge(gv, rpo[u], rpo[b]));
                if d == rpo[u] {
                    lemma_dom_self(gv, root, d);
                } else {
                    lemma_dom_pred(gv, root, d, rpo[u], rpo[b]);
                }
                assert(anc(idom, q, u));
                lemma_chain(gv, root, rpo, idom, q, u, d);
                let pe = choose|pe: int|
                    0 <= pe < rpo.len() && rpo[pe] == d && anc(idom, pe, u) && anc(idom, q, pe) && pe != q;
                assert(pe == pd);
            }
            assert(common_upto(idom, preds, lo, hi, pd));
            if idom[b] != UNREACHABLE {
                let ob = idom[b] as int;
                assert(edge_sound(gv, root, rpo, idom, b));
                assert(dominates(gv, root, d, rpo[ob]));
                lemma_chain(gv, root, rpo, idom, q, ob, d);
                let pe = choose|pe: int|
                    0 <= pe < rpo.len() && rpo[pe] == d && anc(idom, pe, ob) && anc(idom, q, pe) && pe != q;
                assert(pe == pd);
            }
            assert(anc(idom, pd, q));
            lemma_anc_le(idom, pd, q);
            lemma_anc_le(idom, q, pd);
        }
    }
}

/// The root position is an ancestor of every position once all are defined.
proof fn lemma_anc_root(idom: Seq<u32>, x: int)
    requires
        tree_shape(idom),
        0 <= x < idom.len(),
        forall|y: int| 0 <= y < idom.len() ==> #[trigger] idom[y] != UNREACHABLE,
    ensures
        anc(idom, 0, x),
    decreases x,
{
    if x != 0 {
        assert(idom[x] != UNREACHABLE);
        lemma_anc_root(idom, idom[x] as int);
    }
}

pub fn fill_u32(len: usize, x: u32) -> (v: Vec<u32>)
    ensures
        v.len() == len,
        forall|i: int| 0 <= i < len ==> v[i] == x,
{
    let mut v: Vec<u32> = Vec::with_capacity(len);
    let mut i: usize = 0;
    while i < len
        invariant
            i <= len,
            v.len() == i,
            forall|j: int| 0 <= j < i ==> v[j] == x,
        decreases len - i,
    {
        v.push(x);
        i += 1;
    }
    v
}

/// Runs the iteration to a fixed point on positions `0..m`, where position 0
/// is the root and every other position has a predecessor before it. Each
/// update also meets the previous value, so a parent only ever moves up.
fn idom_positions(
    m: usize,
    off: &Vec<u32>,
    preds: &Vec<u32>,
    Ghost(gv): Ghost<Seq<Seq<u32>>>,
    Ghost(rpo): Ghost<Seq<u32>>,
    Ghost(root): Ghost<u32>,
) -> (idom: Vec<u32>)
    requires
        m < u32::MAX,
        off.len() == m + 1,
        forall|a: int, b: int| 0 <= a <= b <= m ==> off[a] <= off[b],
        off[m as int] == preds.len(),
        forall|k: int| 0 <= k < preds.len() ==> #[trigger] preds[k] < m,
        forall|b: int| 1 <= b < m ==> #[trigger] has_earlier(off@, preds@, b),
        rpo.len() == m,
        rpo.no_duplicates(),
        rows_sound(gv, rpo, off@, preds@, m as int),
    ensures
        idom.len() == m,
        tree_sound(gv, root, rpo, idom@),
        tree_shape(idom@),
        forall|x: int| 0 <= x < m ==> #[trigger] idom[x] != UNREACHABLE,
        forall|b: int| 1 <= b < m ==> #[trigger] settled(idom@, off@, preds@, b),
{
    let mut idom = fill_u32(m, UNREACHABLE);
    if m == 0 {
        return idom;
    }
    idom.set(0, 0);
    let mut changed = true;
    let ghost mut passed = false;
    proof {
        lemma_tree_measure_nonneg(idom@, m as int);
    }
    while changed
        invariant
            m < u32::MAX,
            m > 0,
            off.len() == m + 1,
            forall|a: int, b: int| 0 <= a <= b <= m ==> off[a] <= off[b],
            off[m as int] == preds.len(),
            forall|k: int| 0 <= k < preds.len() ==> #[trigger] preds[k] < m,
            forall|b: int| 1 <= b < m ==> #[trigger] has_earlier(off@, preds@, b),
            idom.len() == m,
            tree_shape(idom@),
            passed ==> forall|x: int| 0 <= x < m ==> #[trigger] idom[x] != UNREACHABLE,
            !changed ==> passed && forall|b: int| 1 <= b < m ==> #[trigger] settled(idom@, off@, preds@, b),
            rpo.len() == m,
            rpo.no_duplicates(),
            rows_sound(gv, rpo, off@, preds@, m as int),
            tree_sound(gv, root, rpo, idom@),
        decreases tree_measure(idom@, m as int) + (if changed { 1int } else { 0int }),
    {
        changed = false;
        let ghost start = idom@;
        let ghost start_measure = tree_measure(idom@, m as int);
        let mut b: usize = 1;
        while b < m
            invariant
                m < u32::MAX,
                m > 0,
                off.len() == m + 1,
                forall|a: int, c: int| 0 <= a <= c <= m ==> off[a] <= off[c],
                off[m as int] == preds.len(),
                forall|k: int| 0 <= k < preds.len() ==> #[trigger] preds[k] < m,
                forall|c: int| 1 <= c < m ==> #[trigger] has_earlier(off@, preds@, c),
                1 <= b <= m,
                idom.len() == m,
                tree_shape(idom@),
                forall|x: int| 0 <= x < b ==> #[trigger] idom[x] != UNREACHABLE,
                passed ==> forall|x: int| 0 <= x < m ==> #[trigger] idom[x] != UNREACHABLE,
                start_measure == tree_measure(start, m as int),
                changed ==> tree_measure(idom@, m as int) < start_measure,
                !changed ==> idom@ == start,
                !changed ==> forall|c: int| 1 <= c < b ==> #[trigger] settled(idom@, off@, preds@, c),
                rpo.len() == m,
                rpo.no_duplicates(),
                rows_sound(gv, rpo, off@, preds@, m as int),
                tree_sound(gv, root, rpo, idom@),
            decreases m - b,
        {
            let mut new_idom = UNREACHABLE;
            let lo = off[b] as usize;
            let hi = off[b + 1] as usize;
            let mut k = lo;
            proof {
                assert(has_earlier(off@, preds@, b as int));
            }
            let ghost witness = choose|k: int| off[b as int] <= k < off[b as int + 1] && #[trigger] preds[k] < b;
            while k < hi
                invariant
                    lo <= k <= hi,
                    hi <= preds.len(),
                    off.len() == m + 1,
                    lo == off[b as int],
                    hi == off[b as int + 1],
                    b < m,
                    m < u32::MAX,
                    idom.len() == m,
                    tree_shape(idom@),
                    forall|j: int| 0 <= j < preds.len() ==> #[trigger] preds[j] < m,
                    forall|x: int| 0 <= x < b ==> #[trigger] idom[x] != UNREACHABLE,
                    lo <= witness < hi,
                    preds[witness] < b,
                    new_idom != UNREACHABLE ==> new_idom < m && idom[new_idom as int] != UNREACHABLE,
                    forall|j: int|
                        lo <= j < k && idom[preds[j] as int] != UNREACHABLE ==> anc(idom@, new_idom as int, #[trigger] preds[j] as int),
                    k > witness ==> new_idom != UNREACHABLE && new_idom < b,
                    forall|a: int|
                        #[trigger] common_upto(idom@, preds@, lo as int, k as int, a) && new_idom != UNREACHABLE
                            ==> anc(idom@, a, new_idom as int),
                decreases hi - k,
            {
                let p = preds[k];
                if idom[p as usize] != UNREACHABLE {
                    if new_idom == UNREACHABLE {
                        new_idom = p;
                        proof {
                            assert forall|a: int| #[trigger] common_upto(idom@, preds@, lo as int, k + 1, a) implies anc(
                                idom@,
                                a,
                                new_idom as int,
                            ) by {
                                assert(anc(idom@, a, preds[k as int] as int));
                            }
                            assert forall|j: int|
                                lo <= j < k + 1 && idom[preds[j] as int] != UNREACHABLE implies anc(idom@, new_idom as int, #[trigger] preds[j] as int) by {
                                if j < k {
                                    assert(anc(idom@, UNREACHABLE as int, preds[j] as int));
                                    lemma_anc_le(idom@, UNREACHABLE as int, preds[j] as int);
                                }
                            }
                            if k >= witness {
                                if k > witness {
                                    assert(anc(idom@, UNREACHABLE as int, preds[witness] as int));
                                    lemma_anc_le(idom@, UNREACHABLE as int, preds[witness] as int);
                                }
                            }
                        }
                    } else {
                        let c = intersect(&idom, p, new_idom);
                        proof {
                            assert forall|a: int| #[trigger] common_upto(idom@, preds@, lo as int, k + 1, a) implies anc(
                                idom@,
                                a,
                                c as int,
                            ) by {
                                assert(common_upto(idom@, preds@, lo as int, k as int, a));
                                assert(anc(idom@, a, new_idom as int));
                                assert(anc(idom@, a, preds[k as int] as int));
                            }
                            assert forall|j: int|
                                lo <= j < k + 1 && idom[preds[j] as int] != UNREACHABLE implies anc(idom@, c as int, #[trigger] preds[j] as int) by {
                                if j < k {
                                    lemma_anc_trans(idom@, c as int, new_idom as int, preds[j] as int);
                                }
                            }
                            if k >= witness {
                                if k == witness {
                                    lemma_anc_le(idom@, c as int, p as int);
                                } else {
                                    lemma_anc_le(idom@, c as int, new_idom as int);
                                }
                            }
                        }
                        new_idom = c;
                    }
                } else {
                    proof {
                        assert(k != witness);
                        assert forall|a: int| #[trigger] common_upto(idom@, preds@, lo as int, k + 1, a) implies (new_idom
                            != UNREACHABLE ==> anc(idom@, a, new_idom as int)) by {
                            assert(common_upto(idom@, preds@, lo as int, k as int, a));
                        }
                    }
                }
                k += 1;
            }
            let old_b = idom[b];
            proof {
                assert(common_upto(idom@, preds@, lo as int, hi as int, new_idom as int));
            }
            if old_b != UNREACHABLE {
                let c = intersect(&idom, new_idom, old_b);
                proof {
                    assert forall|a: int|
                        #[trigger] common_upto(idom@, preds@, lo as int, hi as int, a) && anc(idom@, a, old_b as int)
                            implies anc(idom@, a, c as int) by {
                        assert(anc(idom@, a, new_idom as int));
                    }
                    assert forall|j: int| lo <= j < hi && idom[preds[j] as int] != UNREACHABLE implies anc(
                        idom@,
                        c as int,
                        #[trigger] preds[j] as int,
                    ) by {
                        lemma_anc_trans(idom@, c as int, new_idom as int, preds[j] as int);
                    }
                    assert forall|j: int|
                        lo <= j < hi && idom[preds[j] as int] != UNREACHABLE implies anc(idom@, c as int, #[trigger] preds[j] as int) by {
                        lemma_anc_trans(idom@, c as int, new_idom as int, preds[j] as int);
                    }
                    lemma_anc_le(idom@, c as int, new_idom as int);
                    lemma_anc_le(idom@, c as int, old_b as int);
                }
                new_idom = c;
            }
            proof {
                assert forall|a: int|
                    #[trigger] common_upto(idom@, preds@, lo as int, hi as int, a) && (old_b != UNREACHABLE ==> anc(
                        idom@,
                        a,
                        old_b as int,
                    )) implies anc(idom@, a, new_idom as int) by {
                    if old_b == UNREACHABLE {
                        assert(anc(idom@, a, new_idom as int));
                    }
                }
            }
            if idom[b] != new_idom {
                let ghost before = idom@;
                proof {
                    assert forall|k2: int| off[b as int] <= k2 < off[b + 1] implies #[trigger] edge(
                        gv,
                        rpo[preds[k2] as int],
                        rpo[b as int],
                    ) by {}
                    lemma_new_parent_sound(gv, root, rpo, before, off@, preds@, b as int, new_idom as int, witness);
                }
                idom.set(b, new_idom);
                proof {
                    assert forall|x: int| 0 < x < idom.len() && idom[x] != UNREACHABLE implies #[trigger] edge_sound(
                        gv,
                        root,
                        rpo,
                        idom@,
                        x,
                    ) by {
                        if x != b {
                            assert(edge_sound(gv, root, rpo, before, x));
                        } else {
                            assert(idom@ == before.update(b as int, new_idom));
                        }
                    }
                    lemma_tree_measure_update(before, m as int, b as int, new_idom);
                    assert(new_idom != UNREACHABLE);
                    if old_b != UNREACHABLE {
                        assert(new_idom < old_b);
                    } else {
                        assert(new_idom < b);
                    }
                    assert(tree_measure(idom@, m as int) < tree_measure(before, m as int));
                    assert(tree_measure(before, m as int) <= start_measure);
                    assert forall|x: int| 0 <= x < idom.len() && #[trigger] idom[x] != UNREACHABLE implies idom[idom[x] as int] != UNREACHABLE by {
                        if x != b {
                            assert(before[x] != UNREACHABLE);
                        }
                    }
                }
                changed = true;
            } else {
                proof {
                    if !changed {
                        assert(settled(idom@, off@, preds@, b as int));
                    }
                }
            }
            b += 1;
        }
        proof {
            passed = true;
            lemma_tree_measure_nonneg(idom@, m as int);
        }
    }
    idom
}


// ---------------------------------------------------------------------------
// Dominator trees.
// ---------------------------------------------------------------------------
/// Sum of the out-degrees of the nodes below `k` whose flag is set.
spec fn flagged_degree(g: Seq<Seq<u32>>, flags: Seq<bool>, k: int) -> int
    decreases k,
{
    if k <= 0 {
        0
    } else {
        flagged_degree(g, flags, k - 1) + (if flags[k - 1] {
            g[k - 1].len() as int
        } else {
            0int
        })
    }
}

/// Sum of the out-degrees of the nodes below `k`.
spec fn total_degree(g: Seq<Seq<u32>>, k: int) -> int
    decreases k,
{
    if k <= 0 {
        0
    } else {
        total_degree(g, k - 1) + g[k - 1].len()
    }
}

proof fn lemma_flagged_set(g: Seq<Seq<u32>>, flags: Seq<bool>, v: int, k: int)
    requires
        0 <= v < flags.len(),
        !flags[v],
        k <= flags.len(),
    ensures
        flagged_degree(g, flags.update(v, true), k) == flagged_degree(g, flags, k) + (if v < k {
            g[v].len() as int
        } else {
            0int
        }),
    decreases k,
{
    if k > 0 {
        lemma_flagged_set(g, flags, v, k - 1);
    }
}

proof fn lemma_flagged_le_total(g: Seq<Seq<u32>>, flags: Seq<bool>, k: int)
    ensures
        flagged_degree(g, flags, k) <= total_degree(g, k),
    decreases k,
{
    if k > 0 {
        lemma_flagged_le_total(g, flags, k - 1);
    }
}

proof fn lemma_flagged_none(g: Seq<Seq<u32>>, flags: Seq<bool>, k: int)
    requires
        forall|i: int| 0 <= i < flags.len() ==> !flags[i],
        k <= flags.len(),
    ensures
        flagged_degree(g, flags, k) == 0,
    decreases k,
{
    if k > 0 {
        lemma_flagged_none(g, flags, k - 1);
    }
}

impl Graph {
    /// The out-degrees add up to the number of edges.
    proof fn lemma_total_degree(&self, k: int)
        requires
            self.wf(),
            0 <= k <= self.spec_node_count(),
        ensures
            total_degree(self@, k) == self.offsets[k],
        decreases k,
    {
        if k > 0 {
            self.lemma_total_degree(k - 1);
        }
    }
}

/// `x` is in the predecessor row of position `b`.
spec fn in_row(off: Seq<u32>, preds: Seq<u32>, b: int, x: u32) -> bool {
    exists|k: int| off[b] <= k < off[b + 1] && #[trigger] preds[k] == x
}

/// Position of each node in `rpo`, or `UNREACHABLE` for nodes not in it.
fn positions(rpo: &Vec<u32>, n: usize) -> (order: Vec<u32>)
    requires
        n < u32::MAX,
        rpo.len() <= n,
        rpo@.no_duplicates(),
        forall|i: int| 0 <= i < rpo.len() ==> #[trigger] rpo[i] < n,
    ensures
        order.len() == n,
        forall|i: int| 0 <= i < rpo.len() ==> #[trigger] order[rpo[i] as int] == i,
        forall|v: int|
            0 <= v < n ==> (#[trigger] order[v] == UNREACHABLE <==> !rpo@.contains(v as u32)),
        forall|v: int|
            0 <= v < n && #[trigger] order[v] != UNREACHABLE ==> order[v] < rpo.len() && rpo[order[v] as int] == v,
{
    let mut order = fill_u32(n, UNREACHABLE);
    let mut i: usize = 0;
    while i < rpo.len()
        invariant
            n < u32::MAX,
            rpo.len() <= n,
            rpo@.no_duplicates(),
            forall|k: int| 0 <= k < rpo.len() ==> #[trigger] rpo[k] < n,
            i <= rpo.len(),
            order.len() == n,
            forall|k: int| 0 <= k < i ==> #[trigger] order[rpo[k] as int] == k,
            forall|v: int|
                0 <= v < n && #[trigger] order[v] != UNREACHABLE ==> order[v] < i && rpo[order[v] as int] == v,
        decreases rpo.len() - i,
    {
        let v = rpo[i];
        let ghost before = order@;
        order.set(v as usize, i as u32);
        proof {
            assert forall|k: int| 0 <= k < i + 1 implies #[trigger] order[rpo[k] as int] == k by {
                if k < i {
                    assert(rpo[k] != rpo[i as int]);
                }
            }
            assert forall|x: int|
                0 <= x < n && #[trigger] order[x] != UNREACHABLE implies order[x] < i + 1 && rpo[order[x] as int] == x by {
                if x != v {
                    assert(before[x] == order[x]);
                }
            }
        }
        i += 1;
    }
    proof {
        assert forall|v: int| 0 <= v < n implies (#[trigger] order[v] == UNREACHABLE <==> !rpo@.contains(v as u32)) by {
            if rpo@.contains(v as u32) {
                let k = choose|k: int| 0 <= k < rpo.len() && rpo[k] == v as u32;
                assert(order[rpo[k] as int] == k);
            }
            if order[v] != UNREACHABLE {
                assert(rpo[order[v] as int] == v);
            }
        }
    }
    order
}

/// Pair `(order[w], i)` for the edge `rpo[i] -> rpo[i]`'s `j`-th successor `w`.
spec fn pair_present(pairs: Seq<(u32, u32)>, gv: Seq<Seq<u32>>, rpo: Seq<u32>, order: Seq<u32>, i: int, j: int) -> bool {
    pairs.contains((order[gv[rpo[i] as int][j] as int], i as u32))
}

/// Pair `k` stands for an edge from the node at its second position to the
/// node at its first.
spec fn pair_edge(pairs: Seq<(u32, u32)>, gv: Seq<Seq<u32>>, rpo: Seq<u32>, k: int) -> bool {
    edge(gv, rpo[pairs[k].1 as int], rpo[pairs[k].0 as int])
}

/// Every edge between reached nodes, as `(position of target, position of source)`.
fn predecessor_pairs(g: &Graph, root: u32, rpo: &Vec<u32>, order: &Vec<u32>) -> (pairs: Vec<(u32, u32)>)
    requires
        g.wf(),
        root < g.spec_node_count(),
        rpo.len() <= g.spec_node_count(),
        rpo@.no_duplicates(),
        forall|i: int| 0 <= i < rpo.len() ==> #[trigger] rpo[i] < g.spec_node_count(),
        forall|v: u32| v < g.spec_node_count() ==> (rpo@.contains(v) <==> reachable(g@, root, v)),
        order.len() == g.spec_node_count(),
        forall|i: int| 0 <= i < rpo.len() ==> #[trigger] order[rpo[i] as int] == i,
        forall|v: int|
            0 <= v < order.len() ==> (#[trigger] order[v] == UNREACHABLE <==> !rpo@.contains(v as u32)),
        forall|v: int|
            0 <= v < order.len() && #[trigger] order[v] != UNREACHABLE ==> order[v] < rpo.len() && rpo[order[v] as int] == v,
    ensures
        pairs.len() <= u32::MAX,
        forall|k: int| 0 <= k < pairs.len() ==> (#[trigger] pairs[k]).0 < rpo.len() && pairs[k].1 < rpo.len(),
        forall|i: int, j: int|
            0 <= i < rpo.len() && 0 <= j < g@[rpo[i] as int].len() ==> #[trigger] pair_present(pairs@, g@, rpo@, order@, i, j),
        forall|k: int| 0 <= k < pairs.len() ==> #[trigger] pair_edge(pairs@, g@, rpo@, k),
{
    proof {
        g.lemma_wf();
        g.lemma_total_degree(g.spec_node_count() as int);
    }
    let ghost gv = g@;
    let ghost n = g.spec_node_count() as int;
    let m = rpo.len();
    let mut pairs: Vec<(u32, u32)> = Vec::new();
    let ghost mut flags: Seq<bool> = Seq::new(n as nat, |i: int| false);
    proof {
        lemma_flagged_none(gv, flags, n);
    }
    let mut i: usize = 0;
    while i < m
        invariant
            gv == g@,
            g.wf(),
            n == g.spec_node_count(),
            gv.len() == n,
            n < u32::MAX,
            m == rpo.len(),
            m <= n,
            i <= m,
            forall|v: int, j: int| 0 <= v < gv.len() && 0 <= j < gv[v].len() ==> #[trigger] gv[v][j] < gv.len(),
            rpo@.no_duplicates(),
            forall|k: int| 0 <= k < rpo.len() ==> #[trigger] rpo[k] < n,
            forall|v: u32| v < n ==> (rpo@.contains(v) <==> reachable(gv, root, v)),
            order.len() == n,
            forall|k: int| 0 <= k < rpo.len() ==> #[trigger] order[rpo[k] as int] == k,
            forall|v: int| 0 <= v < order.len() ==> (#[trigger] order[v] == UNREACHABLE <==> !rpo@.contains(v as u32)),
            forall|v: int| 0 <= v < order.len() && #[trigger] order[v] != UNREACHABLE ==> order[v] < rpo.len() && rpo[order[v] as int] == v,
            flags.len() == n,
            forall|k: int| 0 <= k < i ==> #[trigger] flags[rpo[k] as int],
            forall|v: int| 0 <= v < n && #[trigger] flags[v] ==> exists|k: int| 0 <= k < i && rpo[k] == v,
            pairs.len() == flagged_degree(gv, flags, n),
            total_degree(gv, n) <= u32::MAX,
            forall|k: int| 0 <= k < pairs.len() ==> (#[trigger] pairs[k]).0 < m && pairs[k].1 < m,
            forall|a: int, j: int|
                0 <= a < i && 0 <= j < gv[rpo[a] as int].len() ==> #[trigger] pair_present(pairs@, gv, rpo@, order@, a, j),
            forall|k: int| 0 <= k < pairs.len() ==> #[trigger] pair_edge(pairs@, gv, rpo@, k),
        decreases m - i,
    {
        let v = rpo[i];
        let succ = g.successors(v);
        let ghost base = pairs.len();
        proof {
            assert(rpo@.contains(v)) by {
                assert(rpo[i as int] == v);
            }
            assert(!flags[v as int]) by {
                if flags[v as int] {
                    let k = choose|k: int| 0 <= k < i && rpo[k] == v;
                    assert(rpo[k] == rpo[i as int]);
                }
            }
        }
        let mut j: usize = 0;
        while j < succ.len()
            invariant
                gv == g@,
                succ@ == gv[v as int],
                v == rpo[i as int],
                v < n,
                i < m,
                m <= n,
                n < u32::MAX,
                m == rpo.len(),
                gv.len() == n,
                forall|x: int, y: int| 0 <= x < gv.len() && 0 <= y < gv[x].len() ==> #[trigger] gv[x][y] < gv.len(),
                reachable(gv, root, v),
                forall|u: u32| u < n ==> (rpo@.contains(u) <==> reachable(gv, root, u)),
                order.len() == n,
                forall|x: int| 0 <= x < order.len() ==> (#[trigger] order[x] == UNREACHABLE <==> !rpo@.contains(x as u32)),
                forall|x: int| 0 <= x < order.len() && #[trigger] order[x] != UNREACHABLE ==> order[x] < rpo.len() && rpo[order[x] as int] == x,
                j <= succ.len(),
                pairs.len() == base + j,
                forall|k: int| 0 <= k < pairs.len() ==> (#[trigger] pairs[k]).0 < m && pairs[k].1 < m,
                forall|a: int, y: int|
                    0 <= a < i && 0 <= y < gv[rpo[a] as int].len() ==> #[trigger] pair_present(pairs@, gv, rpo@, order@, a, y),
                forall|y: int| 0 <= y < j ==> #[trigger] pair_present(pairs@, gv, rpo@, order@, i as int, y),
                forall|k: int| 0 <= k < pairs.len() ==> #[trigger] pair_edge(pairs@, gv, rpo@, k),
            decreases succ.len() - j,
        {
            let w = succ[j];
            proof {
                assert(edge(gv, v, w)) by {
                    assert(gv[v as int][j as int] == w);
                }
                lemma_reach_step(gv, root, v, w);
                assert(order[w as int] != UNREACHABLE);
            }
            let ghost before = pairs@;
            pairs.push((order[w as usize], i as u32));
            proof {
                assert forall|k: int| 0 <= k < pairs.len() implies #[trigger] pair_edge(pairs@, gv, rpo@, k) by {
                    if k < before.len() {
                        assert(pair_edge(before, gv, rpo@, k));
                        assert(pairs@[k] == before[k]);
                        assert(pair_edge(pairs@, gv, rpo@, k));
                    } else {
                        assert(pairs@[k] == (order[w as int], i as u32));
                        assert(rpo[order[w as int] as int] == w);
                        assert(rpo[i as int] == v);
                        assert(edge(gv, v, w));
                        assert(pair_edge(pairs@, gv, rpo@, k));
                    }
                }
                assert forall|a: int, y: int|
                    0 <= a < i && 0 <= y < gv[rpo[a] as int].len() implies #[trigger] pair_present(pairs@, gv, rpo@, order@, a, y) by {
                    assert(pair_present(before, gv, rpo@, order@, a, y));
                    let k = choose|k: int| 0 <= k < before.len() && before[k] == (order[gv[rpo[a] as int][y] as int], a as u32);
                    assert(pairs@[k] == before[k]);
                }
                assert forall|y: int| 0 <= y < j + 1 implies #[trigger] pair_present(pairs@, gv, rpo@, order@, i as int, y) by {
                    if y < j {
                        assert(pair_present(before, gv, rpo@, order@, i as int, y));
                        let k = choose|k: int| 0 <= k < before.len() && before[k] == (order[gv[rpo[i as int] as int][y] as int], i as u32);
                        assert(pairs@[k] == before[k]);
                        assert(pair_edge(pairs@, gv, rpo@, k));
                    } else {
                        assert(pairs@[pairs.len() - 1] == (order[gv[rpo[i as int] as int][y] as int], i as u32));
                    }
                }
            }
            j += 1;
        }
        proof {
            lemma_flagged_set(gv, flags, v as int, n);
            flags = flags.update(v as int, true);
            assert forall|k: int| 0 <= k < i + 1 implies #[trigger] flags[rpo[k] as int] by {}
            assert forall|x: int| 0 <= x < n && #[trigger] flags[x] implies exists|k: int| 0 <= k < i + 1 && rpo[k] == x by {
                if x != v {
                    let k = choose|k: int| 0 <= k < i && rpo[k] == x;
                    assert(rpo[k] == x);
                } else {
                    assert(rpo[i as int] == x);
                }
            }
        }
        i += 1;
    }
    proof {
        lemma_flagged_le_total(gv, flags, n);
    }
    pairs
}

/// A dominator tree: the parent of each node, and the nodes the root reaches
/// in reverse postorder.
#[derive(Clone, Debug)]
pub struct Dominators {
    /// Immediate dominator per node; the root maps to itself and nodes not
    /// reachable from the root map to [`UNREACHABLE`].
    pub idom: Vec<u32>,
    /// Reachable nodes in reverse postorder. Every node appears after its
    /// immediate dominator.
    pub rpo: Vec<u32>,
}

/// The parent of `rpo[i]` sits at an earlier position of `rpo`.
pub open spec fn parent_earlier(rpo: Seq<u32>, idom: Seq<u32>, i: int) -> bool {
    exists|j: int| 0 <= j < i && rpo[j] == idom[rpo[i] as int]
}

impl Dominators {
    /// The shape of a tree that `dominators` returns: `rpo` lists each node
    /// with a parent once, starting with the root, which is its own parent;
    /// every other node's parent comes earlier; the other entries are
    /// `UNREACHABLE`.
    pub open spec fn wf(&self) -> bool {
        &&& self.idom.len() < u32::MAX
        &&& self.rpo.len() <= self.idom.len()
        &&& self.rpo@.no_duplicates()
        &&& forall|i: int| 0 <= i < self.rpo.len() ==> #[trigger] self.rpo[i] < self.idom.len()
        &&& self.rpo.len() > 0 ==> self.idom[self.rpo[0] as int] == self.rpo[0]
        &&& forall|i: int| 1 <= i < self.rpo.len() ==> #[trigger] parent_earlier(self.rpo@, self.idom@, i)
        &&& forall|v: int|
            0 <= v < self.idom.len() ==> (#[trigger] self.idom[v] == UNREACHABLE <==> !self.rpo@.contains(v as u32))
    }
}

/// Every path from the root to a reached node passes through each of the
/// node's ancestors in the tree of positions.
proof fn lemma_on_every_path(
    gv: Seq<Seq<u32>>,
    root: u32,
    rpo: Seq<u32>,
    order: Seq<u32>,
    off: Seq<u32>,
    preds: Seq<u32>,
    idom: Seq<u32>,
    p: Seq<u32>,
    a: int,
)
    requires
        path_between(gv, p, root, p.last()),
        rpo.len() > 0,
        rpo[0] == root,
        idom.len() == rpo.len(),
        tree_shape(idom),
        forall|x: int| 0 <= x < idom.len() ==> #[trigger] idom[x] != UNREACHABLE,
        forall|b: int| 1 <= b < rpo.len() ==> #[trigger] settled(idom, off, preds, b),
        order.len() == gv.len(),
        forall|v: u32| v < gv.len() ==> (rpo.contains(v) <==> reachable(gv, root, v)),
        forall|i: int| 0 <= i < rpo.len() ==> #[trigger] order[rpo[i] as int] == i,
        forall|v: int| 0 <= v < order.len() && #[trigger] order[v] != UNREACHABLE ==> order[v] < rpo.len() && rpo[order[v] as int] == v,
        forall|v: int| 0 <= v < order.len() ==> (#[trigger] order[v] == UNREACHABLE <==> !rpo.contains(v as u32)),
        forall|u: u32, t: int|
            u < gv.len() && rpo.contains(u) && 0 <= t < gv[u as int].len() ==> #[trigger] in_row(off, preds, order[gv[u as int][t] as int] as int, order[u as int]),
        anc(idom, a, order[p.last() as int] as int),
    ensures
        p.contains(rpo[a]),
    decreases p.len(),
{
    let v = p.last();
    assert(reachable(gv, root, v));
    assert(v < gv.len()) by {
        assert(p[p.len() - 1] < gv.len());
    }
    let ov = order[v as int] as int;
    assert(order[v as int] != UNREACHABLE);
    if a == ov {
        assert(rpo[a] == v);
        assert(p[p.len() - 1] == v);
    } else {
        assert(ov != 0);
        assert(anc(idom, a, idom[ov] as int));
        assert(v != root) by {
            assert(order[rpo[0] as int] == 0);
        }
        assert(p.len() >= 2);
        let q = p.drop_last();
        let u = q.last();
        assert(step_ok(gv, p, p.len() - 2));
        assert(edge(gv, u, v));
        assert forall|i: int| 0 <= i < q.len() - 1 implies #[trigger] step_ok(gv, q, i) by {
            assert(step_ok(gv, p, i));
        }
        assert forall|i: int| 0 <= i < q.len() implies #[trigger] q[i] < gv.len() by {
            assert(p[i] < gv.len());
        }
        assert(path_between(gv, q, root, u));
        assert(rpo.contains(u));
        let t = choose|t: int| 0 <= t < gv[u as int].len() && gv[u as int][t] == v;
        assert(in_row(off, preds, order[gv[u as int][t] as int] as int, order[u as int]));
        let k = choose|k: int| off[ov] <= k < off[ov + 1] && #[trigger] preds[k] == order[u as int];
        assert(settled(idom, off, preds, ov));
        assert(anc(idom, idom[ov] as int, order[u as int] as int));
        lemma_anc_trans(idom, a, idom[ov] as int, order[u as int] as int);
        lemma_on_every_path(gv, root, rpo, order, off, preds, idom, q, a);
        let i = choose|i: int| 0 <= i < q.len() && q[i] == rpo[a];
        assert(p[i] == rpo[a]);
    }
}


/// The node reached from `v` by following `k` parent links of `idom`.
pub open spec fn climb(idom: Seq<u32>, v: u32, k: nat) -> u32
    decreases k,
{
    if k == 0 {
        v
    } else {
        climb(idom, idom[v as int], (k - 1) as nat)
    }
}

/// Only the root dominates the root.
pub proof fn lemma_dom_root(gv: Seq<Seq<u32>>, root: u32, a: u32)
    requires
        root < gv.len(),
        dominates(gv, root, a, root),
    ensures
        a == root,
{
    let p = seq![root];
    assert(path_between(gv, p, root, root));
    assert(p.contains(a));
}

/// An ancestor in the tree of positions is reached by climbing the node tree.
proof fn lemma_anc_climb(pos: Seq<u32>, out: Seq<u32>, rpo: Seq<u32>, a: int, x: int) -> (k: nat)
    requires
        tree_shape(pos),
        pos.len() == rpo.len(),
        0 <= x < pos.len(),
        anc(pos, a, x),
        forall|i: int| 0 <= i < rpo.len() ==> #[trigger] out[rpo[i] as int] == rpo[pos[i] as int],
    ensures
        climb(out, rpo[x], k) == rpo[a],
    decreases x,
{
    if a == x {
        0
    } else {
        let px = pos[x] as int;
        assert(px < x);
        let k = lemma_anc_climb(pos, out, rpo, a, px);
        assert(out[rpo[x] as int] == rpo[px]);
        assert(climb(out, rpo[x], k + 1) == climb(out, out[rpo[x] as int], k));
        k + 1
    }
}

/// Climbing a tree whose parent links are dominators only meets dominators.
pub proof fn lemma_climb_dominates(gv: Seq<Seq<u32>>, root: u32, idom: Seq<u32>, v: u32, k: nat)
    requires
        v < gv.len(),
        reachable(gv, root, v),
        idom.len() == gv.len(),
        root < gv.len(),
        idom[root as int] == root,
        forall|w: u32|
            w < gv.len() && w != root && #[trigger] reachable(gv, root, w) ==> idom[w as int] < gv.len()
                && dominates(gv, root, idom[w as int], w),
    ensures
        dominates(gv, root, climb(idom, v, k), v),
    decreases k,
{
    if k == 0 {
        lemma_dom_self(gv, root, v);
    } else {
        let w = idom[v as int];
        if v == root {
            lemma_climb_dominates(gv, root, idom, root, (k - 1) as nat);
        } else {
            lemma_dom_reachable(gv, root, w, v);
            lemma_climb_dominates(gv, root, idom, w, (k - 1) as nat);
            lemma_dom_trans(gv, root, climb(idom, w, (k - 1) as nat), w, v);
        }
    }
}

/// The dominator tree of the nodes that `root` reaches, computed with the
/// Cooper–Harvey–Kennedy iteration over reverse postorder.
pub fn dominators(g: &Graph, root: u32) -> (d: Dominators)
    requires
        g.wf(),
        g.spec_node_count() == 0 || root < g.spec_node_count(),
    ensures
        d.wf(),
        d.idom.len() == g.spec_node_count(),
        g.spec_node_count() > 0 ==> d.rpo.len() > 0 && d.rpo[0] == root && d.idom[root as int] == root,
        forall|v: u32| v < g.spec_node_count() ==> (d.rpo@.contains(v) <==> reachable(g@, root, v)),
        forall|v: u32|
            v < g.spec_node_count() ==> (#[trigger] d.idom[v as int] == UNREACHABLE <==> !reachable(g@, root, v)),
        forall|v: u32|
            v < g.spec_node_count() && v != root && #[trigger] reachable(g@, root, v) ==> d.idom[v as int] != v
                && d.idom[v as int] < g.spec_node_count() && dominates(g@, root, d.idom[v as int], v),
        forall|v: u32, a: u32|
            v < g.spec_node_count() && reachable(g@, root, v) ==> (#[trigger] dominates(g@, root, a, v) <==> exists|
                k: nat,
            | climb(d.idom@, v, k) == a),
{
    proof {
        g.lemma_wf();
    }
    let ghost gv = g@;
    let n = g.node_count();
    let rpo = reverse_postorder(g, root);
    let m = rpo.len();
    if n == 0 {
        return Dominators { idom: Vec::new(), rpo };
    }
    let order = positions(&rpo, n);
    let pairs = predecessor_pairs(g, root, &rpo, &order);
    let (off, preds) = group_by_source(m, pairs.as_slice());
    proof {
        let ps = pairs@;
        lemma_count_below_total(ps, m as int);
        assert(off[m as int] == count_below(ps, m as int));
        assert(off[0] == count_below(ps, 0));
        assert forall|a: int, b: int| 0 <= a <= b <= m implies off[a] <= off[b] by {
            lemma_count_below_mono(ps, a, b);
        }
        assert forall|k: int| 0 <= k < preds.len() implies #[trigger] preds[k] < m by {
            let b = choose_source(ps, off@, m as int, k);
            let i = k - off[b];
            assert(preds@.subrange(off[b] as int, off[b + 1] as int)[i] == preds[k]);
            lemma_out_list_member(ps, b, i);
            let j = choose|j: int| 0 <= j < ps.len() && ps[j].0 == b && ps[j].1 == out_list(ps, b)[i];
            assert(ps[j].1 < m);
        }
        // Edges into a reached node show up in its predecessor row.
        assert forall|u: u32, t: int|
            u < gv.len() && rpo@.contains(u) && 0 <= t < gv[u as int].len() implies #[trigger] in_row(off@, preds@, order[gv[u as int][t] as int] as int, order[u as int]) by {
            let i = order[u as int] as int;
            assert(order[u as int] != UNREACHABLE);
            assert(rpo[i] == u);
            assert(pair_present(ps, gv, rpo@, order@, i, t));
            let k = choose|k: int| 0 <= k < ps.len() && ps[k] == (order[gv[rpo[i] as int][t] as int], i as u32);
            let b = order[gv[u as int][t] as int] as int;
            assert(ps[k].0 == b);
            lemma_out_list_contains(ps, k);
            let r = out_list(ps, b);
            let x = choose|x: int| 0 <= x < r.len() && r[x] == ps[k].1;
            assert(preds@.subrange(off[b] as int, off[b + 1] as int)[x] == preds[off[b] + x]);
            assert(preds[off[b] + x] == order[u as int]);
        }
        // Every position but the first has a predecessor before it.
        assert forall|b: int| 1 <= b < m implies #[trigger] has_earlier(off@, preds@, b) by {
            assert(has_earlier_pred(gv, rpo@, b));
            let j = choose|j: int| 0 <= j < b && #[trigger] edge(gv, rpo[j], rpo[b]);
            let u = rpo[j];
            assert(rpo@.contains(u));
            let t = choose|t: int| 0 <= t < gv[u as int].len() && gv[u as int][t] == rpo[b];
            assert(in_row(off@, preds@, order[gv[u as int][t] as int] as int, order[u as int]));
            assert(order[rpo[b] as int] == b);
            assert(order[rpo[j] as int] == j);
            let k = choose|k: int| off[b] <= k < off[b + 1] && #[trigger] preds[k] == order[u as int];
            assert(preds[k] < b);
        }
    }
    proof {
        let ps = pairs@;
        assert forall|b: int, k: int| 0 <= b < m && off[b] <= k < off[b + 1] implies #[trigger] edge(
            gv,
            rpo@[preds@[k] as int],
            rpo@[b],
        ) by {
            let i = k - off[b];
            assert(preds@.subrange(off[b] as int, off[b + 1] as int)[i] == preds[k]);
            lemma_out_list_member(ps, b, i);
            let j = choose|j: int| 0 <= j < ps.len() && ps[j].0 == b && ps[j].1 == out_list(ps, b)[i];
            assert(pair_edge(ps, gv, rpo@, j));
        }
        assert(rows_sound(gv, rpo@, off@, preds@, m as int));
    }
    let pos = idom_positions(m, &off, &preds, Ghost(gv), Ghost(rpo@), Ghost(root));
    let mut out = fill_u32(n, UNREACHABLE);
    let mut i: usize = 0;
    while i < m
        invariant
            m == rpo.len(),
            m <= n,
            n < u32::MAX,
            i <= m,
            out.len() == n,
            pos.len() == m,
            rpo@.no_duplicates(),
            forall|k: int| 0 <= k < rpo.len() ==> #[trigger] rpo[k] < n,
            forall|x: int| 0 < x < m ==> #[trigger] pos[x] < x,
            m > 0 ==> pos[0] == 0,
            forall|k: int| 0 <= k < i ==> #[trigger] out[rpo[k] as int] == rpo[pos[k] as int],
            forall|v: int| 0 <= v < n && #[trigger] out[v] != UNREACHABLE ==> exists|k: int| 0 <= k < i && rpo[k] == v,
        decreases m - i,
    {
        let v = rpo[i];
        let ghost before = out@;
        let parent = rpo[pos[i] as usize];
        out.set(v as usize, parent);
        proof {
            assert forall|k: int| 0 <= k < i + 1 implies #[trigger] out[rpo[k] as int] == rpo[pos[k] as int] by {
                if k < i {
                    assert(rpo[k] != rpo[i as int]);
                }
            }
            assert forall|x: int| 0 <= x < n && #[trigger] out[x] != UNREACHABLE implies exists|k: int| 0 <= k < i + 1 && rpo[k] == x by {
                if x != v {
                    assert(before[x] == out[x]);
                    let k = choose|k: int| 0 <= k < i && rpo[k] == x;
                    assert(rpo[k] == x);
                } else {
                    assert(rpo[i as int] == x);
                }
            }
        }
        i += 1;
    }
    let d = Dominators { idom: out, rpo };
    proof {
        assert forall|k: int| 1 <= k < d.rpo.len() implies #[trigger] parent_earlier(d.rpo@, d.idom@, k) by {
            assert(d.idom[d.rpo[k] as int] == d.rpo[pos[k] as int]);
        }
        assert forall|v: int| 0 <= v < d.idom.len() implies (#[trigger] d.idom[v] == UNREACHABLE <==> !d.rpo@.contains(v as u32)) by {
            if d.rpo@.contains(v as u32) {
                let k = choose|k: int| 0 <= k < m && d.rpo[k] == v as u32;
                assert(d.idom[d.rpo[k] as int] == d.rpo[pos[k] as int]);
                assert(d.rpo[pos[k] as int] < n);
            }
            if d.idom[v] != UNREACHABLE {
                let k = choose|k: int| 0 <= k < m && d.rpo[k] == v;
                assert(d.rpo@.contains(v as u32));
            }
        }
        assert(d.idom[root as int] == root) by {
            assert(d.idom[d.rpo[0] as int] == d.rpo[pos[0] as int]);
        }
        assert forall|v: u32|
            v < n && v != root && #[trigger] reachable(gv, root, v) implies d.idom[v as int] != v
                && d.idom[v as int] < n && dominates(gv, root, d.idom[v as int], v) by {
            assert(d.rpo@.contains(v));
            let ov = order[v as int] as int;
            assert(order[v as int] != UNREACHABLE);
            assert(d.rpo[ov] == v);
            assert(ov != 0);
            assert(d.idom[v as int] == d.rpo[pos[ov] as int]);
            assert(pos[ov] < ov);
            assert(d.rpo[pos[ov] as int] != d.rpo[ov]);
            assert(anc(pos@, pos[ov] as int, pos[ov] as int));
            assert(anc(pos@, pos[ov] as int, ov));
            assert forall|p: Seq<u32>| #[trigger] path_between(gv, p, root, v) implies p.contains(d.idom[v as int]) by {
                lemma_on_every_path(gv, root, d.rpo@, order@, off@, preds@, pos@, p, pos[ov] as int);
            }
        }
        // The dominators of a reached node are exactly its ancestors.
        assert forall|v: u32, a: u32| v < n && reachable(gv, root, v) implies (#[trigger] dominates(
            gv,
            root,
            a,
            v,
        ) <==> exists|k: nat| climb(d.idom@, v, k) == a) by {
            if dominates(gv, root, a, v) {
                assert(d.rpo@.contains(v));
                let ov = order[v as int] as int;
                assert(order[v as int] != UNREACHABLE);
                assert(d.rpo[ov] == v);
                lemma_anc_root(pos@, ov);
                lemma_chain(gv, root, d.rpo@, pos@, 0, ov, a);
                assert forall|i: int| 0 <= i < d.rpo@.len() implies #[trigger] d.idom@[d.rpo@[i] as int] == d.rpo@[pos@[i] as int] by {
                    assert(out[rpo[i] as int] == rpo[pos[i] as int]);
                }
                if dominates(gv, root, a, d.rpo[0]) {
                    lemma_dom_root(gv, root, a);
                    let k = lemma_anc_climb(pos@, d.idom@, d.rpo@, 0, ov);
                    assert(climb(d.idom@, v, k) == a);
                } else {
                    let pd = choose|pd: int|
                        0 <= pd < d.rpo@.len() && d.rpo@[pd] == a && anc(pos@, pd, ov) && anc(pos@, 0, pd) && pd != 0;
                    let k = lemma_anc_climb(pos@, d.idom@, d.rpo@, pd, ov);
                    assert(climb(d.idom@, v, k) == a);
                }
            }
            if exists|k: nat| climb(d.idom@, v, k) == a {
                let k = choose|k: nat| climb(d.idom@, v, k) == a;
                lemma_climb_dominates(gv, root, d.idom@, v, k);
            }
        }
    }
    d
}


/// `(parent, child)` for every node after the first in `rpo`, in that order.
pub open spec fn child_pairs(rpo: Seq<u32>, idom: Seq<u32>) -> Seq<(u32, u32)> {
    Seq::new((if rpo.len() > 0 { rpo.len() - 1 } else { 0 }) as nat, |i: int| (idom[rpo[i + 1] as int], rpo[i + 1]))
}

impl Dominators {
    /// Children lists of the dominator tree in compressed sparse row form:
    /// `children[offsets[v]..offsets[v + 1]]` lists the children of `v` in
    /// reverse postorder.
    pub fn tree_children(&self) -> (res: (Vec<u32>, Vec<u32>))
        requires
            self.wf(),
        ensures
            res.0.len() == self.idom.len() + 1,
            res.1.len() == (if self.rpo.len() > 0 { self.rpo.len() - 1 } else { 0 }),
            forall|v: int|
                0 <= v < self.idom.len() ==> #[trigger] res.1@.subrange(res.0[v] as int, res.0[v + 1] as int)
                    == out_list(child_pairs(self.rpo@, self.idom@), v),
            res.0[0] == 0,
            forall|a: int, b: int| 0 <= a <= b <= self.idom.len() ==> #[trigger] res.0[a] <= #[trigger] res.0[b],
            res.0[self.idom.len() as int] == res.1.len(),
    {
        let n = self.idom.len();
        let len = self.rpo.len();
        let mut pairs: Vec<(u32, u32)> = Vec::new();
        let mut i: usize = 1;
        while i < len
            invariant
                self.wf(),
                n == self.idom.len(),
                len == self.rpo.len(),
                1 <= i <= len || (len == 0 && i == 1),
                pairs.len() == i - 1,
                forall|k: int| 0 <= k < pairs.len() ==> #[trigger] pairs[k] == child_pairs(self.rpo@, self.idom@)[k],
                forall|k: int| 0 <= k < pairs.len() ==> (#[trigger] pairs[k]).0 < n,
            decreases len - i,
        {
            let v = self.rpo[i];
            proof {
                assert(parent_earlier(self.rpo@, self.idom@, i as int));
                let j = choose|j: int| 0 <= j < i && self.rpo[j] == self.idom[self.rpo[i as int] as int];
                assert(self.rpo[j] < n);
            }
            pairs.push((self.idom[v as usize], v));
            i += 1;
        }
        proof {
            assert(pairs@ =~= child_pairs(self.rpo@, self.idom@));
        }
        let res = group_by_source(n, pairs.as_slice());
        proof {
            assert forall|a: int, b: int| 0 <= a <= b <= n implies #[trigger] res.0[a] <= #[trigger] res.0[b] by {
                lemma_count_below_mono(pairs@, a, b);
            }
            lemma_count_below_total(pairs@, n as int);
            assert(res.0[0] == count_below(pairs@, 0));
        }
        res
    }
}


/// Sum of `acc` over the nodes at positions `lo..` of `rpo` whose parent is `v`.
pub open spec fn children_sum(rpo: Seq<u32>, idom: Seq<u32>, acc: Seq<u64>, v: u32, lo: int) -> int
    decreases rpo.len() - lo,
{
    if !(0 <= lo < rpo.len()) {
        0
    } else {
        (if idom[rpo[lo] as int] == v {
            acc[rpo[lo] as int] as int
        } else {
            0int
        }) + children_sum(rpo, idom, acc, v, lo + 1)
    }
}

/// Sum of `vals` over the nodes at positions `0..t` of `rpo`.
pub open spec fn rpo_sum(rpo: Seq<u32>, vals: Seq<u64>, t: int) -> int
    decreases t,
{
    if t <= 0 {
        0
    } else {
        rpo_sum(rpo, vals, t - 1) + vals[rpo[t - 1] as int]
    }
}

proof fn lemma_children_sum_frame(rpo: Seq<u32>, idom: Seq<u32>, acc: Seq<u64>, v: u32, lo: int, d: u32, x: u64)
    requires
        0 <= lo,
        d < acc.len(),
        forall|l: int| 0 <= l < rpo.len() ==> #[trigger] rpo[l] < acc.len(),
        forall|l: int| lo <= l < rpo.len() ==> #[trigger] rpo[l] != d,
    ensures
        children_sum(rpo, idom, acc.update(d as int, x), v, lo) == children_sum(rpo, idom, acc, v, lo),
    decreases rpo.len() - lo,
{
    if lo < rpo.len() {
        lemma_children_sum_frame(rpo, idom, acc, v, lo + 1, d, x);
        assert(rpo[lo] != d);
    }
}

proof fn lemma_rpo_sum_update(rpo: Seq<u32>, vals: Seq<u64>, t: int, j: int, x: u64)
    requires
        0 <= j < t <= rpo.len(),
        rpo.no_duplicates(),
        forall|l: int| 0 <= l < rpo.len() ==> #[trigger] rpo[l] < vals.len(),
    ensures
        rpo_sum(rpo, vals.update(rpo[j] as int, x), t) == rpo_sum(rpo, vals, t) - vals[rpo[j] as int] + x,
    decreases t,
{
    if t - 1 > j {
        lemma_rpo_sum_update(rpo, vals, t - 1, j, x);
        assert(rpo[t - 1] != rpo[j]);
    } else {
        assert forall|l: int| 0 <= l < t - 1 implies #[trigger] rpo[l] != rpo[j] by {}
        lemma_rpo_sum_frame(rpo, vals, t - 1, rpo[j], x);
    }
}

proof fn lemma_rpo_sum_frame(rpo: Seq<u32>, vals: Seq<u64>, t: int, d: u32, x: u64)
    requires
        0 <= t <= rpo.len(),
        d < vals.len(),
        forall|l: int| 0 <= l < rpo.len() ==> #[trigger] rpo[l] < vals.len(),
        forall|l: int| 0 <= l < t ==> #[trigger] rpo[l] != d,
    ensures
        rpo_sum(rpo, vals.update(d as int, x), t) == rpo_sum(rpo, vals, t),
    decreases t,
{
    if t > 0 {
        lemma_rpo_sum_frame(rpo, vals, t - 1, d, x);
        assert(rpo[t - 1] != d);
    }
}

proof fn lemma_rpo_sum_two(rpo: Seq<u32>, vals: Seq<u64>, t: int, a: int, b: int)
    requires
        0 <= a < t <= rpo.len(),
        0 <= b < t,
        a != b,
    ensures
        vals[rpo[a] as int] + vals[rpo[b] as int] <= rpo_sum(rpo, vals, t),
    decreases t,
{
    lemma_rpo_sum_nonneg(rpo, vals, t - 1);
    if a < t - 1 && b < t - 1 {
        lemma_rpo_sum_two(rpo, vals, t - 1, a, b);
    } else if a == t - 1 {
        lemma_rpo_sum_one(rpo, vals, t - 1, b);
    } else {
        lemma_rpo_sum_one(rpo, vals, t - 1, a);
    }
}

proof fn lemma_rpo_sum_one(rpo: Seq<u32>, vals: Seq<u64>, t: int, a: int)
    requires
        0 <= a < t <= rpo.len(),
    ensures
        vals[rpo[a] as int] <= rpo_sum(rpo, vals, t),
    decreases t,
{
    lemma_rpo_sum_nonneg(rpo, vals, t - 1);
    if a < t - 1 {
        lemma_rpo_sum_one(rpo, vals, t - 1, a);
    }
}

proof fn lemma_rpo_sum_nonneg(rpo: Seq<u32>, vals: Seq<u64>, t: int)
    ensures
        rpo_sum(rpo, vals, t) >= 0,
    decreases t,
{
    if t > 0 {
        lemma_rpo_sum_nonneg(rpo, vals, t - 1);
    }
}

proof fn lemma_rpo_sum_agree(rpo: Seq<u32>, a: Seq<u64>, b: Seq<u64>, t: int)
    requires
        0 <= t <= rpo.len(),
        forall|i: int| 0 <= i < t ==> #[trigger] a[rpo[i] as int] == b[rpo[i] as int],
    ensures
        rpo_sum(rpo, a, t) == rpo_sum(rpo, b, t),
    decreases t,
{
    if t > 0 {
        lemma_rpo_sum_agree(rpo, a, b, t - 1);
    }
}

pub fn zeros_u64(len: usize) -> (v: Vec<u64>)
    ensures
        v.len() == len,
        forall|i: int| 0 <= i < len ==> v[i] == 0,
{
    let mut v: Vec<u64> = Vec::with_capacity(len);
    let mut i: usize = 0;
    while i < len
        invariant
            i <= len,
            v.len() == i,
            forall|j: int| 0 <= j < i ==> v[j] == 0,
        decreases len - i,
    {
        v.push(0);
        i += 1;
    }
    v
}

impl Dominators {
    /// Total weight of each node's dominator subtree (0 for unreachable
    /// nodes): each reached node gets its own weight plus the totals of its
    /// children.
    pub fn subtree_weights(&self, weights: &[u64]) -> (acc: Vec<u64>)
        requires
            self.wf(),
            forall|i: int| 0 <= i < self.rpo.len() ==> #[trigger] self.rpo[i] < weights@.len(),
            rpo_sum(self.rpo@, weights@, self.rpo.len() as int) <= u64::MAX,
        ensures
            acc.len() == self.idom.len(),
            forall|i: int|
                0 <= i < self.rpo.len() ==> #[trigger] acc[self.rpo[i] as int] == weights@[self.rpo[i] as int]
                    + children_sum(self.rpo@, self.idom@, acc@, self.rpo[i], 1),
            forall|v: int| 0 <= v < self.idom.len() && !self.rpo@.contains(v as u32) ==> #[trigger] acc[v] == 0,
    {
        let n = self.idom.len();
        let len = self.rpo.len();
        let ghost rpo = self.rpo@;
        let ghost w = weights@;
        let mut acc = zeros_u64(n);
        let mut i: usize = 0;
        while i < len
            invariant
                self.wf(),
                rpo == self.rpo@,
                w == weights@,
                n == self.idom.len(),
                len == self.rpo.len(),
                i <= len,
                acc.len() == n,
                forall|k: int| 0 <= k < len ==> #[trigger] rpo[k] < w.len(),
                forall|k: int| 0 <= k < i ==> #[trigger] acc[rpo[k] as int] == w[rpo[k] as int],
                forall|v: int| 0 <= v < n && !rpo.take(i as int).contains(v as u32) ==> #[trigger] acc[v] == 0,
            decreases len - i,
        {
            let v = self.rpo[i];
            let ghost before = acc@;
            acc.set(v as usize, weights[v as usize]);
            proof {
                assert forall|k: int| 0 <= k < i + 1 implies #[trigger] acc[rpo[k] as int] == w[rpo[k] as int] by {
                    if k < i {
                        assert(rpo[k] != rpo[i as int]);
                    }
                }
                assert forall|x: int| 0 <= x < n && !rpo.take(i + 1).contains(x as u32) implies #[trigger] acc[x] == 0 by {
                    assert(rpo.take(i + 1)[i as int] == v);
                    if x != v {
                        if rpo.take(i as int).contains(x as u32) {
                            let k = choose|k: int| 0 <= k < i && rpo.take(i as int)[k] == x as u32;
                            assert(rpo.take(i + 1)[k] == x as u32);
                        }
                        assert(before[x] == acc[x]);
                    }
                }
            }
            i += 1;
        }
        proof {
            assert(rpo.take(len as int) =~= rpo);
            lemma_rpo_sum_agree(rpo, acc@, w, len as int);
        }
        let ghost total = rpo_sum(rpo, w, len as int);
        let mut k: usize = len;
        while k > 1
            invariant
                self.wf(),
                rpo == self.rpo@,
                w == weights@,
                n == self.idom.len(),
                len == self.rpo.len(),
                0 <= k <= len,
                len > 0 ==> k >= 1,
                acc.len() == n,
                total <= u64::MAX,
                rpo_sum(rpo, acc@, k as int) == total,
                forall|v: int| 0 <= v < n && !rpo.contains(v as u32) ==> #[trigger] acc[v] == 0,
                forall|a: int|
                    0 <= a < len ==> #[trigger] acc[rpo[a] as int] == w[rpo[a] as int] + children_sum(rpo, self.idom@, acc@, rpo[a], k as int),
            decreases k,
        {
            let x = self.rpo[k - 1];
            let d = self.idom[x as usize];
            let ghost before = acc@;
            proof {
                assert(parent_earlier(rpo, self.idom@, k - 1));
                let j = choose|j: int| 0 <= j < k - 1 && #[trigger] rpo[j] == self.idom[rpo[k - 1] as int];
                lemma_rpo_sum_two(rpo, acc@, k as int, j, k - 1);
                assert(rpo[j] == d);
            }
            let ghost j = choose|j: int| 0 <= j < k - 1 && #[trigger] rpo[j] == self.idom[rpo[k - 1] as int];
            acc.set(d as usize, acc[d as usize] + acc[x as usize]);
            proof {
                assert(rpo[j] != rpo[k - 1]);
                lemma_rpo_sum_update(rpo, before, k as int, j, (before[d as int] + before[x as int]) as u64);
                assert(rpo_sum(rpo, acc@, k as int) == rpo_sum(rpo, acc@, k - 1) + acc[x as int]);
                assert forall|l: int| k <= l < rpo.len() implies #[trigger] rpo[l] != d by {
                    assert(rpo[l] != rpo[j]);
                }
                assert forall|v: int| 0 <= v < n && !rpo.contains(v as u32) implies #[trigger] acc[v] == 0 by {
                    assert(rpo[j] == d);
                    if v == d {
                        assert(rpo.contains(d));
                    }
                    assert(before[v] == acc[v]);
                }
                assert forall|a: int|
                    0 <= a < len implies #[trigger] acc[rpo[a] as int] == w[rpo[a] as int] + children_sum(rpo, self.idom@, acc@, rpo[a], k - 1) by {
                    lemma_children_sum_frame(rpo, self.idom@, before, rpo[a], k as int, d, (before[d as int] + before[x as int]) as u64);
                    assert(before[rpo[a] as int] == w[rpo[a] as int] + children_sum(rpo, self.idom@, before, rpo[a], k as int));
                    if a == j {
                    } else {
                        assert(rpo[a] != d);
                    }
                }
            }
            k -= 1;
        }
        proof {
            assert forall|v: int| 0 <= v < n && !rpo.contains(v as u32) implies #[trigger] acc[v] == 0 by {}
        }
        acc
    }
}


// ---------------------------------------------------------------------------
// The brute-force baseline.
// ---------------------------------------------------------------------------
/// Sum of `w[v]` over the nodes `v < k` whose flag is set.
pub open spec fn weighted(w: Seq<u64>, f: Seq<bool>, k: int) -> int
    decreases k,
{
    if k <= 0 {
        0
    } else {
        weighted(w, f, k - 1) + (if f[k - 1] {
            w[k - 1] as int
        } else {
            0int
        })
    }
}

/// Flags of the nodes the root reaches without passing through `skip`.
pub open spec fn reach_set(g: Seq<Seq<u32>>, root: u32, skip: u32) -> Seq<bool> {
    Seq::new(g.len(), |v: int| reachable_avoiding(g, root, skip, v as u32))
}

pub proof fn lemma_weighted_set(w: Seq<u64>, f: Seq<bool>, v: int, k: int)
    requires
        0 <= v < f.len(),
        k <= f.len(),
        !f[v],
    ensures
        weighted(w, f.update(v, true), k) == weighted(w, f, k) + (if v < k {
            w[v] as int
        } else {
            0int
        }),
    decreases k,
{
    if k > 0 {
        lemma_weighted_set(w, f, v, k - 1);
    }
}

pub proof fn lemma_weighted_mono(w: Seq<u64>, f: Seq<bool>, h: Seq<bool>, k: int)
    requires
        k <= f.len(),
        k <= h.len(),
        forall|v: int| 0 <= v < k && #[trigger] f[v] ==> h[v],
    ensures
        weighted(w, f, k) <= weighted(w, h, k),
    decreases k,
{
    if k > 0 {
        lemma_weighted_mono(w, f, h, k - 1);
    }
}

pub proof fn lemma_weighted_agree(w: Seq<u64>, f: Seq<bool>, h: Seq<bool>, k: int)
    requires
        k <= f.len(),
        k <= h.len(),
        forall|v: int| 0 <= v < k ==> #[trigger] f[v] == h[v],
    ensures
        weighted(w, f, k) == weighted(w, h, k),
    decreases k,
{
    if k > 0 {
        lemma_weighted_agree(w, f, h, k - 1);
    }
}

pub proof fn lemma_weighted_none(w: Seq<u64>, f: Seq<bool>, k: int)
    requires
        k <= f.len(),
        forall|v: int| 0 <= v < k ==> !#[trigger] f[v],
    ensures
        weighted(w, f, k) == 0,
    decreases k,
{
    if k > 0 {
        lemma_weighted_none(w, f, k - 1);
    }
}

pub proof fn lemma_reach_avoid_step(g: Seq<Seq<u32>>, root: u32, skip: u32, u: u32, x: u32)
    requires
        reachable_avoiding(g, root, skip, u),
        edge(g, u, x),
        x != skip,
    ensures
        reachable_avoiding(g, root, skip, x),
{
    let p = choose|p: Seq<u32>| #[trigger] path_between(g, p, root, u) && !p.contains(skip);
    let q = p.push(x);
    assert forall|i: int| 0 <= i < q.len() - 1 implies #[trigger] step_ok(g, q, i) by {
        if i < p.len() - 1 {
            assert(step_ok(g, p, i));
        }
    }
    assert forall|i: int| 0 <= i < q.len() implies #[trigger] q[i] < g.len() by {
        if i < p.len() {
            assert(p[i] < g.len());
        }
    }
    assert(path_between(g, q, root, x));
    assert(!q.contains(skip)) by {
        if q.contains(skip) {
            let i = choose|i: int| 0 <= i < q.len() && q[i] == skip;
            if i < p.len() {
                assert(p[i] == skip);
            }
        }
    }
}

pub proof fn lemma_reach_avoid_root(g: Seq<Seq<u32>>, root: u32, skip: u32)
    requires
        root < g.len(),
        root != skip,
    ensures
        reachable_avoiding(g, root, skip, root),
{
    let p = seq![root];
    assert(path_between(g, p, root, root));
    assert(!p.contains(skip)) by {
        if p.contains(skip) {
            let i = choose|i: int| 0 <= i < p.len() && p[i] == skip;
        }
    }
}

pub proof fn lemma_avoid_not_skip(g: Seq<Seq<u32>>, root: u32, skip: u32, v: u32)
    requires
        reachable_avoiding(g, root, skip, v),
    ensures
        v != skip,
        v < g.len(),
        reachable(g, root, v),
{
    let p = choose|p: Seq<u32>| #[trigger] path_between(g, p, root, v) && !p.contains(skip);
    assert(p[p.len() - 1] == v);
    assert(p[p.len() - 1] < g.len());
}

/// Breadth-first search from `root` that never enters `skip`. Returns the
/// total weight of the nodes reached and, when `skip` is `UNREACHABLE`, those
/// nodes in visiting order.
fn bfs(g: &Graph, root: u32, weights: &[u64], skip: u32, epoch: u32, stamp: &mut Vec<u32>) -> (res: (u64, Vec<u32>))
    requires
        g.wf(),
        root < g.spec_node_count(),
        old(stamp).len() == g.spec_node_count(),
        forall|v: int| 0 <= v < old(stamp).len() ==> #[trigger] old(stamp)[v] < epoch,
        forall|v: u32| v < g.spec_node_count() && reachable(g@, root, v) ==> v < weights@.len(),
        weighted(weights@, reach_set(g@, root, UNREACHABLE), g.spec_node_count() as int) <= u64::MAX,
    ensures
        final(stamp).len() == old(stamp).len(),
        forall|v: int| 0 <= v < final(stamp).len() ==> #[trigger] final(stamp)[v] <= epoch,
        res.0 == weighted(weights@, reach_set(g@, root, skip), g.spec_node_count() as int),
        skip == UNREACHABLE ==> res.1@.no_duplicates(),
        skip == UNREACHABLE ==> res.1.len() <= g.spec_node_count(),
        skip == UNREACHABLE ==> forall|i: int| 0 <= i < res.1.len() ==> #[trigger] res.1[i] < g.spec_node_count(),
        skip == UNREACHABLE ==> forall|v: u32| v < g.spec_node_count() ==> (res.1@.contains(v) <==> reachable(g@, root, v)),
{
    proof {
        g.lemma_wf();
    }
    let ghost gv = g@;
    let ghost n = gv.len();
    let ghost w = weights@;
    let ghost full = reach_set(gv, root, UNREACHABLE);
    let ghost target = reach_set(gv, root, skip);
    let mut reached: Vec<u32> = Vec::new();
    let mut total: u64 = 0;
    if skip == root {
        proof {
            assert forall|v: int| 0 <= v < n implies !#[trigger] target[v] by {
                if target[v] {
                    lemma_avoid_not_skip(gv, root, skip, v as u32);
                    let p = choose|p: Seq<u32>| #[trigger] path_between(gv, p, root, v as u32) && !p.contains(skip);
                    assert(p[0] == root);
                }
            }
            lemma_weighted_none(w, target, n as int);
        }
        return (0, reached);
    }
    proof {
        assert forall|v: int| 0 <= v < n && #[trigger] target[v] implies full[v] by {
            lemma_avoid_not_skip(gv, root, skip, v as u32);
            lemma_avoid_absent(gv, root, UNREACHABLE, v as u32);
        }
        lemma_weighted_mono(w, target, full, n as int);
        lemma_reach_avoid_root(gv, root, skip);
    }
    let mut queue: VecDeque<u32> = VecDeque::new();
    stamp.set(root as usize, epoch);
    queue.push_back(root);
    let ghost mut done: Seq<bool> = Seq::new(n as nat, |v: int| false);
    proof {
        lemma_weighted_none(w, done, n as int);
        lemma_count_false_all(done);
        assert(queue@ =~= seq![root]);
        assert forall|v: int| 0 <= v < n implies (#[trigger] done[v] <==> (stamp[v] == epoch && !queue@.contains(v as u32))) by {
            if v == root {
                assert(queue@[0] == root);
            } else {
                assert(stamp[v] == old(stamp)[v]);
            }
        }
        assert forall|v: int| 0 <= v < n && stamp[v] == epoch implies #[trigger] target[v] by {
            if v != root {
                assert(stamp[v] == old(stamp)[v]);
            }
        }
    }
    while queue.len() > 0
        invariant
            gv == g@,
            g.wf(),
            n == g.spec_node_count(),
            n < u32::MAX,
            root < n,
            root != skip,
            w == weights@,
            full == reach_set(gv, root, UNREACHABLE),
            target == reach_set(gv, root, skip),
            forall|v: int, j: int| 0 <= v < gv.len() && 0 <= j < gv[v].len() ==> #[trigger] gv[v][j] < gv.len(),
            forall|v: int| 0 <= v < n && #[trigger] target[v] ==> full[v],
            forall|v: u32| v < n && reachable(gv, root, v) ==> v < w.len(),
            weighted(w, full, n as int) <= u64::MAX,
            stamp.len() == n,
            done.len() == n,
            forall|v: int| 0 <= v < n ==> #[trigger] stamp[v] <= epoch,
            stamp[root as int] == epoch,
            queue@.no_duplicates(),
            forall|i: int| 0 <= i < queue.len() ==> #[trigger] queue@[i] < n && stamp[queue@[i] as int] == epoch,
            forall|v: int| 0 <= v < n ==> (#[trigger] done[v] <==> (stamp[v] == epoch && !queue@.contains(v as u32))),
            forall|v: int| 0 <= v < n && stamp[v] == epoch ==> #[trigger] target[v],
            forall|u: int, j: int|
                0 <= u < n && done[u] && 0 <= j < gv[u].len() && gv[u][j] != skip ==> stamp[#[trigger] gv[u][j] as int] == epoch,
            total == weighted(w, done, n as int),
            skip == UNREACHABLE ==> reached.len() + count_false(done) == n,
            skip == UNREACHABLE ==> reached@.no_duplicates(),
            skip == UNREACHABLE ==> forall|v: int| 0 <= v < n ==> (#[trigger] done[v] <==> reached@.contains(v as u32)),
            skip == UNREACHABLE ==> forall|i: int| 0 <= i < reached.len() ==> #[trigger] reached[i] < n,
        decreases count_false(Seq::new(n as nat, |v: int| stamp[v] == epoch)), queue.len(),
    {
        let ghost marks0 = Seq::new(n as nat, |v: int| stamp[v] == epoch);
        let ghost q0 = queue@;
        let v = queue.pop_front().unwrap();
        proof {
            assert(v == q0[0]);
            assert(queue@ =~= q0.drop_first());
            assert(!queue@.contains(v)) by {
                if queue@.contains(v) {
                    let k = choose|k: int| 0 <= k < queue@.len() && queue@[k] == v;
                    assert(q0[k + 1] == v);
                }
            }
            assert(!done[v as int]) by {
                assert(q0.contains(v));
            }
            lemma_weighted_set(w, done, v as int, n as int);
            assert(target[v as int]);
            assert(full[v as int]);
            assert(reachable(gv, root, v)) by {
                lemma_avoid_not_skip(gv, root, skip, v);
            }
            assert forall|x: int| 0 <= x < n && #[trigger] done.update(v as int, true)[x] implies full[x] by {
                if x != v {
                    assert(done[x]);
                    assert(stamp[x] == epoch);
                    assert(target[x]);
                }
            }
            lemma_weighted_mono(w, done.update(v as int, true), full, n as int);
            lemma_count_false_set(done, v as int);
        }
        total = total + weights[v as usize];
        proof {
            let d0 = done;
            done = done.update(v as int, true);
            assert forall|x: int| 0 <= x < n implies (#[trigger] done[x] <==> (stamp[x] == epoch && !queue@.contains(x as u32))) by {
                if x != v {
                    assert(d0[x] == done[x]);
                    if queue@.contains(x as u32) {
                        let k = choose|k: int| 0 <= k < queue@.len() && queue@[k] == x as u32;
                        assert(q0[k + 1] == x as u32);
                    }
                    if q0.contains(x as u32) {
                        let k = choose|k: int| 0 <= k < q0.len() && q0[k] == x as u32;
                        assert(k != 0);
                        assert(queue@[k - 1] == x as u32);
                    }
                }
            }
        }
        if skip == UNREACHABLE {
            let ghost r0 = reached@;
            reached.push(v);
            proof {
                assert forall|x: int| 0 <= x < n implies (#[trigger] done[x] <==> reached@.contains(x as u32)) by {
                    if x == v {
                        assert(reached@[reached.len() - 1] == v);
                    } else if r0.contains(x as u32) {
                        let k = choose|k: int| 0 <= k < r0.len() && r0[k] == x as u32;
                        assert(reached@[k] == x as u32);
                    }
                }
                assert(!r0.contains(v));
            }
        }
        let succ = g.successors(v);
        let mut j: usize = 0;
        while j < succ.len()
            invariant
                gv == g@,
                n == gv.len(),
                n < u32::MAX,
                succ@ == gv[v as int],
                v < n,
                root != skip,
                target == reach_set(gv, root, skip),
                forall|x: int, y: int| 0 <= x < gv.len() && 0 <= y < gv[x].len() ==> #[trigger] gv[x][y] < gv.len(),
                reachable_avoiding(gv, root, skip, v),
                stamp.len() == n,
                done.len() == n,
                done[v as int],
                j <= succ.len(),
                forall|x: int| 0 <= x < n ==> #[trigger] stamp[x] <= epoch,
                stamp[root as int] == epoch,
                queue@.no_duplicates(),
                forall|i: int| 0 <= i < queue.len() ==> #[trigger] queue@[i] < n && stamp[queue@[i] as int] == epoch,
                forall|x: int| 0 <= x < n ==> (#[trigger] done[x] <==> (stamp[x] == epoch && !queue@.contains(x as u32))),
                forall|x: int| 0 <= x < n && stamp[x] == epoch ==> #[trigger] target[x],
                forall|u: int, y: int|
                    0 <= u < n && done[u] && u != v && 0 <= y < gv[u].len() && gv[u][y] != skip ==> stamp[#[trigger] gv[u][y] as int] == epoch,
                forall|y: int| 0 <= y < j && gv[v as int][y] != skip ==> stamp[#[trigger] gv[v as int][y] as int] == epoch,
                count_false(Seq::new(n as nat, |x: int| stamp[x] == epoch)) <= count_false(marks0),
                count_false(Seq::new(n as nat, |x: int| stamp[x] == epoch)) == count_false(marks0) ==> queue.len() < q0.len(),
            decreases succ.len() - j,
        {
            let x = succ[j];
            if x != skip && stamp[x as usize] != epoch {
                let ghost s0 = stamp@;
                let ghost qa = queue@;
                let ghost m0 = Seq::new(n as nat, |y: int| s0[y] == epoch);
                stamp.set(x as usize, epoch);
                queue.push_back(x);
                proof {
                    assert(edge(gv, v, x)) by {
                        assert(gv[v as int][j as int] == x);
                    }
                    lemma_reach_avoid_step(gv, root, skip, v, x);
                    assert(Seq::new(n as nat, |y: int| stamp[y] == epoch) =~= m0.update(x as int, true));
                    lemma_count_false_set(m0, x as int);
                    assert(!qa.contains(x)) by {
                        if qa.contains(x) {
                            let k = choose|k: int| 0 <= k < qa.len() && qa[k] == x;
                            assert(s0[qa[k] as int] == epoch);
                        }
                    }
                    assert(queue@ == qa.push(x));
                    assert forall|y: int| 0 <= y < n implies (#[trigger] done[y] <==> (stamp[y] == epoch && !queue@.contains(y as u32))) by {
                        if y != x {
                            if qa.contains(y as u32) {
                                let k = choose|k: int| 0 <= k < qa.len() && qa[k] == y as u32;
                                assert(queue@[k] == y as u32);
                            }
                            if queue@.contains(y as u32) {
                                let k = choose|k: int| 0 <= k < queue@.len() && queue@[k] == y as u32;
                                assert(k < qa.len());
                                assert(qa[k] == y as u32);
                            }
                        } else {
                            assert(queue@[queue@.len() - 1] == x);
                        }
                    }
                    assert forall|i: int| 0 <= i < queue.len() implies #[trigger] queue@[i] < n && stamp[queue@[i] as int] == epoch by {
                        if i < qa.len() {
                            assert(queue@[i] == qa[i]);
                        }
                    }
                }
            }
            j += 1;
        }
        proof {
            assert forall|u: int, y: int|
                0 <= u < n && done[u] && 0 <= y < gv[u].len() && gv[u][y] != skip implies stamp[#[trigger] gv[u][y] as int] == epoch by {
                if u == v {
                    assert(gv[v as int][y] == gv[u][y]);
                }
            }
        }
    }
    proof {
        assert forall|x: int| 0 <= x < n implies #[trigger] done[x] == target[x] by {
            if target[x] {
                let flags = Seq::new(n as nat, |y: int| stamp[y] == epoch);
                assert forall|u: u32, jj: int|
                    u < gv.len() && flags[u as int] && u != skip && 0 <= jj < gv[u as int].len() && gv[u as int][jj] != skip
                        implies #[trigger] flags[gv[u as int][jj] as int] by {
                    assert(done[u as int]);
                    assert(stamp[gv[u as int][jj] as int] == epoch);
                }
                lemma_closed_holds_reachable(gv, flags, root, skip, x as u32);
            }
        }
        lemma_weighted_agree(w, done, target, n as int);
        if skip == UNREACHABLE {
            assert forall|x: u32| x < n implies (reached@.contains(x) <==> reachable(gv, root, x)) by {
                if reachable(gv, root, x) {
                    lemma_avoid_absent(gv, root, UNREACHABLE, x);
                    assert(target[x as int]);
                    assert(done[x as int]);
                }
                if reached@.contains(x) {
                    assert(done[x as int]);
                    assert(target[x as int]);
                    lemma_avoid_not_skip(gv, root, skip, x);
                }
            }
        }
    }
    (total, reached)
}

/// The baseline the dominator method replaces: for every reachable node,
/// delete it, search again from the root and measure the weight that
/// disappeared.
pub fn brute_force_exclusive(g: &Graph, root: u32, weights: &[u64]) -> (out: Vec<u64>)
    requires
        g.wf(),
        g.spec_node_count() == 0 || root < g.spec_node_count(),
        forall|v: u32| v < g.spec_node_count() && reachable(g@, root, v) ==> v < weights@.len(),
        weighted(weights@, reach_set(g@, root, UNREACHABLE), g.spec_node_count() as int) <= u64::MAX,
    ensures
        out.len() == g.spec_node_count(),
        forall|d: u32|
            d < g.spec_node_count() ==> #[trigger] out[d as int] == (if reachable(g@, root, d) {
                weighted(weights@, reach_set(g@, root, UNREACHABLE), g.spec_node_count() as int)
                    - weighted(weights@, reach_set(g@, root, d), g.spec_node_count() as int)
            } else {
                0int
            }),
{
    proof {
        g.lemma_wf();
    }
    let ghost gv = g@;
    let n = g.node_count();
    let mut out = zeros_u64(n);
    if n == 0 {
        return out;
    }
    let mut stamp = zeros_u32(n);
    let (full, reached) = bfs(g, root, weights, UNREACHABLE, 1, &mut stamp);
    let mut i: usize = 0;
    while i < reached.len()
        invariant
            gv == g@,
            g.wf(),
            n == g.spec_node_count(),
            n < u32::MAX,
            root < n,
            forall|v: u32| v < n && reachable(gv, root, v) ==> v < weights@.len(),
            weighted(weights@, reach_set(gv, root, UNREACHABLE), n as int) <= u64::MAX,
            full == weighted(weights@, reach_set(gv, root, UNREACHABLE), n as int),
            reached@.no_duplicates(),
            reached.len() <= n,
            forall|k: int| 0 <= k < reached.len() ==> #[trigger] reached[k] < n,
            forall|v: u32| v < n ==> (reached@.contains(v) <==> reachable(gv, root, v)),
            i <= reached.len(),
            stamp.len() == n,
            forall|v: int| 0 <= v < n ==> #[trigger] stamp[v] <= i + 1,
            out.len() == n,
            forall|k: int| 0 <= k < i ==> #[trigger] out[reached[k] as int] == full - weighted(weights@, reach_set(gv, root, reached[k]), n as int),
            forall|v: int| 0 <= v < n && !reached@.take(i as int).contains(v as u32) ==> #[trigger] out[v] == 0,
        decreases reached.len() - i,
    {
        let d = reached[i];
        let (without, _) = bfs(g, root, weights, d, i as u32 + 2, &mut stamp);
        proof {
            let rd = reach_set(gv, root, d);
            let ru = reach_set(gv, root, UNREACHABLE);
            assert forall|v: int| 0 <= v < n && #[trigger] rd[v] implies ru[v] by {
                lemma_avoid_not_skip(gv, root, d, v as u32);
                lemma_avoid_absent(gv, root, UNREACHABLE, v as u32);
            }
            lemma_weighted_mono(weights@, rd, ru, n as int);
        }
        let ghost before = out@;
        out.set(d as usize, full - without);
        proof {
            assert forall|k: int| 0 <= k < i + 1 implies #[trigger] out[reached[k] as int] == full - weighted(weights@, reach_set(gv, root, reached[k]), n as int) by {
                if k < i {
                    assert(reached[k] != reached[i as int]);
                }
            }
            assert forall|v: int| 0 <= v < n && !reached@.take(i + 1).contains(v as u32) implies #[trigger] out[v] == 0 by {
                assert(reached@.take(i + 1)[i as int] == d);
                if v != d {
                    if reached@.take(i as int).contains(v as u32) {
                        let k = choose|k: int| 0 <= k < i && reached@.take(i as int)[k] == v as u32;
                        assert(reached@.take(i + 1)[k] == v as u32);
                    }
                    assert(before[v] == out[v]);
                }
            }
        }
        i += 1;
    }
    proof {
        assert(reached@.take(reached.len() as int) =~= reached@);
        assert forall|d: u32| d < n implies #[trigger] out[d as int] == (if reachable(gv, root, d) {
            weighted(weights@, reach_set(gv, root, UNREACHABLE), n as int)
                - weighted(weights@, reach_set(gv, root, d), n as int)
        } else {
            0int
        }) by {
            if reachable(gv, root, d) {
                assert(reached@.contains(d));
                let k = choose|k: int| 0 <= k < reached.len() && reached[k] == d;
                assert(out[reached[k] as int] == full - weighted(weights@, reach_set(gv, root, reached[k]), n as int));
            }
        }
    }
    out
}

} // verus!
