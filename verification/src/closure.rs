//! Inclusive weights: everything a file drags in, each distinct file counted
//! once, whatever the guards say.

use crate::dominators::{
    count_false, edge, lemma_avoid_absent, lemma_avoid_not_skip, lemma_closed_holds_reachable,
    lemma_count_false_all, lemma_count_false_set, lemma_reach_avoid_root, lemma_reach_avoid_step,
    lemma_weighted_agree, lemma_weighted_mono, lemma_weighted_none, lemma_weighted_set, reach_set, reachable,
    weighted, zeros_u64, UNREACHABLE,
};
use crate::csr::zeros_u32;
use crate::analyze::sat;
use crate::project::{FileId, Project, MAX_FILES};
use std::collections::HashMap;
use std::collections::VecDeque;
use vstd::prelude::*;

verus! {

broadcast use vstd::std_specs::hash::group_hash_axioms;

/// The resolved targets among `ts`, in order.
pub open spec fn some_targets(ts: Seq<Option<u32>>) -> Seq<u32>
    decreases ts.len(),
{
    if ts.len() == 0 {
        Seq::empty()
    } else {
        let rest = some_targets(ts.drop_last());
        match ts.last() {
            Some(t) => rest.push(t),
            None => rest,
        }
    }
}

/// The file graph of one config: an edge from each file to each file one of
/// its directives resolved to.
pub open spec fn file_graph(p: Project, config: int) -> Seq<Seq<u32>> {
    Seq::new(p.paths@.len(), |f: int| some_targets(p.spec_targets(config, f)))
}

/// The weight of every file, by id.
pub open spec fn file_weights(p: Project) -> Seq<u64> {
    Seq::new(p.paths@.len(), |f: int| p.spec_weight(f) as u64)
}

/// Some file's directive resolved to `f` under `config`.
pub open spec fn is_target(p: Project, config: int, f: u32) -> bool {
    exists|g: u32, j: int|
        p.resolved@[config]@.contains_key(g) && 0 <= j < p.resolved@[config]@[g]@.len()
            && #[trigger] p.resolved@[config]@[g]@[j] == Some(f)
}

/// Inclusive weight of `f` under `config`: the weight of every distinct file
/// reachable from it, itself included.
pub open spec fn closure_weight(p: Project, config: int, f: u32) -> int {
    weighted(file_weights(p), reach_set(file_graph(p, config), f, UNREACHABLE), p.paths@.len() as int)
}

proof fn lemma_some_targets(ts: Seq<Option<u32>>)
    ensures
        forall|j: int| 0 <= j < ts.len() && (#[trigger] ts[j]) is Some ==> some_targets(ts).contains(ts[j]->0),
        forall|k: int|
            0 <= k < some_targets(ts).len() ==> exists|j: int|
                0 <= j < ts.len() && #[trigger] ts[j] == Some(#[trigger] some_targets(ts)[k]),
    decreases ts.len(),
{
    if ts.len() > 0 {
        let d = ts.drop_last();
        lemma_some_targets(d);
        let r = some_targets(d);
        assert forall|j: int| 0 <= j < ts.len() && (#[trigger] ts[j]) is Some implies some_targets(ts).contains(
            ts[j]->0,
        ) by {
            if j < ts.len() - 1 {
                assert(d[j] == ts[j]);
                let k = choose|k: int| 0 <= k < r.len() && r[k] == ts[j]->0;
                match ts.last() {
                    Some(t) => assert(r.push(t)[k] == ts[j]->0),
                    None => {},
                }
            } else {
                match ts.last() {
                    Some(t) => assert(r.push(t)[r.len() as int] == t),
                    None => {},
                }
            }
        }
        assert forall|k: int| 0 <= k < some_targets(ts).len() implies exists|j: int|
            0 <= j < ts.len() && #[trigger] ts[j] == Some(#[trigger] some_targets(ts)[k]) by {
            match ts.last() {
                Some(t) => {
                    if k < r.len() {
                        let j = choose|j: int| 0 <= j < d.len() && #[trigger] d[j] == Some(r[k]);
                        assert(ts[j] == d[j]);
                        assert(some_targets(ts)[k] == r[k]);
                    } else {
                        assert(ts[ts.len() - 1] == Some(t));
                    }
                },
                None => {
                    let j = choose|j: int| 0 <= j < d.len() && #[trigger] d[j] == Some(r[k]);
                    assert(ts[j] == d[j]);
                },
            }
        }
    }
}

/// The resolved targets of `f` under `config`, as a list of file ids.
fn successors(project: &Project, config: u32, f: FileId) -> (r: Vec<u32>)
    requires
        config < project.resolved@.len(),
    ensures
        r@ == some_targets(project.spec_targets(config as int, f as int)),
{
    let ts = project.targets(config, f);
    let mut r: Vec<u32> = Vec::new();
    let mut j: usize = 0;
    while j < ts.len()
        invariant
            j <= ts@.len(),
            r@ == some_targets(ts@.take(j as int)),
        decreases ts@.len() - j,
    {
        proof {
            assert(ts@.take(j as int + 1).drop_last() =~= ts@.take(j as int));
        }
        match ts[j] {
            Some(t) => r.push(t),
            None => {},
        }
        j += 1;
    }
    proof {
        assert(ts@.take(ts@.len() as int) =~= ts@);
    }
    r
}

/// Breadth-first search from `root` over `adj`: the total weight of the nodes
/// it reaches.
fn reach_weight(adj: &Vec<Vec<u32>>, root: u32, weights: &Vec<u64>, epoch: u32, stamp: &mut Vec<u32>) -> (total: u64)
    requires
        adj@.len() < u32::MAX,
        root < adj@.len(),
        weights@.len() == adj@.len(),
        forall|v: int, j: int| 0 <= v < adj@.len() && 0 <= j < adj@[v]@.len() ==> #[trigger] adj@[v]@[j] < adj@.len(),
        old(stamp)@.len() == adj@.len(),
        forall|v: int| 0 <= v < old(stamp)@.len() ==> #[trigger] old(stamp)@[v] < epoch,
    ensures
        final(stamp)@.len() == old(stamp)@.len(),
        forall|v: int| 0 <= v < final(stamp)@.len() ==> #[trigger] final(stamp)@[v] <= epoch,
        total == sat(weighted(weights@, reach_set(adj_view(adj@), root, UNREACHABLE), adj@.len() as int)),
{
    let ghost gv = adj_view(adj@);
    let ghost n = gv.len();
    let ghost w = weights@;
    let ghost skip = UNREACHABLE;
    let ghost target = reach_set(gv, root, UNREACHABLE);
    let mut total: u64 = 0;
    proof {
        lemma_reach_avoid_root(gv, root, skip);
    }
    let mut queue: VecDeque<u32> = VecDeque::new();
    stamp.set(root as usize, epoch);
    queue.push_back(root);
    let ghost mut done: Seq<bool> = Seq::new(n as nat, |v: int| false);
    proof {
        lemma_weighted_none(w, done, n as int);
        lemma_count_false_all(done);
        assert(queue@ =~= seq![root]);
        assert forall|v: int| 0 <= v < n implies (#[trigger] done[v] <==> (stamp[v] == epoch && !queue@.contains(
            v as u32,
        ))) by {
            if v == root {
                assert(queue@[0] == root);
            } else {
                assert(stamp[v] == old(stamp)[v]);
            }
        }
        assert forall|v: int| 0 <= v < n && stamp[v] == epoch implies #[trigger] target[v] by {
            if v != root {
                assert(stamp[v] == old(stamp)[v]);
            }
        }
    }
    while queue.len() > 0
        invariant
            gv == adj_view(adj@),
            n == adj@.len(),
            n < u32::MAX,
            root < n,
            skip == UNREACHABLE,
            w == weights@,
            w.len() == n,
            target == reach_set(gv, root, UNREACHABLE),
            forall|v: int, j: int| 0 <= v < adj@.len() && 0 <= j < adj@[v]@.len() ==> #[trigger] adj@[v]@[j] < adj@.len(),
            stamp.len() == n,
            done.len() == n,
            forall|v: int| 0 <= v < n ==> #[trigger] stamp[v] <= epoch,
            stamp[root as int] == epoch,
            queue@.no_duplicates(),
            forall|i: int| 0 <= i < queue.len() ==> #[trigger] queue@[i] < n && stamp[queue@[i] as int] == epoch,
            forall|v: int| 0 <= v < n ==> (#[trigger] done[v] <==> (stamp[v] == epoch && !queue@.contains(v as u32))),
            forall|v: int| 0 <= v < n && stamp[v] == epoch ==> #[trigger] target[v],
            forall|u: int, j: int|
                0 <= u < n && done[u] && 0 <= j < gv[u].len() ==> stamp[#[trigger] gv[u][j] as int] == epoch,
            total == sat(weighted(w, done, n as int)),
        decreases count_false(Seq::new(n as nat, |v: int| stamp[v] == epoch)), queue.len(),
    {
        let ghost marks0 = Seq::new(n as nat, |v: int| stamp[v] == epoch);
        let ghost q0 = queue@;
        let v = queue.pop_front().unwrap();
        proof {
            assert(v == q0[0]);
            assert(queue@ =~= q0.drop_first());
            assert(!queue@.contains(v)) by {
                if queue@.contains(v) {
                    let k = choose|k: int| 0 <= k < queue@.len() && queue@[k] == v;
                    assert(q0[k + 1] == v);
                }
            }
            assert(!done[v as int]) by {
                assert(q0.contains(v));
            }
            lemma_weighted_set(w, done, v as int, n as int);
            assert(target[v as int]);
            assert forall|x: int| 0 <= x < n && #[trigger] done.update(v as int, true)[x] implies target[x] by {
                if x != v {
                    assert(done[x]);
                    assert(stamp[x] == epoch);
                }
            }
            lemma_weighted_mono(w, done.update(v as int, true), target, n as int);
            lemma_count_false_set(done, v as int);
        }
        total = total.saturating_add(weights[v as usize]);
        proof {
            let d0 = done;
            done = done.update(v as int, true);
            assert forall|x: int| 0 <= x < n implies (#[trigger] done[x] <==> (stamp[x] == epoch && !queue@.contains(
                x as u32,
            ))) by {
                if x != v {
                    assert(d0[x] == done[x]);
                    if queue@.contains(x as u32) {
                        let k = choose|k: int| 0 <= k < queue@.len() && queue@[k] == x as u32;
                        assert(q0[k + 1] == x as u32);
                    }
                    if q0.contains(x as u32) {
                        let k = choose|k: int| 0 <= k < q0.len() && q0[k] == x as u32;
                        assert(k != 0);
                        assert(queue@[k - 1] == x as u32);
                    }
                }
            }
        }
        let succ = &adj[v as usize];
        let mut j: usize = 0;
        while j < succ.len()
            invariant
                gv == adj_view(adj@),
                n == adj@.len(),
                n < u32::MAX,
                succ@ == gv[v as int],
                v < n,
                skip == UNREACHABLE,
                target == reach_set(gv, root, UNREACHABLE),
                forall|x: int, y: int| 0 <= x < adj@.len() && 0 <= y < adj@[x]@.len() ==> #[trigger] adj@[x]@[y] < adj@.len(),
                reachable_avoiding_root(gv, root, v),
                stamp.len() == n,
                done.len() == n,
                done[v as int],
                j <= succ.len(),
                forall|x: int| 0 <= x < n ==> #[trigger] stamp[x] <= epoch,
                stamp[root as int] == epoch,
                queue@.no_duplicates(),
                forall|i: int| 0 <= i < queue.len() ==> #[trigger] queue@[i] < n && stamp[queue@[i] as int] == epoch,
                forall|x: int| 0 <= x < n ==> (#[trigger] done[x] <==> (stamp[x] == epoch && !queue@.contains(x as u32))),
                forall|x: int| 0 <= x < n && stamp[x] == epoch ==> #[trigger] target[x],
                forall|u: int, y: int|
                    0 <= u < n && done[u] && u != v && 0 <= y < gv[u].len() ==> stamp[#[trigger] gv[u][y] as int] == epoch,
                forall|y: int| 0 <= y < j ==> stamp[#[trigger] gv[v as int][y] as int] == epoch,
                count_false(Seq::new(n as nat, |x: int| stamp[x] == epoch)) <= count_false(marks0),
                count_false(Seq::new(n as nat, |x: int| stamp[x] == epoch)) == count_false(marks0) ==> queue.len()
                    < q0.len(),
            decreases succ.len() - j,
        {
            let x = succ[j];
            proof {
                assert(adj@[v as int]@[j as int] == x);
            }
            if stamp[x as usize] != epoch {
                let ghost s0 = stamp@;
                let ghost qa = queue@;
                let ghost m0 = Seq::new(n as nat, |y: int| s0[y] == epoch);
                stamp.set(x as usize, epoch);
                queue.push_back(x);
                proof {
                    assert(edge(gv, v, x)) by {
                        assert(gv[v as int][j as int] == x);
                    }
                    lemma_reach_avoid_step(gv, root, skip, v, x);
                    assert(Seq::new(n as nat, |y: int| stamp[y] == epoch) =~= m0.update(x as int, true));
                    lemma_count_false_set(m0, x as int);
                    assert(!qa.contains(x)) by {
                        if qa.contains(x) {
                            let k = choose|k: int| 0 <= k < qa.len() && qa[k] == x;
                            assert(s0[qa[k] as int] == epoch);
                        }
                    }
                    assert(queue@ == qa.push(x));
                    assert forall|y: int| 0 <= y < n implies (#[trigger] done[y] <==> (stamp[y] == epoch
                        && !queue@.contains(y as u32))) by {
                        if y != x {
                            if qa.contains(y as u32) {
                                let k = choose|k: int| 0 <= k < qa.len() && qa[k] == y as u32;
                                assert(queue@[k] == y as u32);
                            }
                            if queue@.contains(y as u32) {
                                let k = choose|k: int| 0 <= k < queue@.len() && queue@[k] == y as u32;
                                assert(k < qa.len());
                                assert(qa[k] == y as u32);
                            }
                        } else {
                            assert(queue@[queue@.len() - 1] == x);
                        }
                    }
                    assert forall|i: int| 0 <= i < queue.len() implies #[trigger] queue@[i] < n && stamp[queue@[i] as int]
                        == epoch by {
                        if i < qa.len() {
                            assert(queue@[i] == qa[i]);
                        }
                    }
                }
            }
            j += 1;
        }
        proof {
            assert forall|u: int, y: int| 0 <= u < n && done[u] && 0 <= y < gv[u].len() implies stamp[#[trigger] gv[u][y] as int]
                == epoch by {
                if u == v {
                    assert(gv[v as int][y] == gv[u][y]);
                }
            }
        }
    }
    proof {
        assert forall|x: int| 0 <= x < n implies #[trigger] done[x] == target[x] by {
            if target[x] {
                let flags = Seq::new(n as nat, |y: int| stamp[y] == epoch);
                assert forall|u: u32, jj: int|
                    u < gv.len() && flags[u as int] && u != skip && 0 <= jj < gv[u as int].len() && gv[u as int][jj]
                        != skip implies #[trigger] flags[gv[u as int][jj] as int] by {
                    assert(done[u as int]);
                    assert(stamp[gv[u as int][jj] as int] == epoch);
                }
                lemma_closed_holds_reachable(gv, flags, root, skip, x as u32);
            }
        }
        lemma_weighted_agree(w, done, target, n as int);
    }
    total
}

/// The adjacency lists as sequences.
pub open spec fn adj_view(adj: Seq<Vec<u32>>) -> Seq<Seq<u32>> {
    Seq::new(adj.len(), |v: int| adj[v]@)
}

/// `v` is reachable from `root` in `g`, avoiding the absent node.
pub open spec fn reachable_avoiding_root(g: Seq<Seq<u32>>, root: u32, v: u32) -> bool {
    crate::dominators::reachable_avoiding(g, root, UNREACHABLE, v)
}

/// Inclusive weight of every file some directive resolves to under `config`:
/// the weight of each distinct file reachable from it, itself included, or
/// `u64::MAX` when that sum does not fit a `u64`.
pub fn closure_weights(project: &Project, config: u32) -> (r: HashMap<FileId, u64>)
    requires
        project.wf(),
        config < project.configs@.len(),
    ensures
        forall|f: u32| #[trigger] r@.contains_key(f) <==> is_target(*project, config as int, f),
        forall|f: u32|
            #[trigger] r@.contains_key(f) ==> r@[f] == sat(closure_weight(*project, config as int, f)),
{
    let n = project.paths.len();
    let ghost p = *project;
    let ghost gv = file_graph(p, config as int);
    let mut adj: Vec<Vec<u32>> = Vec::new();
    let mut weights: Vec<u64> = Vec::new();
    let mut f: usize = 0;
    while f < n
        invariant
            p == *project,
            project.wf(),
            config < project.resolved@.len(),
            n == project.paths@.len(),
            gv == file_graph(p, config as int),
            f <= n,
            adj@.len() == f,
            weights@.len() == f,
            forall|v: int| 0 <= v < f ==> (#[trigger] adj@[v])@ == gv[v],
            forall|v: int| 0 <= v < f ==> #[trigger] weights@[v] == file_weights(p)[v],
        decreases n - f,
    {
        adj.push(successors(project, config, f as u32));
        let w = project.weight(f as u32);
        weights.push(w);
        f += 1;
    }
    proof {
        assert(weights@ =~= file_weights(p));
        assert(adj_view(adj@) =~= gv);
        assert forall|v: int, j: int| 0 <= v < adj@.len() && 0 <= j < adj@[v]@.len() implies #[trigger] adj@[v]@[j]
            < adj@.len() by {
            let ts = p.spec_targets(config as int, v);
            lemma_some_targets(ts);
            let k = choose|k: int| 0 <= k < ts.len() && #[trigger] ts[k] == Some(some_targets(ts)[j]);
            assert(p.resolved@[config as int]@.contains_key(v as u32));
            assert(p.targets_ok(v, ts));
        }
    }
    let tflags = target_flags(project, config, &adj);
    let mut out: HashMap<FileId, u64> = HashMap::new();
    let mut stamp = zeros_u32(n);
    let mut epoch: u32 = 1;
    let mut v: usize = 0;
    while v < n
        invariant
            p == *project,
            project.wf(),
            config < project.resolved@.len(),
            n == project.paths@.len(),
            n <= MAX_FILES,
            gv == file_graph(p, config as int),
            gv == adj_view(adj@),
            adj@.len() == n,
            weights@ == file_weights(p),
            forall|a: int, j: int| 0 <= a < adj@.len() && 0 <= j < adj@[a]@.len() ==> #[trigger] adj@[a]@[j] < adj@.len(),
            tflags@.len() == n,
            forall|x: int| 0 <= x < n ==> #[trigger] tflags@[x] == is_target(p, config as int, x as u32),
            forall|x: u32| is_target(p, config as int, x) ==> x < n,
            v <= n,
            epoch == v + 1,
            stamp@.len() == n,
            forall|x: int| 0 <= x < n ==> #[trigger] stamp@[x] < epoch,
            forall|x: u32| #[trigger] out@.contains_key(x) <==> (x < v && is_target(p, config as int, x)),
            forall|x: u32|
                #[trigger] out@.contains_key(x) ==> out@[x] == sat(closure_weight(p, config as int, x)),
        decreases n - v,
    {
        if tflags[v] {
            let c = reach_weight(&adj, v as u32, &weights, epoch, &mut stamp);
            out.insert(v as u32, c);
        }
        v += 1;
        epoch += 1;
    }
    out
}

/// For every file, whether some file's directive resolved to it under `config`.
fn target_flags(project: &Project, config: u32, adj: &Vec<Vec<u32>>) -> (r: Vec<bool>)
    requires
        project.wf(),
        config < project.resolved@.len(),
        adj_view(adj@) == file_graph(*project, config as int),
        forall|a: int, j: int| 0 <= a < adj@.len() && 0 <= j < adj@[a]@.len() ==> #[trigger] adj@[a]@[j] < adj@.len(),
    ensures
        r@.len() == adj@.len(),
        forall|x: int| 0 <= x < r@.len() ==> #[trigger] r@[x] == is_target(*project, config as int, x as u32),
        forall|x: u32| is_target(*project, config as int, x) ==> x < adj@.len(),
{
    let ghost p = *project;
    let n = adj.len();
    proof {
        assert(adj_view(adj@).len() == adj@.len());
        assert(file_graph(p, config as int).len() == p.paths@.len());
        assert(adj_view(adj@).len() == file_graph(p, config as int).len());
    }
    let mut flags = crate::dominators::falses(n);
    let mut g: usize = 0;
    while g < n
        invariant
            p == *project,
            project.wf(),
            config < project.resolved@.len(),
            adj_view(adj@) == file_graph(p, config as int),
            forall|a: int, j: int| 0 <= a < adj@.len() && 0 <= j < adj@[a]@.len() ==> #[trigger] adj@[a]@[j] < adj@.len(),
            n == adj@.len(),
            n == p.paths@.len(),
            n < u32::MAX,
            g <= n,
            flags@.len() == n,
            forall|x: int|
                0 <= x < n ==> (#[trigger] flags@[x] <==> exists|a: int, j: int|
                    0 <= a < g && 0 <= j < adj@[a]@.len() && #[trigger] adj@[a]@[j] == x as u32),
        decreases n - g,
    {
        let succ = &adj[g];
        let mut j: usize = 0;
        while j < succ.len()
            invariant
                succ@ == adj@[g as int]@,
                g < n,
                n < u32::MAX,
                n == adj@.len(),
                forall|a: int, y: int| 0 <= a < adj@.len() && 0 <= y < adj@[a]@.len() ==> #[trigger] adj@[a]@[y] < adj@.len(),
                j <= succ@.len(),
                flags@.len() == n,
                forall|x: int|
                    0 <= x < n ==> (#[trigger] flags@[x] <==> (exists|a: int, y: int|
                        0 <= a < g && 0 <= y < adj@[a]@.len() && #[trigger] adj@[a]@[y] == x as u32) || exists|y: int|
                        0 <= y < j && #[trigger] succ@[y] == x as u32),
            decreases succ@.len() - j,
        {
            let t = succ[j];
            proof {
                assert(adj@[g as int]@[j as int] == t);
            }
            let ghost f0 = flags@;
            flags.set(t as usize, true);
            proof {
                assert forall|x: int| 0 <= x < n implies (#[trigger] flags@[x] <==> (exists|a: int, y: int|
                    0 <= a < g && 0 <= y < adj@[a]@.len() && #[trigger] adj@[a]@[y] == x as u32) || exists|y: int|
                    0 <= y < j + 1 && #[trigger] succ@[y] == x as u32) by {
                    if x == t {
                        assert(succ@[j as int] == x as u32);
                    } else {
                        assert(succ@[j as int] == t);
                        assert(x as u32 != t);
                        assert(flags@[x] == f0[x]);
                        if exists|y: int| 0 <= y < j + 1 && #[trigger] succ@[y] == x as u32 {
                            let y = choose|y: int| 0 <= y < j + 1 && #[trigger] succ@[y] == x as u32;
                            assert(y < j);
                        }
                    }
                }
            }
            j += 1;
        }
        proof {
            assert forall|x: int| 0 <= x < n implies (#[trigger] flags@[x] <==> exists|a: int, y: int|
                0 <= a < g + 1 && 0 <= y < adj@[a]@.len() && #[trigger] adj@[a]@[y] == x as u32) by {
                if flags@[x] {
                    if !(exists|a: int, y: int| 0 <= a < g && 0 <= y < adj@[a]@.len() && #[trigger] adj@[a]@[y] == x as u32) {
                        let y = choose|y: int| 0 <= y < succ@.len() && #[trigger] succ@[y] == x as u32;
                        assert(adj@[g as int]@[y] == x as u32);
                    }
                }
                if exists|a: int, y: int| 0 <= a < g + 1 && 0 <= y < adj@[a]@.len() && #[trigger] adj@[a]@[y] == x as u32 {
                    let (a, y) = choose|a: int, y: int| 0 <= a < g + 1 && 0 <= y < adj@[a]@.len() && #[trigger] adj@[a]@[y] == x as u32;
                    if a == g {
                        assert(succ@[y] == x as u32);
                    }
                }
            }
        }
        g += 1;
    }
    proof {
        assert forall|x: u32| is_target(p, config as int, x) implies x < n && flags@[x as int] by {
            let (h, k) = choose|h: u32, k: int|
                p.resolved@[config as int]@.contains_key(h) && 0 <= k < p.resolved@[config as int]@[h]@.len()
                    && #[trigger] p.resolved@[config as int]@[h]@[k] == Some(x);
            assert(h < n);
            let ts = p.spec_targets(config as int, h as int);
            assert(ts[k] == Some(x));
            assert(p.targets_ok(h as int, ts));
            lemma_some_targets(ts);
            let y = choose|y: int| 0 <= y < some_targets(ts).len() && some_targets(ts)[y] == x;
            assert(adj_view(adj@)[h as int] == some_targets(ts));
            assert(adj@[h as int]@[y] == x);
        }
        assert forall|x: int| 0 <= x < n && #[trigger] flags@[x] implies is_target(p, config as int, x as u32) by {
            let (a, y) = choose|a: int, y: int| 0 <= a < n && 0 <= y < adj@[a]@.len() && #[trigger] adj@[a]@[y] == x as u32;
            let ts = p.spec_targets(config as int, a);
            assert(adj_view(adj@)[a] == some_targets(ts));
            lemma_some_targets(ts);
            let k = choose|k: int| 0 <= k < ts.len() && #[trigger] ts[k] == Some(some_targets(ts)[y]);
            assert(p.resolved@[config as int]@.contains_key(a as u32));
            assert(p.resolved@[config as int]@[a as u32]@[k] == Some(x as u32));
        }
    }
    flags
}

} // verus!
