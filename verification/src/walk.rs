//! What the preprocessor does with a TU: walking its includes the way it
//! expands them, and naming nodes independently of numbering.

use crate::project::{FileId, Project, NO_PARENT};
use crate::tugraph::{Node, TuGraph};
use vstd::prelude::*;

verus! {

/// A node identity that does not depend on node numbering: the nearest
/// guarded ancestor (or the root, or the node itself if guarded) plus the
/// directive indices leading from it through unguarded files.
#[derive(Clone, Debug, PartialEq, Eq, Hash)]
pub struct NodeKey {
    pub anchor: FileId,
    pub path: Vec<u32>,
}

/// The key of node `v`: follow inclusion sites up to a node without a
/// parent, collecting directive indices.
pub open spec fn key_spec(nodes: Seq<Node>, v: int) -> (u32, Seq<u32>)
    decreases v,
{
    if v < 0 || v >= nodes.len() || nodes[v].parent == NO_PARENT || nodes[v].parent >= v {
        (if 0 <= v < nodes.len() {
            nodes[v].file
        } else {
            0
        }, Seq::empty())
    } else {
        let k = key_spec(nodes, nodes[v].parent as int);
        (k.0, k.1.push(nodes[v].directive))
    }
}

/// Sites hang off earlier nodes.
pub open spec fn parents_earlier(nodes: Seq<Node>) -> bool {
    forall|u: int| 0 <= u < nodes.len() && (#[trigger] nodes[u]).parent != NO_PARENT ==> nodes[u].parent < u
}

impl TuGraph {
    /// The numbering-independent name of node `v`.
    pub fn key(&self, v: u32) -> (k: NodeKey)
        requires
            v < self.nodes@.len(),
            self.nodes@.len() < u32::MAX,
            parents_earlier(self.nodes@),
        ensures
            (k.anchor, k.path@) == key_spec(self.nodes@, v as int),
    {
        let mut rev: Vec<u32> = Vec::new();
        let mut v = v;
        let ghost start = v;
        while self.nodes[v as usize].parent != NO_PARENT
            invariant
                v < self.nodes@.len(),
                self.nodes@.len() < u32::MAX,
                parents_earlier(self.nodes@),
                key_spec(self.nodes@, start as int) == (key_spec(self.nodes@, v as int).0, key_spec(
                    self.nodes@,
                    v as int,
                ).1 + rev@.reverse()),
            decreases v,
        {
            let ghost r0 = rev@;
            rev.push(self.nodes[v as usize].directive);
            proof {
                assert(rev@.reverse() =~= seq![self.nodes@[v as int].directive] + r0.reverse());
            }
            v = self.nodes[v as usize].parent;
        }
        let mut path: Vec<u32> = Vec::new();
        let mut i: usize = rev.len();
        while i > 0
            invariant
                i <= rev@.len(),
                path@ == rev@.subrange(i as int, rev@.len() as int).reverse(),
            decreases i,
        {
            i -= 1;
            let ghost p0 = path@;
            path.push(rev[i]);
            proof {
                assert(rev@.subrange(i as int, rev@.len() as int).reverse() =~= p0.push(rev@[i as int]));
            }
        }
        proof {
            assert(rev@.subrange(0, rev@.len() as int) =~= rev@);
            assert(key_spec(self.nodes@, v as int).1 =~= Seq::<u32>::empty());
            assert(Seq::<u32>::empty() + rev@.reverse() =~= rev@.reverse());
        }
        NodeKey { anchor: self.nodes[v as usize].file, path }
    }
}

// ---------------------------------------------------------------------------
// The preprocessor's walk.
// ---------------------------------------------------------------------------
/// Number of `true` entries.
pub open spec fn count_true(s: Seq<bool>) -> nat
    decreases s.len(),
{
    if s.len() == 0 {
        0
    } else {
        count_true(s.drop_last()) + if s.last() {
            1nat
        } else {
            0nat
        }
    }
}

pub proof fn lemma_count_true_le(s: Seq<bool>)
    ensures
        count_true(s) <= s.len(),
    decreases s.len(),
{
    if s.len() > 0 {
        lemma_count_true_le(s.drop_last());
    }
}

pub proof fn lemma_count_true_set(s: Seq<bool>, t: int)
    requires
        0 <= t < s.len(),
        !s[t],
    ensures
        count_true(s.update(t, true)) == count_true(s) + 1,
        count_true(s) < s.len(),
    decreases s.len(),
{
    let u = s.update(t, true);
    if t < s.len() - 1 {
        assert(u.drop_last() =~= s.drop_last().update(t, true));
        lemma_count_true_set(s.drop_last(), t);
    } else {
        assert(u.drop_last() =~= s.drop_last());
        lemma_count_true_le(s.drop_last());
    }
}

/// `n` unmarked files.
pub open spec fn no_marks(n: nat) -> Seq<bool> {
    Seq::new(n, |k: int| false)
}

/// The node to empty matches the walk's position.
pub open spec fn at_key(emptied: Option<(u32, Seq<u32>)>, anchor: u32, path: Seq<u32>) -> bool {
    emptied matches Some(k) && k.0 == anchor && k.1 == path
}

/// Expanding file `f` at position `(anchor, path)`: nothing when it is the
/// node being emptied, else its weight plus what its directives expand.
/// `seen` marks guarded files already expanded in the TU; `on` marks the
/// unguarded files on the inclusion stack since the nearest guarded one.
/// Returns the bytes and the guarded files seen afterwards; `fuel` only
/// bounds the recursion, and the walk never runs out of it.
pub open spec fn walk_expand(
    p: Project,
    config: int,
    emptied: Option<(u32, Seq<u32>)>,
    seen: Seq<bool>,
    on: Seq<bool>,
    path: Seq<u32>,
    anchor: u32,
    f: u32,
    fuel: nat,
) -> (nat, Seq<bool>)
    decreases fuel, 1nat, 0int,
{
    if at_key(emptied, anchor, path) {
        (0, seen)
    } else {
        let r = walk_dirs(p, config, emptied, seen, on, path, anchor, f, 0, fuel);
        (p.spec_weight(f as int) + r.0, r.1)
    }
}

/// The directives of `f` from index `i` on.
pub open spec fn walk_dirs(
    p: Project,
    config: int,
    emptied: Option<(u32, Seq<u32>)>,
    seen: Seq<bool>,
    on: Seq<bool>,
    path: Seq<u32>,
    anchor: u32,
    f: u32,
    i: int,
    fuel: nat,
) -> (nat, Seq<bool>)
    decreases fuel, 0nat, p.spec_targets(config, f as int).len() - i,
{
    let ts = p.spec_targets(config, f as int);
    if i < 0 || i >= ts.len() || fuel == 0 {
        (0, seen)
    } else {
        match ts[i] {
            None => walk_dirs(p, config, emptied, seen, on, path, anchor, f, i + 1, fuel),
            Some(t) => if p.spec_once(t as int) {
                if 0 <= t < seen.len() && seen[t as int] {
                    walk_dirs(p, config, emptied, seen, on, path, anchor, f, i + 1, fuel)
                } else {
                    let a = walk_expand(
                        p,
                        config,
                        emptied,
                        seen.update(t as int, true),
                        no_marks(on.len()),
                        Seq::empty(),
                        t,
                        t,
                        (fuel - 1) as nat,
                    );
                    let b = walk_dirs(p, config, emptied, a.1, on, path, anchor, f, i + 1, fuel);
                    (a.0 + b.0, b.1)
                }
            } else if 0 <= t < on.len() && on[t as int] {
                walk_dirs(p, config, emptied, seen, on, path, anchor, f, i + 1, fuel)
            } else {
                let a = walk_expand(
                    p,
                    config,
                    emptied,
                    seen,
                    on.update(t as int, true),
                    path.push(i as u32),
                    anchor,
                    t,
                    (fuel - 1) as nat,
                );
                let b = walk_dirs(p, config, emptied, a.1, on, path, anchor, f, i + 1, fuel);
                (a.0 + b.0, b.1)
            },
        }
    }
}

/// Enough fuel for the walk from this state on: each guarded expansion marks
/// a new file, and each unguarded one a new file on the stack.
pub open spec fn walk_bound(seen: Seq<bool>, on: Seq<bool>) -> int {
    (seen.len() - count_true(seen)) * (seen.len() + 1) + (on.len() - count_true(on)) + 1
}

pub(crate) proof fn lemma_bound_once(n: int, s: int, c: int, fuel: int)
    by (nonlinear_arith)
    requires
        0 <= c <= n,
        0 <= s < n,
        fuel >= (n - s) * (n + 1) + (n - c) + 1,
    ensures
        fuel - 1 >= (n - (s + 1)) * (n + 1) + n + 1,
{
}

pub(crate) proof fn lemma_bound_mono(n: int, s1: int, s2: int, c: int, fuel: int)
    by (nonlinear_arith)
    requires
        0 <= s1 <= s2 <= n,
        fuel >= (n - s1) * (n + 1) + (n - c) + 1,
    ensures
        fuel >= (n - s2) * (n + 1) + (n - c) + 1,
{
}

pub open spec fn key_view(emptied: Option<&NodeKey>) -> Option<(u32, Seq<u32>)> {
    match emptied {
        Some(k) => Some((k.anchor, k.path@)),
        None => None,
    }
}

fn same_u32s(a: &Vec<u32>, b: &Vec<u32>) -> (r: bool)
    ensures
        r == (a@ == b@),
{
    if a.len() != b.len() {
        return false;
    }
    let mut i: usize = 0;
    while i < a.len()
        invariant
            a@.len() == b@.len(),
            i <= a@.len(),
            forall|j: int| 0 <= j < i ==> a@[j] == b@[j],
        decreases a@.len() - i,
    {
        if a[i] != b[i] {
            return false;
        }
        i += 1;
    }
    proof {
        assert(a@ =~= b@);
    }
    true
}

fn falses(n: usize) -> (v: Vec<bool>)
    ensures
        v@ == no_marks(n as nat),
{
    let mut v: Vec<bool> = Vec::new();
    let mut i: usize = 0;
    while i < n
        invariant
            i <= n,
            v@ == no_marks(i as nat),
        decreases n - i,
    {
        v.push(false);
        proof {
            assert(v@ =~= no_marks((i + 1) as nat));
        }
        i += 1;
    }
    v
}

pub(crate) proof fn lemma_falses_count(n: nat)
    ensures
        count_true(no_marks(n)) == 0,
    decreases n,
{
    if n > 0 {
        assert(no_marks(n).drop_last() =~= no_marks((n - 1) as nat));
        lemma_falses_count((n - 1) as nat);
    }
}

/// Expands `f` and returns the significant bytes it produces, saturating at
/// `u64::MAX`.
fn walk(
    p: &Project,
    config: u32,
    emptied: Option<&NodeKey>,
    seen: &mut Vec<bool>,
    on: &mut Vec<bool>,
    path: &mut Vec<u32>,
    anchor: u32,
    f: u32,
    Ghost(fuel): Ghost<nat>,
) -> (r: u64)
    requires
        p.wf(),
        config < p.configs@.len(),
        f < p.paths@.len(),
        old(seen)@.len() == p.paths@.len(),
        old(on)@.len() == p.paths@.len(),
        fuel >= walk_bound(old(seen)@, old(on)@),
    ensures
        final(seen)@.len() == old(seen)@.len(),
        count_true(final(seen)@) >= count_true(old(seen)@),
        final(on)@ == old(on)@,
        final(path)@ == old(path)@,
        ({
            let w = walk_expand(
                *p,
                config as int,
                key_view(emptied),
                old(seen)@,
                old(on)@,
                old(path)@,
                anchor,
                f,
                fuel,
            );
            &&& r == (if w.0 > u64::MAX {
                u64::MAX as nat
            } else {
                w.0
            })
            &&& final(seen)@ == w.1
        }),
    decreases fuel, 1nat, 0int,
{
    let ghost ev = key_view(emptied);
    if let Some(k) = emptied {
        if k.anchor == anchor && same_u32s(&k.path, path) {
            return 0;
        }
    }
    let ts = p.targets(config, f);
    let ghost tsv = ts@;
    let ghost n = p.paths@.len();
    let ghost seen0 = seen@;
    let mut total: u64 = p.weight(f);
    let ghost mut acc: nat = p.spec_weight(f as int);
    let mut i: usize = 0;
    proof {
        lemma_count_true_le(seen@);
        lemma_count_true_le(on@);
    }
    while i < ts.len()
        invariant
            p.wf(),
            config < p.configs@.len(),
            tsv == ts@,
            tsv == p.spec_targets(config as int, f as int),
            n == p.paths@.len(),
            i <= tsv.len(),
            seen@.len() == n,
            on@.len() == n,
            on@ == old(on)@,
            path@ == old(path)@,
            count_true(seen@) >= count_true(seen0),
            seen0 == old(seen)@,
            fuel >= walk_bound(seen@, on@),
            ev == key_view(emptied),
            !at_key(ev, anchor, path@),
            total == (if acc > u64::MAX {
                u64::MAX as nat
            } else {
                acc
            }),
            ({
                let whole = walk_dirs(*p, config as int, ev, seen0, old(on)@, old(path)@, anchor, f, 0, fuel);
                let rest = walk_dirs(*p, config as int, ev, seen@, on@, path@, anchor, f, i as int, fuel);
                &&& p.spec_weight(f as int) + whole.0 == acc + rest.0
                &&& whole.1 == rest.1
            }),
        decreases tsv.len() - i,
    {
        proof {
            lemma_count_true_le(seen@);
            lemma_count_true_le(on@);
        }
        let ghost r_i = walk_dirs(*p, config as int, ev, seen@, on@, path@, anchor, f, i as int, fuel);
        let ghost seen_i = seen@;
        match ts[i] {
            None => {
                proof {
                    assert(r_i == walk_dirs(*p, config as int, ev, seen@, on@, path@, anchor, f, i + 1, fuel));
                }
            },
            Some(t) => {
                proof {
                    assert(p.resolved@[config as int]@.contains_key(f));
                    assert(p.targets_ok(f as int, tsv));
                    assert(p.readable(t as int));
                }
                if p.once(t) {
                    if seen[t as usize] {
                        proof {
                            assert(r_i == walk_dirs(*p, config as int, ev, seen@, on@, path@, anchor, f, i + 1, fuel));
                        }
                    } else {
                        let ghost s1 = seen@;
                        seen.set(t as usize, true);
                        let mut fresh_on = falses(p.paths.len());
                        let mut fresh_path: Vec<u32> = Vec::new();
                        proof {
                            lemma_count_true_set(s1, t as int);
                            lemma_falses_count(n);
                            lemma_bound_once(n as int, count_true(s1) as int, count_true(on@) as int, fuel as int);
                            assert(fresh_path@ =~= Seq::<u32>::empty());
                        }
                        let a = walk(
                            p,
                            config,
                            emptied,
                            seen,
                            &mut fresh_on,
                            &mut fresh_path,
                            t,
                            t,
                            Ghost((fuel - 1) as nat),
                        );
                        proof {
                            lemma_count_true_le(seen@);
                            lemma_bound_mono(n as int, count_true(s1) as int, count_true(seen@) as int, count_true(on@) as int, fuel as int);
                        }
                        total = total.saturating_add(a);
                        proof {
                            let wa = walk_expand(
                                *p,
                                config as int,
                                ev,
                                s1.update(t as int, true),
                                no_marks(n),
                                Seq::empty(),
                                t,
                                t,
                                (fuel - 1) as nat,
                            );
                            assert(a == (if wa.0 > u64::MAX {
                                u64::MAX as nat
                            } else {
                                wa.0
                            }));
                            assert(seen@ == wa.1);
                            let r_i = walk_dirs(*p, config as int, ev, s1, on@, path@, anchor, f, i as int, fuel);
                            let r_n = walk_dirs(*p, config as int, ev, seen@, on@, path@, anchor, f, i + 1, fuel);
                            assert(tsv[i as int] == Some(t));
                            assert(p.spec_once(t as int));
                            assert(!s1[t as int]);
                            assert(fuel > 0);
                            assert(r_i.0 == wa.0 + r_n.0);
                            assert(r_i.1 == r_n.1);
                            acc = acc + wa.0;
                        }
                    }
                } else if on[t as usize] {
                    proof {
                        assert(r_i == walk_dirs(*p, config as int, ev, seen@, on@, path@, anchor, f, i + 1, fuel));
                    }
                } else {
                    let ghost o1 = on@;
                    let ghost sb = seen@;
                    on.set(t as usize, true);
                    path.push(i as u32);
                    proof {
                        lemma_count_true_set(o1, t as int);
                    }
                    let a = walk(p, config, emptied, seen, on, path, anchor, t, Ghost((fuel - 1) as nat));
                    path.pop();
                    on.set(t as usize, false);
                    proof {
                        assert(on@ =~= o1);
                        assert(path@ =~= old(path)@);
                        lemma_count_true_le(seen@);
                        lemma_bound_mono(n as int, count_true(sb) as int, count_true(seen@) as int, count_true(on@) as int, fuel as int);
                    }
                    total = total.saturating_add(a);
                    proof {
                        let wa = walk_expand(
                            *p,
                            config as int,
                            ev,
                            sb,
                            o1.update(t as int, true),
                            old(path)@.push(i as u32),
                            anchor,
                            t,
                            (fuel - 1) as nat,
                        );
                        let r_n = walk_dirs(*p, config as int, ev, seen@, on@, path@, anchor, f, i + 1, fuel);
                        assert(r_i.0 == wa.0 + r_n.0);
                        assert(r_i.1 == r_n.1);
                        acc = acc + wa.0;
                    }
                }
            },
        }
        i += 1;
    }
    total
}

/// Guarded files marked seen when the walk of a TU starts: the root, if it is
/// guarded.
pub open spec fn walk_start_seen(p: Project, root: u32) -> Seq<bool> {
    if p.spec_once(root as int) {
        no_marks(p.paths@.len()).update(root as int, true)
    } else {
        no_marks(p.paths@.len())
    }
}

/// The significant bytes the preprocessor emits for TU `tu`, with the node
/// named `emptied` (if any) contributing nothing and including nothing.
pub open spec fn preprocessed_spec(p: Project, tu: int, emptied: Option<(u32, Seq<u32>)>) -> nat {
    let root = p.tus@[tu].file;
    let seen = walk_start_seen(p, root);
    let on = no_marks(p.paths@.len());
    walk_expand(
        p,
        p.tus@[tu].config as int,
        emptied,
        seen,
        on,
        Seq::empty(),
        root,
        root,
        walk_bound(seen, on) as nat,
    ).0
}

impl Project {
    /// Walks the TU the way the preprocessor would,
    /// expanding directives in order, skipping guarded files already
    /// expanded, and returns the significant bytes produced (saturating at
    /// `u64::MAX`). The node named by `emptied`, if any, contributes nothing
    /// and includes nothing.
    ///
    /// This shares no code with [`Project::tu_graph`] or the dominator
    /// computation, which is what makes it a useful oracle.
    pub fn preprocessed_bytes(&self, tu: usize, emptied: Option<&NodeKey>) -> (r: u64)
        requires
            self.wf(),
            tu < self.tus@.len(),
        ensures
            r == (if preprocessed_spec(*self, tu as int, key_view(emptied)) > u64::MAX {
                u64::MAX as nat
            } else {
                preprocessed_spec(*self, tu as int, key_view(emptied))
            }),
    {
        let root = self.tus[tu].file;
        let config = self.tus[tu].config;
        let n = self.paths.len();
        let mut seen = falses(n);
        if self.once(root) {
            seen.set(root as usize, true);
        }
        let mut on = falses(n);
        let mut path: Vec<u32> = Vec::new();
        proof {
            assert(self.readable(root as int));
            assert(seen@ == walk_start_seen(*self, root));
            assert(path@ =~= Seq::<u32>::empty());
        }
        let ghost fuel = walk_bound(seen@, on@);
        proof {
            lemma_count_true_le(seen@);
            lemma_count_true_le(on@);
            assert(fuel >= 0) by (nonlinear_arith)
                requires
                    fuel == (seen@.len() - count_true(seen@)) * (seen@.len() + 1) + (on@.len() - count_true(on@)) + 1,
                    count_true(seen@) <= seen@.len(),
                    count_true(on@) <= on@.len(),
            ;
        }
        walk(self, config, emptied, &mut seen, &mut on, &mut path, root, root, Ghost(fuel as nat))
    }
}

} // verus!
