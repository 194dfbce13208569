//! The report over the whole database: per-header totals across TUs, in
//! ranked order, and the bookkeeping around them.

use crate::analyze::{
    child_contrib, child_seen, costs_basis, costs_spec, file_ex, file_exp, has_key, keyed, keys_unique, lemma_costs_bounded,
    sat, sat32, sat_usize, tu_costs, Accum, TuCosts,
};
use crate::compdb::strings_view;
use crate::dominators::Dominators;
use crate::project::clone_strings;
use crate::tugraph::TuGraph;
use crate::closure::{closure_weight, closure_weights, is_target};
use crate::dominators::zeros_u64;
use crate::csr::zeros_u32;
use crate::order::{
    lemma_ranks_before_order, path_components, path_tags, rank_key, rank_order, ranks_before, tags_equal, tags_view,
    Ranked,
};
use crate::project::{FileId, Project};
use crate::scan::{Guard, IncludeDirective};
use std::collections::HashMap;
use vstd::prelude::*;

verus! {

broadcast use vstd::std_specs::hash::group_hash_axioms;

#[derive(Clone, Debug)]
pub struct Options {
    /// Worker threads; 0 means one per available CPU.
    pub threads: usize,
    /// How many dominated children to keep per header.
    pub max_children: usize,
}

impl Default for Options {
    fn default() -> (o: Self)
        ensures
            o.threads == 0,
            o.max_children == 3,
    {
        Options { threads: 0, max_children: 3 }
    }
}

#[derive(Clone, Debug, PartialEq)]
pub struct HeaderCost {
    pub path: String,
    /// Σ over TUs of the bytes that vanish when this header is emptied.
    pub exclusive: u64,
    /// Σ over TUs of the bytes of every distinct file reachable from it.
    pub inclusive: u64,
    /// Translation units in which the header is expanded.
    pub tus: u32,
    /// Σ over TUs of graph nodes for this header: 1 per TU when guarded,
    /// one per inclusion site when not.
    pub expansions: u64,
    /// Included from inside an `#if` block somewhere.
    pub conditional: bool,
    pub guard: Guard,
    /// The largest dominator-tree children: what this header alone brings in.
    pub carries: Vec<(String, u64)>,
}

#[derive(Clone, Debug)]
pub struct Analysis {
    pub translation_units: usize,
    /// Sorted by exclusive bytes, descending.
    pub headers: Vec<HeaderCost>,
    /// Σ over TUs of all preprocessed significant bytes.
    pub total_bytes: u64,
    pub unresolved: Vec<(String, u32, String, bool)>,
    pub missing_sources: Vec<String>,
    pub conditional_includes: usize,
    pub computed_includes: usize,
    /// `(includer, included)` pairs cut because they close a cycle of unguarded headers.
    pub unguarded_cycles: Vec<(String, String)>,
    pub truncated_tus: usize,
}

impl Analysis {
    /// The first header whose path names the same components as `path`.
    pub fn header(&self, path: &str) -> (r: Option<&HeaderCost>)
        ensures
            match r {
                Some(h) => exists|i: int|
                    0 <= i < self.headers@.len() && *h == self.headers@[i] && path_tags(self.headers@[i].path@)
                        == path_tags(path@) && forall|j: int|
                        0 <= j < i ==> path_tags(#[trigger] self.headers@[j].path@) != path_tags(path@),
                None => forall|i: int|
                    0 <= i < self.headers@.len() ==> path_tags(#[trigger] self.headers@[i].path@) != path_tags(path@),
            },
    {
        let want = path_components(path);
        let mut i: usize = 0;
        while i < self.headers.len()
            invariant
                tags_view(want@) == path_tags(path@),
                i <= self.headers@.len(),
                forall|j: int| 0 <= j < i ==> path_tags(#[trigger] self.headers@[j].path@) != path_tags(path@),
            decreases self.headers@.len() - i,
        {
            let tags = path_components(self.headers[i].path.as_str());
            if tags_equal(&tags, &want) {
                return Some(&self.headers[i]);
            }
            i += 1;
        }
        None
    }
}

// ---------------------------------------------------------------------------
// Inclusive bytes and TU counts.
// ---------------------------------------------------------------------------
/// The inclusive weight of `f` under config `c`; 0 when nothing includes `f`
/// there.
pub open spec fn closure_or_zero(p: Project, c: int, f: u32) -> int {
    if !is_target(p, c, f) {
        0
    } else {
        sat(closure_weight(p, c, f))
    }
}

/// Σ over the first `c` configs of (TUs that expand `f`) × (inclusive weight
/// of `f` there), saturating at `u64::MAX`.
pub open spec fn inclusive_upto(p: Project, acc: Accum, f: int, c: int) -> int
    decreases c,
{
    if c <= 0 {
        0
    } else {
        sat(inclusive_upto(p, acc, f, c - 1) + sat(acc.presence@[c - 1]@[f] * closure_or_zero(p, c - 1, f as u32)))
    }
}

/// Σ over the first `c` configs of the TUs that expand `f`, saturating at
/// `u32::MAX`.
pub open spec fn tus_upto(acc: Accum, f: int, c: int) -> int
    decreases c,
{
    if c <= 0 {
        0
    } else {
        sat32(tus_upto(acc, f, c - 1) + acc.presence@[c - 1]@[f])
    }
}

proof fn lemma_upto_bounds(p: Project, acc: Accum, f: int, c: int)
    ensures
        0 <= inclusive_upto(p, acc, f, c) <= u64::MAX,
        0 <= tus_upto(acc, f, c) <= u32::MAX,
    decreases c,
{
    if c > 0 {
        lemma_upto_bounds(p, acc, f, c - 1);
        lemma_closure_or_zero_nonneg(p, c - 1, f as u32);
        assert(acc.presence@[c - 1]@[f] * closure_or_zero(p, c - 1, f as u32) >= 0) by (nonlinear_arith)
            requires
                acc.presence@[c - 1]@[f] >= 0,
                closure_or_zero(p, c - 1, f as u32) >= 0,
        {
        }
    }
}

proof fn lemma_closure_or_zero_nonneg(p: Project, c: int, f: u32)
    ensures
        0 <= closure_or_zero(p, c, f) <= u64::MAX,
{
    if is_target(p, c, f) {
        lemma_weighted_nonneg(
            crate::closure::file_weights(p),
            crate::dominators::reach_set(crate::closure::file_graph(p, c), f, crate::dominators::UNREACHABLE),
            p.paths@.len() as int,
        );
    }
}

proof fn lemma_weighted_nonneg(w: Seq<u64>, fl: Seq<bool>, k: int)
    ensures
        crate::dominators::weighted(w, fl, k) >= 0,
    decreases k,
{
    if k > 0 {
        lemma_weighted_nonneg(w, fl, k - 1);
    }
}

/// Inclusive bytes and TU counts of every file.
fn inclusive_and_tus(project: &Project, acc: &Accum) -> (r: (Vec<u64>, Vec<u32>))
    requires
        project.wf(),
        acc.shaped(project.paths@.len(), project.configs@.len()),
    ensures
        r.0@.len() == project.paths@.len(),
        r.1@.len() == project.paths@.len(),
        forall|f: int| 0 <= f < project.paths@.len() ==> #[trigger] r.0@[f] == inclusive_upto(*project, *acc, f, project.configs@.len() as int),
        forall|f: int| 0 <= f < project.paths@.len() ==> #[trigger] r.1@[f] == tus_upto(*acc, f, project.configs@.len() as int),
{
    let n = project.paths.len();
    let nc = project.configs.len();
    let mut incl = zeros_u64(n);
    let mut tus = zeros_u32(n);
    let mut c: usize = 0;
    while c < nc
        invariant
            project.wf(),
            acc.shaped(n as nat, nc as nat),
            n == project.paths@.len(),
            nc == project.configs@.len(),
            c <= nc,
            incl@.len() == n,
            tus@.len() == n,
            forall|f: int| 0 <= f < n ==> #[trigger] incl@[f] == inclusive_upto(*project, *acc, f, c as int),
            forall|f: int| 0 <= f < n ==> #[trigger] tus@[f] == tus_upto(*acc, f, c as int),
        decreases nc - c,
    {
        let cw = closure_weights(project, c as u32);
        let row = &acc.presence[c];
        let mut f: usize = 0;
        while f < n
            invariant
                project.wf(),
                acc.shaped(n as nat, nc as nat),
                n == project.paths@.len(),
                nc == project.configs@.len(),
                c < nc,
                row@ == acc.presence@[c as int]@,
                f <= n,
                incl@.len() == n,
                tus@.len() == n,
                n <= u32::MAX,
                forall|x: u32| #[trigger] cw@.contains_key(x) <==> is_target(*project, c as int, x),
                forall|x: u32|
                    #[trigger] cw@.contains_key(x) ==> cw@[x] == sat(closure_weight(*project, c as int, x)),
                forall|q: int|
                    0 <= q < n ==> #[trigger] incl@[q] == inclusive_upto(*project, *acc, q, if q < f {
                        c + 1
                    } else {
                        c as int
                    }),
                forall|q: int|
                    0 <= q < n ==> #[trigger] tus@[q] == tus_upto(*acc, q, if q < f {
                        c + 1
                    } else {
                        c as int
                    }),
            decreases n - f,
        {
            let pres = row[f];
            proof {
                lemma_upto_bounds(*project, *acc, f as int, c as int);
                lemma_closure_or_zero_nonneg(*project, c as int, f as u32);
            }
            let t = tus[f];
            let t2 = if (u32::MAX - t) < pres { u32::MAX } else { t + pres };
            tus.set(f, t2);
            let w: u64 = match cw.get(&(f as u32)) {
                Some(w) => *w,
                None => 0,
            };
            let prod: u64 = match (pres as u64).checked_mul(w) {
                Some(x) => x,
                None => u64::MAX,
            };
            let x = incl[f].saturating_add(prod);
            incl.set(f, x);
            proof {
                assert(w == closure_or_zero(*project, c as int, f as u32));
                assert(prod == sat(pres * w));
            }
            f += 1;
        }
        c += 1;
    }
    (incl, tus)
}

// ---------------------------------------------------------------------------
// Include directives that count for the whole database.
// ---------------------------------------------------------------------------
/// Conditional directives among the first `k` of `incs`.
pub open spec fn cond_count(incs: Seq<IncludeDirective>, k: int) -> int
    decreases k,
{
    if k <= 0 {
        0
    } else {
        cond_count(incs, k - 1) + if incs[k - 1].conditional {
            1int
        } else {
            0int
        }
    }
}

/// The directives of file `g` that count under a config that resolved it.
pub open spec fn counted_directives(p: Project, c: int, g: int) -> int {
    if p.resolved@[c]@.contains_key(g as u32) && p.scanned@[g] is Some {
        cond_count(p.scanned@[g]->0.includes@, p.scanned@[g]->0.includes@.len() as int)
    } else {
        0
    }
}

/// Conditional directives over every config before `c` and, in config `c`,
/// the files before `g`; saturating at `usize::MAX`.
pub open spec fn cond_upto(p: Project, c: int, g: int) -> int
    decreases c, g,
{
    if g <= 0 {
        if c <= 0 {
            0
        } else {
            cond_upto(p, c - 1, p.paths@.len() as int)
        }
    } else {
        sat_usize(cond_upto(p, c, g - 1) + counted_directives(p, c, g - 1))
    }
}

/// A conditional directive of some file resolves to `f` under some config.
pub open spec fn included_conditionally(p: Project, f: u32) -> bool {
    exists|c: int, g: u32, j: int|
        0 <= c < p.resolved@.len() && p.resolved@[c]@.contains_key(g) && p.scanned@[g as int] is Some && 0 <= j
            < p.scanned@[g as int]->0.includes@.len() && p.scanned@[g as int]->0.includes@[j].conditional
            && #[trigger] p.resolved@[c]@[g]@[j] == Some(f)
}

/// Computed includes of the first `k` files, saturating at `usize::MAX`.
pub open spec fn computed_upto(p: Project, k: int) -> int
    decreases k,
{
    if k <= 0 {
        0
    } else {
        sat_usize(computed_upto(p, k - 1) + match p.scanned@[k - 1] {
            Some(s) => s.computed_includes@.len() as int,
            None => 0int,
        })
    }
}


/// Conditional directives of `incs` before `k`, and the files some directive
/// among them resolves to (`targets` pairs with `incs` index by index).
fn conditional_marks(project: &Project) -> (r: (Vec<bool>, usize))
    requires
        project.wf(),
    ensures
        r.0@.len() == project.paths@.len(),
        forall|f: int| 0 <= f < project.paths@.len() ==> #[trigger] r.0@[f] == included_conditionally(*project, f as u32),
        r.1 == cond_upto(*project, project.configs@.len() as int, 0),
{
    let ghost p = *project;
    let n = project.paths.len();
    let nc = project.resolved.len();
    let mut marks = crate::dominators::falses(n);
    let mut count: usize = 0;
    let mut c: usize = 0;
    while c < nc
        invariant
            p == *project,
            project.wf(),
            n == p.paths@.len(),
            nc == p.resolved@.len(),
            c <= nc,
            marks@.len() == n,
            count == cond_upto(p, c as int, 0),
            forall|x: int| 0 <= x < n ==> (#[trigger] marks@[x] <==> cond_before(p, c as int, 0, 0, x as u32)),
        decreases nc - c,
    {
        let mut g: usize = 0;
        while g < n
            invariant
                p == *project,
                project.wf(),
                n == p.paths@.len(),
                nc == p.resolved@.len(),
                c < nc,
                g <= n,
                marks@.len() == n,
                count == cond_upto(p, c as int, g as int),
                forall|x: int| 0 <= x < n ==> (#[trigger] marks@[x] <==> cond_before(p, c as int, g as int, 0, x as u32)),
            decreases n - g,
        {
            let mut here: usize = 0;
            match project.resolved[c].get(&(g as u32)) {
                Some(targets) => {
                    match &project.scanned[g] {
                        Some(s) => {
                            proof {
                                assert(p.targets_ok(g as int, targets@));
                                assert forall|k: int| 0 <= k < targets@.len() implies (#[trigger] targets@[k] matches Some(t) ==> t < n) by {
                                    assert(p.targets_ok(g as int, targets@));
                                }
                            }
                            let mut j: usize = 0;
                            while j < s.includes.len()
                                invariant
                                    p == *project,
                                    project.wf(),
                                    n == p.paths@.len(),
                                    nc == p.resolved@.len(),
                                    c < nc,
                                    g < n,
                                    p.resolved@[c as int]@.contains_key(g as u32),
                                    targets@ == p.resolved@[c as int]@[g as u32]@,
                                    p.scanned@[g as int] == Some(*s),
                                    targets@.len() == s.includes@.len(),
                                    forall|k: int| 0 <= k < targets@.len() ==> (#[trigger] targets@[k] matches Some(t) ==> t < n),
                                    j <= s.includes@.len(),
                                    here == cond_count(s.includes@, j as int),
                                    here <= j,
                                    marks@.len() == n,
                                    forall|x: int|
                                        0 <= x < n ==> (#[trigger] marks@[x] <==> cond_before(p, c as int, g as int, j as int, x as u32)),
                                decreases s.includes@.len() - j,
                            {
                                let ghost m0 = marks@;
                                proof {
                                    assert forall|x: int| 0 <= x < n implies (cond_before(p, c as int, g as int, j + 1, x as u32) <==> (#[trigger] m0[x] || cond_at(p, c as int, g as u32, j as int, x as u32))) by {
                                        lemma_cond_before_step(p, c as int, g as u32, j as int, x as u32);
                                    }
                                }
                                let cond = s.includes[j].conditional;
                                let mark: Option<u32> = if cond { targets[j] } else { None };
                                if cond {
                                    here += 1;
                                }
                                match mark {
                                    Some(t) => {
                                        marks.set(t as usize, true);
                                    },
                                    None => {},
                                }
                                proof {
                                    assert(s.includes@[j as int] == p.scanned@[g as int]->0.includes@[j as int]);
                                    assert(targets@[j as int] == p.resolved@[c as int]@[g as u32]@[j as int]);
                                    assert forall|x: int| 0 <= x < n implies (#[trigger] marks@[x] <==> (m0[x] || cond_at(p, c as int, g as u32, j as int, x as u32))) by {
                                        assert(cond_at(p, c as int, g as u32, j as int, x as u32) <==> mark == Some(x as u32));
                                        match mark {
                                            Some(t) => {
                                                assert(marks@ == m0.update(t as int, true));
                                            },
                                            None => {
                                                assert(marks@ == m0);
                                            },
                                        }
                                    }
                                    assert(cond_count(s.includes@, j + 1) == cond_count(s.includes@, j as int) + if s.includes@[j as int].conditional { 1int } else { 0int });
                                }
                                j += 1;
                            }
                            proof {
                                assert forall|x: int| 0 <= x < n implies (#[trigger] marks@[x] <==> cond_before(p, c as int, g + 1, 0, x as u32)) by {
                                    lemma_cond_before_next_file(p, c as int, g as u32, j as int, x as u32);
                                }
                                assert(here == counted_directives(p, c as int, g as int));
                            }
                        },
                        None => {
                            proof {
                                assert forall|x: int| 0 <= x < n implies (#[trigger] marks@[x] <==> cond_before(p, c as int, g + 1, 0, x as u32)) by {
                                    lemma_cond_before_next_file(p, c as int, g as u32, 0, x as u32);
                                }
                                assert(here == counted_directives(p, c as int, g as int));
                            }
                        },
                    }
                },
                None => {
                    proof {
                        assert forall|x: int| 0 <= x < n implies (#[trigger] marks@[x] <==> cond_before(p, c as int, g + 1, 0, x as u32)) by {
                            lemma_cond_before_next_file(p, c as int, g as u32, 0, x as u32);
                        }
                        assert(here == counted_directives(p, c as int, g as int));
                    }
                },
            }
            count = count.saturating_add(here);
            g += 1;
        }
        proof {
            assert forall|x: int| 0 <= x < n implies (#[trigger] marks@[x] <==> cond_before(p, c + 1, 0, 0, x as u32)) by {
                lemma_cond_before_next_config(p, c as int, x as u32);
            }
        }
        c += 1;
    }
    proof {
        assert forall|x: int| 0 <= x < n implies #[trigger] marks@[x] == included_conditionally(p, x as u32) by {
            if included_conditionally(p, x as u32) {
                let (c2, g2, j2) = choose|c2: int, g2: u32, j2: int|
                    0 <= c2 < p.resolved@.len() && p.resolved@[c2]@.contains_key(g2) && p.scanned@[g2 as int] is Some
                        && 0 <= j2 < p.scanned@[g2 as int]->0.includes@.len()
                        && p.scanned@[g2 as int]->0.includes@[j2].conditional && #[trigger] p.resolved@[c2]@[g2]@[j2]
                        == Some(x as u32);
                assert(cond_at(p, c2, g2, j2, x as u32));
            }
        }
    }
    (marks, count)
}

/// Directive `j` of file `g` is conditional and resolves to `x` under config `c`.
pub open spec fn cond_at(p: Project, c: int, g: u32, j: int, x: u32) -> bool {
    &&& 0 <= c < p.resolved@.len()
    &&& p.resolved@[c]@.contains_key(g)
    &&& p.scanned@[g as int] is Some
    &&& 0 <= j < p.scanned@[g as int]->0.includes@.len()
    &&& p.scanned@[g as int]->0.includes@[j].conditional
    &&& p.resolved@[c]@[g]@[j] == Some(x)
}

/// Some conditional directive before position (`c`, `g`, `j`) resolves to `x`.
pub open spec fn cond_before(p: Project, c: int, g: int, j: int, x: u32) -> bool {
    exists|c2: int, g2: u32, j2: int|
        #[trigger] cond_at(p, c2, g2, j2, x) && (c2 < c || (c2 == c && (g2 < g || (g2 == g && j2 < j))))
}

proof fn lemma_cond_before_step(p: Project, c: int, g: u32, j: int, x: u32)
    ensures
        cond_before(p, c, g as int, j + 1, x) <==> (cond_before(p, c, g as int, j, x) || cond_at(p, c, g, j, x)),
{
    if cond_before(p, c, g as int, j + 1, x) {
        let (c2, g2, j2) = choose|c2: int, g2: u32, j2: int|
            #[trigger] cond_at(p, c2, g2, j2, x) && (c2 < c || (c2 == c && (g2 < g || (g2 == g && j2 < j + 1))));
        if !(c2 == c && g2 == g && j2 == j) {
            assert(cond_at(p, c2, g2, j2, x));
        }
    }
    if cond_at(p, c, g, j, x) {
        assert(cond_at(p, c, g, j, x) && (c < c || (c == c && (g < g || (g == g && j < j + 1)))));
    }
    if cond_before(p, c, g as int, j, x) {
        let (c2, g2, j2) = choose|c2: int, g2: u32, j2: int|
            #[trigger] cond_at(p, c2, g2, j2, x) && (c2 < c || (c2 == c && (g2 < g || (g2 == g && j2 < j))));
        assert(cond_at(p, c2, g2, j2, x));
    }
}

proof fn lemma_cond_before_next_file(p: Project, c: int, g: u32, j: int, x: u32)
    requires
        g < u32::MAX,
        j >= (if p.resolved@[c]@.contains_key(g) && p.scanned@[g as int] is Some {
            p.scanned@[g as int]->0.includes@.len() as int
        } else {
            0
        }),
    ensures
        cond_before(p, c, g + 1, 0, x) <==> cond_before(p, c, g as int, j, x),
{
    if cond_before(p, c, g + 1, 0, x) {
        let (c2, g2, j2) = choose|c2: int, g2: u32, j2: int|
            #[trigger] cond_at(p, c2, g2, j2, x) && (c2 < c || (c2 == c && (g2 < g + 1 || (g2 == g + 1 && j2 < 0))));
        assert(cond_at(p, c2, g2, j2, x));
    }
    if cond_before(p, c, g as int, j, x) {
        let (c2, g2, j2) = choose|c2: int, g2: u32, j2: int|
            #[trigger] cond_at(p, c2, g2, j2, x) && (c2 < c || (c2 == c && (g2 < g || (g2 == g && j2 < j))));
        assert(cond_at(p, c2, g2, j2, x));
    }
}

proof fn lemma_cond_before_next_config(p: Project, c: int, x: u32)
    requires
        p.wf(),
    ensures
        cond_before(p, c + 1, 0, 0, x) <==> cond_before(p, c, p.paths@.len() as int, 0, x),
{
    if cond_before(p, c + 1, 0, 0, x) {
        let (c2, g2, j2) = choose|c2: int, g2: u32, j2: int|
            #[trigger] cond_at(p, c2, g2, j2, x) && (c2 < c + 1 || (c2 == c + 1 && (g2 < 0 || (g2 == 0 && j2 < 0))));
        assert(cond_at(p, c2, g2, j2, x));
        assert(g2 < p.paths@.len());
    }
    if cond_before(p, c, p.paths@.len() as int, 0, x) {
        let (c2, g2, j2) = choose|c2: int, g2: u32, j2: int|
            #[trigger] cond_at(p, c2, g2, j2, x) && (c2 < c || (c2 == c && (g2 < p.paths@.len() || (g2 == p.paths@.len()
                && j2 < 0))));
        assert(cond_at(p, c2, g2, j2, x));
    }
}

/// The number of computed includes over all files.
fn computed_total(project: &Project) -> (r: usize)
    ensures
        r == computed_upto(*project, project.scanned@.len() as int),
{
    let mut total: usize = 0;
    let mut k: usize = 0;
    while k < project.scanned.len()
        invariant
            k <= project.scanned@.len(),
            total == computed_upto(*project, k as int),
        decreases project.scanned@.len() - k,
    {
        match &project.scanned[k] {
            Some(s) => total = total.saturating_add(s.computed_includes.len()),
            None => {},
        }
        k += 1;
    }
    total
}

/// The unresolved directives, with the includer's path in place of its id.
fn unresolved_list(project: &Project) -> (r: Vec<(String, u32, String, bool)>)
    requires
        project.wf(),
    ensures
        r@.len() == project.unresolved@.len(),
        forall|k: int|
            0 <= k < r@.len() ==> (#[trigger] r@[k]).0@ == project.paths@[project.unresolved@[k].includer as int]@
                && r@[k].1 == project.unresolved@[k].line && r@[k].2@ == project.unresolved@[k].spelling@ && r@[k].3
                == project.unresolved@[k].angled,
{
    let mut r: Vec<(String, u32, String, bool)> = Vec::new();
    let mut k: usize = 0;
    while k < project.unresolved.len()
        invariant
            project.wf(),
            k <= project.unresolved@.len(),
            r@.len() == k,
            forall|i: int|
                0 <= i < k ==> (#[trigger] r@[i]).0@ == project.paths@[project.unresolved@[i].includer as int]@
                    && r@[i].1 == project.unresolved@[i].line && r@[i].2@ == project.unresolved@[i].spelling@
                    && r@[i].3 == project.unresolved@[i].angled,
        decreases project.unresolved@.len() - k,
    {
        let u = &project.unresolved[k];
        r.push((project.paths[u.includer as usize].clone(), u.line, u.spelling.clone(), u.angled));
        k += 1;
    }
    r
}

// ---------------------------------------------------------------------------
// What each header carries.
// ---------------------------------------------------------------------------
/// The dominated children recorded for `f` in `list`, as (child, bytes), in
/// list order; entries whose child is not a file id below `n` are left out.
pub open spec fn children_of(list: Seq<((FileId, FileId), u64)>, f: u32, n: int) -> Seq<(u32, u64)>
    decreases list.len(),
{
    if list.len() == 0 {
        Seq::empty()
    } else {
        let r = children_of(list.drop_last(), f, n);
        let e = list.last();
        if e.0.0 == f && e.0.1 < n {
            r.push((e.0.1, e.1))
        } else {
            r
        }
    }
}

proof fn lemma_children_of_bound(list: Seq<((FileId, FileId), u64)>, f: u32, n: int)
    ensures
        forall|i: int| 0 <= i < children_of(list, f, n).len() ==> #[trigger] children_of(list, f, n)[i].0 < n,
    decreases list.len(),
{
    if list.len() > 0 {
        lemma_children_of_bound(list.drop_last(), f, n);
        let r = children_of(list.drop_last(), f, n);
        let e = list.last();
        if e.0.0 == f && e.0.1 < n {
            assert forall|i: int| 0 <= i < children_of(list, f, n).len() implies #[trigger] children_of(list, f, n)[i].0 < n by {
                if i < r.len() {
                    assert(children_of(list, f, n)[i] == r[i]);
                }
            }
        }
    }
}

/// The recorded children of every file below `n`.
fn group_children(acc: &Accum, n: usize) -> (r: Vec<Vec<(u32, u64)>>)
    requires
        n < u32::MAX,
    ensures
        r@.len() == n,
        forall|f: int| 0 <= f < n ==> (#[trigger] r@[f])@ == children_of(acc.children@, f as u32, n as int),
{
    let mut lists: Vec<Vec<(u32, u64)>> = Vec::new();
    let mut f: usize = 0;
    while f < n
        invariant
            f <= n,
            lists@.len() == f,
            forall|q: int| 0 <= q < f ==> (#[trigger] lists@[q])@ == Seq::<(u32, u64)>::empty(),
        decreases n - f,
    {
        lists.push(Vec::new());
        f += 1;
    }
    proof {
        assert forall|q: int| 0 <= q < n implies (#[trigger] lists@[q])@ == children_of(acc.children@.take(0), q as u32, n as int) by {
            assert(acc.children@.take(0).len() == 0);
        }
    }
    let mut k: usize = 0;
    while k < acc.children.len()
        invariant
            n < u32::MAX,
            k <= acc.children@.len(),
            lists@.len() == n,
            forall|q: int| 0 <= q < n ==> (#[trigger] lists@[q])@ == children_of(acc.children@.take(k as int), q as u32, n as int),
        decreases acc.children@.len() - k,
    {
        let e = acc.children[k];
        let ghost l0 = lists@;
        proof {
            assert(acc.children@.take(k + 1).drop_last() =~= acc.children@.take(k as int));
            assert(acc.children@.take(k + 1).last() == e);
        }
        if (e.0.0 as usize) < n && (e.0.1 as usize) < n {
            let a = e.0.0 as usize;
            let mut row: Vec<(u32, u64)> = Vec::new();
            std::mem::swap(&mut row, &mut lists[a]);
            row.push((e.0.1, e.1));
            std::mem::swap(&mut row, &mut lists[a]);
            proof {
                assert forall|q: int| 0 <= q < n implies (#[trigger] lists@[q])@ == children_of(acc.children@.take(k + 1), q as u32, n as int) by {
                    if q != a {
                        assert(lists@[q] == l0[q]);
                        assert(e.0.0 != q as u32);
                    } else {
                        assert(e.0.0 == q as u32);
                    }
                }
            }
        } else {
            proof {
                assert forall|q: int| 0 <= q < n implies (#[trigger] lists@[q])@ == children_of(acc.children@.take(k + 1), q as u32, n as int) by {
                    assert(lists@[q] == l0[q]);
                }
            }
        }
        k += 1;
    }
    proof {
        assert(acc.children@.take(acc.children@.len() as int) =~= acc.children@);
    }
    lists
}

/// How a candidate child ranks: by bytes, then by path.
pub open spec fn child_key(p: Project, e: (u32, u64)) -> (u64, u64, Seq<(u8, Seq<char>)>, Seq<(u8, Seq<char>)>) {
    (e.1, 0, path_tags(p.paths@[e.0 as int]@), Seq::empty())
}

/// `sel` picks the entries of `carries` among the candidates `cand`: each
/// once, in ranked order, and none left out ranks before one picked.
pub open spec fn picks(p: Project, cand: Seq<(u32, u64)>, sel: Seq<int>, carries: Seq<(String, u64)>) -> bool {
    &&& sel.len() == carries.len()
    &&& sel.no_duplicates()
    &&& forall|i: int|
        0 <= i < sel.len() ==> 0 <= #[trigger] sel[i] < cand.len() && carries[i].0@ == p.paths@[cand[sel[i]].0 as int]@
            && carries[i].1 == cand[sel[i]].1
    &&& forall|i: int, j: int|
        0 <= i < j < sel.len() ==> !ranks_before(child_key(p, cand[#[trigger] sel[j]]), child_key(p, cand[#[trigger] sel[i]]))
    &&& forall|k: int, i: int|
        0 <= k < cand.len() && !sel.contains(k) && 0 <= i < sel.len() ==> !ranks_before(
            child_key(p, #[trigger] cand[k]),
            child_key(p, cand[#[trigger] sel[i]]),
        )
}

/// The largest `max` candidates, ranked.
pub open spec fn carries_ok(p: Project, cand: Seq<(u32, u64)>, max: int, carries: Seq<(String, u64)>) -> bool {
    &&& carries.len() == (if cand.len() < max {
        cand.len() as int
    } else {
        max
    })
    &&& exists|sel: Seq<int>| #[trigger] picks(p, cand, sel, carries)
}

/// The candidates with the most bytes, at most `max` of them, largest first
/// and by path among equals.
fn carries_for(project: &Project, cand: &Vec<(u32, u64)>, max: usize) -> (r: Vec<(String, u64)>)
    requires
        forall|i: int| 0 <= i < cand@.len() ==> (#[trigger] cand@[i]).0 < project.paths@.len(),
    ensures
        carries_ok(*project, cand@, max as int, r@),
{
    let ghost p = *project;
    let mut items: Vec<Ranked> = Vec::new();
    let mut k: usize = 0;
    while k < cand.len()
        invariant
            p == *project,
            k <= cand@.len(),
            forall|i: int| 0 <= i < cand@.len() ==> (#[trigger] cand@[i]).0 < project.paths@.len(),
            items@.len() == k,
            forall|t: int| 0 <= t < k ==> rank_key(#[trigger] items@[t]) == child_key(p, cand@[t]),
        decreases cand@.len() - k,
    {
        let e = cand[k];
        let first = path_components(project.paths[e.0 as usize].as_str());
        let item = Ranked { major: e.1, minor: 0, first, second: Vec::new() };
        proof {
            assert(tags_view(item.second@) =~= Seq::<(u8, Seq<char>)>::empty());
        }
        items.push(item);
        k += 1;
    }
    let order = rank_order(&items);
    let m = if cand.len() < max {
        cand.len()
    } else {
        max
    };
    let mut r: Vec<(String, u64)> = Vec::new();
    let mut i: usize = 0;
    while i < m
        invariant
            p == *project,
            m <= cand@.len(),
            order@.len() == cand@.len(),
            items@.len() == cand@.len(),
            forall|a: int| 0 <= a < order@.len() ==> #[trigger] order@[a] < items@.len(),
            forall|i: int| 0 <= i < cand@.len() ==> (#[trigger] cand@[i]).0 < project.paths@.len(),
            i <= m,
            r@.len() == i,
            forall|a: int|
                0 <= a < i ==> (#[trigger] r@[a]).0@ == p.paths@[cand@[order@[a] as int].0 as int]@ && r@[a].1
                    == cand@[order@[a] as int].1,
        decreases m - i,
    {
        let e = cand[order[i]];
        r.push((project.paths[e.0 as usize].clone(), e.1));
        i += 1;
    }
    proof {
        let sel = Seq::new(m as nat, |a: int| order@[a] as int);
        assert forall|t: int| 0 <= t < cand@.len() implies rank_key(#[trigger] items@[t]) == child_key(p, cand@[t]) by {}
        assert(sel.no_duplicates()) by {
            assert forall|a: int, b: int| 0 <= a < sel.len() && 0 <= b < sel.len() && a != b implies sel[a] != sel[b] by {
                assert(order@[a] != order@[b]);
            }
        }
        assert forall|a: int, b: int| 0 <= a < b < sel.len() implies !ranks_before(
            child_key(p, cand@[#[trigger] sel[b]]),
            child_key(p, cand@[#[trigger] sel[a]]),
        ) by {
            assert(!ranks_before(rank_key(items@[order@[b] as int]), rank_key(items@[order@[a] as int])));
        }
        assert forall|t: int, a: int| 0 <= t < cand@.len() && !sel.contains(t) && 0 <= a < sel.len() implies !ranks_before(
            child_key(p, #[trigger] cand@[t]),
            child_key(p, cand@[#[trigger] sel[a]]),
        ) by {
            assert(order@.contains(t as usize));
            let b = choose|b: int| 0 <= b < order@.len() && order@[b] == t as usize;
            if b < m {
                assert(sel[b] == t);
            }
            assert(!ranks_before(rank_key(items@[order@[b] as int]), rank_key(items@[order@[a] as int])));
        }
        assert(picks(p, cand@, sel, r@));
    }
    r
}

// ---------------------------------------------------------------------------
// Headers.
// ---------------------------------------------------------------------------
/// How the file protects itself; unreadable files count as unguarded.
pub open spec fn guard_of(p: Project, f: int) -> Guard {
    match p.scanned@[f] {
        Some(s) => s.guard,
        None => Guard::Unguarded,
    }
}

/// `h` reports file `f` of `p` from the totals `acc`.
pub open spec fn header_ok(p: Project, acc: Accum, max: int, f: int, h: HeaderCost) -> bool {
    let nc = p.configs@.len() as int;
    &&& h.path@ == p.paths@[f]@
    &&& h.exclusive == acc.exclusive@[f]
    &&& h.inclusive == inclusive_upto(p, acc, f, nc)
    &&& h.tus == tus_upto(acc, f, nc)
    &&& h.expansions == acc.expansions@[f]
    &&& h.conditional == included_conditionally(p, f as u32)
    &&& h.guard == guard_of(p, f)
    &&& carries_ok(p, children_of(acc.children@, f as u32, p.paths@.len() as int), max, h.carries@)
}

/// How a header ranks: by exclusive bytes, then inclusive bytes, both
/// largest first, then by path.
pub open spec fn header_key(h: HeaderCost) -> (u64, u64, Seq<(u8, Seq<char>)>, Seq<(u8, Seq<char>)>) {
    (h.exclusive, h.inclusive, path_tags(h.path@), Seq::empty())
}

/// `sel` lists the file of each header: every file some TU expanded, once,
/// and the headers in ranked order.
pub open spec fn header_pick(p: Project, acc: Accum, max: int, sel: Seq<int>, hs: Seq<HeaderCost>) -> bool {
    &&& sel.len() == hs.len()
    &&& sel.no_duplicates()
    &&& forall|i: int|
        0 <= i < sel.len() ==> 0 <= #[trigger] sel[i] < p.paths@.len() && acc.expansions@[sel[i]] > 0 && header_ok(
            p,
            acc,
            max,
            sel[i],
            hs[i],
        )
    &&& forall|f: int| 0 <= f < p.paths@.len() && #[trigger] acc.expansions@[f] > 0 ==> sel.contains(f)
    &&& forall|i: int, j: int| 0 <= i < j < hs.len() ==> !ranks_before(header_key(#[trigger] hs[j]), header_key(#[trigger] hs[i]))
}

fn header_list(
    project: &Project,
    acc: &Accum,
    max: usize,
    incl: &Vec<u64>,
    tus: &Vec<u32>,
    marks: &Vec<bool>,
) -> (r: Vec<HeaderCost>)
    requires
        project.wf(),
        acc.shaped(project.paths@.len(), project.configs@.len()),
        incl@.len() == project.paths@.len(),
        tus@.len() == project.paths@.len(),
        marks@.len() == project.paths@.len(),
        forall|f: int| 0 <= f < project.paths@.len() ==> #[trigger] incl@[f] == inclusive_upto(*project, *acc, f, project.configs@.len() as int),
        forall|f: int| 0 <= f < project.paths@.len() ==> #[trigger] tus@[f] == tus_upto(*acc, f, project.configs@.len() as int),
        forall|f: int| 0 <= f < project.paths@.len() ==> #[trigger] marks@[f] == included_conditionally(*project, f as u32),
    ensures
        exists|sel: Seq<int>| #[trigger] header_pick(*project, *acc, max as int, sel, r@),
{
    let ghost p = *project;
    let ghost a = *acc;
    let n = project.paths.len();
    let lists = group_children(acc, n);
    let mut files: Vec<u32> = Vec::new();
    let mut items: Vec<Ranked> = Vec::new();
    let mut f: usize = 0;
    while f < n
        invariant
            p == *project,
            project.wf(),
            n == p.paths@.len(),
            acc.shaped(n as nat, p.configs@.len()),
            incl@.len() == n,
            f <= n,
            files@.len() == items@.len(),
            forall|i: int| 0 <= i < files@.len() ==> #[trigger] files@[i] < f && acc.expansions@[files@[i] as int] > 0,
            forall|i: int, j: int| 0 <= i < j < files@.len() ==> #[trigger] files@[i] < #[trigger] files@[j],
            forall|g: int| 0 <= g < f && #[trigger] acc.expansions@[g] > 0 ==> files@.contains(g as u32),
            forall|i: int|
                0 <= i < files@.len() ==> rank_key(#[trigger] items@[i]) == (
                    acc.exclusive@[files@[i] as int],
                    incl@[files@[i] as int],
                    path_tags(p.paths@[files@[i] as int]@),
                    Seq::<(u8, Seq<char>)>::empty(),
                ),
        decreases n - f,
    {
        if acc.expansions[f] > 0 {
            let first = path_components(project.paths[f].as_str());
            let item = Ranked { major: acc.exclusive[f], minor: incl[f], first, second: Vec::new() };
            proof {
                assert(tags_view(item.second@) =~= Seq::<(u8, Seq<char>)>::empty());
            }
            let ghost f0 = files@;
            items.push(item);
            files.push(f as u32);
            proof {
                assert forall|g: int| 0 <= g < f + 1 && #[trigger] acc.expansions@[g] > 0 implies files@.contains(g as u32) by {
                    if g == f {
                        assert(files@[files@.len() - 1] == g as u32);
                    } else {
                        let i = choose|i: int| 0 <= i < f0.len() && f0[i] == g as u32;
                        assert(files@[i] == g as u32);
                    }
                }
            }
        }
        f += 1;
    }
    let order = rank_order(&items);
    let mut r: Vec<HeaderCost> = Vec::new();
    let mut i: usize = 0;
    while i < order.len()
        invariant
            p == *project,
            a == *acc,
            project.wf(),
            n == p.paths@.len(),
            acc.shaped(n as nat, p.configs@.len()),
            incl@.len() == n,
            tus@.len() == n,
            marks@.len() == n,
            lists@.len() == n,
            forall|g: int| 0 <= g < n ==> (#[trigger] lists@[g])@ == children_of(acc.children@, g as u32, n as int),
            forall|g: int| 0 <= g < n ==> #[trigger] incl@[g] == inclusive_upto(p, a, g, p.configs@.len() as int),
            forall|g: int| 0 <= g < n ==> #[trigger] tus@[g] == tus_upto(a, g, p.configs@.len() as int),
            forall|g: int| 0 <= g < n ==> #[trigger] marks@[g] == included_conditionally(p, g as u32),
            files@.len() == items@.len(),
            order@.len() == items@.len(),
            forall|b: int| 0 <= b < order@.len() ==> #[trigger] order@[b] < items@.len(),
            forall|b: int| 0 <= b < files@.len() ==> #[trigger] files@[b] < n,
            i <= order@.len(),
            r@.len() == i,
            forall|b: int| 0 <= b < i ==> header_ok(p, a, max as int, files@[order@[b] as int] as int, #[trigger] r@[b]),
        decreases order@.len() - i,
    {
        let fi = files[order[i]];
        let fu = fi as usize;
        proof {
            lemma_children_of_bound(acc.children@, fi, n as int);
        }
        let carries = carries_for(project, &lists[fu], max);
        let guard = match &project.scanned[fu] {
            Some(s) => s.guard,
            None => Guard::Unguarded,
        };
        let h = HeaderCost {
            path: project.paths[fu].clone(),
            exclusive: acc.exclusive[fu],
            inclusive: incl[fu],
            tus: tus[fu],
            expansions: acc.expansions[fu],
            conditional: marks[fu],
            guard,
            carries,
        };
        r.push(h);
        proof {
            assert(header_ok(p, a, max as int, fi as int, r@[i as int]));
        }
        i += 1;
    }
    proof {
        let sel = Seq::new(r@.len(), |b: int| files@[order@[b] as int] as int);
        assert(sel.no_duplicates()) by {
            assert forall|x: int, y: int| 0 <= x < sel.len() && 0 <= y < sel.len() && x != y implies sel[x] != sel[y] by {
                let ox = order@[x] as int;
                let oy = order@[y] as int;
                assert(ox != oy);
                if ox < oy {
                    assert(files@[ox] < files@[oy]);
                } else {
                    assert(files@[oy] < files@[ox]);
                }
            }
        }
        assert forall|g: int| 0 <= g < n && #[trigger] acc.expansions@[g] > 0 implies sel.contains(g) by {
            let t = choose|t: int| 0 <= t < files@.len() && files@[t] == g as u32;
            assert(order@.contains(t as usize));
            let b = choose|b: int| 0 <= b < order@.len() && order@[b] == t as usize;
            assert(sel[b] == g);
        }
        assert forall|x: int, y: int| 0 <= x < y < r@.len() implies !ranks_before(header_key(#[trigger] r@[y]), header_key(#[trigger] r@[x])) by {
            assert(!ranks_before(rank_key(items@[order@[y] as int]), rank_key(items@[order@[x] as int])));
        }
        assert(header_pick(p, a, max as int, sel, r@));
    }
    r
}

// ---------------------------------------------------------------------------
// Cut cycles.
// ---------------------------------------------------------------------------
/// How a pair of paths ranks: by the first path, then by the second.
pub open spec fn pair_key(a: Seq<char>, b: Seq<char>) -> (u64, u64, Seq<(u8, Seq<char>)>, Seq<(u8, Seq<char>)>) {
    (0, 0, path_tags(a), path_tags(b))
}

/// Entry `k` of `cycles` names two files of `p`.
pub open spec fn cycle_valid(p: Project, cycles: Seq<(FileId, FileId)>, k: int) -> bool {
    cycles[k].0 < p.paths@.len() && cycles[k].1 < p.paths@.len()
}

/// `out` lists the paths of the cut pairs `cycles` of `p` in ranked order,
/// each pair of components once; pairs naming something other than a file of
/// `p` are left out.
pub open spec fn cycles_ok(p: Project, cycles: Seq<(FileId, FileId)>, out: Seq<(String, String)>) -> bool {
    &&& forall|i: int| 0 <= i < out.len() ==> cycle_entry(p, cycles, #[trigger] out[i])
    &&& forall|i: int, j: int|
        0 <= i < j < out.len() ==> ranks_before(
            pair_key((#[trigger] out[i]).0@, out[i].1@),
            pair_key((#[trigger] out[j]).0@, out[j].1@),
        )
    &&& forall|k: int|
        0 <= k < cycles.len() && #[trigger] cycle_valid(p, cycles, k) ==> exists|i: int|
            0 <= i < out.len() && pair_key((#[trigger] out[i]).0@, out[i].1@) == pair_key(
                p.paths@[cycles[k].0 as int]@,
                p.paths@[cycles[k].1 as int]@,
            )
}

/// `e` holds the paths of a valid entry of `cycles`.
pub open spec fn cycle_entry(p: Project, cycles: Seq<(FileId, FileId)>, e: (String, String)) -> bool {
    exists|k: int|
        0 <= k < cycles.len() && #[trigger] cycle_valid(p, cycles, k) && e.0@ == p.paths@[cycles[k].0 as int]@ && e.1@
            == p.paths@[cycles[k].1 as int]@
}

/// `e` is a valid entry of `cycles`.
pub open spec fn among_cycles(p: Project, cycles: Seq<(FileId, FileId)>, e: (FileId, FileId)) -> bool {
    exists|q: int| 0 <= q < cycles.len() && #[trigger] cycle_valid(p, cycles, q) && cycles[q] == e
}

/// The valid entries of `cycles`, in order.
fn valid_pairs(project: &Project, cycles: &Vec<(FileId, FileId)>) -> (pairs: Vec<(u32, u32)>)
    ensures
        forall|t: int| 0 <= t < pairs@.len() ==> among_cycles(*project, cycles@, #[trigger] pairs@[t]),
        forall|q: int| 0 <= q < cycles@.len() && #[trigger] cycle_valid(*project, cycles@, q) ==> pairs@.contains(cycles@[q]),
        forall|t: int| 0 <= t < pairs@.len() ==> (#[trigger] pairs@[t]).0 < project.paths@.len() && pairs@[t].1 < project.paths@.len(),
{
    let ghost p = *project;
    let n = project.paths.len();
    let mut pairs: Vec<(u32, u32)> = Vec::new();
    let ghost mut src: Seq<int> = Seq::empty();
    let mut k: usize = 0;
    while k < cycles.len()
        invariant
            p == *project,
            n == p.paths@.len(),
            k <= cycles@.len(),
            src.len() == pairs@.len(),
            forall|t: int| 0 <= t < pairs@.len() ==> 0 <= #[trigger] src[t] < k && cycle_valid(p, cycles@, src[t]) && cycles@[src[t]] == pairs@[t],
            forall|q: int| 0 <= q < k && #[trigger] cycle_valid(p, cycles@, q) ==> pairs@.contains(cycles@[q]),
            forall|t: int| 0 <= t < pairs@.len() ==> (#[trigger] pairs@[t]).0 < n && pairs@[t].1 < n,
        decreases cycles@.len() - k,
    {
        let e = cycles[k];
        if (e.0 as usize) < n && (e.1 as usize) < n {
            let ghost p0 = pairs@;
            pairs.push(e);
            proof {
                src = src.push(k as int);
                assert forall|q: int| 0 <= q < k + 1 && #[trigger] cycle_valid(p, cycles@, q) implies pairs@.contains(cycles@[q]) by {
                    if q == k {
                        assert(pairs@[pairs@.len() - 1] == cycles@[q]);
                    } else {
                        let t = choose|t: int| 0 <= t < p0.len() && p0[t] == cycles@[q];
                        assert(pairs@[t] == cycles@[q]);
                    }
                }
            }
        }
        k += 1;
    }
    proof {
        assert forall|t: int| 0 <= t < pairs@.len() implies among_cycles(*project, cycles@, #[trigger] pairs@[t]) by {
            assert(0 <= src[t] < cycles@.len() && cycle_valid(*project, cycles@, src[t]) && cycles@[src[t]] == pairs@[t]);
        }
    }
    pairs
}

/// One position of `order` per distinct key, keys strictly increasing.
fn distinct_ranked(items: &Vec<Ranked>, order: &Vec<usize>) -> (keep: Vec<usize>)
    requires
        order@.len() == items@.len(),
        forall|b: int| 0 <= b < order@.len() ==> #[trigger] order@[b] < items@.len(),
        forall|b: int, c: int|
            0 <= b < c < order@.len() ==> !ranks_before(
                rank_key(#[trigger] items@[order@[c] as int]),
                rank_key(#[trigger] items@[order@[b] as int]),
            ),
    ensures
        forall|b: int| 0 <= b < keep@.len() ==> #[trigger] keep@[b] < items@.len(),
        forall|b: int, c: int|
            0 <= b < c < keep@.len() ==> ranks_before(
                rank_key(items@[#[trigger] keep@[b] as int]),
                rank_key(items@[#[trigger] keep@[c] as int]),
            ),
        forall|b: int|
            0 <= b < order@.len() ==> exists|c: int|
                0 <= c < keep@.len() && rank_key(items@[#[trigger] keep@[c] as int]) == rank_key(
                    #[trigger] items@[order@[b] as int],
                ),
{
    let mut keep: Vec<usize> = Vec::new();
    let mut i: usize = 0;
    while i < order.len()
        invariant
            order@.len() == items@.len(),
            forall|b: int| 0 <= b < order@.len() ==> #[trigger] order@[b] < items@.len(),
            forall|b: int, c: int|
                0 <= b < c < order@.len() ==> !ranks_before(
                    rank_key(#[trigger] items@[order@[c] as int]),
                    rank_key(#[trigger] items@[order@[b] as int]),
                ),
            i <= order@.len(),
            i == 0 <==> keep@.len() == 0,
            i > 0 ==> rank_key(items@[keep@[keep@.len() - 1] as int]) == rank_key(items@[order@[i - 1] as int]),
            forall|b: int| 0 <= b < keep@.len() ==> #[trigger] keep@[b] < items@.len(),
            forall|b: int, c: int|
                0 <= b < c < keep@.len() ==> ranks_before(
                    rank_key(items@[#[trigger] keep@[b] as int]),
                    rank_key(items@[#[trigger] keep@[c] as int]),
                ),
            forall|b: int|
                0 <= b < i ==> exists|c: int|
                    0 <= c < keep@.len() && rank_key(items@[#[trigger] keep@[c] as int]) == rank_key(
                        #[trigger] items@[order@[b] as int],
                    ),
        decreases order@.len() - i,
    {
        let t = order[i];
        let mut fresh = true;
        if i > 0 {
            let last = keep[keep.len() - 1];
            fresh = !(items[t].major == items[last].major && items[t].minor == items[last].minor && tags_equal(
                &items[t].first,
                &items[last].first,
            ) && tags_equal(&items[t].second, &items[last].second));
            proof {
                assert(fresh == (rank_key(items@[t as int]) != rank_key(items@[last as int])));
            }
        }
        let ghost k0 = keep@;
        if fresh {
            keep.push(t);
            proof {
                let kn = rank_key(items@[t as int]);
                if i > 0 {
                    let kl = rank_key(items@[k0[k0.len() - 1] as int]);
                    assert(!ranks_before(kn, rank_key(items@[order@[i - 1] as int])));
                    lemma_ranks_before_order(kl, kn, kn);
                    assert(ranks_before(kl, kn));
                    assert forall|b: int, c: int| 0 <= b < c < keep@.len() implies ranks_before(
                        rank_key(items@[#[trigger] keep@[b] as int]),
                        rank_key(items@[#[trigger] keep@[c] as int]),
                    ) by {
                        if c == keep@.len() - 1 {
                            let kb = rank_key(items@[keep@[b] as int]);
                            assert(keep@[b] == k0[b]);
                            if b < k0.len() - 1 {
                                assert(ranks_before(kb, kl));
                                lemma_ranks_before_order(kb, kl, kn);
                            }
                        } else {
                            assert(keep@[b] == k0[b]);
                            assert(keep@[c] == k0[c]);
                        }
                    }
                }
                assert forall|b: int| 0 <= b < i + 1 implies exists|c: int|
                    0 <= c < keep@.len() && rank_key(items@[#[trigger] keep@[c] as int]) == rank_key(
                        #[trigger] items@[order@[b] as int],
                    ) by {
                    if b < i {
                        let c = choose|c: int|
                            0 <= c < k0.len() && rank_key(items@[#[trigger] k0[c] as int]) == rank_key(items@[order@[b] as int]);
                        assert(keep@[c] == k0[c]);
                    } else {
                        assert(keep@[keep@.len() - 1] == t);
                    }
                }
            }
        } else {
            proof {
                assert forall|b: int| 0 <= b < i + 1 implies exists|c: int|
                    0 <= c < keep@.len() && rank_key(items@[#[trigger] keep@[c] as int]) == rank_key(
                        #[trigger] items@[order@[b] as int],
                    ) by {
                    if b == i {
                        assert(rank_key(items@[keep@[keep@.len() - 1] as int]) == rank_key(items@[order@[b] as int]));
                    }
                }
            }
        }
        i += 1;
    }
    keep
}

fn cycle_list(project: &Project, cycles: &Vec<(FileId, FileId)>) -> (r: Vec<(String, String)>)
    ensures
        cycles_ok(*project, cycles@, r@),
{
    let ghost p = *project;
    let pairs = valid_pairs(project, cycles);
    let mut items: Vec<Ranked> = Vec::new();
    let mut k: usize = 0;
    while k < pairs.len()
        invariant
            p == *project,
            k <= pairs@.len(),
            items@.len() == k,
            forall|t: int| 0 <= t < pairs@.len() ==> (#[trigger] pairs@[t]).0 < p.paths@.len() && pairs@[t].1 < p.paths@.len(),
            forall|t: int|
                0 <= t < k ==> rank_key(#[trigger] items@[t]) == pair_key(
                    p.paths@[pairs@[t].0 as int]@,
                    p.paths@[pairs@[t].1 as int]@,
                ),
        decreases pairs@.len() - k,
    {
        let e = pairs[k];
        let first = path_components(project.paths[e.0 as usize].as_str());
        let second = path_components(project.paths[e.1 as usize].as_str());
        items.push(Ranked { major: 0, minor: 0, first, second });
        k += 1;
    }
    let order = rank_order(&items);
    let keep = distinct_ranked(&items, &order);
    let mut r: Vec<(String, String)> = Vec::new();
    let mut i: usize = 0;
    while i < keep.len()
        invariant
            p == *project,
            items@.len() == pairs@.len(),
            forall|b: int| 0 <= b < keep@.len() ==> #[trigger] keep@[b] < items@.len(),
            forall|t: int| 0 <= t < pairs@.len() ==> (#[trigger] pairs@[t]).0 < p.paths@.len() && pairs@[t].1 < p.paths@.len(),
            i <= keep@.len(),
            r@.len() == i,
            forall|b: int|
                0 <= b < i ==> (#[trigger] r@[b]).0@ == p.paths@[pairs@[keep@[b] as int].0 as int]@ && r@[b].1@
                    == p.paths@[pairs@[keep@[b] as int].1 as int]@,
        decreases keep@.len() - i,
    {
        let e = pairs[keep[i]];
        r.push((project.paths[e.0 as usize].clone(), project.paths[e.1 as usize].clone()));
        i += 1;
    }
    proof {
        assert forall|b: int| 0 <= b < r@.len() implies pair_key((#[trigger] r@[b]).0@, r@[b].1@) == rank_key(items@[keep@[b] as int]) by {}
        assert forall|q: int| 0 <= q < cycles@.len() && #[trigger] cycle_valid(p, cycles@, q) implies exists|c: int|
            0 <= c < r@.len() && pair_key((#[trigger] r@[c]).0@, r@[c].1@) == pair_key(
                p.paths@[cycles@[q].0 as int]@,
                p.paths@[cycles@[q].1 as int]@,
            ) by {
            let t = choose|t: int| 0 <= t < pairs@.len() && pairs@[t] == cycles@[q];
            assert(order@.contains(t as usize));
            let b = choose|b: int| 0 <= b < order@.len() && order@[b] == t as usize;
            let c = choose|c: int|
                0 <= c < keep@.len() && rank_key(items@[#[trigger] keep@[c] as int]) == rank_key(items@[order@[b] as int]);
            assert(pair_key(r@[c].0@, r@[c].1@) == rank_key(items@[keep@[c] as int]));
        }
        assert forall|b: int, c: int| 0 <= b < c < r@.len() implies ranks_before(
            pair_key((#[trigger] r@[b]).0@, r@[b].1@),
            pair_key((#[trigger] r@[c]).0@, r@[c].1@),
        ) by {
            assert(ranks_before(rank_key(items@[keep@[b] as int]), rank_key(items@[keep@[c] as int])));
        }
        assert forall|b: int| 0 <= b < r@.len() implies cycle_entry(*project, cycles@, #[trigger] r@[b]) by {
            let t = keep@[b] as int;
            assert(among_cycles(*project, cycles@, pairs@[t]));
            let q = choose|q: int| 0 <= q < cycles@.len() && #[trigger] cycle_valid(*project, cycles@, q) && cycles@[q] == pairs@[t];
            assert(cycle_valid(*project, cycles@, q));
        }
    }
    r
}


// ---------------------------------------------------------------------------
// The whole report.
// ---------------------------------------------------------------------------
/// `r` reports the totals `acc` over the TUs of `p`, keeping at most `max`
/// dominated children per header.
pub open spec fn summary_ok(p: Project, max: int, acc: Accum, r: Analysis) -> bool {
    &&& r.translation_units == p.tus@.len()
    &&& exists|sel: Seq<int>| #[trigger] header_pick(p, acc, max, sel, r.headers@)
    &&& r.total_bytes == acc.total
    &&& r.unresolved@.len() == p.unresolved@.len()
    &&& forall|k: int|
        0 <= k < r.unresolved@.len() ==> (#[trigger] r.unresolved@[k]).0@ == p.paths@[p.unresolved@[k].includer as int]@
            && r.unresolved@[k].1 == p.unresolved@[k].line && r.unresolved@[k].2@ == p.unresolved@[k].spelling@
            && r.unresolved@[k].3 == p.unresolved@[k].angled
    &&& strings_view(r.missing_sources@) == strings_view(p.missing_sources@)
    &&& r.conditional_includes == cond_upto(p, p.configs@.len() as int, 0)
    &&& r.computed_includes == computed_upto(p, p.scanned@.len() as int)
    &&& cycles_ok(p, acc.cycles@, r.unguarded_cycles@)
    &&& r.truncated_tus == acc.truncated
}

/// The report for the totals `acc` gathered over the TUs of `project`.
pub fn summarize(project: &Project, opts: &Options, acc: &Accum) -> (r: Analysis)
    requires
        project.wf(),
        acc.shaped(project.paths@.len(), project.configs@.len()),
    ensures
        summary_ok(*project, opts.max_children as int, *acc, r),
{
    let (incl, tus) = inclusive_and_tus(project, acc);
    let (marks, conditional_includes) = conditional_marks(project);
    let headers = header_list(project, acc, opts.max_children, &incl, &tus, &marks);
    let ghost hv = headers@;
    let r = Analysis {
        translation_units: project.tus.len(),
        headers,
        total_bytes: acc.total,
        unresolved: unresolved_list(project),
        missing_sources: clone_strings(&project.missing_sources),
        conditional_includes,
        computed_includes: computed_total(project),
        unguarded_cycles: cycle_list(project, &acc.cycles),
        truncated_tus: acc.truncated,
    };
    proof {
        let sel = choose|sel: Seq<int>| #[trigger] header_pick(*project, *acc, opts.max_children as int, sel, hv);
        assert(header_pick(*project, *acc, opts.max_children as int, sel, r.headers@));
    }
    r
}

// ---------------------------------------------------------------------------
// Totals over TUs.
// ---------------------------------------------------------------------------
pub open spec fn ex_fold(cs: Seq<TuCosts>, f: int, k: int) -> int
    decreases k,
{
    if k <= 0 {
        0
    } else {
        sat(ex_fold(cs, f, k - 1) + file_ex(cs[k - 1], f as u32))
    }
}

pub open spec fn exp_fold(cs: Seq<TuCosts>, f: int, k: int) -> int
    decreases k,
{
    if k <= 0 {
        0
    } else {
        sat(exp_fold(cs, f, k - 1) + file_exp(cs[k - 1], f as u32))
    }
}

pub open spec fn pres_fold(p: Project, cs: Seq<TuCosts>, c: int, f: int, k: int) -> int
    decreases k,
{
    if k <= 0 {
        0
    } else if p.tus@[k - 1].config == c && cs[k - 1].files@.contains_key(f as u32) {
        sat32(pres_fold(p, cs, c, f, k - 1) + 1)
    } else {
        pres_fold(p, cs, c, f, k - 1)
    }
}

pub open spec fn has_fold(cs: Seq<TuCosts>, key: (FileId, FileId), k: int) -> bool
    decreases k,
{
    if k <= 0 {
        false
    } else {
        has_fold(cs, key, k - 1) || has_key(cs[k - 1].children@, key)
    }
}

pub open spec fn kd_fold(cs: Seq<TuCosts>, key: (FileId, FileId), k: int) -> int
    decreases k,
{
    if k <= 0 {
        0
    } else if has_key(cs[k - 1].children@, key) {
        sat(kd_fold(cs, key, k - 1) + keyed(cs[k - 1].children@, key))
    } else {
        kd_fold(cs, key, k - 1)
    }
}

pub open spec fn total_fold(cs: Seq<TuCosts>, k: int) -> int
    decreases k,
{
    if k <= 0 {
        0
    } else {
        sat(total_fold(cs, k - 1) + cs[k - 1].total)
    }
}

pub open spec fn cycles_fold(cs: Seq<TuCosts>, k: int) -> Seq<(FileId, FileId)>
    decreases k,
{
    if k <= 0 {
        Seq::empty()
    } else {
        cycles_fold(cs, k - 1) + cs[k - 1].cut_cycles@
    }
}

pub open spec fn trunc_fold(cs: Seq<TuCosts>, k: int) -> int
    decreases k,
{
    if k <= 0 {
        0
    } else {
        sat_usize(trunc_fold(cs, k - 1) + if cs[k - 1].truncated {
            1int
        } else {
            0int
        })
    }
}

/// `acc` holds the totals of the cost tables `cs[..k]` of the TUs of `p`.
pub open spec fn folds_match(p: Project, cs: Seq<TuCosts>, acc: Accum, k: int) -> bool {
    let n = p.paths@.len();
    let nc = p.configs@.len();
    &&& acc.shaped(n, nc)
    &&& forall|f: int| 0 <= f < n ==> #[trigger] acc.exclusive@[f] == ex_fold(cs, f, k)
    &&& forall|f: int| 0 <= f < n ==> #[trigger] acc.expansions@[f] == exp_fold(cs, f, k)
    &&& forall|c: int, f: int| 0 <= c < nc && 0 <= f < n ==> #[trigger] acc.presence@[c]@[f] == pres_fold(p, cs, c, f, k)
    &&& forall|key: (FileId, FileId)| #[trigger] has_key(acc.children@, key) == has_fold(cs, key, k)
    &&& forall|key: (FileId, FileId)| #[trigger] keyed(acc.children@, key) == kd_fold(cs, key, k)
    &&& acc.total == total_fold(cs, k)
    &&& acc.cycles@ == cycles_fold(cs, k)
    &&& acc.truncated == trunc_fold(cs, k)
}

/// How a carried child ranks within its header: by bytes, then by path.
pub open spec fn carry_key(c: (String, u64)) -> (u64, u64, Seq<(u8, Seq<char>)>, Seq<(u8, Seq<char>)>) {
    (c.1, 0, path_tags(c.0@), Seq::empty())
}

/// The order of a report: headers strictly ranked by exclusive bytes, then
/// inclusive bytes, both largest first, then by path; each header carries at
/// most `max` children, largest first and by path among equals; the cut
/// cycles are listed in strictly increasing order of their paths, no pair
/// twice.
pub proof fn lemma_report_ranked(p: Project, max: int, acc: Accum, r: Analysis)
    requires
        p.wf(),
        summary_ok(p, max, acc, r),
    ensures
        forall|i: int, j: int|
            0 <= i < j < r.headers@.len() ==> ranks_before(
                header_key(#[trigger] r.headers@[i]),
                header_key(#[trigger] r.headers@[j]),
            ),
        forall|i: int| 0 <= i < r.headers@.len() ==> (#[trigger] r.headers@[i]).carries@.len() <= max,
        forall|i: int, a: int, b: int|
            0 <= i < r.headers@.len() && 0 <= a < b < r.headers@[i].carries@.len() ==> !ranks_before(
                carry_key(#[trigger] r.headers@[i].carries@[b]),
                carry_key(#[trigger] r.headers@[i].carries@[a]),
            ),
        forall|i: int, j: int|
            0 <= i < j < r.unguarded_cycles@.len() ==> ranks_before(
                pair_key((#[trigger] r.unguarded_cycles@[i]).0@, r.unguarded_cycles@[i].1@),
                pair_key((#[trigger] r.unguarded_cycles@[j]).0@, r.unguarded_cycles@[j].1@),
            ),
{
    let hs = r.headers@;
    let sel = choose|sel: Seq<int>| #[trigger] header_pick(p, acc, max, sel, hs);
    assert forall|i: int, j: int| 0 <= i < j < hs.len() implies ranks_before(
        header_key(#[trigger] hs[i]),
        header_key(#[trigger] hs[j]),
    ) by {
        assert(header_ok(p, acc, max, sel[i], hs[i]));
        assert(header_ok(p, acc, max, sel[j], hs[j]));
        assert(sel[i] != sel[j]);
        assert(path_tags(p.paths@[sel[i]]@) != path_tags(p.paths@[sel[j]]@));
        lemma_ranks_before_order(header_key(hs[i]), header_key(hs[j]), header_key(hs[i]));
    }
    assert forall|i: int| 0 <= i < hs.len() implies (#[trigger] hs[i]).carries@.len() <= max by {
        assert(header_ok(p, acc, max, sel[i], hs[i]));
    }
    assert forall|i: int, a: int, b: int|
        0 <= i < hs.len() && 0 <= a < b < hs[i].carries@.len() implies !ranks_before(
        carry_key(#[trigger] hs[i].carries@[b]),
        carry_key(#[trigger] hs[i].carries@[a]),
    ) by {
        assert(header_ok(p, acc, max, sel[i], hs[i]));
        let cand = children_of(acc.children@, sel[i] as u32, p.paths@.len() as int);
        let cs = choose|cs: Seq<int>| #[trigger] picks(p, cand, cs, hs[i].carries@);
        assert(carry_key(hs[i].carries@[a]) == child_key(p, cand[cs[a]]));
        assert(carry_key(hs[i].carries@[b]) == child_key(p, cand[cs[b]]));
    }
}

/// TU `k` of `p` has the cost table `c`.
pub open spec fn tu_table(p: Project, k: int, c: TuCosts) -> bool {
    exists|g: TuGraph, d: Dominators, sub: Seq<u64>| #[trigger] costs_basis(p, k, g, d, sub, c)
}

/// `acc` holds the totals over the cost tables `cs` of all the TUs of `p`.
pub open spec fn accumulated(p: Project, cs: Seq<TuCosts>, acc: Accum) -> bool {
    &&& cs.len() == p.tus@.len()
    &&& forall|k: int| 0 <= k < cs.len() ==> #[trigger] tu_table(p, k, cs[k])
    &&& folds_match(p, cs, acc, cs.len() as int)
}

/// Analyzes every TU of `project` and reports the totals.
pub fn analyze(project: &Project, opts: &Options) -> (r: Analysis)
    requires
        project.wf(),
    ensures
        exists|cs: Seq<TuCosts>, acc: Accum| #[trigger] accumulated(*project, cs, acc) && summary_ok(
            *project,
            opts.max_children as int,
            acc,
            r,
        ),
{
    let ghost p = *project;
    let n = project.paths.len();
    let nc = project.configs.len();
    let mut acc = Accum::new(n, nc);
    let ghost mut cs: Seq<TuCosts> = Seq::empty();
    proof {
        assert forall|key: (FileId, FileId)| #[trigger] keyed(acc.children@, key) == kd_fold(cs, key, 0) by {}
        assert forall|key: (FileId, FileId)| #[trigger] has_key(acc.children@, key) == has_fold(cs, key, 0) by {}
        assert forall|f: int| 0 <= f < n implies #[trigger] acc.exclusive@[f] == ex_fold(cs, f, 0) by {}
        assert forall|f: int| 0 <= f < n implies #[trigger] acc.expansions@[f] == exp_fold(cs, f, 0) by {}
        assert forall|c: int, f: int| 0 <= c < nc && 0 <= f < n implies #[trigger] acc.presence@[c]@[f] == pres_fold(p, cs, c, f, 0) by {}
        assert(acc.cycles@ =~= cycles_fold(cs, 0));
        assert(folds_match(p, cs, acc, 0));
    }
    let mut k: usize = 0;
    while k < project.tus.len()
        invariant
            p == *project,
            project.wf(),
            n == p.paths@.len(),
            nc == p.configs@.len(),
            k <= p.tus@.len(),
            cs.len() == k,
            forall|t: int| 0 <= t < k ==> #[trigger] tu_table(p, t, cs[t]),
            folds_match(p, cs, acc, k as int),
        decreases p.tus@.len() - k,
    {
        let c = tu_costs(project, k);
        let ghost gc = c;
        proof {
            let (g, d, sub) = choose|g: TuGraph, d: Dominators, sub: Seq<u64>| #[trigger] costs_basis(p, k as int, g, d, sub, c);
            lemma_costs_bounded(p, k as int, g, d, sub, c);
        }
        let ghost a0 = acc;
        acc.add(project.tus[k].config, c);
        proof {
            let cs1 = cs.push(gc);
            assert forall|t: int| 0 <= t < k + 1 implies #[trigger] tu_table(p, t, cs1[t]) by {
                if t < k {
                    assert(cs1[t] == cs[t]);
                }
            }
            assert forall|f: int| 0 <= f < n implies #[trigger] acc.exclusive@[f] == ex_fold(cs1, f, k + 1) by {
                assert(ex_fold(cs1, f, k as int) == ex_fold(cs, f, k as int)) by {
                    lemma_folds_prefix(p, cs, gc, f, (0, 0), 0, k as int);
                }
            }
            assert forall|f: int| 0 <= f < n implies #[trigger] acc.expansions@[f] == exp_fold(cs1, f, k + 1) by {
                lemma_folds_prefix(p, cs, gc, f, (0, 0), 0, k as int);
            }
            assert forall|c2: int, f: int| 0 <= c2 < nc && 0 <= f < n implies #[trigger] acc.presence@[c2]@[f] == pres_fold(p, cs1, c2, f, k + 1) by {
                lemma_folds_prefix(p, cs, gc, f, (0, 0), c2, k as int);
            }
            assert forall|key: (FileId, FileId)| #[trigger] has_key(acc.children@, key) == has_fold(cs1, key, k + 1) by {
                lemma_folds_prefix(p, cs, gc, 0, key, 0, k as int);
            }
            assert forall|key: (FileId, FileId)| #[trigger] keyed(acc.children@, key) == kd_fold(cs1, key, k + 1) by {
                lemma_folds_prefix(p, cs, gc, 0, key, 0, k as int);
            }
            lemma_folds_prefix(p, cs, gc, 0, (0, 0), 0, k as int);
            cs = cs1;
        }
        k += 1;
    }
    let r = summarize(project, opts, &acc);
    proof {
        assert(accumulated(p, cs, acc));
    }
    r
}

/// Header `h` reports file `f` of `p` with the sums of its entries in the
/// cost tables `cs`.
pub open spec fn file_sums(p: Project, cs: Seq<TuCosts>, h: HeaderCost, f: int) -> bool {
    &&& 0 <= f < p.paths@.len()
    &&& h.path@ == p.paths@[f]@
    &&& h.exclusive == ex_fold(cs, f, cs.len() as int)
    &&& h.expansions == exp_fold(cs, f, cs.len() as int)
    &&& exp_fold(cs, f, cs.len() as int) > 0
}

/// Header `h` reports some file of `p` with its sums over `cs`.
pub open spec fn sums_of(p: Project, cs: Seq<TuCosts>, h: HeaderCost) -> bool {
    exists|f: int| #[trigger] file_sums(p, cs, h, f)
}

/// A report is the sum of its TUs' cost tables `cs` (sums saturate at
/// `u64::MAX`): its total is the sum of their totals, and it has one header
/// for each file some TU expanded, whose exclusive bytes and expansions are
/// the sums of that file's entries.
pub proof fn lemma_report_sums(p: Project, max: int, cs: Seq<TuCosts>, acc: Accum, r: Analysis)
    requires
        accumulated(p, cs, acc),
        summary_ok(p, max, acc, r),
    ensures
        r.translation_units == p.tus@.len() == cs.len(),
        r.total_bytes == total_fold(cs, cs.len() as int),
        forall|i: int| 0 <= i < r.headers@.len() ==> #[trigger] sums_of(p, cs, r.headers@[i]),
        forall|f: int|
            0 <= f < p.paths@.len() && #[trigger] exp_fold(cs, f, cs.len() as int) > 0 ==> exists|i: int|
                0 <= i < r.headers@.len() && (#[trigger] r.headers@[i]).path@ == p.paths@[f]@,
{
    let n = cs.len() as int;
    let hs = r.headers@;
    let sel = choose|sel: Seq<int>| #[trigger] header_pick(p, acc, max, sel, hs);
    assert forall|i: int| 0 <= i < r.headers@.len() implies #[trigger] sums_of(p, cs, r.headers@[i]) by {
        let f = sel[i];
        assert(header_ok(p, acc, max, f, hs[i]));
        assert(acc.exclusive@[f] == ex_fold(cs, f, n));
        assert(acc.expansions@[f] == exp_fold(cs, f, n));
        assert(file_sums(p, cs, hs[i], f));
    }
    assert forall|f: int| 0 <= f < p.paths@.len() && #[trigger] exp_fold(cs, f, n) > 0 implies exists|i: int|
        0 <= i < hs.len() && (#[trigger] hs[i]).path@ == p.paths@[f]@ by {
        assert(acc.expansions@[f] == exp_fold(cs, f, n));
        assert(sel.contains(f));
        let i = choose|i: int| 0 <= i < sel.len() && sel[i] == f;
        assert(header_ok(p, acc, max, sel[i], hs[i]));
    }
}

/// Each child candidate of `f` comes from an entry of `list` keyed by `f`.
proof fn lemma_children_of_keyed(list: Seq<((FileId, FileId), u64)>, f: u32, n: int)
    ensures
        forall|i: int|
            0 <= i < children_of(list, f, n).len() ==> has_key(list, (f, #[trigger] children_of(list, f, n)[i].0)),
    decreases list.len(),
{
    if list.len() > 0 {
        let d = list.drop_last();
        lemma_children_of_keyed(d, f, n);
        let r = children_of(d, f, n);
        assert forall|i: int| 0 <= i < children_of(list, f, n).len() implies has_key(
            list,
            (f, #[trigger] children_of(list, f, n)[i].0),
        ) by {
            if i < r.len() {
                assert(children_of(list, f, n)[i] == r[i]);
                let k = choose|k: int| 0 <= k < d.len() && (#[trigger] d[k]).0 == (f, r[i].0);
                assert(list[k] == d[k]);
            } else {
                assert(list[list.len() - 1].0 == (f, children_of(list, f, n)[i].0));
            }
        }
    }
}

/// No TU table among the first `k` pairs a file with itself.
proof fn lemma_fold_keys_differ(p: Project, cs: Seq<TuCosts>, key: (FileId, FileId), k: int)
    requires
        0 <= k <= cs.len(),
        forall|t: int| 0 <= t < cs.len() ==> #[trigger] tu_table(p, t, cs[t]),
        has_fold(cs, key, k),
    ensures
        key.0 != key.1,
    decreases k,
{
    if has_fold(cs, key, k - 1) {
        lemma_fold_keys_differ(p, cs, key, k - 1);
    } else {
        let c = cs[k - 1];
        assert(tu_table(p, k - 1, c));
        let (g, d, sub) = choose|g: TuGraph, d: Dominators, sub: Seq<u64>| #[trigger] costs_basis(p, k - 1, g, d, sub, c);
        let j = choose|j: int| 0 <= j < c.children@.len() && (#[trigger] c.children@[j]).0 == key;
        let nodes = g.nodes@;
        let rpo = d.rpo@;
        assert(costs_spec(nodes, rpo, d.idom@, sub, c));
        assert(child_seen(nodes, rpo, d.idom@, key.0, key.1, rpo.len() as int));
        let i = choose|i: int| 1 <= i < rpo.len() && #[trigger] child_contrib(nodes, rpo, d.idom@, i, key.0, key.1);
    }
}

/// A header never carries itself: each child it carries is another file.
pub proof fn lemma_carries_are_other_files(p: Project, max: int, cs: Seq<TuCosts>, acc: Accum, r: Analysis)
    requires
        p.wf(),
        accumulated(p, cs, acc),
        summary_ok(p, max, acc, r),
    ensures
        forall|i: int, a: int|
            0 <= i < r.headers@.len() && 0 <= a < r.headers@[i].carries@.len() ==> (#[trigger] r.headers@[i].carries@[a]).0@
                != r.headers@[i].path@,
{
    let hs = r.headers@;
    let n = p.paths@.len() as int;
    let sel = choose|sel: Seq<int>| #[trigger] header_pick(p, acc, max, sel, hs);
    assert forall|i: int, a: int| 0 <= i < hs.len() && 0 <= a < hs[i].carries@.len() implies (#[trigger] hs[i].carries@[a]).0@
        != hs[i].path@ by {
        let f = sel[i];
        assert(header_ok(p, acc, max, f, hs[i]));
        let cand = children_of(acc.children@, f as u32, n);
        let ps = choose|ps: Seq<int>| #[trigger] picks(p, cand, ps, hs[i].carries@);
        let g = cand[ps[a]].0;
        lemma_children_of_keyed(acc.children@, f as u32, n);
        lemma_children_of_bound(acc.children@, f as u32, n);
        assert(has_key(acc.children@, (f as u32, g)));
        assert(has_fold(cs, (f as u32, g), cs.len() as int));
        lemma_fold_keys_differ(p, cs, (f as u32, g), cs.len() as int);
        assert(path_tags(p.paths@[g as int]@) != path_tags(p.paths@[f]@));
    }
}

/// The folds over the first `k` tables do not look past them.
proof fn lemma_folds_prefix(p: Project, cs: Seq<TuCosts>, c: TuCosts, f: int, key: (FileId, FileId), cfg: int, k: int)
    requires
        0 <= k <= cs.len(),
    ensures
        ex_fold(cs.push(c), f, k) == ex_fold(cs, f, k),
        exp_fold(cs.push(c), f, k) == exp_fold(cs, f, k),
        pres_fold(p, cs.push(c), cfg, f, k) == pres_fold(p, cs, cfg, f, k),
        has_fold(cs.push(c), key, k) == has_fold(cs, key, k),
        kd_fold(cs.push(c), key, k) == kd_fold(cs, key, k),
        total_fold(cs.push(c), k) == total_fold(cs, k),
        cycles_fold(cs.push(c), k) == cycles_fold(cs, k),
        trunc_fold(cs.push(c), k) == trunc_fold(cs, k),
    decreases k,
{
    if k > 0 {
        lemma_folds_prefix(p, cs, c, f, key, cfg, k - 1);
        assert(cs.push(c)[k - 1] == cs[k - 1]);
    }
}
} // verus!
