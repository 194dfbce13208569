//! Loading a compilation database into a resolved file graph, and building
//! the per-translation-unit include graph that dominators run on.

use crate::compdb::{search_view, strings_view, CompileCommand, SearchPaths};
use crate::csr::{lemma_out_list_push, out_list};
use crate::dominators::{reachable, Graph};
use crate::fs::{normalize_spec, rooted, SourceProvider};
use crate::order::{path_components, path_tags, tags_equal, tags_view};
use crate::resolve::{candidate_path, candidates_spec, resolve};
use crate::lexer::{count_newlines, newlines};
use crate::scan::{scan, scan_spec, Guard, ScannedFile};
use std::collections::HashMap;
use vstd::prelude::*;

pub use crate::tugraph::TuGraph;
pub use crate::walk::NodeKey;

verus! {

broadcast use vstd::std_specs::hash::group_hash_axioms;

pub type FileId = u32;

/// Parent of the root and of guarded nodes in a TU graph.
pub const NO_PARENT: u32 = 0xFFFF_FFFF;

/// Hard cap on nodes in one TU graph. Unguarded headers are expanded once per
/// inclusion site, so a pathological tree of them can grow exponentially.
pub const MAX_TU_NODES: usize = 4_000_000;

/// Most files a project holds: file ids are `u32` and [`NO_PARENT`] is
/// reserved.
pub const MAX_FILES: usize = 0xFFFF_FFFE;

#[derive(Clone, Copy, Debug)]
pub struct Tu {
    pub file: FileId,
    pub config: u32,
}

#[derive(Clone, Debug, PartialEq, Eq)]
pub struct Unresolved {
    pub includer: FileId,
    pub line: u32,
    pub spelling: String,
    pub angled: bool,
}

/// Every file reached from any TU, scanned once, with includes resolved once
/// per distinct set of search paths.
pub struct Project {
    pub paths: Vec<String>,
    /// `None` when the file could not be read.
    pub scanned: Vec<Option<ScannedFile>>,
    pub configs: Vec<SearchPaths>,
    /// Per config: file -> resolved target of each include directive, by index.
    pub resolved: Vec<HashMap<FileId, Vec<Option<FileId>>>>,
    pub tus: Vec<Tu>,
    pub unresolved: Vec<Unresolved>,
    pub missing_sources: Vec<String>,
}

fn same_strings(a: &Vec<String>, b: &Vec<String>) -> (r: bool)
    ensures
        r == (strings_view(a@) == strings_view(b@)),
{
    if a.len() != b.len() {
        proof {
            assert(strings_view(a@).len() != strings_view(b@).len());
        }
        return false;
    }
    let mut i: usize = 0;
    while i < a.len()
        invariant
            a@.len() == b@.len(),
            i <= a@.len(),
            forall|j: int| 0 <= j < i ==> (#[trigger] a@[j])@ == b@[j]@,
        decreases a@.len() - i,
    {
        if a[i] != b[i] {
            proof {
                assert(strings_view(a@)[i as int] != strings_view(b@)[i as int]);
            }
            return false;
        }
        i += 1;
    }
    proof {
        assert(strings_view(a@) =~= strings_view(b@));
    }
    true
}

pub(crate) fn clone_strings(v: &Vec<String>) -> (r: Vec<String>)
    ensures
        strings_view(r@) == strings_view(v@),
{
    let mut r: Vec<String> = Vec::new();
    let mut i: usize = 0;
    while i < v.len()
        invariant
            i <= v@.len(),
            strings_view(r@) == strings_view(v@.take(i as int)),
        decreases v@.len() - i,
    {
        let ghost r0 = r@;
        r.push(v[i].clone());
        proof {
            assert(strings_view(r@) =~= strings_view(r0).push(v@[i as int]@));
            assert(strings_view(v@.take(i as int + 1)) =~= strings_view(v@.take(i as int)).push(v@[i as int]@));
        }
        i += 1;
    }
    proof {
        assert(v@.take(v@.len() as int) =~= v@);
    }
    r
}

/// A copy of `sp`.
fn clone_search(sp: &SearchPaths) -> (r: SearchPaths)
    ensures
        search_view(r) == search_view(*sp),
{
    let r = SearchPaths {
        iquote: clone_strings(&sp.iquote),
        include_dirs: clone_strings(&sp.include_dirs),
        system: clone_strings(&sp.system),
        after: clone_strings(&sp.after),
    };
    proof {
        assert(search_view(r) =~= search_view(*sp));
    }
    r
}

/// The two commands search the same directories in the same order.
fn same_search(a: &SearchPaths, b: &SearchPaths) -> (r: bool)
    ensures
        r == (search_view(*a) == search_view(*b)),
{
    let r = same_strings(&a.iquote, &b.iquote) && same_strings(&a.include_dirs, &b.include_dirs)
        && same_strings(&a.system, &b.system) && same_strings(&a.after, &b.after);
    proof {
        if !r {
            if search_view(*a) == search_view(*b) {
                assert(search_view(*a)[0] == search_view(*b)[0]);
                assert(search_view(*a)[1] == search_view(*b)[1]);
                assert(search_view(*a)[2] == search_view(*b)[2]);
                assert(search_view(*a)[3] == search_view(*b)[3]);
            }
        } else {
            assert(search_view(*a) =~= search_view(*b));
        }
    }
    r
}

pub proof fn lemma_push_contains(s: Seq<u32>, x: u32)
    ensures
        s.push(x).contains(x),
        forall|y: u32| s.contains(y) ==> s.push(x).contains(y),
        forall|y: u32| #[trigger] s.push(x).contains(y) ==> s.contains(y) || y == x,
{
    assert(s.push(x)[s.len() as int] == x);
    assert forall|y: u32| s.contains(y) implies s.push(x).contains(y) by {
        let j = choose|j: int| 0 <= j < s.len() && s[j] == y;
        assert(s.push(x)[j] == y);
    }
    assert forall|y: u32| #[trigger] s.push(x).contains(y) implies s.contains(y) || y == x by {
        let j = choose|j: int| 0 <= j < s.len() + 1 && s.push(x)[j] == y;
        if j < s.len() {
            assert(s[j] == y);
        }
    }
}

/// TU `k` of `p` comes from some command: same source path, same search paths.
pub open spec fn tu_from_command(p: Project, commands: Seq<CompileCommand>, k: int) -> bool {
    exists|j: int|
        0 <= j < commands.len() && path_tags(p.paths@[p.tus@[k].file as int]@) == path_tags((#[trigger] commands[j]).file@)
            && search_view(p.configs@[p.tus@[k].config as int]) == search_view(commands[j].search)
}

/// Missing source `k` of `p` is the source path of some command.
pub open spec fn missing_from_command(p: Project, commands: Seq<CompileCommand>, k: int) -> bool {
    exists|j: int| 0 <= j < commands.len() && p.missing_sources@[k]@ == (#[trigger] commands[j]).file@
}

/// Directive `d.1` of file `d.0` is the include that `u` reports.
pub open spec fn directive_of(p: Project, d: (u32, usize), u: Unresolved) -> bool {
    &&& d.0 == u.includer
    &&& p.scanned@[d.0 as int] matches Some(s) && d.1 < s.includes@.len() && s.includes@[d.1 as int].line == u.line
        && s.includes@[d.1 as int].spelling@ == u.spelling@ && s.includes@[d.1 as int].angled == u.angled
}

/// Growing the file table keeps the record of where the unresolved
/// includes come from.
proof fn lemma_unresolved_from_kept(p0: Project, p1: Project, seen: Seq<(u32, usize)>)
    requires
        p0.wf(),
        p0.unresolved_from(seen),
        p1.unresolved == p0.unresolved,
        forall|i: int| 0 <= i < p0.paths@.len() ==> p1.scanned@[i] == p0.scanned@[i],
    ensures
        p1.unresolved_from(seen),
{
    assert forall|k: int| 0 <= k < seen.len() implies #[trigger] directive_of(p1, seen[k], p1.unresolved@[k]) by {
        assert(directive_of(p0, seen[k], p0.unresolved@[k]));
        assert(p0.unresolved@[k].includer < p0.paths@.len());
        assert(p1.scanned@[seen[k].0 as int] == p0.scanned@[seen[k].0 as int]);
    }
}

/// Directive `j` of file `f` has no target under config `c` for a reason: it
/// is recorded as unresolved, or it resolves to a file that could not be
/// read, or the file table is full.
pub open spec fn no_target_explained(p: Project, seen: Seq<(u32, usize)>, c: int, f: u32, j: int) -> bool {
    ||| seen.contains((f, j as usize))
    ||| exists|t: int|
        0 <= t < p.paths@.len() && p.scanned@[t] is None && (p.scanned@[f as int] matches Some(s) && resolution_ok(
            p.paths@[f as int]@,
            s.includes@[j].spelling@,
            s.includes@[j].angled,
            p.configs@[c],
            #[trigger] p.paths@[t]@,
        ))
    ||| p.paths@.len() >= MAX_FILES
}

/// Each directive left without a target under config `c` has its reason.
pub open spec fn no_target_ok(p: Project, seen: Seq<(u32, usize)>, c: int, f: u32, j: int) -> bool {
    p.resolved@[c]@[f]@[j] is None ==> no_target_explained(p, seen, c, f, j)
}

/// Every directive left without a target has its reason.
pub open spec fn unresolved_complete(p: Project, seen: Seq<(u32, usize)>) -> bool {
    forall|c: int, f: u32, j: int|
        0 <= c < p.resolved@.len() && p.resolved@[c]@.contains_key(f) && 0 <= j < p.resolved@[c]@[f]@.len()
            ==> #[trigger] no_target_ok(p, seen, c, f, j)
}

/// Growing the files and the record of unresolved directives keeps each
/// reason.
proof fn lemma_explained_kept(
    p0: Project,
    p1: Project,
    s0: Seq<(u32, usize)>,
    s1: Seq<(u32, usize)>,
    c: int,
    f: u32,
    j: int,
)
    requires
        p0.wf(),
        (f as int) < p0.paths@.len(),
        0 <= c < p0.configs@.len(),
        p0.paths@.len() <= p1.paths@.len(),
        forall|i: int| 0 <= i < p0.paths@.len() ==> p1.paths@[i] == p0.paths@[i] && p1.scanned@[i] == p0.scanned@[i],
        p1.configs@.len() >= p0.configs@.len(),
        p1.configs@[c] == p0.configs@[c],
        s0.len() <= s1.len(),
        forall|k: int| 0 <= k < s0.len() ==> s1[k] == s0[k],
        no_target_explained(p0, s0, c, f, j),
    ensures
        no_target_explained(p1, s1, c, f, j),
{
    if s0.contains((f, j as usize)) {
        let k = choose|k: int| 0 <= k < s0.len() && s0[k] == (f, j as usize);
        assert(s1[k] == s0[k]);
    } else if exists|t: int|
        0 <= t < p0.paths@.len() && p0.scanned@[t] is None && (p0.scanned@[f as int] matches Some(s) && resolution_ok(
            p0.paths@[f as int]@,
            s.includes@[j].spelling@,
            s.includes@[j].angled,
            p0.configs@[c],
            #[trigger] p0.paths@[t]@,
        )) {
        let t = choose|t: int|
            0 <= t < p0.paths@.len() && p0.scanned@[t] is None && (p0.scanned@[f as int] matches Some(s) && resolution_ok(
                p0.paths@[f as int]@,
                s.includes@[j].spelling@,
                s.includes@[j].angled,
                p0.configs@[c],
                #[trigger] p0.paths@[t]@,
            ));
        assert(p1.paths@[t] == p0.paths@[t]);
        assert(p1.paths@[f as int] == p0.paths@[f as int]);
    }
}

/// Growing the project keeps every reason for a missing target, as long as
/// the resolutions made so far stay.
proof fn lemma_complete_kept(p0: Project, p1: Project, s0: Seq<(u32, usize)>, s1: Seq<(u32, usize)>)
    requires
        p0.wf(),
        unresolved_complete(p0, s0),
        p0.resolved@.len() <= p1.resolved@.len(),
        forall|c: int| 0 <= c < p0.resolved@.len() ==> #[trigger] p1.resolved@[c] == p0.resolved@[c],
        forall|c: int| p0.resolved@.len() <= c < p1.resolved@.len() ==> #[trigger] p1.resolved@[c]@ == Map::<u32, Vec<Option<u32>>>::empty(),
        p0.paths@.len() <= p1.paths@.len(),
        forall|i: int| 0 <= i < p0.paths@.len() ==> p1.paths@[i] == p0.paths@[i] && p1.scanned@[i] == p0.scanned@[i],
        p1.configs@.len() >= p0.configs@.len(),
        forall|c: int| 0 <= c < p0.configs@.len() ==> #[trigger] p1.configs@[c] == p0.configs@[c],
        s0.len() <= s1.len(),
        forall|k: int| 0 <= k < s0.len() ==> s1[k] == s0[k],
    ensures
        unresolved_complete(p1, s1),
{
    assert forall|c: int, f: u32, j: int|
        0 <= c < p1.resolved@.len() && p1.resolved@[c]@.contains_key(f) && 0 <= j < p1.resolved@[c]@[f]@.len()
            implies #[trigger] no_target_ok(p1, s1, c, f, j) by {
        if c < p0.resolved@.len() {
            assert(p1.resolved@[c] == p0.resolved@[c]);
            assert(no_target_ok(p0, s0, c, f, j));
            if p1.resolved@[c]@[f]@[j] is None {
                lemma_explained_kept(p0, p1, s0, s1, c, f, j);
            }
        } else {
            assert(p1.resolved@[c]@ == Map::<u32, Vec<Option<u32>>>::empty());
        }
    }
}

/// How many of the first `j` commands had their source present.
pub open spec fn count_present(present: Seq<bool>, j: int) -> nat
    decreases j,
{
    if j <= 0 {
        0
    } else {
        count_present(present, j - 1) + if present[j - 1] {
            1nat
        } else {
            0nat
        }
    }
}

/// Command `j` became, in order, the next TU when its source was present
/// (`present[j]`), and the next missing source otherwise.
pub open spec fn command_placed(p: Project, commands: Seq<CompileCommand>, present: Seq<bool>, j: int) -> bool {
    if present[j] {
        let k = count_present(present, j) as int;
        &&& k < p.tus@.len()
        &&& path_tags(p.paths@[p.tus@[k].file as int]@) == path_tags(commands[j].file@)
        &&& search_view(p.configs@[p.tus@[k].config as int]) == search_view(commands[j].search)
    } else {
        let k = j - count_present(present, j);
        &&& k < p.missing_sources@.len()
        &&& p.missing_sources@[k]@ == commands[j].file@
        &&& source_unusable(p, commands[j].file@)
    }
}

/// A command's source cannot become a TU: the file is known and could not
/// be read, or the file table or the table of search-path sets is full.
pub open spec fn source_unusable(p: Project, file: Seq<char>) -> bool {
    ||| exists|id: int| 0 <= id < p.paths@.len() && path_tags((#[trigger] p.paths@[id])@) == path_tags(file) && p.scanned@[id] is None
    ||| p.paths@.len() >= MAX_FILES
    ||| p.configs@.len() >= 0xFFFF_FFFF
}

/// Every command up to `present.len()` is placed.
pub open spec fn commands_placed(p: Project, commands: Seq<CompileCommand>, present: Seq<bool>) -> bool {
    forall|j: int| 0 <= j < present.len() ==> #[trigger] command_placed(p, commands, present, j)
}

proof fn lemma_count_present_push(present: Seq<bool>, b: bool, j: int)
    requires
        0 <= j <= present.len(),
    ensures
        count_present(present.push(b), j) == count_present(present, j),
        count_present(present, j) <= j,
    decreases j,
{
    if j > 0 {
        lemma_count_present_push(present, b, j - 1);
        assert(present.push(b)[j - 1] == present[j - 1]);
    }
}

/// Growing the project keeps every command placed, and recording the next
/// command's outcome keeps the earlier ones placed.
proof fn lemma_placed_kept(p0: Project, p1: Project, commands: Seq<CompileCommand>, present: Seq<bool>, b: bool)
    requires
        p0.wf(),
        commands_placed(p0, commands, present),
        p0.tus@.len() <= p1.tus@.len(),
        forall|k: int| 0 <= k < p0.tus@.len() ==> p1.tus@[k] == p0.tus@[k],
        p0.configs@.len() <= p1.configs@.len(),
        forall|c: int| 0 <= c < p0.configs@.len() ==> p1.configs@[c] == p0.configs@[c],
        p0.paths@.len() <= p1.paths@.len(),
        forall|i: int| 0 <= i < p0.paths@.len() ==> p1.paths@[i] == p0.paths@[i],
        forall|i: int| 0 <= i < p0.paths@.len() ==> p1.scanned@[i] == p0.scanned@[i],
        p0.missing_sources@.len() <= p1.missing_sources@.len(),
        forall|i: int|
            0 <= i < p0.missing_sources@.len() ==> p1.missing_sources@[i] == p0.missing_sources@[i],
    ensures
        commands_placed(p1, commands, present),
        forall|j: int| 0 <= j < present.len() ==> #[trigger] command_placed(p1, commands, present.push(b), j),
{
    assert forall|j: int| 0 <= j < present.len() implies #[trigger] command_placed(p1, commands, present, j) by {
        assert(command_placed(p0, commands, present, j));
        lemma_count_present_push(present, b, j);
        if present[j] {
            let k = count_present(present, j) as int;
            assert(p0.readable(p0.tus@[k].file as int));
            assert(p0.tus@[k].config < p0.configs@.len());
        } else {
            let file = commands[j].file@;
            if exists|id: int| 0 <= id < p0.paths@.len() && path_tags((#[trigger] p0.paths@[id])@) == path_tags(file) && p0.scanned@[id] is None {
                let id = choose|id: int| 0 <= id < p0.paths@.len() && path_tags((#[trigger] p0.paths@[id])@) == path_tags(file) && p0.scanned@[id] is None;
                assert(p1.paths@[id] == p0.paths@[id]);
                assert(source_unusable(p1, file));
            }
        }
    }
    assert forall|j: int| 0 <= j < present.len() implies #[trigger] command_placed(p1, commands, present.push(b), j) by {
        assert(command_placed(p1, commands, present, j));
        lemma_count_present_push(present, b, j);
        assert(present.push(b)[j] == present[j]);
    }
}

/// Growing the file table and the list of missing sources keeps every TU and
/// missing source tied to its command.
proof fn lemma_correspondence_kept(p0: Project, p1: Project, commands: Seq<CompileCommand>)
    requires
        p0.wf(),
        p1.tus == p0.tus,
        p1.configs == p0.configs,
        p0.paths@.len() <= p1.paths@.len(),
        forall|i: int| 0 <= i < p0.paths@.len() ==> p1.paths@[i] == p0.paths@[i],
        p0.missing_sources@.len() <= p1.missing_sources@.len(),
        forall|i: int|
            0 <= i < p0.missing_sources@.len() ==> p1.missing_sources@[i] == p0.missing_sources@[i],
        forall|k: int| 0 <= k < p0.tus@.len() ==> #[trigger] tu_from_command(p0, commands, k),
        forall|k: int|
            0 <= k < p0.missing_sources@.len() ==> #[trigger] missing_from_command(p0, commands, k),
    ensures
        forall|k: int| 0 <= k < p1.tus@.len() ==> #[trigger] tu_from_command(p1, commands, k),
        forall|k: int|
            0 <= k < p0.missing_sources@.len() ==> #[trigger] missing_from_command(p1, commands, k),
{
    assert forall|k: int| 0 <= k < p1.tus@.len() implies #[trigger] tu_from_command(p1, commands, k) by {
        assert(tu_from_command(p0, commands, k));
        assert(p0.readable(p0.tus@[k].file as int));
        assert(p1.paths@[p1.tus@[k].file as int] == p0.paths@[p0.tus@[k].file as int]);
    }
    assert forall|k: int| 0 <= k < p0.missing_sources@.len() implies #[trigger] missing_from_command(
        p1,
        commands,
        k,
    ) by {
        assert(missing_from_command(p0, commands, k));
    }
}

/// Number of the files `0..n` that `m` has not resolved.
pub open spec fn unresolved_count(m: Map<u32, Vec<Option<u32>>>, n: nat) -> nat
    decreases n,
{
    if n == 0 {
        0
    } else {
        unresolved_count(m, (n - 1) as nat) + if m.contains_key((n - 1) as u32) {
            0nat
        } else {
            1nat
        }
    }
}

proof fn lemma_unresolved_insert(m: Map<u32, Vec<Option<u32>>>, n: nat, f: u32, v: Vec<Option<u32>>)
    requires
        f < n <= u32::MAX + 1,
        !m.contains_key(f),
    ensures
        unresolved_count(m.insert(f, v), n) + 1 == unresolved_count(m, n),
    decreases n,
{
    if n - 1 != f as nat {
        lemma_unresolved_insert(m, (n - 1) as nat, f, v);
    } else {
        lemma_unresolved_same(m, m.insert(f, v), (n - 1) as nat);
    }
}

proof fn lemma_unresolved_same(m1: Map<u32, Vec<Option<u32>>>, m2: Map<u32, Vec<Option<u32>>>, n: nat)
    requires
        n <= u32::MAX + 1,
        forall|k: u32| k < n ==> (m1.contains_key(k) <==> m2.contains_key(k)),
    ensures
        unresolved_count(m1, n) == unresolved_count(m2, n),
    decreases n,
{
    if n > 0 {
        lemma_unresolved_same(m1, m2, (n - 1) as nat);
    }
}

/// `p` names, component for component, a file that resolving `spelling`
/// from `includer` under `search` can give: the normalized spelling when it
/// is absolute, else the spelling in one of the searched directories.
pub open spec fn resolution_ok(includer: Seq<char>, spelling: Seq<char>, angled: bool, search: SearchPaths, p: Seq<char>) -> bool {
    &&& rooted(spelling) ==> path_tags(p) == path_tags(normalize_spec(spelling))
    &&& !rooted(spelling) ==> exists|i: int|
        0 <= i < candidates_spec(includer, angled, search).len() && path_tags(p) == path_tags(
            candidate_path(#[trigger] candidates_spec(includer, angled, search)[i], spelling),
        )
}

impl Project {
    /// The file was read and scanned.
    pub open spec fn readable(&self, f: int) -> bool {
        0 <= f < self.scanned@.len() && self.scanned@[f] is Some
    }

    /// The file is guarded or `#pragma once`.
    pub open spec fn spec_once(&self, f: int) -> bool {
        &&& 0 <= f < self.scanned@.len()
        &&& self.scanned@[f] is Some
        &&& !(self.scanned@[f]->0.guard is Unguarded)
    }

    /// Significant bytes of the file; 0 when it could not be read.
    pub open spec fn spec_weight(&self, f: int) -> nat {
        if 0 <= f < self.scanned@.len() && self.scanned@[f] is Some {
            self.scanned@[f]->0.weight as nat
        } else {
            0
        }
    }

    /// The resolved include targets of `f` under `config`; empty when `f`
    /// was never resolved there.
    pub open spec fn spec_targets(&self, config: int, f: int) -> Seq<Option<u32>> {
        if 0 <= config < self.resolved@.len() && 0 <= f <= u32::MAX
            && self.resolved@[config]@.contains_key(f as u32) {
            self.resolved@[config]@[f as u32]@
        } else {
            Seq::empty()
        }
    }

    /// Resolved targets match `f`'s directives one to one and name readable files.
    pub open spec fn targets_ok(&self, f: int, ts: Seq<Option<u32>>) -> bool {
        &&& (match self.scanned@[f] {
            Some(s) => ts.len() == s.includes@.len(),
            None => ts.len() == 0,
        })
        &&& forall|j: int| 0 <= j < ts.len() ==> (#[trigger] ts[j] matches Some(t) ==> self.readable(t as int))
    }

    /// Ids, paths, scans, configs, resolutions and TUs agree, and no two
    /// paths name the same file.
    pub open spec fn wf(&self) -> bool {
        &&& self.paths@.len() == self.scanned@.len()
        &&& self.paths@.len() <= MAX_FILES
        &&& forall|f: int|
            0 <= f < self.scanned@.len() && (#[trigger] self.scanned@[f]) is Some ==> self.scanned@[f]->0.includes@.len()
                <= u32::MAX
        &&& forall|i: int, j: int|
            0 <= i < self.paths@.len() && 0 <= j < self.paths@.len() && i != j ==> path_tags(
                (#[trigger] self.paths@[i])@,
            ) != path_tags((#[trigger] self.paths@[j])@)
        &&& self.resolved@.len() == self.configs@.len()
        &&& self.configs@.len() <= u32::MAX
        &&& forall|c: int, f: u32|
            0 <= c < self.resolved@.len() && #[trigger] self.resolved@[c]@.contains_key(f) ==> f
                < self.paths@.len() && self.targets_ok(f as int, self.resolved@[c]@[f]@)
        &&& forall|k: int|
            0 <= k < self.tus@.len() ==> self.readable((#[trigger] self.tus@[k]).file as int)
                && self.tus@[k].config < self.configs@.len()
        &&& forall|k: int|
            0 <= k < self.unresolved@.len() ==> (#[trigger] self.unresolved@[k]).includer
                < self.paths@.len()
    }

    /// Target `j` of `f` under config `c`, when there is one, is a path its
    /// directive can resolve to.
    pub open spec fn target_sound(&self, c: int, f: u32, j: int) -> bool {
        self.resolved@[c]@[f]@[j] matches Some(t) ==> (self.scanned@[f as int] matches Some(s) && resolution_ok(
            self.paths@[f as int]@,
            s.includes@[j].spelling@,
            s.includes@[j].angled,
            self.configs@[c],
            self.paths@[t as int]@,
        ))
    }

    /// Every resolved target is a path its directive can resolve to.
    pub open spec fn resolutions_sound(&self) -> bool {
        forall|c: int, f: u32, j: int|
            0 <= c < self.resolved@.len() && self.resolved@[c]@.contains_key(f) && 0 <= j
                < self.resolved@[c]@[f]@.len() ==> #[trigger] self.target_sound(c, f, j)
    }

    /// Every unresolved include is a directive of its includer.
    pub open spec fn unresolved_sound(&self) -> bool {
        forall|k: int|
            0 <= k < self.unresolved@.len() ==> (self.scanned@[(#[trigger] self.unresolved@[k]).includer as int] matches Some(s)
                && exists|j: int|
                0 <= j < s.includes@.len() && s.includes@[j].spelling@ == self.unresolved@[k].spelling@
                    && s.includes@[j].angled == self.unresolved@[k].angled && s.includes@[j].line
                    == self.unresolved@[k].line)
    }

    /// The unresolved includes come from distinct directives: `seen[k]` is
    /// the file and directive index that entry `k` reports.
    pub open spec fn unresolved_from(&self, seen: Seq<(u32, usize)>) -> bool {
        &&& seen.len() == self.unresolved@.len()
        &&& forall|k: int|
            0 <= k < seen.len() ==> #[trigger] directive_of(*self, seen[k], self.unresolved@[k])
        &&& forall|a: int, b: int| 0 <= a < seen.len() && 0 <= b < seen.len() && a != b ==> seen[a] != seen[b]
    }

    /// Every file a TU reaches under its config has been resolved there.
    pub open spec fn closed(&self) -> bool {
        &&& forall|k: int|
            0 <= k < self.tus@.len() ==> self.resolved@[(#[trigger] self.tus@[k]).config as int]@.contains_key(
                self.tus@[k].file,
            )
        &&& forall|c: int, f: u32, j: int|
            0 <= c < self.resolved@.len() && #[trigger] self.resolved@[c]@.contains_key(f) && 0 <= j
                < self.resolved@[c]@[f]@.len() ==> (#[trigger] self.resolved@[c]@[f]@[j] matches Some(
                t,
            ) ==> self.resolved@[c]@.contains_key(t))
    }

    /// The id of the file at `path`, comparing paths by their components as
    /// `Path` does (so `a//b` and `a/./b` name `a/b`); the first such file.
    pub fn file_id(&self, path: &str) -> (r: Option<FileId>)
        requires
            self.wf(),
        ensures
            match r {
                Some(id) => id < self.paths@.len() && path_tags(self.paths@[id as int]@) == path_tags(path@)
                    && forall|j: int| 0 <= j < id ==> path_tags(#[trigger] self.paths@[j]@) != path_tags(path@),
                None => forall|i: int| 0 <= i < self.paths@.len() ==> path_tags(#[trigger] self.paths@[i]@) != path_tags(path@),
            },
    {
        let want = path_components(path);
        let mut i: usize = 0;
        while i < self.paths.len()
            invariant
                tags_view(want@) == path_tags(path@),
                i <= self.paths@.len(),
                self.paths@.len() <= u32::MAX,
                forall|j: int| 0 <= j < i ==> path_tags(#[trigger] self.paths@[j]@) != path_tags(path@),
            decreases self.paths@.len() - i,
        {
            let tags = path_components(self.paths[i].as_str());
            if tags_equal(&tags, &want) {
                return Some(i as u32);
            }
            i += 1;
        }
        None
    }

    /// Significant bytes of `f`; 0 when it could not be read.
    pub fn weight(&self, f: FileId) -> (r: u64)
        requires
            f < self.scanned@.len(),
        ensures
            r == self.spec_weight(f as int),
    {
        match &self.scanned[f as usize] {
            Some(s) => s.weight,
            None => 0,
        }
    }

    /// `f` is guarded or `#pragma once`.
    pub fn once(&self, f: FileId) -> (r: bool)
        requires
            f < self.scanned@.len(),
        ensures
            r == self.spec_once(f as int),
    {
        match &self.scanned[f as usize] {
            Some(s) => s.once(),
            None => false,
        }
    }

    /// Reads a file and scans it.
    fn read_and_scan<F: SourceProvider>(fs: &F, path: &str) -> (r: Option<ScannedFile>)
        ensures
            r matches Some(s) ==> exists|bytes: Seq<u8>| #[trigger] scan_spec(bytes, s),
            r matches Some(s) ==> s.includes@.len() <= u32::MAX,
    {
        Self::scanned_from(fs.read(path))
    }

    /// What a file that read as `read` scans to: nothing when it could not be
    /// read, or when it has 2^32 - 1 lines or more (its line numbers would not
    /// fit the scanner's `u32`), else the scan of its bytes.
    pub fn scanned_from(read: Option<Vec<u8>>) -> (r: Option<ScannedFile>)
        ensures
            match read {
                Some(bytes) => if bytes@.len() <= isize::MAX && newlines(bytes@, bytes@.len() as int) < u32::MAX {
                    r matches Some(s) && scan_spec(bytes@, s) && s.includes@.len() <= u32::MAX
                } else {
                    r is None
                },
                None => r is None,
            },
    {
        match read {
            Some(bytes) => {
                // A `Vec` never holds more than `isize::MAX` bytes.
                if bytes.len() <= isize::MAX as usize && count_newlines(bytes.as_slice()) < 0xFFFF_FFFF {
                    let s = scan(bytes.as_slice());
                    Some(s)
                } else {
                    None
                }
            },
            None => None,
        }
    }

    /// Soundness depends only on the files, configs, resolutions and
    /// unresolved includes.
    proof fn lemma_same_soundness(p0: Project, p1: Project)
        requires
            p1.resolved == p0.resolved,
            p1.configs == p0.configs,
            p1.paths == p0.paths,
            p1.scanned == p0.scanned,
            p1.unresolved == p0.unresolved,
        ensures
            p0.resolutions_sound() ==> p1.resolutions_sound(),
            p0.unresolved_sound() ==> p1.unresolved_sound(),
    {
        if p0.resolutions_sound() {
            assert forall|c: int, f: u32, j: int|
                0 <= c < p1.resolved@.len() && p1.resolved@[c]@.contains_key(f) && 0 <= j
                    < p1.resolved@[c]@[f]@.len() implies #[trigger] p1.target_sound(c, f, j) by {
                assert(p0.target_sound(c, f, j));
            }
        }
    }

    /// Adding files keeps the resolutions and unresolved includes sound.
    proof fn lemma_growth_keeps_soundness(p0: Project, p1: Project)
        requires
            p0.wf(),
            p1.resolved == p0.resolved,
            p1.configs == p0.configs,
            p1.unresolved == p0.unresolved,
            p0.paths@.len() <= p1.paths@.len(),
            p0.paths@.len() <= p1.scanned@.len(),
            forall|i: int| 0 <= i < p0.paths@.len() ==> p1.paths@[i] == p0.paths@[i] && p1.scanned@[i] == p0.scanned@[i],
        ensures
            p0.resolutions_sound() ==> p1.resolutions_sound(),
            p0.unresolved_sound() ==> p1.unresolved_sound(),
    {
        if p0.resolutions_sound() {
            assert forall|c: int, f: u32, j: int|
                0 <= c < p1.resolved@.len() && p1.resolved@[c]@.contains_key(f) && 0 <= j
                    < p1.resolved@[c]@[f]@.len() implies #[trigger] p1.target_sound(c, f, j) by {
                assert(p0.target_sound(c, f, j));
                assert(p0.targets_ok(f as int, p0.resolved@[c]@[f]@));
                if let Some(t) = p1.resolved@[c]@[f]@[j] {
                    assert(p0.readable(t as int));
                    assert(p1.paths@[t as int] == p0.paths@[t as int]);
                }
                assert(p1.paths@[f as int] == p0.paths@[f as int]);
                assert(p1.scanned@[f as int] == p0.scanned@[f as int]);
            }
        }
        if p0.unresolved_sound() {
            assert forall|k: int| 0 <= k < p1.unresolved@.len() implies (p1.scanned@[(#[trigger] p1.unresolved@[k]).includer as int] matches Some(s)
                && exists|j: int|
                0 <= j < s.includes@.len() && s.includes@[j].spelling@ == p1.unresolved@[k].spelling@
                    && s.includes@[j].angled == p1.unresolved@[k].angled && s.includes@[j].line
                    == p1.unresolved@[k].line) by {
                let i = p1.unresolved@[k].includer as int;
                assert(p0.unresolved@[k].includer < p0.paths@.len());
                assert(p1.scanned@[i] == p0.scanned@[i]);
            }
        }
    }

    /// The id of `path`, compared by components as `Path` does, giving it a
    /// new id (and reading and scanning it) the first time a file is named.
    /// `None` when the project already holds [`MAX_FILES`].
    fn intern<F: SourceProvider>(&mut self, fs: &F, path: &String) -> (r: Option<FileId>)
        requires
            old(self).wf(),
        ensures
            final(self).wf(),
            final(self).configs == old(self).configs,
            final(self).resolved == old(self).resolved,
            final(self).tus == old(self).tus,
            final(self).unresolved == old(self).unresolved,
            final(self).missing_sources == old(self).missing_sources,
            old(self).paths@.len() <= final(self).paths@.len() <= old(self).paths@.len() + 1,
            forall|i: int|
                0 <= i < old(self).paths@.len() ==> final(self).paths@[i] == old(self).paths@[i]
                    && final(self).scanned@[i] == old(self).scanned@[i],
            match r {
                Some(id) => id < final(self).paths@.len() && path_tags(final(self).paths@[id as int]@) == path_tags(path@),
                None => final(self).paths@.len() == old(self).paths@.len(),
            },
            old(self).resolutions_sound() ==> final(self).resolutions_sound(),
            old(self).unresolved_sound() ==> final(self).unresolved_sound(),
            (exists|i: int| 0 <= i < old(self).paths@.len() && path_tags((#[trigger] old(self).paths@[i])@) == path_tags(path@)) ==> {
                &&& *final(self) == *old(self)
                &&& r is Some
            },
            !(exists|i: int| 0 <= i < old(self).paths@.len() && path_tags((#[trigger] old(self).paths@[i])@) == path_tags(path@)) ==> {
                &&& (r is None <==> old(self).paths@.len() >= MAX_FILES)
                &&& r matches Some(id) ==> id == old(self).paths@.len() && final(self).paths@.len()
                    == old(self).paths@.len() + 1
            },
    {
        match self.file_id(path.as_str()) {
            Some(id) => return Some(id),
            None => {},
        }
        if self.paths.len() >= MAX_FILES {
            return None;
        }
        let id = self.paths.len() as u32;
        let scanned = Self::read_and_scan(fs, path.as_str());
        let ghost old_paths = self.paths@;
        self.paths.push(path.clone());
        self.scanned.push(scanned);
        proof {
            Self::lemma_growth_keeps_soundness(*old(self), *self);
            assert forall|c: int, f: u32|
                0 <= c < self.resolved@.len() && #[trigger] self.resolved@[c]@.contains_key(f) implies f
                < self.paths@.len() && self.targets_ok(f as int, self.resolved@[c]@[f]@) by {
                let ts = self.resolved@[c]@[f]@;
                assert(old(self).targets_ok(f as int, ts));
                assert(self.scanned@[f as int] == old(self).scanned@[f as int]);
                assert forall|j: int| 0 <= j < ts.len() implies (#[trigger] ts[j] matches Some(t)
                    ==> self.readable(t as int)) by {
                    if let Some(t) = ts[j] {
                        assert(old(self).readable(t as int));
                        assert(self.scanned@[t as int] == old(self).scanned@[t as int]);
                    }
                }
            }
            assert forall|g: int|
                0 <= g < self.scanned@.len() && (#[trigger] self.scanned@[g]) is Some implies self.scanned@[g]->0.includes@.len()
                    <= u32::MAX by {
                if g < old(self).scanned@.len() {
                    assert(self.scanned@[g] == old(self).scanned@[g]);
                }
            }
            assert forall|k: int| 0 <= k < self.tus@.len() implies self.readable(
                (#[trigger] self.tus@[k]).file as int,
            ) && self.tus@[k].config < self.configs@.len() by {
                assert(old(self).readable(self.tus@[k].file as int));
                assert(self.scanned@[self.tus@[k].file as int] == old(self).scanned@[self.tus@[k].file as int]);
            }
        }
        Some(id)
    }

    /// What is left for the resolution loop of `config`: room for new files
    /// plus known files not resolved yet.
    pub open spec fn budget(&self, config: int) -> nat {
        (MAX_FILES - self.paths@.len() + unresolved_count(self.resolved@[config]@, self.paths@.len()))
            as nat
    }

    /// Every file in `config`'s map has its targets resolved or queued.
    pub open spec fn queued_closed(&self, config: int, work: Seq<u32>) -> bool {
        forall|f: u32, j: int|
            #[trigger] self.resolved@[config]@.contains_key(f) && 0 <= j < self.resolved@[config]@[f]@.len()
                ==> (#[trigger] self.resolved@[config]@[f]@[j] matches Some(t) ==> (
            self.resolved@[config]@.contains_key(t) || work.contains(t)))
    }

    /// Resolves the includes of `f` under `config`, interning what they name,
    /// recording unresolved includes once per directive, and queueing the
    /// readable targets on `work`.
    fn resolve_file<F: SourceProvider>(
        &mut self,
        fs: &F,
        config: u32,
        f: FileId,
        seen: &mut Vec<(u32, usize)>,
        work: &mut Vec<u32>,
    )
        requires
            old(self).wf(),
            config < old(self).configs@.len(),
            old(self).readable(f as int),
            !old(self).resolved@[config as int]@.contains_key(f),
            old(self).queued_closed(config as int, old(work)@.push(f)),
            old(self).unresolved_from(old(seen)@),
            unresolved_complete(*old(self), old(seen)@),
        ensures
            final(self).unresolved_from(final(seen)@),
            unresolved_complete(*final(self), final(seen)@),
            final(self).wf(),
            final(self).configs == old(self).configs,
            final(self).tus == old(self).tus,
            final(self).missing_sources == old(self).missing_sources,
            final(self).resolved@.len() == old(self).resolved@.len(),
            forall|c: int|
                0 <= c < old(self).resolved@.len() && c != config ==> final(self).resolved@[c]
                    == old(self).resolved@[c],
            final(self).resolved@[config as int]@.contains_key(f),
            forall|g: u32|
                g != f ==> (#[trigger] final(self).resolved@[config as int]@.contains_key(g)
                    == old(self).resolved@[config as int]@.contains_key(g)),
            forall|g: u32|
                g != f && #[trigger] old(self).resolved@[config as int]@.contains_key(g)
                    ==> final(self).resolved@[config as int]@[g] == old(self).resolved@[config as int]@[g],
            old(self).paths@.len() <= final(self).paths@.len(),
            forall|i: int|
                0 <= i < old(self).paths@.len() ==> final(self).paths@[i] == old(self).paths@[i]
                    && final(self).scanned@[i] == old(self).scanned@[i],
            final(self).budget(config as int) + 1 == old(self).budget(config as int),
            final(self).queued_closed(config as int, final(work)@),
            forall|t: u32| old(work)@.contains(t) ==> final(work)@.contains(t),
            forall|t: u32| #[trigger] final(work)@.contains(t) ==> old(work)@.contains(t) || final(self).readable(t as int),
            old(self).resolutions_sound() ==> final(self).resolutions_sound(),
            old(self).unresolved_sound() ==> final(self).unresolved_sound(),
    {
        let ghost old_map = self.resolved@[config as int]@;
        let ghost old_len = self.paths@.len();
        let includer = self.paths[f as usize].clone();
        let n = match &self.scanned[f as usize] {
            Some(s) => s.includes.len(),
            None => 0,
        };
        let mut targets: Vec<Option<FileId>> = Vec::new();
        let mut i: usize = 0;
        while i < n
            invariant
                self.wf(),
                config < self.configs@.len(),
                f < self.paths@.len(),
                self.readable(f as int),
                n == self.scanned@[f as int]->0.includes@.len(),
                i <= n,
                targets@.len() == i,
                forall|j: int| 0 <= j < i ==> (#[trigger] targets@[j] matches Some(t) ==> self.readable(t as int)
                    && work@.contains(t)),
                self.configs == old(self).configs,
                self.tus == old(self).tus,
                self.missing_sources == old(self).missing_sources,
                self.resolved == old(self).resolved,
                old_len <= self.paths@.len(),
                old_len == old(self).paths@.len(),
                old_map == old(self).resolved@[config as int]@,
                forall|k: int| 0 <= k < old_len ==> self.paths@[k] == old(self).paths@[k],
                forall|k: int| 0 <= k < old_len ==> self.scanned@[k] == old(self).scanned@[k],
                forall|t: u32| old(work)@.contains(t) ==> work@.contains(t),
                forall|t: u32| #[trigger] work@.contains(t) ==> old(work)@.contains(t) || self.readable(t as int),
                (MAX_FILES - self.paths@.len() + unresolved_count(old_map, self.paths@.len())) == (MAX_FILES
                    - old_len + unresolved_count(old_map, old_len)),
                includer@ == self.paths@[f as int]@,
                old(self).resolutions_sound() ==> self.resolutions_sound(),
                old(self).unresolved_sound() ==> self.unresolved_sound(),
                self.unresolved_from(seen@),
                unresolved_complete(*self, seen@),
                forall|j: int| 0 <= j < i && #[trigger] targets@[j] is None ==> no_target_explained(*self, seen@, config as int, f, j),
                forall|j: int|
                    0 <= j < i ==> (#[trigger] targets@[j] matches Some(t) ==> resolution_ok(
                        includer@,
                        self.scanned@[f as int]->0.includes@[j].spelling@,
                        self.scanned@[f as int]->0.includes@[j].angled,
                        self.configs@[config as int],
                        self.paths@[t as int]@,
                    )),
            decreases n - i,
        {
            let ghost self0 = *self;
            let ghost seen0 = seen@;
            let ghost t0 = targets@;
            let (spelling, angled, line) = match &self.scanned[f as usize] {
                Some(s) => (s.includes[i].spelling.clone(), s.includes[i].angled, s.includes[i].line),
                None => {
                    assert(false);
                    return ;
                },
            };
            let search = &self.configs[config as usize];
            let found = resolve(fs, includer.as_str(), spelling.as_str(), angled, search);
            let ghost len0 = self.paths@.len();
            let ghost before_intern = *self;
            match found {
                Some(path) => {
                    let interned = self.intern(fs, &path);
                    proof {
                        lemma_unresolved_from_kept(before_intern, *self, seen@);
                    }
                    match interned {
                        Some(t) => {
                            proof {
                                if self.paths@.len() > len0 {
                                    assert(!old_map.contains_key(len0 as u32));
                                    assert(unresolved_count(old_map, self.paths@.len()) == unresolved_count(
                                        old_map,
                                        len0,
                                    ) + 1);
                                }
                            }
                            if self.scanned[t as usize].is_some() {
                                let ghost w0 = work@;
                                work.push(t);
                                proof {
                                    lemma_push_contains(w0, t);
                                }
                                targets.push(Some(t));
                            } else {
                                targets.push(None);
                                proof {
                                    assert(resolution_ok(
                                        self.paths@[f as int]@,
                                        self.scanned@[f as int]->0.includes@[i as int].spelling@,
                                        self.scanned@[f as int]->0.includes@[i as int].angled,
                                        self.configs@[config as int],
                                        self.paths@[t as int]@,
                                    ));
                                    assert(no_target_explained(*self, seen@, config as int, f, i as int));
                                }
                            }
                        },
                        None => {
                            targets.push(None);
                            proof {
                                assert(no_target_explained(*self, seen@, config as int, f, i as int));
                            }
                        },
                    }
                },
                None => {
                    let mut dup = false;
                    let mut k: usize = 0;
                    while k < seen.len()
                        invariant
                            k <= seen@.len(),
                            !dup ==> forall|j: int| 0 <= j < k ==> seen@[j] != (f, i),
                            dup ==> seen@.contains((f, i)),
                        decreases seen@.len() - k,
                    {
                        if seen[k].0 == f && seen[k].1 == i {
                            dup = true;
                        }
                        k += 1;
                    }
                    if !dup {
                        let ghost seen0 = seen@;
                        seen.push((f, i));
                        let ghost u0 = *self;
                        self.unresolved.push(Unresolved { includer: f, line, spelling, angled });
                        proof {
                            assert forall|q: int| 0 <= q < seen@.len() implies #[trigger] directive_of(
                                *self,
                                seen@[q],
                                self.unresolved@[q],
                            ) by {
                                if q < seen0.len() {
                                    assert(seen@[q] == seen0[q]);
                                    assert(self.unresolved@[q] == u0.unresolved@[q]);
                                    assert(directive_of(u0, seen0[q], u0.unresolved@[q]));
                                }
                            }
                            assert forall|a: int, b: int|
                                0 <= a < seen@.len() && 0 <= b < seen@.len() && a != b implies seen@[a] != seen@[b] by {
                                if a < seen0.len() && b < seen0.len() {
                                    assert(seen@[a] == seen0[a] && seen@[b] == seen0[b]);
                                } else if a < seen0.len() {
                                    assert(seen@[a] == seen0[a]);
                                } else if b < seen0.len() {
                                    assert(seen@[b] == seen0[b]);
                                }
                            }
                            if old(self).unresolved_sound() {
                                assert forall|k: int| 0 <= k < self.unresolved@.len() implies (self.scanned@[(#[trigger] self.unresolved@[k]).includer as int] matches Some(s)
                                    && exists|j: int|
                                    0 <= j < s.includes@.len() && s.includes@[j].spelling@ == self.unresolved@[k].spelling@
                                        && s.includes@[j].angled == self.unresolved@[k].angled && s.includes@[j].line
                                        == self.unresolved@[k].line) by {
                                    if k < u0.unresolved@.len() {
                                        assert(self.unresolved@[k] == u0.unresolved@[k]);
                                    } else {
                                        let s = self.scanned@[f as int]->0;
                                        assert(s.includes@[i as int].spelling@ == self.unresolved@[k].spelling@);
                                    }
                                }
                            }
                            if u0.resolutions_sound() {
                                assert forall|c: int, g: u32, j: int|
                                    0 <= c < self.resolved@.len() && self.resolved@[c]@.contains_key(g) && 0 <= j
                                        < self.resolved@[c]@[g]@.len() implies #[trigger] self.target_sound(c, g, j) by {
                                    assert(u0.target_sound(c, g, j));
                                }
                            }
                        }
                    }
                    targets.push(None);
                    proof {
                        if !dup {
                            assert(seen@[seen@.len() - 1] == (f, i));
                        }
                        assert(no_target_explained(*self, seen@, config as int, f, i as int));
                    }
                },
            }
            proof {
                assert forall|k: int| 0 <= k < seen0.len() implies seen@[k] == seen0[k] by {}
                assert forall|q: int| 0 <= q < self0.paths@.len() implies self.paths@[q] == self0.paths@[q]
                    && self.scanned@[q] == self0.scanned@[q] by {}
                assert forall|cc: int| 0 <= cc < self0.configs@.len() implies #[trigger] self.configs@[cc] == self0.configs@[cc] by {}
                assert forall|cc: int| 0 <= cc < self0.resolved@.len() implies #[trigger] self.resolved@[cc] == self0.resolved@[cc] by {}
                lemma_complete_kept(self0, *self, seen0, seen@);
                assert forall|j: int| 0 <= j < i + 1 && #[trigger] targets@[j] is None implies no_target_explained(
                    *self,
                    seen@,
                    config as int,
                    f,
                    j,
                ) by {
                    if j < i {
                        assert(targets@[j] == t0[j]);
                        lemma_explained_kept(self0, *self, seen0, seen@, config as int, f, j);
                    }
                }
            }
            proof {
                assert forall|j: int|
                    0 <= j < i + 1 implies (#[trigger] targets@[j] matches Some(t) ==> resolution_ok(
                        includer@,
                        self.scanned@[f as int]->0.includes@[j].spelling@,
                        self.scanned@[f as int]->0.includes@[j].angled,
                        self.configs@[config as int],
                        self.paths@[t as int]@,
                    )) by {
                    if j < i {
                        if let Some(t) = targets@[j] {
                            assert(t < len0);
                        }
                    }
                }
            }
            i += 1;
        }
        let ghost ts = targets@;
        let ghost pre = *self;
        self.resolved[config as usize].insert(f, targets);
        proof {
            assert forall|c: int, g: u32, j: int|
                0 <= c < self.resolved@.len() && self.resolved@[c]@.contains_key(g) && 0 <= j
                    < self.resolved@[c]@[g]@.len() implies #[trigger] no_target_ok(*self, seen@, c, g, j) by {
                if c == config && g == f {
                    assert(self.resolved@[c]@[g]@ == ts);
                    if ts[j] is None {
                        assert(no_target_explained(pre, seen@, config as int, f, j));
                    }
                } else {
                    assert(pre.resolved@[c]@.contains_key(g));
                    assert(self.resolved@[c]@[g] == pre.resolved@[c]@[g]);
                    assert(no_target_ok(pre, seen@, c, g, j));
                }
            }
            assert forall|k: int| 0 <= k < seen@.len() implies #[trigger] directive_of(
                *self,
                seen@[k],
                self.unresolved@[k],
            ) by {
                assert(directive_of(pre, seen@[k], pre.unresolved@[k]));
            }
            if old(self).resolutions_sound() {
                assert forall|c: int, g: u32, j: int|
                    0 <= c < self.resolved@.len() && self.resolved@[c]@.contains_key(g) && 0 <= j
                        < self.resolved@[c]@[g]@.len() implies #[trigger] self.target_sound(c, g, j) by {
                    if c == config && g == f {
                        assert(self.resolved@[c]@[g]@ == ts);
                        if let Some(t) = ts[j] {
                            assert(ts[j] matches Some(t2) ==> resolution_ok(
                                includer@,
                                pre.scanned@[f as int]->0.includes@[j].spelling@,
                                pre.scanned@[f as int]->0.includes@[j].angled,
                                pre.configs@[config as int],
                                pre.paths@[t2 as int]@,
                            ));
                        }
                    } else {
                        assert(pre.resolved@[c]@.contains_key(g));
                        assert(self.resolved@[c]@[g] == pre.resolved@[c]@[g]);
                        assert(pre.target_sound(c, g, j));
                    }
                }
            }
            if old(self).unresolved_sound() {
                assert(pre.unresolved_sound());
                assert forall|k: int| 0 <= k < self.unresolved@.len() implies (self.scanned@[(#[trigger] self.unresolved@[k]).includer as int] matches Some(s)
                    && exists|j: int|
                    0 <= j < s.includes@.len() && s.includes@[j].spelling@ == self.unresolved@[k].spelling@
                        && s.includes@[j].angled == self.unresolved@[k].angled && s.includes@[j].line
                        == self.unresolved@[k].line) by {
                    assert(self.unresolved@[k] == pre.unresolved@[k]);
                }
            }
            let m = self.resolved@[config as int]@;
            assert(m == old_map.insert(f, targets));
            assert(f < old_len);
            lemma_unresolved_insert(old_map, self.paths@.len(), f, targets);
            assert forall|c: int, g: u32|
                0 <= c < self.resolved@.len() && #[trigger] self.resolved@[c]@.contains_key(g) implies g
                < self.paths@.len() && self.targets_ok(g as int, self.resolved@[c]@[g]@) by {
                if c == config && g == f {
                } else {
                    assert(pre.resolved@[c]@.contains_key(g));
                    assert(self.resolved@[c]@[g] == pre.resolved@[c]@[g]);
                }
            }
            assert forall|g: u32, j: int|
                #[trigger] m.contains_key(g) && 0 <= j < m[g]@.len() implies (#[trigger] m[g]@[j] matches Some(
                t,
            ) ==> (m.contains_key(t) || work@.contains(t))) by {
                if g != f {
                    assert(old_map.contains_key(g));
                    assert(m[g] == old_map[g]);
                    if let Some(t) = m[g]@[j] {
                        assert(old(self).resolved@[config as int]@[g]@[j] == Some(t));
                        if !old_map.contains_key(t) {
                            lemma_push_contains(old(work)@, f);
                            assert(old(work)@.push(f).contains(t));
                            if t != f {
                                assert(old(work)@.contains(t));
                            }
                        }
                    }
                }
            }
        }
    }

    /// Scans every file reachable from the compile commands and resolves
    /// their includes once per distinct set of search paths.
    ///
    /// What the provider reads is its own; the contract says how the
    /// project is put together whatever it answers.
    pub fn load<F: SourceProvider>(fs: &F, commands: &[CompileCommand]) -> (p: Project)
        ensures
            p.wf(),
            p.closed(),
            p.tus@.len() + p.missing_sources@.len() == commands@.len(),
            forall|a: int, b: int|
                0 <= a < p.configs@.len() && 0 <= b < p.configs@.len() && a != b ==> search_view(
                    #[trigger] p.configs@[a],
                ) != search_view(#[trigger] p.configs@[b]),
            forall|k: int| 0 <= k < p.tus@.len() ==> #[trigger] tu_from_command(p, commands@, k),
            forall|k: int|
                0 <= k < p.missing_sources@.len() ==> #[trigger] missing_from_command(p, commands@, k),
            p.resolutions_sound(),
            p.unresolved_sound(),
            exists|present: Seq<bool>|
                present.len() == commands@.len() && p.tus@.len() == count_present(present, present.len() as int)
                    && #[trigger] commands_placed(p, commands@, present),
            exists|seen: Seq<(u32, usize)>| #[trigger] p.unresolved_from(seen) && unresolved_complete(p, seen),
    {
        let mut p = Project {
            paths: Vec::new(),
            scanned: Vec::new(),
            configs: Vec::new(),
            resolved: Vec::new(),
            tus: Vec::new(),
            unresolved: Vec::new(),
            missing_sources: Vec::new(),
        };
        let mut seen: Vec<(u32, usize)> = Vec::new();
        let mut ci: usize = 0;
        let ghost mut present: Seq<bool> = Seq::empty();
        while ci < commands.len()
            invariant
                present.len() == ci,
                p.tus@.len() == count_present(present, ci as int),
                commands_placed(p, commands@, present),
                p.unresolved_from(seen@),
                unresolved_complete(p, seen@),
                ci <= commands@.len(),
                p.wf(),
                p.closed(),
                p.tus@.len() + p.missing_sources@.len() == ci,
                forall|a: int, b: int|
                    0 <= a < p.configs@.len() && 0 <= b < p.configs@.len() && a != b ==> search_view(
                        #[trigger] p.configs@[a],
                    ) != search_view(#[trigger] p.configs@[b]),
                forall|k: int| 0 <= k < p.tus@.len() ==> #[trigger] tu_from_command(p, commands@, k),
                forall|k: int|
                    0 <= k < p.missing_sources@.len() ==> #[trigger] missing_from_command(p, commands@, k),
                p.resolutions_sound(),
                p.unresolved_sound(),
            decreases commands@.len() - ci,
        {
            let cmd = &commands[ci];
            let ghost j0 = ci as int;
            let ghost p0 = p;
            let interned = p.intern(fs, &cmd.file);
            proof {
                lemma_unresolved_from_kept(p0, p, seen@);
                lemma_complete_kept(p0, p, seen@, seen@);
            }
            let file = match interned {
                Some(f) => f,
                None => {
                    let ghost pm = p;
                    p.missing_sources.push(cmd.file.clone());
                    proof {
                        lemma_correspondence_kept(p0, p, commands@);
                        Self::lemma_same_soundness(pm, p);
                        lemma_unresolved_from_kept(pm, p, seen@);
                        lemma_complete_kept(pm, p, seen@, seen@);
                        assert(p.missing_sources@.last()@ == commands@[j0].file@);
                        assert(missing_from_command(p, commands@, p.missing_sources@.len() - 1));
                        lemma_placed_kept(p0, p, commands@, present, false);
                        lemma_count_present_push(present, false, ci as int);
                        assert(command_placed(p, commands@, present.push(false), ci as int));
                        present = present.push(false);
                    }
                    ci += 1;
                    continue;
                },
            };
            if p.scanned[file as usize].is_none() {
                let ghost pm = p;
                p.missing_sources.push(cmd.file.clone());
                proof {
                    lemma_correspondence_kept(p0, p, commands@);
                    Self::lemma_same_soundness(pm, p);
                        lemma_unresolved_from_kept(pm, p, seen@);
                        lemma_complete_kept(pm, p, seen@, seen@);
                    assert(p.missing_sources@.last()@ == commands@[j0].file@);
                    assert(missing_from_command(p, commands@, p.missing_sources@.len() - 1));
                    lemma_placed_kept(p0, p, commands@, present, false);
                    lemma_count_present_push(present, false, ci as int);
                    assert(command_placed(p, commands@, present.push(false), ci as int));
                    present = present.push(false);
                }
                ci += 1;
                continue;
            }
            let mut config: usize = 0;
            while config < p.configs.len()
                invariant
                    config <= p.configs@.len(),
                    forall|a: int| 0 <= a < config ==> search_view(#[trigger] p.configs@[a]) != search_view(cmd.search),
                ensures
                    config <= p.configs@.len(),
                    forall|a: int| 0 <= a < config ==> search_view(#[trigger] p.configs@[a]) != search_view(cmd.search),
                    config < p.configs@.len() ==> search_view(p.configs@[config as int]) == search_view(cmd.search),
                decreases p.configs@.len() - config,
            {
                if same_search(&p.configs[config], &cmd.search) {
                    break;
                }
                config += 1;
            }
            if config == p.configs.len() {
                if p.configs.len() >= 0xFFFF_FFFF {
                    let ghost pm = p;
                    p.missing_sources.push(cmd.file.clone());
                    proof {
                        lemma_correspondence_kept(p0, p, commands@);
                        Self::lemma_same_soundness(pm, p);
                        lemma_unresolved_from_kept(pm, p, seen@);
                        lemma_complete_kept(pm, p, seen@, seen@);
                        assert(p.missing_sources@.last()@ == commands@[j0].file@);
                        assert(missing_from_command(p, commands@, p.missing_sources@.len() - 1));
                        lemma_placed_kept(p0, p, commands@, present, false);
                        lemma_count_present_push(present, false, ci as int);
                        assert(command_placed(p, commands@, present.push(false), ci as int));
                        present = present.push(false);
                    }
                    ci += 1;
                    continue;
                }
                let ghost pc = p;
                p.configs.push(clone_search(&cmd.search));
                p.resolved.push(HashMap::new());
                proof {
                    assert forall|cc: int, g: u32, j: int|
                        0 <= cc < p.resolved@.len() && p.resolved@[cc]@.contains_key(g) && 0 <= j
                            < p.resolved@[cc]@[g]@.len() implies #[trigger] p.target_sound(cc, g, j) by {
                        if cc < pc.resolved@.len() {
                            assert(p.resolved@[cc] == pc.resolved@[cc]);
                            assert(p.configs@[cc] == pc.configs@[cc]);
                            assert(pc.target_sound(cc, g, j));
                        }
                    }
                    assert(search_view(p.configs@[config as int]) == search_view(cmd.search));
                }
            }
            let c = config as u32;
            assert(search_view(p.configs@[config as int]) == search_view(cmd.search));
            let ghost p1 = p;
            p.tus.push(Tu { file, config: c });
            proof {
                Self::lemma_same_soundness(p1, p);
                lemma_placed_kept(p0, p, commands@, present, true);
                lemma_unresolved_from_kept(p0, p, seen@);
                lemma_complete_kept(p0, p, seen@, seen@);
                lemma_count_present_push(present, true, ci as int);
                assert(command_placed(p, commands@, present.push(true), ci as int));
                present = present.push(true);
                assert forall|k: int| 0 <= k < p.tus@.len() implies #[trigger] tu_from_command(
                    p,
                    commands@,
                    k,
                ) by {
                    if k < p1.tus@.len() {
                        assert(tu_from_command(p0, commands@, k));
                        assert(p0.readable(p0.tus@[k].file as int));
                        assert(p.paths@[p.tus@[k].file as int] == p0.paths@[p0.tus@[k].file as int]);
                        assert(p.configs@[p.tus@[k].config as int] == p0.configs@[p0.tus@[k].config as int]);
                    } else {
                        assert(path_tags(p.paths@[file as int]@) == path_tags(commands@[j0].file@));
                    }
                }
                assert forall|k: int| 0 <= k < p.missing_sources@.len() implies #[trigger] missing_from_command(
                    p,
                    commands@,
                    k,
                ) by {
                    assert(missing_from_command(p0, commands@, k));
                }
            }
            let mut work: Vec<u32> = Vec::new();
            work.push(file);
            proof {
                lemma_push_contains(Seq::empty(), file);
            }
            while work.len() > 0
                invariant
                    p.wf(),
                    c < p.configs@.len(),
                    p.tus@.len() > 0,
                    p.tus@.last().file == file,
                    p.tus@.last().config == c,
                    forall|t: u32| #[trigger] work@.contains(t) ==> p.readable(t as int),
                    p.queued_closed(c as int, work@),
                    p.resolved@[c as int]@.contains_key(file) || work@.contains(file),
                    forall|k: int|
                        0 <= k < p.tus@.len() - 1 ==> p.resolved@[(#[trigger] p.tus@[k]).config as int]@.contains_key(
                            p.tus@[k].file,
                        ),
                    forall|cc: int| 0 <= cc < p.resolved@.len() && cc != c ==> p.queued_closed(cc, Seq::empty()),
                    p.tus@.len() + p.missing_sources@.len() == ci + 1,
                    present.len() == ci + 1,
                    p.tus@.len() == count_present(present, ci + 1),
                    commands_placed(p, commands@, present),
                    p.unresolved_from(seen@),
                    unresolved_complete(p, seen@),
                    forall|a: int, b: int|
                        0 <= a < p.configs@.len() && 0 <= b < p.configs@.len() && a != b ==> search_view(
                            #[trigger] p.configs@[a],
                        ) != search_view(#[trigger] p.configs@[b]),
                    forall|k: int| 0 <= k < p.tus@.len() ==> #[trigger] tu_from_command(p, commands@, k),
                    forall|k: int|
                        0 <= k < p.missing_sources@.len() ==> #[trigger] missing_from_command(p, commands@, k),
                    p.resolutions_sound(),
                    p.unresolved_sound(),
                decreases p.budget(c as int), work@.len(),
            {
                let ghost w0 = work@;
                let f = work.pop().unwrap();
                proof {
                    assert(w0 == work@.push(f));
                    lemma_push_contains(work@, f);
                    assert(w0.contains(f));
                }
                if p.resolved[c as usize].contains_key(&f) {
                    proof {
                        let m = p.resolved@[c as int]@;
                        assert forall|g: u32, j: int|
                            #[trigger] m.contains_key(g) && 0 <= j < m[g]@.len() implies (#[trigger] m[g]@[j] matches Some(
                            t,
                        ) ==> (m.contains_key(t) || work@.contains(t))) by {
                            if let Some(t) = m[g]@[j] {
                                if !m.contains_key(t) {
                                    assert(w0.contains(t));
                                }
                            }
                        }
                    }
                    continue;
                }
                let ghost pre = p;
                let ghost wp = work@;
                p.resolve_file(fs, c, f, &mut seen, &mut work);
                proof {
                    lemma_placed_kept(pre, p, commands@, present, false);
                    assert forall|t: u32| #[trigger] work@.contains(t) implies p.readable(t as int) by {
                        if wp.contains(t) {
                            assert(pre.readable(t as int));
                            assert(p.scanned@[t as int] == pre.scanned@[t as int]);
                        }
                    }
                    assert forall|k: int| 0 <= k < p.tus@.len() implies #[trigger] tu_from_command(
                        p,
                        commands@,
                        k,
                    ) by {
                        assert(tu_from_command(pre, commands@, k));
                        assert(p.paths@[p.tus@[k].file as int] == pre.paths@[pre.tus@[k].file as int]);
                    }
                    assert forall|k: int| 0 <= k < p.missing_sources@.len() implies #[trigger] missing_from_command(
                        p,
                        commands@,
                        k,
                    ) by {
                        assert(missing_from_command(pre, commands@, k));
                    }
                    assert forall|cc: int| 0 <= cc < p.resolved@.len() && cc != c implies p.queued_closed(
                        cc,
                        Seq::empty(),
                    ) by {
                        assert(pre.queued_closed(cc, Seq::empty()));
                        assert(p.resolved@[cc] == pre.resolved@[cc]);
                    }
                    assert forall|k: int|
                        0 <= k < p.tus@.len() - 1 implies p.resolved@[(#[trigger] p.tus@[k]).config as int]@.contains_key(
                            p.tus@[k].file,
                        ) by {
                        let cc = p.tus@[k].config as int;
                        if cc != c {
                            assert(p.resolved@[cc] == pre.resolved@[cc]);
                        }
                    }
                }
            }
            proof {
                assert forall|k: int|
                    0 <= k < p.tus@.len() implies p.resolved@[(#[trigger] p.tus@[k]).config as int]@.contains_key(
                        p.tus@[k].file,
                    ) by {
                    if k == p.tus@.len() - 1 {
                        assert(!work@.contains(file));
                    }
                }
                assert forall|cc: int, f: u32, j: int|
                    0 <= cc < p.resolved@.len() && #[trigger] p.resolved@[cc]@.contains_key(f) && 0 <= j
                        < p.resolved@[cc]@[f]@.len() implies (#[trigger] p.resolved@[cc]@[f]@[j] matches Some(
                    t,
                ) ==> p.resolved@[cc]@.contains_key(t)) by {
                    if let Some(t) = p.resolved@[cc]@[f]@[j] {
                        if cc == c {
                            assert(!work@.contains(t));
                        } else {
                            assert(p.queued_closed(cc, Seq::empty()));
                            assert(!Seq::<u32>::empty().contains(t));
                        }
                    }
                }
            }
            ci += 1;
        }
        p
    }

    /// The resolved include targets of `f` under `config`.
    pub(crate) fn targets(&self, config: u32, f: FileId) -> (r: &[Option<FileId>])
        requires
            config < self.resolved@.len(),
        ensures
            r@ == self.spec_targets(config as int, f as int),
    {
        match self.resolved[config as usize].get(&f) {
            Some(v) => v.as_slice(),
            None => {
                let e: &[Option<FileId>] = &[];
                proof {
                    assert(e@ =~= Seq::<Option<FileId>>::empty());
                }
                e
            },
        }
    }
}

} // verus!
