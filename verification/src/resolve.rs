//! Include resolution following GCC/Clang search order.

use crate::compdb::{strings_view, SearchPaths};
use crate::fs::{join, join_spec, normalize, normalize_spec, parent, parent_spec, rooted, SourceProvider};
use crate::text::chars_of;
use vstd::prelude::*;

verus! {

/// The directories searched for an include, in order: the includer's
/// directory (quoted only), `-iquote` (quoted only), `-I`, `-isystem`,
/// `-idirafter`.
pub open spec fn candidates_spec(includer: Seq<char>, angled: bool, search: SearchPaths) -> Seq<Seq<char>> {
    let local = if !angled && parent_spec(includer) is Some {
        seq![parent_spec(includer)->0]
    } else {
        Seq::empty()
    };
    let quote = if angled {
        Seq::empty()
    } else {
        strings_view(search.iquote@)
    };
    local + quote + strings_view(search.include_dirs@) + strings_view(search.system@) + strings_view(
        search.after@,
    )
}

/// The path an include spelling names inside directory `dir`.
pub open spec fn candidate_path(dir: Seq<char>, spelling: Seq<char>) -> Seq<char> {
    normalize_spec(join_spec(dir, spelling))
}

fn append_all(out: &mut Vec<String>, dirs: &Vec<String>)
    ensures
        strings_view(final(out)@) == strings_view(old(out)@) + strings_view(dirs@),
{
    let mut k: usize = 0;
    while k < dirs.len()
        invariant
            k <= dirs@.len(),
            strings_view(out@) == strings_view(old(out)@) + strings_view(dirs@.take(k as int)),
        decreases dirs@.len() - k,
    {
        let ghost before = out@;
        out.push(dirs[k].clone());
        proof {
            assert(strings_view(out@) =~= strings_view(before).push(dirs@[k as int]@));
            assert(strings_view(dirs@.take(k as int + 1)) =~= strings_view(dirs@.take(k as int)).push(
                dirs@[k as int]@,
            ));
        }
        k += 1;
    }
    proof {
        assert(dirs@.take(dirs@.len() as int) =~= dirs@);
    }
}

/// The directories an include is looked up in, in search order.
pub fn candidates(includer: &str, angled: bool, search: &SearchPaths) -> (r: Vec<String>)
    ensures
        strings_view(r@) == candidates_spec(includer@, angled, *search),
{
    let mut out: Vec<String> = Vec::new();
    if !angled {
        match parent(includer) {
            Some(d) => out.push(d),
            None => {},
        }
        append_all(&mut out, &search.iquote);
    }
    proof {
        let local = if !angled && parent_spec(includer@) is Some {
            seq![parent_spec(includer@)->0]
        } else {
            Seq::empty()
        };
        let quote = if angled {
            Seq::empty()
        } else {
            strings_view(search.iquote@)
        };
        if angled {
            assert(strings_view(out@) =~= local + quote);
        } else {
            assert(strings_view(out@) =~= local + quote);
        }
    }
    append_all(&mut out, &search.include_dirs);
    append_all(&mut out, &search.system);
    append_all(&mut out, &search.after);
    out
}

/// The paths an include is looked for at, in search order: the normalized
/// spelling itself when it is absolute, else the spelling inside each
/// candidate directory.
pub open spec fn resolve_candidates(includer: Seq<char>, spelling: Seq<char>, angled: bool, search: SearchPaths) -> Seq<
    Seq<char>,
> {
    if rooted(spelling) {
        seq![normalize_spec(spelling)]
    } else {
        let cs = candidates_spec(includer, angled, search);
        Seq::new(cs.len(), |i: int| candidate_path(cs[i], spelling))
    }
}

/// The paths that `resolve` asks about, in the order it asks.
pub fn candidate_paths(includer: &str, spelling: &str, angled: bool, search: &SearchPaths) -> (r: Vec<String>)
    ensures
        strings_view(r@) == resolve_candidates(includer@, spelling@, angled, *search),
{
    let sc = chars_of(spelling);
    let mut out: Vec<String> = Vec::new();
    if sc.len() > 0 && sc[0] == '/' {
        out.push(normalize(spelling));
        proof {
            assert(strings_view(out@) =~= resolve_candidates(includer@, spelling@, angled, *search));
        }
        return out;
    }
    let dirs = candidates(includer, angled, search);
    let ghost cs = candidates_spec(includer@, angled, *search);
    let mut k: usize = 0;
    while k < dirs.len()
        invariant
            strings_view(dirs@) == cs,
            k <= dirs@.len(),
            strings_view(out@) == Seq::new(k as nat, |i: int| candidate_path(cs[i], spelling@)),
        decreases dirs@.len() - k,
    {
        let ghost before = out@;
        let p = normalize(&join(dirs[k].as_str(), spelling));
        assert(dirs@[k as int]@ == cs[k as int]);
        let ghost pv = p@;
        out.push(p);
        proof {
            assert(pv == candidate_path(cs[k as int], spelling@));
            assert(strings_view(out@) =~= strings_view(before).push(pv));
            assert(strings_view(out@) =~= Seq::new((k + 1) as nat, |i: int| candidate_path(cs[i], spelling@)));
        }
        k += 1;
    }
    proof {
        assert(strings_view(out@) =~= resolve_candidates(includer@, spelling@, angled, *search));
    }
    out
}

/// The first of `paths` whose answer in `found` is yes, or none when every
/// answer is no.
pub fn first_found(paths: &Vec<String>, found: &Vec<bool>) -> (r: Option<String>)
    requires
        found@.len() <= paths@.len(),
    ensures
        match r {
            Some(p) => exists|i: int|
                0 <= i < found@.len() && #[trigger] found@[i] && (forall|j: int| 0 <= j < i ==> !found@[j]) && p@
                    == paths@[i]@,
            None => forall|i: int| 0 <= i < found@.len() ==> !#[trigger] found@[i],
        },
{
    let mut k: usize = 0;
    while k < found.len()
        invariant
            k <= found@.len(),
            found@.len() <= paths@.len(),
            forall|j: int| 0 <= j < k ==> !#[trigger] found@[j],
        decreases found@.len() - k,
    {
        if found[k] {
            return Some(paths[k].clone());
        }
        k += 1;
    }
    None
}

/// `r` is what a search of `paths` gives when the provider answered `found`,
/// in order: it was asked about each path until it said yes, and the path it
/// said yes to comes back; none only when it said no to every path.
pub open spec fn searched(paths: Seq<Seq<char>>, found: Seq<bool>, r: Option<String>) -> bool {
    &&& found.len() <= paths.len()
    &&& forall|j: int| 0 <= j < found.len() - 1 ==> !#[trigger] found[j]
    &&& match r {
        Some(p) => found.len() > 0 && found.last() && p@ == paths[found.len() - 1],
        None => found.len() == paths.len() && forall|j: int| 0 <= j < found.len() ==> !#[trigger] found[j],
    }
}

/// Resolves one `#include` spelling.
///
/// Quoted includes search the including file's directory, then `-iquote`,
/// `-I`, `-isystem` and `-idirafter` directories. Angled includes skip the
/// first two. Built-in compiler system directories are not searched: they are
/// unknown without running the compiler, so such headers come back unresolved.
///
/// The provider is asked about the paths of `candidate_paths` in order until
/// it reports one as a file, and `first_found` picks the answer from what it
/// said. What it says is its own: the contract gives the result for every
/// sequence of answers it can give.
pub fn resolve<F: SourceProvider>(
    fs: &F,
    includer: &str,
    spelling: &str,
    angled: bool,
    search: &SearchPaths,
) -> (r: Option<String>)
    ensures
        rooted(spelling@) ==> (r matches Some(p) ==> p@ == normalize_spec(spelling@)),
        !rooted(spelling@) ==> (r matches Some(p) ==> exists|i: int|
            0 <= i < candidates_spec(includer@, angled, *search).len() && p@ == candidate_path(
                #[trigger] candidates_spec(includer@, angled, *search)[i],
                spelling@,
            )),
        resolve_candidates(includer@, spelling@, angled, *search).len() == 0 ==> r is None,
        exists|found: Seq<bool>| searched(resolve_candidates(includer@, spelling@, angled, *search), found, r),
{
    let paths = candidate_paths(includer, spelling, angled, search);
    let ghost rc = resolve_candidates(includer@, spelling@, angled, *search);
    let mut found: Vec<bool> = Vec::new();
    let mut hit = false;
    let mut k: usize = 0;
    while k < paths.len() && !hit
        invariant
            k <= paths@.len(),
            found@.len() == k,
            forall|j: int| 0 <= j < k - 1 ==> !#[trigger] found@[j],
            hit == (k > 0 && found@[k - 1]),
        decreases paths@.len() - k,
    {
        hit = fs.is_file(paths[k].as_str());
        found.push(hit);
        k += 1;
    }
    proof {
        assert(strings_view(paths@).len() == paths@.len());
    }
    let r = first_found(&paths, &found);
    proof {
        assert(strings_view(paths@) == rc);
        if r is Some {
            let p = r->0;
            let i = choose|i: int|
                0 <= i < found@.len() && #[trigger] found@[i] && (forall|j: int| 0 <= j < i ==> !found@[j]) && p@
                    == paths@[i]@;
            assert(i == found@.len() - 1);
            assert(strings_view(paths@)[i] == paths@[i]@);
        } else {
            assert(!hit);
        }
        assert(searched(rc, found@, r));
        if r is Some {
            let p = r->0;
            let i = choose|i: int|
                0 <= i < found@.len() && #[trigger] found@[i] && (forall|j: int| 0 <= j < i ==> !found@[j]) && p@
                    == paths@[i]@;
            assert(strings_view(paths@).len() == paths@.len());
            assert(strings_view(paths@)[i] == paths@[i]@);
            assert(p@ == rc[i]);
            if !rooted(spelling@) {
                let cs = candidates_spec(includer@, angled, *search);
                assert(rc[i] == candidate_path(cs[i], spelling@));
                assert(0 <= i < cs.len() && p@ == candidate_path(cs[i], spelling@));
            } else {
                assert(rc.len() == 1);
            }
        }
    }
    r
}

} // verus!
