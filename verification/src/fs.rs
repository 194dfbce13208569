//! Source access and paths. Analysis goes through [`SourceProvider`] so the
//! tests can run on an in-memory tree with exactly the same code path as a
//! real checkout on disk.
//!
//! Paths are `/`-separated strings. [`normalize`] folds them lexically, the
//! way `Path::components` splits them: empty pieces and `.` vanish, `..`
//! removes the name before it, and `..` at the root stays at the root.

use crate::text::{chars_of, push_char, push_chars, string_of};
use vstd::prelude::*;
use vstd::pervasive::VecAdditionalExecFns;
use vstd::string::StrSliceExecFns;

verus! {

/// Where the analysis reads sources from.
pub trait SourceProvider {
    /// The contents of the file at `path`, or `None` when it cannot be read.
    fn read(&self, path: &str) -> Option<Vec<u8>>;

    /// Whether a regular file exists at `path`.
    fn is_file(&self, path: &str) -> bool;
}

// ---------------------------------------------------------------------------
// Path model.
// ---------------------------------------------------------------------------
pub open spec fn dot() -> Seq<char> {
    seq!['.']
}

pub open spec fn dotdot() -> Seq<char> {
    seq!['.', '.']
}

/// The pieces of `p` between slashes, empty ones included; there is always
/// at least one.
pub open spec fn pieces(p: Seq<char>) -> Seq<Seq<char>>
    decreases p.len(),
{
    if p.len() == 0 {
        seq![Seq::empty()]
    } else {
        let s = pieces(p.drop_last());
        if p.last() == '/' {
            s.push(Seq::empty())
        } else {
            s.update(s.len() - 1, s.last().push(p.last()))
        }
    }
}

pub proof fn lemma_pieces_nonempty(p: Seq<char>)
    ensures
        pieces(p).len() >= 1,
    decreases p.len(),
{
    if p.len() > 0 {
        lemma_pieces_nonempty(p.drop_last());
    }
}

/// A piece that names something: neither empty nor `.`.
pub open spec fn kept(piece: Seq<char>) -> bool {
    piece.len() > 0 && piece != dot()
}

/// The path starts at the root.
pub open spec fn rooted(p: Seq<char>) -> bool {
    p.len() > 0 && p[0] == '/'
}

/// Pushes one piece onto a normalized stack of names: `..` cancels a name
/// before it, is dropped at the root, and is kept otherwise.
pub open spec fn fold_piece(out: Seq<Seq<char>>, c: Seq<char>, at_root: bool) -> Seq<Seq<char>> {
    if !kept(c) {
        out
    } else if c == dotdot() {
        if out.len() > 0 && out.last() != dotdot() {
            out.drop_last()
        } else if at_root && out.len() == 0 {
            out
        } else {
            out.push(c)
        }
    } else {
        out.push(c)
    }
}

pub open spec fn fold_pieces(cs: Seq<Seq<char>>, at_root: bool) -> Seq<Seq<char>>
    decreases cs.len(),
{
    if cs.len() == 0 {
        Seq::empty()
    } else {
        fold_piece(fold_pieces(cs.drop_last(), at_root), cs.last(), at_root)
    }
}

/// Names joined by single slashes.
pub open spec fn join_names(cs: Seq<Seq<char>>) -> Seq<char>
    decreases cs.len(),
{
    if cs.len() == 0 {
        Seq::empty()
    } else if cs.len() == 1 {
        cs[0]
    } else {
        join_names(cs.drop_last()) + seq!['/'] + cs.last()
    }
}

/// A path made of the root (when `at_root`) and the names `cs`.
pub open spec fn render_raw(at_root: bool, cs: Seq<Seq<char>>) -> Seq<char> {
    if at_root {
        seq!['/'] + join_names(cs)
    } else {
        join_names(cs)
    }
}

/// Like [`render_raw`], but the empty path is written `.`.
pub open spec fn render(at_root: bool, cs: Seq<Seq<char>>) -> Seq<char> {
    let s = render_raw(at_root, cs);
    if s.len() == 0 {
        dot()
    } else {
        s
    }
}

/// Lexical normalization of `p`.
pub open spec fn normalize_spec(p: Seq<char>) -> Seq<char> {
    render(rooted(p), fold_pieces(pieces(p), rooted(p)))
}

/// `Path::join`: an absolute `rel` replaces `base`; otherwise `rel` follows
/// `base` after a separator, unless `base` is empty or already ends in one.
pub open spec fn join_spec(base: Seq<char>, rel: Seq<char>) -> Seq<char> {
    if rooted(rel) || base.len() == 0 {
        rel
    } else if base.last() == '/' {
        base + rel
    } else {
        base + seq!['/'] + rel
    }
}

/// The pieces of `p` that are components: every kept piece.
pub open spec fn components(ps: Seq<Seq<char>>) -> Seq<Seq<char>>
    decreases ps.len(),
{
    if ps.len() == 0 {
        Seq::empty()
    } else if kept(ps.last()) {
        components(ps.drop_last()).push(ps.last())
    } else {
        components(ps.drop_last())
    }
}

/// `Path::parent`, as a path with the same components: the path without its
/// last component, `None` when that component is the root or there is none.
pub open spec fn parent_spec(p: Seq<char>) -> Option<Seq<char>> {
    let cs = components(pieces(p));
    if cs.len() > 0 {
        Some(render_raw(rooted(p), cs.drop_last()))
    } else if !rooted(p) && pieces(p)[0] == dot() {
        Some(Seq::empty())
    } else {
        None
    }
}

pub open spec fn stack_view(out: Seq<Vec<char>>) -> Seq<Seq<char>> {
    out.map_values(|v: Vec<char>| v@)
}

// ---------------------------------------------------------------------------
// Path functions.
// ---------------------------------------------------------------------------
fn is_dot(seg: &Vec<char>) -> (r: bool)
    ensures
        r == (seg@ == dot()),
{
    let r = seg.len() == 1 && seg[0] == '.';
    proof {
        if r {
            assert(seg@ =~= dot());
        }
    }
    r
}

fn is_dotdot(seg: &Vec<char>) -> (r: bool)
    ensures
        r == (seg@ == dotdot()),
{
    let r = seg.len() == 2 && seg[0] == '.' && seg[1] == '.';
    proof {
        if r {
            assert(seg@ =~= dotdot());
        }
    }
    r
}

/// Pushes one piece onto the stack of names being normalized.
fn fold_into(out: &mut Vec<Vec<char>>, seg: Vec<char>, at_root: bool)
    ensures
        stack_view(final(out)@) == fold_piece(stack_view(old(out)@), seg@, at_root),
{
    let ghost before = stack_view(out@);
    if seg.len() == 0 || is_dot(&seg) {
        return ;
    }
    if is_dotdot(&seg) {
        let n = out.len();
        if n > 0 && !is_dotdot(&out[n - 1]) {
            out.pop();
            proof {
                assert(stack_view(out@) =~= before.drop_last());
            }
            return ;
        }
        if at_root && n == 0 {
            return ;
        }
    }
    out.push(seg);
    proof {
        assert(stack_view(out@) =~= before.push(seg@));
    }
}

/// Writes the root (when `at_root`) and the names of `out`, slash-separated.
fn render_stack(at_root: bool, out: &Vec<Vec<char>>) -> (s: String)
    ensures
        s@ == render_raw(at_root, stack_view(out@)),
{
    let ghost cs = stack_view(out@);
    let mut s = String::new();
    if at_root {
        push_char(&mut s, '/');
    }
    let ghost head = s@;
    let mut k: usize = 0;
    while k < out.len()
        invariant
            cs == stack_view(out@),
            k <= out@.len(),
            s@ == head + join_names(cs.take(k as int)),
            head == (if at_root {
                seq!['/']
            } else {
                Seq::<char>::empty()
            }),
        decreases out@.len() - k,
    {
        if k > 0 {
            push_char(&mut s, '/');
        }
        push_chars(&mut s, out[k].as_slice());
        proof {
            let t = cs.take(k as int + 1);
            assert(t.drop_last() =~= cs.take(k as int));
            assert(t.last() == out@[k as int]@);
            if k == 0 {
                assert(join_names(t) == t[0]);
                assert(cs.take(0) =~= Seq::<Seq<char>>::empty());
            }
            assert(s@ =~= head + join_names(t));
        }
        k += 1;
    }
    proof {
        assert(cs.take(out@.len() as int) =~= cs);
        if !at_root {
            assert(head + join_names(cs) =~= join_names(cs));
        }
    }
    s
}

/// Lexical normalization: removes `.` and folds `dir/..`.
///
/// Symlinks are deliberately not resolved, so the same header reached through
/// two spellings of one real path is only merged when the spellings normalize
/// to the same string. That keeps analysis independent of the machine layout.
pub fn normalize(path: &str) -> (r: String)
    ensures
        r@ == normalize_spec(path@),
{
    let cs = chars_of(path);
    let at_root = cs.len() > 0 && cs[0] == '/';
    let mut out: Vec<Vec<char>> = Vec::new();
    let mut seg: Vec<char> = Vec::new();
    let ghost mut done: Seq<Seq<char>> = Seq::empty();
    let mut i: usize = 0;
    proof {
        assert(cs@.take(0) =~= Seq::<char>::empty());
        assert(seq![Seq::<char>::empty()] =~= done.push(seg@));
    }
    while i < cs.len()
        invariant
            cs@ == path@,
            at_root == rooted(path@),
            i <= cs@.len(),
            pieces(cs@.take(i as int)) == done.push(seg@),
            stack_view(out@) == fold_pieces(done, at_root),
        decreases cs@.len() - i,
    {
        let c = cs[i];
        proof {
            let p = cs@.take(i as int + 1);
            assert(p.drop_last() =~= cs@.take(i as int));
            assert(p.last() == c);
        }
        if c == '/' {
            let finished = seg;
            seg = Vec::new();
            fold_into(&mut out, finished, at_root);
            proof {
                assert(done.push(finished@).drop_last() =~= done);
                done = done.push(finished@);
                assert(pieces(cs@.take(i as int + 1)) =~= done.push(seg@));
            }
        } else {
            let ghost old_seg = seg@;
            seg.push(c);
            proof {
                assert(pieces(cs@.take(i as int + 1)) =~= done.push(seg@));
            }
        }
        i += 1;
    }
    let ghost last = seg@;
    fold_into(&mut out, seg, at_root);
    proof {
        assert(cs@.take(cs@.len() as int) =~= cs@);
        assert(done.push(last).drop_last() =~= done);
    }
    let s = render_stack(at_root, &out);
    if s.unicode_len() == 0 {
        let d: [char; 1] = ['.'];
        proof {
            assert(d@ =~= dot());
        }
        string_of(&d)
    } else {
        s
    }
}

/// `base` joined with `rel`, as `Path::join` does it.
pub fn join(base: &str, rel: &str) -> (r: String)
    ensures
        r@ == join_spec(base@, rel@),
{
    let b = chars_of(base);
    let rc = chars_of(rel);
    if (rc.len() > 0 && rc[0] == '/') || b.len() == 0 {
        return string_of(rc.as_slice());
    }
    let mut s = string_of(b.as_slice());
    if b[b.len() - 1] != '/' {
        push_char(&mut s, '/');
    }
    push_chars(&mut s, rc.as_slice());
    s
}

/// The directory part of `path`: `Path::parent` up to the spelling of its
/// components, which is all that a later [`join`] and [`normalize`] read.
pub fn parent(path: &str) -> (r: Option<String>)
    ensures
        match r {
            Some(d) => parent_spec(path@) == Some(d@),
            None => parent_spec(path@) is None,
        },
{
    let cs = chars_of(path);
    let at_root = cs.len() > 0 && cs[0] == '/';
    let mut comps: Vec<Vec<char>> = Vec::new();
    let mut seg: Vec<char> = Vec::new();
    let mut first_is_dot = false;
    let mut first_done = false;
    let ghost mut done: Seq<Seq<char>> = Seq::empty();
    let mut i: usize = 0;
    proof {
        assert(cs@.take(0) =~= Seq::<char>::empty());
        assert(seq![Seq::<char>::empty()] =~= done.push(seg@));
    }
    while i < cs.len()
        invariant
            cs@ == path@,
            at_root == rooted(path@),
            i <= cs@.len(),
            pieces(cs@.take(i as int)) == done.push(seg@),
            stack_view(comps@) == components(done),
            first_done == (done.len() > 0),
            first_done ==> first_is_dot == (done[0] == dot()),
        decreases cs@.len() - i,
    {
        let c = cs[i];
        proof {
            let p = cs@.take(i as int + 1);
            assert(p.drop_last() =~= cs@.take(i as int));
            assert(p.last() == c);
        }
        if c == '/' {
            let finished = seg;
            seg = Vec::new();
            if !first_done {
                first_is_dot = is_dot(&finished);
                first_done = true;
            }
            let ghost fin = finished@;
            let ghost before = stack_view(comps@);
            if finished.len() > 0 && !is_dot(&finished) {
                comps.push(finished);
                proof {
                    assert(stack_view(comps@) =~= before.push(fin));
                }
            }
            proof {
                assert(done.push(fin).drop_last() =~= done);
                done = done.push(fin);
                assert(pieces(cs@.take(i as int + 1)) =~= done.push(seg@));
            }
        } else {
            seg.push(c);
            proof {
                assert(pieces(cs@.take(i as int + 1)) =~= done.push(seg@));
            }
        }
        i += 1;
    }
    proof {
        assert(cs@.take(cs@.len() as int) =~= cs@);
    }
    let ghost all = done.push(seg@);
    let lead_dot = if first_done {
        first_is_dot
    } else {
        is_dot(&seg)
    };
    assert(lead_dot == (all[0] == dot()));
    let ghost before = stack_view(comps@);
    let ghost fin = seg@;
    if seg.len() > 0 && !is_dot(&seg) {
        comps.push(seg);
        proof {
            assert(stack_view(comps@) =~= before.push(fin));
        }
    }
    proof {
        assert(all.drop_last() =~= done);
    }
    if comps.len() > 0 {
        let ghost full = stack_view(comps@);
        comps.pop();
        proof {
            assert(stack_view(comps@) =~= full.drop_last());
        }
        Some(render_stack(at_root, &comps))
    } else if !at_root && lead_dot {
        Some(String::new())
    } else {
        None
    }
}

// ---------------------------------------------------------------------------
// In-memory files.
// ---------------------------------------------------------------------------
/// An in-memory file tree keyed by normalized path.
#[derive(Debug)]
pub struct MemFs {
    files: Vec<(String, Vec<u8>)>,
}

/// Some entry of `files` has the key `k`.
pub open spec fn has_key(files: Seq<(String, Vec<u8>)>, k: Seq<char>) -> bool {
    exists|i: int| 0 <= i < files.len() && (#[trigger] files[i]).0@ == k
}

/// No two entries share a key.
pub open spec fn unique_keys(files: Seq<(String, Vec<u8>)>) -> bool {
    forall|i: int, j: int|
        0 <= i < files.len() && 0 <= j < files.len() && i != j ==> (#[trigger] files[i]).0@
            != (#[trigger] files[j]).0@
}

/// The contents stored under each key.
pub open spec fn files_map(files: Seq<(String, Vec<u8>)>) -> Map<Seq<char>, Seq<u8>> {
    Map::new(
        |k: Seq<char>| has_key(files, k),
        |k: Seq<char>| files[choose|i: int| 0 <= i < files.len() && (#[trigger] files[i]).0@ == k].1@,
    )
}

proof fn lemma_files_map_at(files: Seq<(String, Vec<u8>)>, i: int)
    requires
        unique_keys(files),
        0 <= i < files.len(),
    ensures
        files_map(files).dom().contains(files[i].0@),
        files_map(files)[files[i].0@] == files[i].1@,
{
    let k = files[i].0@;
    assert(has_key(files, k));
    let j = choose|j: int| 0 <= j < files.len() && (#[trigger] files[j]).0@ == k;
    assert(j == i);
}

impl View for MemFs {
    type V = Map<Seq<char>, Seq<u8>>;

    closed spec fn view(&self) -> Map<Seq<char>, Seq<u8>> {
        files_map(self.files@)
    }
}

impl MemFs {
    #[verifier::type_invariant]
    spec fn keys_unique(self) -> bool {
        unique_keys(self.files@)
    }

    /// An empty tree.
    pub fn new() -> (r: MemFs)
        ensures
            r@ == Map::<Seq<char>, Seq<u8>>::empty(),
    {
        let r = MemFs { files: Vec::new() };
        proof {
            assert(files_map(r.files@) =~= Map::<Seq<char>, Seq<u8>>::empty());
        }
        r
    }

    /// Index of the entry stored under `key`.
    fn position(&self, key: &String) -> (r: Option<usize>)
        ensures
            match r {
                Some(i) => i < self.files@.len() && self.files@[i as int].0@ == key@,
                None => !has_key(self.files@, key@),
            },
    {
        let mut i: usize = 0;
        while i < self.files.len()
            invariant
                i <= self.files@.len(),
                forall|j: int| 0 <= j < i ==> (#[trigger] self.files@[j]).0@ != key@,
            decreases self.files@.len() - i,
        {
            if self.files[i].0 == *key {
                return Some(i);
            }
            i += 1;
        }
        None
    }

    /// Stores `contents` under the normalized `path`, replacing what was there.
    pub fn insert(&mut self, path: &str, contents: &[u8])
        ensures
            final(self)@ == old(self)@.insert(normalize_spec(path@), contents@),
    {
        proof {
            use_type_invariant(&*self);
        }
        let key = normalize(path);
        let data = vstd::slice::slice_to_vec(contents);
        let ghost old_files = self.files@;
        let found = self.position(&key);
        let mut files: Vec<(String, Vec<u8>)> = Vec::new();
        std::mem::swap(&mut files, &mut self.files);
        match found {
            Some(i) => {
                let ghost entry = (key, data);
                files.set(i, (key, data));
                proof {
                    let nf = files@;
                    assert(nf == old_files.update(i as int, entry));
                    assert forall|a: int, b: int|
                        0 <= a < nf.len() && 0 <= b < nf.len() && a != b implies (#[trigger] nf[a]).0@
                        != (#[trigger] nf[b]).0@ by {
                        assert(nf[a].0@ == old_files[a].0@);
                        assert(nf[b].0@ == old_files[b].0@);
                    }
                    assert forall|k: Seq<char>| has_key(nf, k) == has_key(old_files, k) by {
                        if has_key(nf, k) {
                            let j = choose|j: int| 0 <= j < nf.len() && (#[trigger] nf[j]).0@ == k;
                            assert(old_files[j].0@ == k);
                        }
                        if has_key(old_files, k) {
                            let j = choose|j: int| 0 <= j < old_files.len() && (#[trigger] old_files[j]).0@ == k;
                            assert(nf[j].0@ == k);
                        }
                    }
                    assert forall|k: Seq<char>| has_key(nf, k) implies #[trigger] files_map(nf)[k]
                        == files_map(old_files).insert(key@, data@)[k] by {
                        let j = choose|j: int| 0 <= j < nf.len() && (#[trigger] nf[j]).0@ == k;
                        lemma_files_map_at(nf, j);
                        if j != i {
                            lemma_files_map_at(old_files, j);
                        }
                    }
                    assert(files_map(nf) =~= files_map(old_files).insert(key@, data@));
                }
            },
            None => {
                let ghost entry = (key, data);
                files.push((key, data));
                proof {
                    let nf = files@;
                    let n = old_files.len() as int;
                    assert(nf == old_files.push(entry));
                    assert forall|a: int, b: int|
                        0 <= a < nf.len() && 0 <= b < nf.len() && a != b implies (#[trigger] nf[a]).0@
                        != (#[trigger] nf[b]).0@ by {
                        if a == n {
                            assert(!has_key(old_files, key@));
                            assert(old_files[b].0@ != key@);
                        } else if b == n {
                            assert(old_files[a].0@ != key@);
                        }
                    }
                    assert forall|k: Seq<char>| has_key(nf, k) == (has_key(old_files, k) || k == key@) by {
                        if has_key(nf, k) {
                            let j = choose|j: int| 0 <= j < nf.len() && (#[trigger] nf[j]).0@ == k;
                            if j < n {
                                assert(old_files[j].0@ == k);
                            }
                        }
                        if has_key(old_files, k) {
                            let j = choose|j: int| 0 <= j < old_files.len() && (#[trigger] old_files[j]).0@ == k;
                            assert(nf[j].0@ == k);
                        }
                        if k == key@ {
                            assert(nf[n].0@ == k);
                        }
                    }
                    assert forall|k: Seq<char>| has_key(nf, k) implies #[trigger] files_map(nf)[k]
                        == files_map(old_files).insert(key@, data@)[k] by {
                        let j = choose|j: int| 0 <= j < nf.len() && (#[trigger] nf[j]).0@ == k;
                        lemma_files_map_at(nf, j);
                        if j != n {
                            lemma_files_map_at(old_files, j);
                        }
                    }
                    assert(files_map(nf) =~= files_map(old_files).insert(key@, data@));
                }
            },
        }
        self.files = files;
    }

    /// Deletes the file at the normalized `path`, if there is one.
    pub fn remove(&mut self, path: &str)
        ensures
            final(self)@ == old(self)@.remove(normalize_spec(path@)),
    {
        proof {
            use_type_invariant(&*self);
        }
        let key = normalize(path);
        let ghost old_files = self.files@;
        match self.position(&key) {
            Some(i) => {
                let mut files: Vec<(String, Vec<u8>)> = Vec::new();
                std::mem::swap(&mut files, &mut self.files);
                files.remove(i);
                proof {
                    let nf = files@;
                    assert(nf == old_files.remove(i as int));
                    assert forall|a: int| 0 <= a < nf.len() implies #[trigger] nf[a] == old_files[if a
                        < i {
                        a
                    } else {
                        a + 1
                    }] by {}
                    assert forall|a: int, b: int|
                        0 <= a < nf.len() && 0 <= b < nf.len() && a != b implies (#[trigger] nf[a]).0@
                        != (#[trigger] nf[b]).0@ by {
                        let oa = if a < i {
                            a
                        } else {
                            a + 1
                        };
                        let ob = if b < i {
                            b
                        } else {
                            b + 1
                        };
                        assert(nf[a] == old_files[oa]);
                        assert(nf[b] == old_files[ob]);
                    }
                    assert forall|k: Seq<char>| has_key(nf, k) == (has_key(old_files, k) && k != key@) by {
                        if has_key(nf, k) {
                            let j = choose|j: int| 0 <= j < nf.len() && (#[trigger] nf[j]).0@ == k;
                            let oj = if j < i {
                                j
                            } else {
                                j + 1
                            };
                            assert(nf[j] == old_files[oj]);
                            assert(old_files[oj].0@ == k);
                        }
                        if has_key(old_files, k) && k != key@ {
                            let j = choose|j: int| 0 <= j < old_files.len() && (#[trigger] old_files[j]).0@ == k;
                            assert(j != i);
                            let nj = if j < i {
                                j
                            } else {
                                j - 1
                            };
                            assert(nf[nj] == old_files[j]);
                            assert(nf[nj].0@ == k);
                        }
                    }
                    assert forall|k: Seq<char>| has_key(nf, k) implies #[trigger] files_map(nf)[k]
                        == files_map(old_files)[k] by {
                        let j = choose|j: int| 0 <= j < nf.len() && (#[trigger] nf[j]).0@ == k;
                        let oj = if j < i {
                            j
                        } else {
                            j + 1
                        };
                        assert(nf[j] == old_files[oj]);
                        lemma_files_map_at(nf, j);
                        lemma_files_map_at(old_files, oj);
                    }
                    assert(files_map(nf) =~= files_map(old_files).remove(key@));
                }
                self.files = files;
            },
            None => {
                proof {
                    assert(files_map(old_files) =~= files_map(old_files).remove(key@));
                }
            },
        }
    }

    /// Number of files.
    pub fn len(&self) -> (r: usize)
        ensures
            r == self@.len(),
    {
        proof {
            use_type_invariant(&*self);
            lemma_files_map_len(self.files@);
        }
        self.files.len()
    }

    /// No file is stored.
    pub fn is_empty(&self) -> (r: bool)
        ensures
            r == (self@.len() == 0),
    {
        self.len() == 0
    }

    /// The contents stored under the normalized `path`.
    pub fn get(&self, path: &str) -> (r: Option<Vec<u8>>)
        ensures
            match r {
                Some(v) => self@.dom().contains(normalize_spec(path@)) && v@ == self@[normalize_spec(
                    path@,
                )],
                None => !self@.dom().contains(normalize_spec(path@)),
            },
    {
        proof {
            use_type_invariant(&*self);
        }
        let key = normalize(path);
        match self.position(&key) {
            Some(i) => {
                proof {
                    lemma_files_map_at(self.files@, i as int);
                }
                Some(vstd::slice::slice_to_vec(self.files[i].1.as_slice()))
            },
            None => None,
        }
    }

    /// A file is stored under the normalized `path`.
    pub fn contains(&self, path: &str) -> (r: bool)
        ensures
            r == self@.dom().contains(normalize_spec(path@)),
    {
        let key = normalize(path);
        self.position(&key).is_some()
    }
}

/// Distinct keys make a map with one entry per file.
proof fn lemma_files_map_len(files: Seq<(String, Vec<u8>)>)
    requires
        unique_keys(files),
    ensures
        files_map(files).dom().finite(),
        files_map(files).len() == files.len(),
    decreases files.len(),
{
    let keys = Set::new(|k: Seq<char>| has_key(files, k));
    assert(files_map(files).dom() =~= keys);
    if files.len() == 0 {
        assert(keys =~= Set::<Seq<char>>::empty());
    } else {
        let rest = files.drop_last();
        assert(unique_keys(rest)) by {
            assert forall|i: int, j: int|
                0 <= i < rest.len() && 0 <= j < rest.len() && i != j implies (#[trigger] rest[i]).0@
                != (#[trigger] rest[j]).0@ by {
                assert(rest[i] == files[i]);
                assert(rest[j] == files[j]);
            }
        }
        lemma_files_map_len(rest);
        let last = files.last().0@;
        assert forall|k: Seq<char>| has_key(files, k) == (has_key(rest, k) || k == last) by {
            if has_key(files, k) {
                let j = choose|j: int| 0 <= j < files.len() && (#[trigger] files[j]).0@ == k;
                if j < files.len() - 1 {
                    assert(rest[j] == files[j]);
                }
            }
            if has_key(rest, k) {
                let j = choose|j: int| 0 <= j < rest.len() && (#[trigger] rest[j]).0@ == k;
                assert(files[j] == rest[j]);
            }
            if k == last {
                assert(files[files.len() - 1].0@ == k);
            }
        }
        assert(!has_key(rest, last)) by {
            if has_key(rest, last) {
                let j = choose|j: int| 0 <= j < rest.len() && (#[trigger] rest[j]).0@ == last;
                assert(files[j] == rest[j]);
                assert(files[j].0@ == files[files.len() - 1].0@);
            }
        }
        let rest_keys = files_map(rest).dom();
        assert(keys =~= rest_keys.insert(last));
    }
}

impl Default for MemFs {
    fn default() -> (r: MemFs)
        ensures
            r@ == Map::<Seq<char>, Seq<u8>>::empty(),
    {
        MemFs::new()
    }
}

impl SourceProvider for MemFs {
    fn read(&self, path: &str) -> (r: Option<Vec<u8>>)
        ensures
            match r {
                Some(v) => self@.dom().contains(normalize_spec(path@)) && v@ == self@[normalize_spec(
                    path@,
                )],
                None => !self@.dom().contains(normalize_spec(path@)),
            },
    {
        self.get(path)
    }

    fn is_file(&self, path: &str) -> (r: bool)
        ensures
            r == self@.dom().contains(normalize_spec(path@)),
    {
        self.contains(path)
    }
}

/// A lookup gives back what the last insert under a path with the same
/// normal form stored, and an insert under another normal form leaves a
/// lookup as it was.
pub proof fn lemma_lookup_after_insert(m: Map<Seq<char>, Seq<u8>>, written: Seq<char>, read: Seq<char>, c: Seq<u8>)
    ensures
        normalize_spec(written) == normalize_spec(read) ==> m.insert(normalize_spec(written), c).dom().contains(
            normalize_spec(read),
        ) && m.insert(normalize_spec(written), c)[normalize_spec(read)] == c,
        normalize_spec(written) != normalize_spec(read) ==> (m.insert(normalize_spec(written), c).dom().contains(
            normalize_spec(read),
        ) == m.dom().contains(normalize_spec(read)) && m.insert(normalize_spec(written), c)[normalize_spec(read)]
            == m[normalize_spec(read)]),
{
}

/// After a removal nothing with the same normal form can be found.
pub proof fn lemma_lookup_after_remove(m: Map<Seq<char>, Seq<u8>>, removed: Seq<char>, read: Seq<char>)
    ensures
        normalize_spec(removed) == normalize_spec(read) ==> !m.remove(normalize_spec(removed)).dom().contains(
            normalize_spec(read),
        ),
{
}

} // verus!
