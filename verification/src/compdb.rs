//! Compile commands: shell word splitting of `command` strings and header
//! search paths from compiler arguments.

use crate::fs::{join, join_spec, normalize, normalize_spec};
use crate::json::{
    document_spec, error_text, fields_of, json_of, jsons_of, object_fields, parse, Fault, Json, Value,
};
use crate::text::{chars_of, decimal, push_char, push_decimal, push_str, string_of};
use vstd::prelude::*;

verus! {

/// Header search directories of one compile command, in command-line order
/// within each class.
#[derive(Clone, Debug, Default, PartialEq, Eq, Hash)]
pub struct SearchPaths {
    pub iquote: Vec<String>,
    pub include_dirs: Vec<String>,
    pub system: Vec<String>,
    pub after: Vec<String>,
}

#[derive(Clone, Debug, PartialEq, Eq)]
pub struct CompileCommand {
    pub directory: String,
    pub file: String,
    pub search: SearchPaths,
}

pub open spec fn strings_view(v: Seq<String>) -> Seq<Seq<char>> {
    v.map_values(|s: String| s@)
}

/// The four classes of directories: `-iquote`, `-I`, `-isystem`, `-idirafter`.
pub open spec fn search_view(sp: SearchPaths) -> Seq<Seq<Seq<char>>> {
    seq![
        strings_view(sp.iquote@),
        strings_view(sp.include_dirs@),
        strings_view(sp.system@),
        strings_view(sp.after@),
    ]
}

// ---------------------------------------------------------------------------
// Word splitting.
// ---------------------------------------------------------------------------
/// `char::is_whitespace`: the Unicode `White_Space` property.
pub open spec fn is_space(c: char) -> bool {
    ||| '\u{9}' <= c <= '\u{d}'
    ||| c == ' '
    ||| c == '\u{85}'
    ||| c == '\u{a0}'
    ||| c == '\u{1680}'
    ||| '\u{2000}' <= c <= '\u{200a}'
    ||| c == '\u{2028}'
    ||| c == '\u{2029}'
    ||| c == '\u{202f}'
    ||| c == '\u{205f}'
    ||| c == '\u{3000}'
}

/// `char::is_whitespace`.
pub fn is_whitespace(c: char) -> (r: bool)
    ensures
        r == is_space(c),
{
    ('\u{9}' <= c && c <= '\u{d}') || c == ' ' || c == '\u{85}' || c == '\u{a0}' || c == '\u{1680}'
        || ('\u{2000}' <= c && c <= '\u{200a}') || c == '\u{2028}' || c == '\u{2029}' || c
        == '\u{202f}' || c == '\u{205f}' || c == '\u{3000}'
}

/// Where the word splitter stands.
#[derive(Clone, Copy, PartialEq, Eq, Structural)]
pub enum Quote {
    /// Outside quotes.
    Bare,
    /// After a backslash outside quotes: the next character is literal.
    Escaped,
    /// Inside `'...'`.
    Single,
    /// Inside `"..."`.
    Double,
    /// After a backslash inside `"..."`.
    DoubleEscaped,
}

/// The splitter's state: finished words, the word being built, whether a
/// word has started, and the quoting mode.
#[verifier::ext_equal]
pub struct SplitState {
    pub words: Seq<Seq<char>>,
    pub cur: Seq<char>,
    pub in_word: bool,
    pub mode: Quote,
}

/// Inside `"..."`, a backslash escapes only `"`, `\`, `$` and backquote.
pub open spec fn escapable(c: char) -> bool {
    c == '"' || c == '\\' || c == '$' || c == '`'
}

/// One character inside double quotes.
pub open spec fn double_step(st: SplitState, c: char) -> SplitState {
    if c == '"' {
        SplitState { mode: Quote::Bare, ..st }
    } else if c == '\\' {
        SplitState { mode: Quote::DoubleEscaped, ..st }
    } else {
        SplitState { cur: st.cur.push(c), ..st }
    }
}

/// One character of POSIX-shell word splitting.
pub open spec fn split_step(st: SplitState, c: char) -> SplitState {
    match st.mode {
        Quote::Bare => if is_space(c) {
            if st.in_word {
                SplitState { words: st.words.push(st.cur), cur: Seq::empty(), in_word: false, ..st }
            } else {
                st
            }
        } else if c == '\'' {
            SplitState { in_word: true, mode: Quote::Single, ..st }
        } else if c == '"' {
            SplitState { in_word: true, mode: Quote::Double, ..st }
        } else if c == '\\' {
            SplitState { in_word: true, mode: Quote::Escaped, ..st }
        } else {
            SplitState { in_word: true, cur: st.cur.push(c), ..st }
        },
        Quote::Escaped => SplitState { cur: st.cur.push(c), mode: Quote::Bare, ..st },
        Quote::Single => if c == '\'' {
            SplitState { mode: Quote::Bare, ..st }
        } else {
            SplitState { cur: st.cur.push(c), ..st }
        },
        Quote::Double => double_step(st, c),
        Quote::DoubleEscaped => if escapable(c) {
            SplitState { cur: st.cur.push(c), mode: Quote::Double, ..st }
        } else {
            double_step(SplitState { cur: st.cur.push('\\'), mode: Quote::Double, ..st }, c)
        },
    }
}

pub open spec fn split_fold(cs: Seq<char>) -> SplitState
    decreases cs.len(),
{
    if cs.len() == 0 {
        SplitState { words: Seq::empty(), cur: Seq::empty(), in_word: false, mode: Quote::Bare }
    } else {
        split_step(split_fold(cs.drop_last()), cs.last())
    }
}

/// The words of `command`: a dangling backslash inside double quotes is kept,
/// and the last word counts once anything started it.
pub open spec fn split_spec(cs: Seq<char>) -> Seq<Seq<char>> {
    let st = split_fold(cs);
    let cur = if st.mode == Quote::DoubleEscaped {
        st.cur.push('\\')
    } else {
        st.cur
    };
    if st.in_word {
        st.words.push(cur)
    } else {
        st.words
    }
}

/// No double quote and no backslash: text that double quotes keep as it is.
pub open spec fn plain_in_quotes(a: Seq<char>) -> bool {
    forall|k: int| 0 <= k < a.len() ==> #[trigger] a[k] != '"' && a[k] != '\\'
}

proof fn lemma_quoted_run(p: Seq<char>, a: Seq<char>)
    requires
        split_fold(p).mode == Quote::Double,
        plain_in_quotes(a),
    ensures
        split_fold(p + a) == (SplitState { cur: split_fold(p).cur + a, ..split_fold(p) }),
    decreases a.len(),
{
    if a.len() == 0 {
        assert(p + a =~= p);
        assert(split_fold(p).cur + a =~= split_fold(p).cur);
    } else {
        let d = a.drop_last();
        assert((p + a).drop_last() =~= p + d);
        assert((p + a).last() == a.last());
        assert(a.last() == a[a.len() - 1]);
        lemma_quoted_run(p, d);
        assert(split_fold(p).cur + d + seq![a.last()] =~= split_fold(p).cur + a);
    }
}

/// Inside double quotes a backslash before `"`, `\`, `$` or a backquote
/// stands for that character alone: `"a\cb"` is the single word `acb`,
/// whatever the plain texts `a` and `b` are.
pub proof fn lemma_double_quote_escape(a: Seq<char>, b: Seq<char>, c: char)
    requires
        plain_in_quotes(a),
        plain_in_quotes(b),
        c == '"' || c == '\\' || c == '$' || c == '`',
    ensures
        split_spec(seq!['"'] + a + seq!['\\', c] + b + seq!['"']) == seq![a + seq![c] + b],
{
    let q = seq!['"'];
    assert(q.drop_last() =~= Seq::<char>::empty());
    assert(q.last() == '"');
    assert(!is_space('"'));
    let e = split_fold(Seq::<char>::empty());
    assert(e.mode == Quote::Bare && !e.in_word && e.cur.len() == 0 && e.words.len() == 0);
    assert(split_fold(q.drop_last()) == e);
    let s0 = split_fold(q);
    assert(s0 == split_step(e, '"'));
    assert(s0.mode == Quote::Double && s0.cur =~= Seq::<char>::empty() && s0.in_word && s0.words =~= Seq::<Seq<char>>::empty());
    lemma_quoted_run(q, a);
    let p1 = q + a + seq!['\\'];
    assert(p1.drop_last() =~= q + a);
    assert(p1.last() == '\\');
    assert(split_fold(p1).mode == Quote::DoubleEscaped);
    let p2 = p1 + seq![c];
    assert(p2.drop_last() =~= p1);
    assert(p2.last() == c);
    assert(split_fold(p2).cur =~= Seq::<char>::empty() + a + seq![c]);
    assert(split_fold(p2).mode == Quote::Double);
    lemma_quoted_run(p2, b);
    let p3 = p2 + b;
    let all = p3 + seq!['"'];
    assert(all.drop_last() =~= p3);
    assert(all.last() == '"');
    assert(seq!['"'] + a + seq!['\\', c] + b + seq!['"'] =~= all);
    assert(split_fold(all).cur =~= a + seq![c] + b);
    assert(split_fold(all).mode == Quote::Bare);
}

/// Inside double quotes a backslash before any other character is kept,
/// together with that character: `"a\cb"` is the single word `a\cb`.
pub proof fn lemma_double_quote_backslash_kept(a: Seq<char>, b: Seq<char>, c: char)
    requires
        plain_in_quotes(a),
        plain_in_quotes(b),
        c != '"' && c != '\\' && c != '$' && c != '`',
    ensures
        split_spec(seq!['"'] + a + seq!['\\', c] + b + seq!['"']) == seq![a + seq!['\\', c] + b],
{
    let q = seq!['"'];
    assert(q.drop_last() =~= Seq::<char>::empty());
    assert(q.last() == '"');
    assert(!is_space('"'));
    let e = split_fold(Seq::<char>::empty());
    assert(split_fold(q.drop_last()) == e);
    let s0 = split_fold(q);
    assert(s0 == split_step(e, '"'));
    assert(s0.mode == Quote::Double && s0.cur =~= Seq::<char>::empty() && s0.in_word && s0.words =~= Seq::<Seq<char>>::empty());
    lemma_quoted_run(q, a);
    let p1 = q + a + seq!['\\'];
    assert(p1.drop_last() =~= q + a);
    assert(p1.last() == '\\');
    assert(split_fold(p1).mode == Quote::DoubleEscaped);
    let p2 = p1 + seq![c];
    assert(p2.drop_last() =~= p1);
    assert(p2.last() == c);
    assert(split_fold(p2).cur =~= Seq::<char>::empty() + a + seq!['\\', c]);
    assert(split_fold(p2).mode == Quote::Double);
    lemma_quoted_run(p2, b);
    let p3 = p2 + b;
    let all = p3 + seq!['"'];
    assert(all.drop_last() =~= p3);
    assert(all.last() == '"');
    assert(seq!['"'] + a + seq!['\\', c] + b + seq!['"'] =~= all);
    assert(split_fold(all).cur =~= a + seq!['\\', c] + b);
    assert(split_fold(all).mode == Quote::Bare);
}

/// Letters, digits and the punctuation of plain words: nothing that quotes,
/// escapes or separates.
pub open spec fn bare_word(a: Seq<char>) -> bool {
    forall|k: int|
        0 <= k < a.len() ==> !is_space(#[trigger] a[k]) && a[k] != '"' && a[k] != '\'' && a[k] != '\\'
}

proof fn lemma_bare_run(p: Seq<char>, a: Seq<char>)
    requires
        split_fold(p).mode == Quote::Bare,
        split_fold(p).in_word || a.len() > 0,
        bare_word(a),
    ensures
        split_fold(p + a) == (SplitState { cur: split_fold(p).cur + a, in_word: true, ..split_fold(p) }),
    decreases a.len(),
{
    if a.len() == 0 {
        assert(p + a =~= p);
        assert(split_fold(p).cur + a =~= split_fold(p).cur);
    } else {
        let d = a.drop_last();
        assert((p + a).drop_last() =~= p + d);
        assert((p + a).last() == a.last());
        assert(a.last() == a[a.len() - 1]);
        if d.len() > 0 || split_fold(p).in_word {
            lemma_bare_run(p, d);
        } else {
            assert(p + d =~= p);
        }
        assert(split_fold(p).cur + d + seq![a.last()] =~= split_fold(p).cur + a);
    }
}

/// Plain words separated by a space are split there: `a b` is the two
/// words `a` and `b`.
pub proof fn lemma_words_split_at_space(a: Seq<char>, b: Seq<char>)
    requires
        bare_word(a),
        bare_word(b),
        a.len() > 0,
        b.len() > 0,
    ensures
        split_spec(a + seq![' '] + b) == seq![a, b],
{
    let e = Seq::<char>::empty();
    assert(split_fold(e).mode == Quote::Bare && split_fold(e).cur.len() == 0 && split_fold(e).words.len() == 0);
    lemma_bare_run(e, a);
    assert(e + a =~= a);
    let p1 = a + seq![' '];
    assert(p1.drop_last() =~= a);
    assert(p1.last() == ' ');
    assert(is_space(' '));
    assert(split_fold(p1).words =~= seq![Seq::<char>::empty() + a]);
    assert(Seq::<char>::empty() + a =~= a);
    assert(!split_fold(p1).in_word && split_fold(p1).cur =~= Seq::<char>::empty());
    lemma_bare_run(p1, b);
    assert(split_fold(p1 + b).cur =~= b);
}

/// Single quotes keep everything up to the next single quote as it is:
/// `'a'` is the single word `a`.
pub proof fn lemma_single_quotes(a: Seq<char>)
    requires
        forall|k: int| 0 <= k < a.len() ==> #[trigger] a[k] != '\'',
    ensures
        split_spec(seq!['\''] + a + seq!['\'']) == seq![a],
    decreases a.len(),
{
    lemma_single_run(a);
    let all = seq!['\''] + a + seq!['\''];
    assert(all.drop_last() =~= seq!['\''] + a);
    assert(all.last() == '\'');
}

proof fn lemma_single_run(a: Seq<char>)
    requires
        forall|k: int| 0 <= k < a.len() ==> #[trigger] a[k] != '\'',
    ensures
        split_fold(seq!['\''] + a) == (SplitState {
            words: Seq::empty(),
            cur: a,
            in_word: true,
            mode: Quote::Single,
        }),
    decreases a.len(),
{
    if a.len() == 0 {
        let q = seq!['\''];
        assert(q + a =~= q);
        assert(q.drop_last() =~= Seq::<char>::empty());
        assert(q.last() == '\'');
        assert(!is_space('\''));
        let e = split_fold(Seq::<char>::empty());
        assert(split_fold(q.drop_last()) == e);
        assert(split_fold(q) == split_step(e, '\''));
        assert(split_fold(q).cur =~= a);
        assert(split_fold(q).words =~= Seq::<Seq<char>>::empty());
    } else {
        let d = a.drop_last();
        lemma_single_run(d);
        assert((seq!['\''] + a).drop_last() =~= seq!['\''] + d);
        assert((seq!['\''] + a).last() == a.last());
        assert(a.last() == a[a.len() - 1]);
        assert(d.push(a.last()) =~= a);
    }
}

/// POSIX-shell-style word splitting, which is how `command` strings are
/// specified to be interpreted.
pub fn split_command(command: &str) -> (words: Vec<String>)
    ensures
        strings_view(words@) == split_spec(command@),
{
    let cs = chars_of(command);
    let mut words: Vec<String> = Vec::new();
    let mut cur: Vec<char> = Vec::new();
    let mut in_word = false;
    let mut mode = Quote::Bare;
    let mut i: usize = 0;
    proof {
        assert(cs@.take(0) =~= Seq::<char>::empty());
        assert(split_fold(cs@.take(0)) =~= (SplitState {
            words: strings_view(words@),
            cur: cur@,
            in_word,
            mode,
        }));
    }
    while i < cs.len()
        invariant
            cs@ == command@,
            i <= cs@.len(),
            split_fold(cs@.take(i as int)) == (SplitState {
                words: strings_view(words@),
                cur: cur@,
                in_word,
                mode,
            }),
        decreases cs@.len() - i,
    {
        let c = cs[i];
        let ghost before = SplitState { words: strings_view(words@), cur: cur@, in_word, mode };
        proof {
            let p = cs@.take(i as int + 1);
            assert(p.drop_last() =~= cs@.take(i as int));
            assert(p.last() == c);
        }
        match mode {
            Quote::Bare => {
                if is_whitespace(c) {
                    if in_word {
                        let w = string_of(cur.as_slice());
                        let ghost ws = words@;
                        words.push(w);
                        proof {
                            assert(strings_view(words@) =~= strings_view(ws).push(cur@));
                        }
                        cur = Vec::new();
                        in_word = false;
                    }
                } else if c == '\'' {
                    in_word = true;
                    mode = Quote::Single;
                } else if c == '"' {
                    in_word = true;
                    mode = Quote::Double;
                } else if c == '\\' {
                    in_word = true;
                    mode = Quote::Escaped;
                } else {
                    in_word = true;
                    cur.push(c);
                }
            },
            Quote::Escaped => {
                cur.push(c);
                mode = Quote::Bare;
            },
            Quote::Single => {
                if c == '\'' {
                    mode = Quote::Bare;
                } else {
                    cur.push(c);
                }
            },
            Quote::Double => {
                if c == '"' {
                    mode = Quote::Bare;
                } else if c == '\\' {
                    mode = Quote::DoubleEscaped;
                } else {
                    cur.push(c);
                }
            },
            Quote::DoubleEscaped => {
                if c == '"' || c == '\\' || c == '$' || c == '`' {
                    cur.push(c);
                    mode = Quote::Double;
                } else {
                    cur.push('\\');
                    if c == '"' {
                        mode = Quote::Bare;
                    } else if c == '\\' {
                        mode = Quote::DoubleEscaped;
                    } else {
                        cur.push(c);
                        mode = Quote::Double;
                    }
                }
            },
        }
        proof {
            assert(split_step(before, c) =~= (SplitState {
                words: strings_view(words@),
                cur: cur@,
                in_word,
                mode,
            }));
        }
        i += 1;
    }
    proof {
        assert(cs@.take(cs@.len() as int) =~= cs@);
    }
    if mode == Quote::DoubleEscaped {
        cur.push('\\');
    }
    if in_word {
        let w = string_of(cur.as_slice());
        let ghost ws = words@;
        words.push(w);
        proof {
            assert(strings_view(words@) =~= strings_view(ws).push(cur@));
        }
    }
    words
}

// ---------------------------------------------------------------------------
// Search paths.
// ---------------------------------------------------------------------------
pub open spec fn flag_iquote() -> Seq<char> {
    seq!['-', 'i', 'q', 'u', 'o', 't', 'e']
}

pub open spec fn flag_isystem() -> Seq<char> {
    seq!['-', 'i', 's', 'y', 's', 't', 'e', 'm']
}

pub open spec fn flag_idirafter() -> Seq<char> {
    seq!['-', 'i', 'd', 'i', 'r', 'a', 'f', 't', 'e', 'r']
}

pub open spec fn flag_i() -> Seq<char> {
    seq!['-', 'I']
}

pub open spec fn has_prefix(s: Seq<char>, p: Seq<char>) -> bool {
    p.len() <= s.len() && s.take(p.len() as int) == p
}

/// The class a search flag names (0 `-iquote`, 1 `-I`, 2 `-isystem`,
/// 3 `-idirafter`, tried in that order of spelling: `-iquote`, `-isystem`,
/// `-idirafter`, `-I`) and what follows the flag in the same argument.
pub open spec fn flag_split(arg: Seq<char>) -> Option<(int, Seq<char>)> {
    if has_prefix(arg, flag_iquote()) {
        Some((0, arg.skip(7)))
    } else if has_prefix(arg, flag_isystem()) {
        Some((2, arg.skip(8)))
    } else if has_prefix(arg, flag_idirafter()) {
        Some((3, arg.skip(10)))
    } else if has_prefix(arg, flag_i()) {
        Some((1, arg.skip(2)))
    } else {
        None
    }
}

/// A directory added to one class.
pub open spec fn add_dir(acc: Seq<Seq<Seq<char>>>, class: int, d: Seq<char>) -> Seq<Seq<Seq<char>>> {
    acc.update(class, acc[class].push(d))
}

/// The directory a flag value names, relative to the command's directory.
pub open spec fn flag_dir(directory: Seq<char>, value: Seq<char>) -> Seq<char> {
    normalize_spec(join_spec(directory, value))
}

/// Search directories gathered from `args[i..]` onto `acc`: a flag takes the
/// rest of its argument, or the next argument when the rest is empty; a
/// flag with nothing after it ends the scan.
pub open spec fn args_fold(
    args: Seq<Seq<char>>,
    directory: Seq<char>,
    i: int,
    acc: Seq<Seq<Seq<char>>>,
) -> Seq<Seq<Seq<char>>>
    decreases args.len() - i,
{
    if i < 0 || i >= args.len() {
        acc
    } else {
        match flag_split(args[i]) {
            None => args_fold(args, directory, i + 1, acc),
            Some((class, rest)) => if rest.len() > 0 {
                args_fold(args, directory, i + 1, add_dir(acc, class, flag_dir(directory, rest)))
            } else if i + 1 < args.len() {
                args_fold(
                    args,
                    directory,
                    i + 2,
                    add_dir(acc, class, flag_dir(directory, args[i + 1])),
                )
            } else {
                acc
            },
        }
    }
}

pub open spec fn no_dirs() -> Seq<Seq<Seq<char>>> {
    seq![Seq::empty(), Seq::empty(), Seq::empty(), Seq::empty()]
}

/// `s` starts with `p`.
fn starts_with(s: &[char], p: &[char]) -> (r: bool)
    ensures
        r == has_prefix(s@, p@),
{
    if p.len() > s.len() {
        return false;
    }
    let mut k: usize = 0;
    while k < p.len()
        invariant
            p@.len() <= s@.len(),
            k <= p@.len(),
            forall|j: int| 0 <= j < k ==> s@[j] == p@[j],
        decreases p@.len() - k,
    {
        if s[k] != p[k] {
            return false;
        }
        k += 1;
    }
    proof {
        assert(s@.take(p@.len() as int) =~= p@);
    }
    true
}

/// The class and the rest of the argument, for a search flag.
fn split_flag(arg: &[char]) -> (r: Option<(usize, Vec<char>)>)
    ensures
        match r {
            Some((c, rest)) => flag_split(arg@) == Some((c as int, rest@)),
            None => flag_split(arg@) is None,
        },
{
    let q: [char; 7] = ['-', 'i', 'q', 'u', 'o', 't', 'e'];
    let sy: [char; 8] = ['-', 'i', 's', 'y', 's', 't', 'e', 'm'];
    let da: [char; 10] = ['-', 'i', 'd', 'i', 'r', 'a', 'f', 't', 'e', 'r'];
    let ii: [char; 2] = ['-', 'I'];
    proof {
        assert(q@ =~= flag_iquote());
        assert(sy@ =~= flag_isystem());
        assert(da@ =~= flag_idirafter());
        assert(ii@ =~= flag_i());
    }
    let (class, len): (usize, usize) = if starts_with(arg, &q) {
        (0, 7)
    } else if starts_with(arg, &sy) {
        (2, 8)
    } else if starts_with(arg, &da) {
        (3, 10)
    } else if starts_with(arg, &ii) {
        (1, 2)
    } else {
        return None;
    };
    let rest = vstd::slice::slice_subrange(arg, len, arg.len());
    proof {
        assert(rest@ =~= arg@.skip(len as int));
    }
    Some((class, vstd::slice::slice_to_vec(rest)))
}

pub fn search_paths_from_args(args: &[String], directory: &str) -> (sp: SearchPaths)
    ensures
        search_view(sp) == args_fold(strings_view(args@), directory@, 0, no_dirs()),
{
    let ghost av = strings_view(args@);
    let mut sp = SearchPaths {
        iquote: Vec::new(),
        include_dirs: Vec::new(),
        system: Vec::new(),
        after: Vec::new(),
    };
    let mut i: usize = 0;
    proof {
        assert(search_view(sp) =~~= no_dirs());
    }
    while i < args.len()
        invariant
            av == strings_view(args@),
            i <= args@.len() + 1,
            args_fold(av, directory@, 0, no_dirs()) == args_fold(av, directory@, i as int, search_view(sp)),
        decreases args@.len() + 1 - i,
    {
        let arg = chars_of(args[i].as_str());
        assert(arg@ == av[i as int]);
        let ghost acc = search_view(sp);
        match split_flag(arg.as_slice()) {
            None => {
                i += 1;
            },
            Some((class, rest)) => {
                let value: Vec<char>;
                if rest.len() > 0 {
                    value = rest;
                    i += 1;
                } else if i + 1 < args.len() {
                    value = chars_of(args[i + 1].as_str());
                    assert(value@ == av[i + 1]);
                    i += 2;
                } else {
                    i = args.len();
                    continue;
                }
                let v = string_of(value.as_slice());
                let dir = normalize(&join(directory, v.as_str()));
                let ghost d = dir@;
                let ghost o0 = sp.iquote@;
                let ghost o1 = sp.include_dirs@;
                let ghost o2 = sp.system@;
                let ghost o3 = sp.after@;
                if class == 0 {
                    sp.iquote.push(dir);
                } else if class == 1 {
                    sp.include_dirs.push(dir);
                } else if class == 2 {
                    sp.system.push(dir);
                } else {
                    sp.after.push(dir);
                }
                proof {
                    if class == 0 {
                        assert(strings_view(sp.iquote@) =~= strings_view(o0).push(d));
                    } else if class == 1 {
                        assert(strings_view(sp.include_dirs@) =~= strings_view(o1).push(d));
                    } else if class == 2 {
                        assert(strings_view(sp.system@) =~= strings_view(o2).push(d));
                    } else {
                        assert(strings_view(sp.after@) =~= strings_view(o3).push(d));
                    }
                    assert(search_view(sp) =~= add_dir(acc, class as int, d));
                }
            },
        }
    }
    sp
}


// ---------------------------------------------------------------------------
// The compilation database.
// ---------------------------------------------------------------------------
/// What a compile command holds: its directory, its source and its search
/// directories.
pub open spec fn command_view(c: CompileCommand) -> (Seq<char>, Seq<char>, Seq<Seq<Seq<char>>>) {
    (c.directory@, c.file@, search_view(c.search))
}

/// What each compile command holds.
pub open spec fn commands_view(cs: Seq<CompileCommand>) -> Seq<(Seq<char>, Seq<char>, Seq<Seq<Seq<char>>>)> {
    cs.map_values(|c: CompileCommand| command_view(c))
}

/// Once an entry cannot be read, reading more entries gives the same message.
proof fn lemma_entries_err(entries: Seq<Json>, base: Seq<char>, k: int, n: int)
    requires
        0 <= k <= n,
        entries_upto(entries, base, k) is Err,
    ensures
        entries_upto(entries, base, n) == entries_upto(entries, base, k),
    decreases n - k,
{
    if n > k {
        lemma_entries_err(entries, base, k, n - 1);
    }
}

/// The value of the first field named `key`.
pub open spec fn field_of(fs: Seq<(Seq<char>, Json)>, key: Seq<char>) -> Option<Json>
    decreases fs.len(),
{
    if fs.len() == 0 {
        None
    } else if fs[0].0 == key {
        Some(fs[0].1)
    } else {
        field_of(fs.drop_first(), key)
    }
}

/// The text of field `key` of `entry`, when `entry` is an object and that
/// field is a string.
pub open spec fn text_field(entry: Json, key: Seq<char>) -> Option<Seq<char>> {
    match entry {
        Json::Object(fs) => match field_of(fs, key) {
            Some(Json::Str(t)) => Some(t),
            _ => None,
        },
        _ => None,
    }
}

/// The field `key` of `entry`, when `entry` is an object that has it.
pub open spec fn any_field(entry: Json, key: Seq<char>) -> Option<Json> {
    match entry {
        Json::Object(fs) => field_of(fs, key),
        _ => None,
    }
}

/// All items are strings.
pub open spec fn all_strings(items: Seq<Json>) -> bool {
    forall|i: int| 0 <= i < items.len() ==> (#[trigger] items[i]) is Str
}

/// The texts of string items.
pub open spec fn texts(items: Seq<Json>) -> Seq<Seq<char>> {
    items.map_values(|j: Json| match j {
        Json::Str(t) => t,
        _ => Seq::empty(),
    })
}

/// The compiler arguments of an entry, or why there are none.
pub open spec fn entry_args(entry: Json) -> Result<Seq<Seq<char>>, Seq<char>> {
    match any_field(entry, "arguments"@) {
        Some(a) => match a {
            Json::Array(items) => if all_strings(items) {
                Ok(texts(items))
            } else {
                Err("\"arguments\" must contain strings"@)
            },
            _ => Err("\"arguments\" must be an array"@),
        },
        None => match text_field(entry, "command"@) {
            Some(cmd) => Ok(split_spec(cmd)),
            None => Err("needs \"arguments\" or \"command\""@),
        },
    }
}

/// One database entry read relative to `base`, or why it cannot be.
pub open spec fn entry_spec(entry: Json, base: Seq<char>) -> Result<(Seq<char>, Seq<char>, Seq<Seq<Seq<char>>>), Seq<char>> {
    match text_field(entry, "directory"@) {
        None => Err("missing \"directory\""@),
        Some(d) => match text_field(entry, "file"@) {
            None => Err("missing \"file\""@),
            Some(f) => match entry_args(entry) {
                Err(m) => Err(m),
                Ok(args) => {
                    let dir = normalize_spec(join_spec(base, d));
                    Ok((dir, normalize_spec(join_spec(dir, f)), args_fold(args, dir, 0, no_dirs())))
                },
            },
        },
    }
}

/// The entries before `k`, or the message for the first one that cannot be read.
pub open spec fn entries_upto(entries: Seq<Json>, base: Seq<char>, k: int) -> Result<
    Seq<(Seq<char>, Seq<char>, Seq<Seq<Seq<char>>>)>,
    Seq<char>,
>
    decreases k,
{
    if k <= 0 {
        Ok(Seq::empty())
    } else {
        match entries_upto(entries, base, k - 1) {
            Err(m) => Err(m),
            Ok(done) => match entry_spec(entries[k - 1], base) {
                Err(m) => Err("entry "@ + decimal((k - 1) as nat) + ": "@ + m),
                Ok(c) => Ok(done.push(c)),
            },
        }
    }
}

/// A whole database read relative to `base`, or why it cannot be.
pub open spec fn database_spec(doc: Json, base: Seq<char>) -> Result<Seq<(Seq<char>, Seq<char>, Seq<Seq<Seq<char>>>)>, Seq<char>> {
    match doc {
        Json::Array(entries) => entries_upto(entries, base, entries.len() as int),
        _ => Err("compile_commands.json must contain a JSON array"@),
    }
}

proof fn lemma_fields_of(fields: Seq<(String, Value)>)
    ensures
        fields_of(fields).len() == fields.len(),
        forall|i: int| 0 <= i < fields.len() ==> #[trigger] fields_of(fields)[i] == (fields[i].0@, json_of(fields[i].1)),
    decreases fields.len(),
{
    if fields.len() > 0 {
        lemma_fields_of(fields.drop_last());
    }
}

proof fn lemma_jsons_of(items: Seq<Value>)
    ensures
        jsons_of(items).len() == items.len(),
        forall|i: int| 0 <= i < items.len() ==> #[trigger] jsons_of(items)[i] == json_of(items[i]),
    decreases items.len(),
{
    if items.len() > 0 {
        lemma_jsons_of(items.drop_last());
    }
}

proof fn lemma_field_first(fs: Seq<(Seq<char>, Json)>, key: Seq<char>, i: int)
    requires
        0 <= i < fs.len(),
        fs[i].0 == key,
        forall|j: int| 0 <= j < i ==> (#[trigger] fs[j]).0 != key,
    ensures
        field_of(fs, key) == Some(fs[i].1),
    decreases i,
{
    if i > 0 {
        let t = fs.drop_first();
        assert forall|j: int| 0 <= j < i - 1 implies (#[trigger] t[j]).0 != key by {
            assert(t[j] == fs[j + 1]);
        }
        assert(fs[0].0 != key);
        lemma_field_first(t, key, i - 1);
    }
}

proof fn lemma_field_none(fs: Seq<(Seq<char>, Json)>, key: Seq<char>)
    requires
        forall|j: int| 0 <= j < fs.len() ==> (#[trigger] fs[j]).0 != key,
    ensures
        field_of(fs, key) is None,
    decreases fs.len(),
{
    if fs.len() > 0 {
        let t = fs.drop_first();
        assert forall|j: int| 0 <= j < t.len() implies (#[trigger] t[j]).0 != key by {
            assert(t[j] == fs[j + 1]);
        }
        assert(fs[0].0 != key);
        lemma_field_none(t, key);
    }
}

/// The field `key` of `entry`, exactly as `any_field` gives it.
fn lookup<'a>(entry: &'a Value, key: &str) -> (r: Option<&'a Value>)
    ensures
        match r {
            Some(v) => any_field(json_of(*entry), key@) == Some(json_of(*v)),
            None => any_field(json_of(*entry), key@) is None,
        },
{
    let r = entry.get(key);
    proof {
        if *entry is Object {
            let fields = object_fields(*entry);
            lemma_fields_of(fields);
            let fs = fields_of(fields);
            assert(json_of(*entry) == Json::Object(fs));
            match r {
                Some(v) => {
                    let i = choose|i: int|
                        0 <= i < object_fields(*entry).len() && (#[trigger] object_fields(*entry)[i]).0@ == key@ && *v
                            == object_fields(*entry)[i].1 && forall|j: int|
                            0 <= j < i ==> (#[trigger] object_fields(*entry)[j]).0@ != key@;
                    assert forall|j: int| 0 <= j < i implies (#[trigger] fs[j]).0 != key@ by {
                        assert(fs[j] == (fields[j].0@, json_of(fields[j].1)));
                    }
                    lemma_field_first(fs, key@, i);
                },
                None => {
                    assert forall|j: int| 0 <= j < fs.len() implies (#[trigger] fs[j]).0 != key@ by {
                        assert(fs[j] == (fields[j].0@, json_of(fields[j].1)));
                    }
                    lemma_field_none(fs, key@);
                },
            }
        }
    }
    r
}

/// The text of field `key` of `entry`, exactly as `text_field` gives it.
fn text_of<'a>(entry: &'a Value, key: &str) -> (r: Option<&'a str>)
    ensures
        match r {
            Some(t) => text_field(json_of(*entry), key@) == Some(t@),
            None => text_field(json_of(*entry), key@) is None,
        },
{
    match lookup(entry, key) {
        Some(v) => v.as_str(),
        None => None,
    }
}

/// `"entry {i}: {msg}"`.
fn entry_error(i: usize, msg: &str) -> (r: String)
    ensures
        r@ == "entry "@ + decimal(i as nat) + ": "@ + msg@,
{
    let mut r = String::new();
    push_str(&mut r, "entry ");
    push_decimal(&mut r, i as u64);
    push_str(&mut r, ": ");
    push_str(&mut r, msg);
    proof {
        assert(r@ =~= "entry "@ + decimal(i as nat) + ": "@ + msg@);
    }
    r
}

/// The compiler arguments of `entry`, or why there are none.
fn arguments_of(entry: &Value) -> (r: Result<Vec<String>, &'static str>)
    ensures
        match r {
            Ok(args) => entry_args(json_of(*entry)) == Ok::<Seq<Seq<char>>, Seq<char>>(strings_view(args@)),
            Err(m) => entry_args(json_of(*entry)) == Err::<Seq<Seq<char>>, Seq<char>>(m@),
        },
{
    match lookup(entry, "arguments") {
        Some(arguments) => {
            match arguments.as_array() {
                Some(items) => {
                    let ghost js = jsons_of(items@);
                    proof {
                        lemma_jsons_of(items@);
                        assert(json_of(*arguments) == Json::Array(js));
                        assert(any_field(json_of(*entry), "arguments"@) == Some(Json::Array(js)));
                    }
                    let mut out: Vec<String> = Vec::new();
                    let mut i: usize = 0;
                    while i < items.len()
                        invariant
                            js == jsons_of(items@),
                            any_field(json_of(*entry), "arguments"@) == Some(Json::Array(js)),
                            js.len() == items@.len(),
                            forall|k: int| 0 <= k < items@.len() ==> #[trigger] js[k] == json_of(items@[k]),
                            i <= items@.len(),
                            out@.len() == i,
                            forall|k: int| 0 <= k < i ==> (#[trigger] js[k]) is Str,
                            strings_view(out@) =~= texts(js.take(i as int)),
                        decreases items@.len() - i,
                    {
                        match items[i].as_str() {
                            Some(t) => {
                                let ghost o0 = out@;
                                out.push(t.to_owned());
                                proof {
                                    assert(texts(js.take(i + 1)) =~= texts(js.take(i as int)).push(t@));
                                    assert(strings_view(out@) =~= strings_view(o0).push(t@));
                                }
                            },
                            None => {
                                proof {
                                    assert(!(js[i as int] is Str));
                                    assert(!all_strings(js));
                                }
                                return Err("\"arguments\" must contain strings");
                            },
                        }
                        i += 1;
                    }
                    proof {
                        assert(js.take(i as int) =~= js);
                    }
                    Ok(out)
                },
                None => Err("\"arguments\" must be an array"),
            }
        },
        None => match text_of(entry, "command") {
            Some(command) => Ok(split_command(command)),
            None => Err("needs \"arguments\" or \"command\""),
        },
    }
}

/// Parses a compilation database. Relative `directory` entries are taken
/// relative to `base_dir`, normally the directory holding the JSON file.
pub fn parse_compile_commands(text: &str, base_dir: &str) -> (r: Result<Vec<CompileCommand>, String>)
    ensures
        match r {
            Ok(cmds) => document_spec(text@) matches Ok(doc) && database_spec(doc, base_dir@) == Ok::<
                Seq<(Seq<char>, Seq<char>, Seq<Seq<Seq<char>>>)>,
                Seq<char>,
            >(commands_view(cmds@)),
            Err(m) => match document_spec(text@) {
                Err((pos, f)) => m@ == error_text(text@, pos, f),
                Ok(doc) => database_spec(doc, base_dir@) == Err::<Seq<(Seq<char>, Seq<char>, Seq<Seq<Seq<char>>>)>, Seq<char>>(m@),
            },
        },
{
    let root = match parse(text) {
        Ok(v) => v,
        Err(m) => return Err(m),
    };
    let entries = match root.as_array() {
        Some(e) => e,
        None => return Err("compile_commands.json must contain a JSON array".to_owned()),
    };
    let ghost js = jsons_of(entries@);
    proof {
        lemma_jsons_of(entries@);
        assert(json_of(root) == Json::Array(js));
    }
    let mut out: Vec<CompileCommand> = Vec::new();
    proof {
        assert(commands_view(out@) =~= Seq::<(Seq<char>, Seq<char>, Seq<Seq<Seq<char>>>)>::empty());
    }
    let mut i: usize = 0;
    while i < entries.len()
        invariant
            js == jsons_of(entries@),
            json_of(root) == Json::Array(js),
            document_spec(text@) == Ok::<Json, (int, Fault)>(json_of(root)),
            js.len() == entries@.len(),
            forall|k: int| 0 <= k < entries@.len() ==> #[trigger] js[k] == json_of(entries@[k]),
            i <= entries@.len(),
            out@.len() == i,
            entries_upto(js, base_dir@, i as int) == Ok::<Seq<(Seq<char>, Seq<char>, Seq<Seq<Seq<char>>>)>, Seq<char>>(
                commands_view(out@),
            ),
        decreases entries@.len() - i,
    {
        let entry = &entries[i];
        let ghost before = commands_view(out@);
        proof {
            assert(js[i as int] == json_of(*entry));
        }
        let directory = match text_of(entry, "directory") {
            Some(d) => d,
            None => {
                let e = entry_error(i, "missing \"directory\"");
                proof {
                    lemma_entries_err(js, base_dir@, i + 1, js.len() as int);
                }
                return Err(e);
            },
        };
        let file = match text_of(entry, "file") {
            Some(f) => f,
            None => {
                let e = entry_error(i, "missing \"file\"");
                proof {
                    assert(entry_spec(js[i as int], base_dir@) == Err::<(Seq<char>, Seq<char>, Seq<Seq<Seq<char>>>), Seq<char>>("missing \"file\""@));
                    assert(entries_upto(js, base_dir@, i + 1) == Err::<Seq<(Seq<char>, Seq<char>, Seq<Seq<Seq<char>>>)>, Seq<char>>(e@));
                    lemma_entries_err(js, base_dir@, i + 1, js.len() as int);
                }
                return Err(e);
            },
        };
        let args = match arguments_of(entry) {
            Ok(a) => a,
            Err(m) => {
                let e = entry_error(i, m);
                proof {
                    assert(entry_spec(js[i as int], base_dir@) == Err::<(Seq<char>, Seq<char>, Seq<Seq<Seq<char>>>), Seq<char>>(m@));
                    assert(entries_upto(js, base_dir@, i + 1) == Err::<Seq<(Seq<char>, Seq<char>, Seq<Seq<Seq<char>>>)>, Seq<char>>(e@));
                    lemma_entries_err(js, base_dir@, i + 1, js.len() as int);
                }
                return Err(e);
            },
        };
        let dir = normalize(join(base_dir, directory).as_str());
        let source = normalize(join(dir.as_str(), file).as_str());
        let search = search_paths_from_args(args.as_slice(), dir.as_str());
        let cmd = CompileCommand { directory: dir, file: source, search };
        let ghost cv = command_view(cmd);
        out.push(cmd);
        proof {
            assert(commands_view(out@) =~= before.push(cv));
            assert(entry_spec(js[i as int], base_dir@) == Ok::<(Seq<char>, Seq<char>, Seq<Seq<Seq<char>>>), Seq<char>>(cv));
        }
        i += 1;
    }
    Ok(out)
}
} // verus!
