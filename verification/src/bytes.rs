//! Byte-level helpers shared by the scanner: ASCII classes, trimming,
//! identifiers and searches.

use vstd::prelude::*;

verus! {

/// ASCII whitespace as C and Rust define it: space, tab, line feed, form feed
/// and carriage return.
pub open spec fn is_ws(c: u8) -> bool {
    c == 0x20u8 || c == 0x09u8 || c == 0x0au8 || c == 0x0cu8 || c == 0x0du8
}

pub open spec fn is_digit(c: u8) -> bool {
    0x30u8 <= c <= 0x39u8
}

/// A byte that can continue an identifier: ASCII letter, digit or `_`.
pub open spec fn is_ident(c: u8) -> bool {
    is_digit(c) || (0x41u8 <= c <= 0x5au8) || (0x61u8 <= c <= 0x7au8) || c == 0x5fu8
}

pub fn is_ws_byte(c: u8) -> (r: bool)
    ensures
        r == is_ws(c),
{
    c == 0x20 || c == 0x09 || c == 0x0a || c == 0x0c || c == 0x0d
}

pub fn is_digit_byte(c: u8) -> (r: bool)
    ensures
        r == is_digit(c),
{
    0x30 <= c && c <= 0x39
}

pub fn is_ident_byte(c: u8) -> (r: bool)
    ensures
        r == is_ident(c),
{
    is_digit_byte(c) || (0x41 <= c && c <= 0x5a) || (0x61 <= c && c <= 0x7a) || c == 0x5f
}

/// `s` without its leading whitespace.
pub open spec fn trim_start_spec(s: Seq<u8>) -> Seq<u8>
    decreases s.len(),
{
    if s.len() > 0 && is_ws(s[0]) {
        trim_start_spec(s.drop_first())
    } else {
        s
    }
}

/// `s` without its trailing whitespace.
pub open spec fn trim_end_spec(s: Seq<u8>) -> Seq<u8>
    decreases s.len(),
{
    if s.len() > 0 && is_ws(s.last()) {
        trim_end_spec(s.drop_last())
    } else {
        s
    }
}

/// `s` without leading or trailing whitespace.
pub open spec fn trim_spec(s: Seq<u8>) -> Seq<u8> {
    trim_end_spec(trim_start_spec(s))
}

/// Number of leading identifier bytes.
pub open spec fn ident_run(s: Seq<u8>) -> nat
    decreases s.len(),
{
    if s.len() > 0 && is_ident(s[0]) {
        1 + ident_run(s.drop_first())
    } else {
        0
    }
}

/// The identifier at the start of `s`: empty when `s` starts with a digit,
/// else the longest prefix of identifier bytes.
pub open spec fn identifier_spec(s: Seq<u8>) -> Seq<u8> {
    if s.len() > 0 && is_digit(s[0]) {
        Seq::empty()
    } else {
        s.take(ident_run(s) as int)
    }
}

/// Index of the first occurrence of `c` in `s`.
pub open spec fn find_byte(s: Seq<u8>, c: u8) -> Option<nat>
    decreases s.len(),
{
    if s.len() == 0 {
        None
    } else if s[0] == c {
        Some(0)
    } else {
        match find_byte(s.drop_first(), c) {
            Some(i) => Some(i + 1),
            None => None,
        }
    }
}

pub proof fn lemma_ident_run_le(s: Seq<u8>)
    ensures
        ident_run(s) <= s.len(),
    decreases s.len(),
{
    if s.len() > 0 && is_ident(s[0]) {
        lemma_ident_run_le(s.drop_first());
    }
}

pub proof fn lemma_trim_start_suffix(s: Seq<u8>)
    ensures
        trim_start_spec(s).len() <= s.len(),
        trim_start_spec(s) == s.skip(s.len() - trim_start_spec(s).len()),
    decreases s.len(),
{
    if s.len() > 0 && is_ws(s[0]) {
        lemma_trim_start_suffix(s.drop_first());
        assert(s.drop_first().skip(s.drop_first().len() - trim_start_spec(s).len()) =~= s.skip(
            s.len() - trim_start_spec(s).len(),
        ));
    } else {
        assert(s.skip(0) =~= s);
    }
}

pub proof fn lemma_trim_end_len(s: Seq<u8>)
    ensures
        trim_end_spec(s).len() <= s.len(),
    decreases s.len(),
{
    if s.len() > 0 && is_ws(s.last()) {
        lemma_trim_end_len(s.drop_last());
    }
}

/// Trimming never lengthens.
pub proof fn lemma_trim_len(s: Seq<u8>)
    ensures
        trim_spec(s).len() <= s.len(),
{
    lemma_trim_start_suffix(s);
    lemma_trim_end_len(trim_start_spec(s));
}

pub proof fn lemma_find_byte(s: Seq<u8>, c: u8)
    ensures
        match find_byte(s, c) {
            Some(i) => i < s.len() && s[i as int] == c && forall|j: int| 0 <= j < i ==> s[j] != c,
            None => forall|j: int| 0 <= j < s.len() ==> s[j] != c,
        },
    decreases s.len(),
{
    if s.len() > 0 && s[0] != c {
        lemma_find_byte(s.drop_first(), c);
        match find_byte(s.drop_first(), c) {
            Some(i) => {
                assert forall|j: int| 0 <= j < i + 1 implies s[j] != c by {
                    if j > 0 {
                        assert(s[j] == s.drop_first()[j - 1]);
                    }
                }
            },
            None => {
                assert forall|j: int| 0 <= j < s.len() implies s[j] != c by {
                    if j > 0 {
                        assert(s[j] == s.drop_first()[j - 1]);
                    }
                }
            },
        }
    }
}

/// The first index of `c` in `s`.
pub fn find(s: &[u8], c: u8) -> (r: Option<usize>)
    ensures
        r == (match find_byte(s@, c) {
            Some(i) => Some(i as usize),
            None => None::<usize>,
        }),
        r is Some ==> r->0 < s@.len(),
{
    let mut i: usize = 0;
    proof {
        assert(s@.skip(0) =~= s@);
    }
    while i < s.len()
        invariant
            i <= s@.len(),
            forall|j: int| 0 <= j < i ==> s@[j] != c,
            find_byte(s@, c) == (match find_byte(s@.skip(i as int), c) {
                Some(k) => Some((k + i) as nat),
                None => None::<nat>,
            }),
        decreases s@.len() - i,
    {
        if s[i] == c {
            proof {
                assert(s@.skip(i as int)[0] == c);
            }
            return Some(i);
        }
        proof {
            assert(s@.skip(i as int).drop_first() =~= s@.skip(i as int + 1));
        }
        i += 1;
    }
    proof {
        assert(s@.skip(i as int).len() == 0);
    }
    None
}

/// Removes leading ASCII whitespace.
pub fn trim_start(s: &[u8]) -> (r: &[u8])
    ensures
        r@ == trim_start_spec(s@),
{
    let mut i: usize = 0;
    proof {
        assert(s@.skip(0) =~= s@);
    }
    while i < s.len() && is_ws_byte(s[i])
        invariant
            i <= s@.len(),
            trim_start_spec(s@) == trim_start_spec(s@.skip(i as int)),
        decreases s@.len() - i,
    {
        proof {
            assert(s@.skip(i as int).drop_first() =~= s@.skip(i as int + 1));
            assert(s@.skip(i as int)[0] == s@[i as int]);
        }
        i += 1;
    }
    proof {
        if i < s@.len() {
            assert(s@.skip(i as int)[0] == s@[i as int]);
        }
    }
    vstd::slice::slice_subrange(s, i, s.len())
}

/// Removes trailing ASCII whitespace.
pub fn trim_end(s: &[u8]) -> (r: &[u8])
    ensures
        r@ == trim_end_spec(s@),
{
    let mut e: usize = s.len();
    proof {
        assert(s@.take(s@.len() as int) =~= s@);
    }
    while e > 0 && is_ws_byte(s[e - 1])
        invariant
            e <= s@.len(),
            trim_end_spec(s@) == trim_end_spec(s@.take(e as int)),
        decreases e,
    {
        proof {
            assert(s@.take(e as int).drop_last() =~= s@.take(e - 1));
            assert(s@.take(e as int).last() == s@[e - 1]);
        }
        e -= 1;
    }
    proof {
        if e > 0 {
            assert(s@.take(e as int).last() == s@[e - 1]);
        }
        assert(s@.subrange(0, e as int) =~= s@.take(e as int));
    }
    vstd::slice::slice_subrange(s, 0, e)
}

/// Removes leading and trailing ASCII whitespace.
pub fn trim(s: &[u8]) -> (r: &[u8])
    ensures
        r@ == trim_spec(s@),
{
    trim_end(trim_start(s))
}

/// The identifier at the start of `s` (empty when `s` starts with a digit).
pub fn identifier(s: &[u8]) -> (r: &[u8])
    ensures
        r@ == identifier_spec(s@),
{
    if s.len() > 0 && is_digit_byte(s[0]) {
        proof {
            assert(s@.subrange(0, 0) =~= Seq::<u8>::empty());
        }
        return vstd::slice::slice_subrange(s, 0, 0);
    }
    let mut i: usize = 0;
    proof {
        assert(s@.skip(0) =~= s@);
    }
    while i < s.len() && is_ident_byte(s[i])
        invariant
            i <= s@.len(),
            ident_run(s@) == i + ident_run(s@.skip(i as int)),
        decreases s@.len() - i,
    {
        proof {
            assert(s@.skip(i as int).drop_first() =~= s@.skip(i as int + 1));
            assert(s@.skip(i as int)[0] == s@[i as int]);
        }
        i += 1;
    }
    proof {
        if i < s@.len() {
            assert(s@.skip(i as int)[0] == s@[i as int]);
        }
        assert(s@.subrange(0, i as int) =~= s@.take(i as int));
    }
    vstd::slice::slice_subrange(s, 0, i)
}

/// `a` and `b` hold the same bytes.
pub fn bytes_eq(a: &[u8], b: &[u8]) -> (r: bool)
    ensures
        r == (a@ == b@),
{
    if a.len() != b.len() {
        return false;
    }
    let mut i: usize = 0;
    while i < a.len()
        invariant
            a@.len() == b@.len(),
            i <= a@.len(),
            forall|j: int| 0 <= j < i ==> a@[j] == b@[j],
        decreases a@.len() - i,
    {
        if a[i] != b[i] {
            return false;
        }
        i += 1;
    }
    proof {
        assert(a@ =~= b@);
    }
    true
}

/// `s` ends with `suffix`.
pub fn ends_with(s: &[u8], suffix: &[u8]) -> (r: bool)
    ensures
        r == (suffix@.len() <= s@.len() && s@.skip(s@.len() - suffix@.len()) == suffix@),
{
    if suffix.len() > s.len() {
        return false;
    }
    let tail = vstd::slice::slice_subrange(s, s.len() - suffix.len(), s.len());
    proof {
        assert(tail@ =~= s@.skip(s@.len() - suffix@.len()));
    }
    bytes_eq(tail, suffix)
}

} // verus!
