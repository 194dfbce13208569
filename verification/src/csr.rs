//! Grouping `(source, target)` pairs by source into compressed sparse rows.
//! Graphs, predecessor lists and dominator-tree children all use this layout.

use vstd::prelude::*;

verus! {

/// The targets of the pairs whose source is `v`, in input order.
pub open spec fn out_list(pairs: Seq<(u32, u32)>, v: int) -> Seq<u32>
    decreases pairs.len(),
{
    if pairs.len() == 0 {
        Seq::empty()
    } else {
        let rest = out_list(pairs.drop_last(), v);
        if pairs.last().0 == v {
            rest.push(pairs.last().1)
        } else {
            rest
        }
    }
}

/// Number of pairs whose source is below `v`.
pub open spec fn count_below(pairs: Seq<(u32, u32)>, v: int) -> nat
    decreases v,
{
    if v <= 0 {
        0
    } else {
        count_below(pairs, v - 1) + out_list(pairs, v - 1).len()
    }
}

/// Every source is below `n`.
pub open spec fn sources_below(pairs: Seq<(u32, u32)>, n: int) -> bool {
    forall|k: int| 0 <= k < pairs.len() ==> (#[trigger] pairs[k]).0 < n
}

pub proof fn lemma_out_list_push(pairs: Seq<(u32, u32)>, e: (u32, u32), v: int)
    ensures
        out_list(pairs.push(e), v) == (if e.0 == v {
            out_list(pairs, v).push(e.1)
        } else {
            out_list(pairs, v)
        }),
{
    assert(pairs.push(e).drop_last() =~= pairs);
}

pub proof fn lemma_out_list_len(pairs: Seq<(u32, u32)>, v: int)
    ensures
        out_list(pairs, v).len() <= pairs.len(),
    decreases pairs.len(),
{
    if pairs.len() > 0 {
        lemma_out_list_len(pairs.drop_last(), v);
    }
}

/// A pair `(v, x)` puts `x` into the list of `v`.
pub proof fn lemma_out_list_contains(pairs: Seq<(u32, u32)>, k: int)
    requires
        0 <= k < pairs.len(),
    ensures
        out_list(pairs, pairs[k].0 as int).contains(pairs[k].1),
    decreases pairs.len(),
{
    let v = pairs[k].0 as int;
    if k == pairs.len() - 1 {
        assert(out_list(pairs, v).last() == pairs[k].1);
        assert(out_list(pairs, v)[out_list(pairs, v).len() - 1] == pairs[k].1);
    } else {
        lemma_out_list_contains(pairs.drop_last(), k);
        let rest = out_list(pairs.drop_last(), v);
        let i = choose|i: int| 0 <= i < rest.len() && rest[i] == pairs[k].1;
        assert(out_list(pairs, v)[i] == pairs[k].1);
    }
}

/// Every element of the list of `v` comes from a pair `(v, x)`.
pub proof fn lemma_out_list_member(pairs: Seq<(u32, u32)>, v: int, i: int)
    requires
        0 <= i < out_list(pairs, v).len(),
    ensures
        exists|k: int| 0 <= k < pairs.len() && pairs[k].0 == v && pairs[k].1 == out_list(pairs, v)[i],
    decreases pairs.len(),
{
    let rest = out_list(pairs.drop_last(), v);
    if i < rest.len() {
        lemma_out_list_member(pairs.drop_last(), v, i);
        let k = choose|k: int|
            0 <= k < pairs.drop_last().len() && pairs.drop_last()[k].0 == v
                && pairs.drop_last()[k].1 == rest[i];
        assert(pairs[k] == pairs.drop_last()[k]);
    } else {
        assert(pairs[pairs.len() - 1].0 == v);
    }
}

pub proof fn lemma_count_below_push(pairs: Seq<(u32, u32)>, e: (u32, u32), v: int)
    ensures
        count_below(pairs.push(e), v) == count_below(pairs, v) + (if 0 <= e.0 < v {
            1int
        } else {
            0int
        }),
    decreases v,
{
    if v > 0 {
        lemma_count_below_push(pairs, e, v - 1);
        lemma_out_list_push(pairs, e, v - 1);
    }
}

pub proof fn lemma_count_below_total(pairs: Seq<(u32, u32)>, n: int)
    requires
        sources_below(pairs, n),
    ensures
        count_below(pairs, n) == pairs.len(),
    decreases pairs.len(),
{
    if pairs.len() > 0 {
        let p = pairs.drop_last();
        assert(sources_below(p, n)) by {
            assert forall|k: int| 0 <= k < p.len() implies (#[trigger] p[k]).0 < n by {
                assert(p[k] == pairs[k]);
            }
        }
        lemma_count_below_total(p, n);
        assert(p.push(pairs.last()) =~= pairs);
        lemma_count_below_push(p, pairs.last(), n);
        assert(pairs[pairs.len() - 1].0 < n);
    } else {
        lemma_count_below_empty(pairs, n);
    }
}

pub proof fn lemma_count_below_empty(pairs: Seq<(u32, u32)>, n: int)
    requires
        pairs.len() == 0,
    ensures
        count_below(pairs, n) == 0,
    decreases n,
{
    if n > 0 {
        lemma_count_below_empty(pairs, n - 1);
    }
}

pub proof fn lemma_count_below_mono(pairs: Seq<(u32, u32)>, u: int, v: int)
    requires
        u <= v,
    ensures
        count_below(pairs, u) <= count_below(pairs, v),
    decreases v - u,
{
    if u < v {
        lemma_count_below_mono(pairs, u, v - 1);
    }
}

/// The list of `v` over a prefix is a prefix of the list over a longer prefix.
pub proof fn lemma_out_list_prefix(pairs: Seq<(u32, u32)>, k: int, j: int, v: int)
    requires
        0 <= k <= j <= pairs.len(),
    ensures
        out_list(pairs.take(k), v).len() <= out_list(pairs.take(j), v).len(),
        out_list(pairs.take(j), v).take(out_list(pairs.take(k), v).len() as int) == out_list(
            pairs.take(k),
            v,
        ),
    decreases j - k,
{
    if k < j {
        lemma_out_list_prefix(pairs, k, j - 1, v);
        assert(pairs.take(j).drop_last() =~= pairs.take(j - 1));
        let a = out_list(pairs.take(k), v);
        let b = out_list(pairs.take(j - 1), v);
        let c = out_list(pairs.take(j), v);
        if pairs.take(j).last().0 == v {
            assert(c =~= b.push(pairs.take(j).last().1));
            assert(c.take(a.len() as int) =~= b.take(a.len() as int));
        } else {
            assert(c == b);
        }
    } else {
        assert(out_list(pairs.take(j), v).take(out_list(pairs.take(k), v).len() as int)
            =~= out_list(pairs.take(k), v));
    }
}

pub fn zeros_u32(len: usize) -> (v: Vec<u32>)
    ensures
        v.len() == len,
        forall|i: int| 0 <= i < len ==> v[i] == 0,
{
    let mut v: Vec<u32> = Vec::with_capacity(len);
    let mut i: usize = 0;
    while i < len
        invariant
            i <= len,
            v.len() == i,
            forall|j: int| 0 <= j < i ==> v[j] == 0,
        decreases len - i,
    {
        v.push(0);
        i += 1;
    }
    v
}

/// Groups `pairs` by source: `offsets[v]` is the number of pairs with a source
/// below `v`, and `targets[offsets[v]..offsets[v + 1]]` lists the targets of
/// the pairs with source `v` in input order.
pub fn group_by_source(n: usize, pairs: &[(u32, u32)]) -> (res: (Vec<u32>, Vec<u32>))
    requires
        n < u32::MAX,
        pairs.len() <= u32::MAX,
        sources_below(pairs@, n as int),
    ensures
        res.0.len() == n + 1,
        res.1.len() == pairs.len(),
        forall|v: int| 0 <= v <= n ==> res.0[v] == count_below(pairs@, v),
        forall|v: int|
            0 <= v < n ==> res.1@.subrange(res.0[v] as int, res.0[v + 1] as int) == out_list(
                pairs@,
                v,
            ),
{
    let ghost ps = pairs@;
    let mut offsets = zeros_u32(n + 1);
    let mut k: usize = 0;
    while k < pairs.len()
        invariant
            ps == pairs@,
            k <= pairs.len(),
            pairs.len() <= u32::MAX,
            n < u32::MAX,
            sources_below(ps, n as int),
            offsets.len() == n + 1,
            offsets[0] == 0,
            forall|v: int| 0 <= v < n ==> offsets[v + 1] == out_list(ps.take(k as int), v).len(),
        decreases pairs.len() - k,
    {
        let from = pairs[k].0;
        proof {
            assert(ps[k as int].0 < n);
            assert(ps.take(k as int + 1) =~= ps.take(k as int).push(ps[k as int]));
            lemma_out_list_len(ps.take(k as int), from as int);
            assert forall|v: int| 0 <= v < n implies offsets[v + 1] + (if v == from {
                1int
            } else {
                0int
            }) == (#[trigger] out_list(ps.take(k as int + 1), v)).len() by {
                lemma_out_list_push(ps.take(k as int), ps[k as int], v);
            }
        }
        let f = from as usize + 1;
        offsets.set(f, offsets[f] + 1);
        k += 1;
    }
    assert(ps.take(k as int) =~= ps);
    let mut i: usize = 0;
    while i < n
        invariant
            ps == pairs@,
            i <= n,
            n < u32::MAX,
            pairs.len() <= u32::MAX,
            sources_below(ps, n as int),
            offsets.len() == n + 1,
            forall|v: int| 0 <= v <= i ==> offsets[v] == count_below(ps, v),
            forall|v: int| i < v <= n ==> offsets[v] == out_list(ps, v - 1).len(),
        decreases n - i,
    {
        proof {
            lemma_count_below_total(ps, n as int);
            lemma_count_below_mono(ps, i as int + 1, n as int);
            assert(count_below(ps, i as int + 1) == count_below(ps, i as int) + out_list(ps, i as int).len());
        }
        let s = offsets[i + 1] + offsets[i];
        offsets.set(i + 1, s);
        i += 1;
    }
    proof {
        assert forall|a: int, b: int| 0 <= a <= b <= n implies offsets[a] <= offsets[b] by {
            lemma_count_below_mono(ps, a, b);
        }
        lemma_count_below_total(ps, n as int);
    }
    let mut fill = offsets.clone();
    let mut targets = zeros_u32(pairs.len());
    let mut k: usize = 0;
    while k < pairs.len()
        invariant
            ps == pairs@,
            k <= pairs.len(),
            n < u32::MAX,
            pairs.len() <= u32::MAX,
            sources_below(ps, n as int),
            offsets.len() == n + 1,
            fill.len() == n + 1,
            targets.len() == pairs.len(),
            forall|v: int| 0 <= v <= n ==> offsets[v] == count_below(ps, v),
            forall|a: int, b: int| 0 <= a <= b <= n ==> offsets[a] <= offsets[b],
            offsets[n as int] == pairs.len(),
            forall|v: int|
                0 <= v < n ==> fill[v] == offsets[v] + out_list(ps.take(k as int), v).len(),
            forall|v: int|
                0 <= v < n ==> targets@.subrange(offsets[v] as int, fill[v] as int) == out_list(
                    ps.take(k as int),
                    v,
                ),
        decreases pairs.len() - k,
    {
        let (from, to) = pairs[k];
        let ghost old_targets = targets@;
        let ghost old_fill = fill@;
        proof {
            assert(ps[k as int].0 < n);
            assert(ps.take(k as int + 1) =~= ps.take(k as int).push(ps[k as int]));
            assert(ps.take(pairs.len() as int) =~= ps);
            assert forall|v: int| 0 <= v < n implies fill[v] <= offsets[v + 1] && (v == from
                ==> fill[v] < offsets[v + 1]) by {
                lemma_out_list_prefix(ps, k as int, pairs.len() as int, v);
                assert(count_below(ps, v + 1) == count_below(ps, v) + out_list(ps, v).len());
                if v == from {
                    lemma_out_list_prefix(ps, k as int + 1, pairs.len() as int, v);
                    lemma_out_list_push(ps.take(k as int), ps[k as int], v);
                }
            }
        }
        let fpos = fill[from as usize] as usize;
        targets.set(fpos, to);
        fill.set(from as usize, fill[from as usize] + 1);
        proof {
            assert forall|v: int| 0 <= v < n implies targets@.subrange(
                offsets[v] as int,
                fill[v] as int,
            ) == out_list(ps.take(k as int + 1), v) by {
                lemma_out_list_push(ps.take(k as int), ps[k as int], v);
                if v == from {
                    assert(targets@.subrange(offsets[v] as int, fill[v] as int) =~= old_targets.subrange(
                        offsets[v] as int,
                        old_fill[v] as int,
                    ).push(to));
                } else {
                    if v < from {
                        assert(offsets[v + 1] <= offsets[from as int]);
                    } else {
                        assert(offsets[from as int + 1] <= offsets[v]);
                    }
                    assert(targets@.subrange(offsets[v] as int, fill[v] as int) =~= old_targets.subrange(
                        offsets[v] as int,
                        old_fill[v] as int,
                    ));
                }
            }
        }
        k += 1;
    }
    proof {
        assert(ps.take(k as int) =~= ps);
        assert forall|v: int| 0 <= v < n implies fill[v] == offsets[v + 1] by {
            assert(count_below(ps, v + 1) == count_below(ps, v) + out_list(ps, v).len());
        }
    }
    (offsets, targets)
}

} // verus!
