//! Totals over TU cost tables do not depend on how the tables are split
//! between accumulators or in which order they are added: merging two
//! accumulators gives the totals of the concatenated tables, and swapping
//! the two halves changes nothing but the order of the cut cycles. Neither
//! the totals nor the report built from them depend on the order of the
//! tables at all.

use crate::analyze::{
    file_ex, file_exp, has_key, keyed, keys_unique, lemma_keyed_at, sat, sat32, sat_usize, Accum, TuCosts,
};
use crate::project::{FileId, Project};
use crate::summary::{
    carries_ok, children_of, cycle_valid, cycles_fold, cycles_ok, ex_fold, exp_fold, folds_match, has_fold,
    header_ok, header_pick, inclusive_upto, kd_fold, pair_key, picks, pres_fold, summary_ok, total_fold, trunc_fold,
    tus_upto,
};
use vstd::prelude::*;

verus! {

/// Exclusive bytes of file `f` over the tables `ts` (each with its config).
pub open spec fn ex_of(ts: Seq<(u32, TuCosts)>, f: int) -> int
    decreases ts.len(),
{
    if ts.len() == 0 {
        0
    } else {
        sat(ex_of(ts.drop_last(), f) + file_ex(ts.last().1, f as u32))
    }
}

pub open spec fn exp_of(ts: Seq<(u32, TuCosts)>, f: int) -> int
    decreases ts.len(),
{
    if ts.len() == 0 {
        0
    } else {
        sat(exp_of(ts.drop_last(), f) + file_exp(ts.last().1, f as u32))
    }
}

/// TUs of config `c` that expand file `f`.
pub open spec fn pres_of(ts: Seq<(u32, TuCosts)>, c: int, f: int) -> int
    decreases ts.len(),
{
    if ts.len() == 0 {
        0
    } else if ts.last().0 == c && ts.last().1.files@.contains_key(f as u32) {
        sat32(pres_of(ts.drop_last(), c, f) + 1)
    } else {
        pres_of(ts.drop_last(), c, f)
    }
}

pub open spec fn has_of(ts: Seq<(u32, TuCosts)>, key: (FileId, FileId)) -> bool
    decreases ts.len(),
{
    if ts.len() == 0 {
        false
    } else {
        has_of(ts.drop_last(), key) || has_key(ts.last().1.children@, key)
    }
}

pub open spec fn kd_of(ts: Seq<(u32, TuCosts)>, key: (FileId, FileId)) -> int
    decreases ts.len(),
{
    if ts.len() == 0 {
        0
    } else if has_key(ts.last().1.children@, key) {
        sat(kd_of(ts.drop_last(), key) + keyed(ts.last().1.children@, key))
    } else {
        kd_of(ts.drop_last(), key)
    }
}

pub open spec fn total_of(ts: Seq<(u32, TuCosts)>) -> int
    decreases ts.len(),
{
    if ts.len() == 0 {
        0
    } else {
        sat(total_of(ts.drop_last()) + ts.last().1.total)
    }
}

pub open spec fn cycles_of(ts: Seq<(u32, TuCosts)>) -> Seq<(FileId, FileId)>
    decreases ts.len(),
{
    if ts.len() == 0 {
        Seq::empty()
    } else {
        cycles_of(ts.drop_last()) + ts.last().1.cut_cycles@
    }
}

pub open spec fn trunc_of(ts: Seq<(u32, TuCosts)>) -> int
    decreases ts.len(),
{
    if ts.len() == 0 {
        0
    } else {
        sat_usize(trunc_of(ts.drop_last()) + if ts.last().1.truncated {
            1int
        } else {
            0int
        })
    }
}

/// `acc` holds the totals of the tables `ts` for `n` files and `nc` configs.
pub open spec fn acc_matches(acc: Accum, ts: Seq<(u32, TuCosts)>, n: nat, nc: nat) -> bool {
    &&& acc.shaped(n, nc)
    &&& forall|f: int| 0 <= f < n ==> #[trigger] acc.exclusive@[f] == ex_of(ts, f)
    &&& forall|f: int| 0 <= f < n ==> #[trigger] acc.expansions@[f] == exp_of(ts, f)
    &&& forall|c: int, f: int| 0 <= c < nc && 0 <= f < n ==> #[trigger] acc.presence@[c]@[f] == pres_of(ts, c, f)
    &&& forall|key: (FileId, FileId)| #[trigger] has_key(acc.children@, key) == has_of(ts, key)
    &&& forall|key: (FileId, FileId)| #[trigger] keyed(acc.children@, key) == kd_of(ts, key)
    &&& acc.total == total_of(ts)
    &&& acc.cycles@ == cycles_of(ts)
    &&& acc.truncated == trunc_of(ts)
}

/// `r` is what `Accum::merge` makes of `a` and `b`.
pub open spec fn merge_of(a: Accum, b: Accum, r: Accum) -> bool {
    let n = a.exclusive@.len();
    let nc = a.presence@.len();
    &&& r.shaped(n, nc)
    &&& forall|f: int| 0 <= f < n ==> #[trigger] r.exclusive@[f] == sat(a.exclusive@[f] + b.exclusive@[f])
    &&& forall|f: int| 0 <= f < n ==> #[trigger] r.expansions@[f] == sat(a.expansions@[f] + b.expansions@[f])
    &&& forall|c: int, f: int|
        0 <= c < nc && 0 <= f < n ==> #[trigger] r.presence@[c]@[f] == sat32(a.presence@[c]@[f] + b.presence@[c]@[f])
    &&& forall|k: (FileId, FileId)|
        #[trigger] has_key(r.children@, k) == (has_key(a.children@, k) || has_key(b.children@, k))
    &&& forall|k: (FileId, FileId)|
        #[trigger] keyed(r.children@, k) == (if has_key(b.children@, k) {
            sat(keyed(a.children@, k) + keyed(b.children@, k))
        } else {
            keyed(a.children@, k)
        })
    &&& r.total == sat(a.total + b.total)
    &&& r.cycles@ == a.cycles@ + b.cycles@
    &&& r.truncated == sat_usize(a.truncated + b.truncated)
}

/// `r` is what `Accum::add` makes of `a` and the table `c` of a TU of config
/// `config`.
pub open spec fn add_of(a: Accum, config: u32, c: TuCosts, r: Accum) -> bool {
    let n = a.exclusive@.len();
    let nc = a.presence@.len();
    &&& r.shaped(n, nc)
    &&& forall|f: int| 0 <= f < n ==> #[trigger] r.exclusive@[f] == sat(a.exclusive@[f] + file_ex(c, f as u32))
    &&& forall|f: int| 0 <= f < n ==> #[trigger] r.expansions@[f] == sat(a.expansions@[f] + file_exp(c, f as u32))
    &&& forall|cc: int, f: int|
        0 <= cc < nc && 0 <= f < n ==> #[trigger] r.presence@[cc]@[f] == (if cc == config
            && c.files@.contains_key(f as u32) {
            sat32(a.presence@[cc]@[f] + 1)
        } else {
            a.presence@[cc]@[f] as int
        })
    &&& forall|k: (FileId, FileId)|
        #[trigger] has_key(r.children@, k) == (has_key(a.children@, k) || has_key(c.children@, k))
    &&& forall|k: (FileId, FileId)|
        #[trigger] keyed(r.children@, k) == (if has_key(c.children@, k) {
            sat(keyed(a.children@, k) + keyed(c.children@, k))
        } else {
            keyed(a.children@, k)
        })
    &&& r.total == sat(a.total + c.total)
    &&& r.cycles@ == a.cycles@ + c.cut_cycles@
    &&& r.truncated == sat_usize(a.truncated + if c.truncated {
        1int
    } else {
        0int
    })
}

/// Everything but the order of the cut cycles agrees between `ts` and `us`.
pub open spec fn totals_agree(ts: Seq<(u32, TuCosts)>, us: Seq<(u32, TuCosts)>) -> bool {
    &&& forall|f: int| #[trigger] ex_of(ts, f) == ex_of(us, f)
    &&& forall|f: int| #[trigger] exp_of(ts, f) == exp_of(us, f)
    &&& forall|c: int, f: int| #[trigger] pres_of(ts, c, f) == pres_of(us, c, f)
    &&& forall|key: (FileId, FileId)| #[trigger] has_of(ts, key) == has_of(us, key)
    &&& forall|key: (FileId, FileId)| #[trigger] kd_of(ts, key) == kd_of(us, key)
    &&& total_of(ts) == total_of(us)
    &&& trunc_of(ts) == trunc_of(us)
    &&& cycles_of(ts).to_multiset() == cycles_of(us).to_multiset()
}

proof fn lemma_keyed_bounds(list: Seq<((FileId, FileId), u64)>, key: (FileId, FileId))
    ensures
        0 <= keyed(list, key) <= u64::MAX,
{
}

proof fn lemma_drop_concat(ts: Seq<(u32, TuCosts)>, us: Seq<(u32, TuCosts)>)
    requires
        us.len() > 0,
    ensures
        (ts + us).drop_last() == ts + us.drop_last(),
        (ts + us).last() == us.last(),
{
    assert((ts + us).drop_last() =~= ts + us.drop_last());
}

proof fn lemma_kd_bounds(ts: Seq<(u32, TuCosts)>, key: (FileId, FileId))
    ensures
        0 <= kd_of(ts, key) <= u64::MAX,
        !has_of(ts, key) ==> kd_of(ts, key) == 0,
    decreases ts.len(),
{
    if ts.len() > 0 {
        lemma_kd_bounds(ts.drop_last(), key);
        lemma_keyed_bounds(ts.last().1.children@, key);
    }
}

/// The totals of a concatenation combine the totals of its halves.
pub proof fn lemma_concat(ts: Seq<(u32, TuCosts)>, us: Seq<(u32, TuCosts)>)
    ensures
        forall|f: int| #[trigger] ex_of(ts + us, f) == sat(ex_of(ts, f) + ex_of(us, f)),
        forall|f: int| #[trigger] exp_of(ts + us, f) == sat(exp_of(ts, f) + exp_of(us, f)),
        forall|c: int, f: int| #[trigger] pres_of(ts + us, c, f) == sat32(pres_of(ts, c, f) + pres_of(us, c, f)),
        forall|key: (FileId, FileId)| #[trigger] has_of(ts + us, key) == (has_of(ts, key) || has_of(us, key)),
        forall|key: (FileId, FileId)|
            #[trigger] kd_of(ts + us, key) == (if has_of(us, key) {
                sat(kd_of(ts, key) + kd_of(us, key))
            } else {
                kd_of(ts, key)
            }),
        total_of(ts + us) == sat(total_of(ts) + total_of(us)),
        cycles_of(ts + us) == cycles_of(ts) + cycles_of(us),
        trunc_of(ts + us) == sat_usize(trunc_of(ts) + trunc_of(us)),
    decreases us.len(),
{
    lemma_bounds(ts);
    if us.len() == 0 {
        assert(ts + us =~= ts);
        assert(cycles_of(ts) + cycles_of(us) =~= cycles_of(ts));
        assert forall|key: (FileId, FileId)| #[trigger] kd_of(ts + us, key) == kd_of(ts, key) by {
            lemma_kd_bounds(ts, key);
        }
    } else {
        let u = us.drop_last();
        let w = ts + u;
        lemma_concat(ts, u);
        lemma_drop_concat(ts, us);
        lemma_bounds(u);
        let t = us.last().1;
        assert forall|f: int| #[trigger] ex_of(ts + us, f) == sat(ex_of(ts, f) + ex_of(us, f)) by {
            assert(ex_of(w, f) == sat(ex_of(ts, f) + ex_of(u, f)));
            assert(0 <= ex_of(ts, f) <= u64::MAX);
            assert(0 <= ex_of(u, f) <= u64::MAX);
        }
        assert forall|f: int| #[trigger] exp_of(ts + us, f) == sat(exp_of(ts, f) + exp_of(us, f)) by {
            assert(exp_of(w, f) == sat(exp_of(ts, f) + exp_of(u, f)));
            assert(0 <= exp_of(ts, f) <= u64::MAX);
            assert(0 <= exp_of(u, f) <= u64::MAX);
        }
        assert forall|c: int, f: int| #[trigger] pres_of(ts + us, c, f) == sat32(
            pres_of(ts, c, f) + pres_of(us, c, f),
        ) by {
            assert(pres_of(w, c, f) == sat32(pres_of(ts, c, f) + pres_of(u, c, f)));
            assert(0 <= pres_of(ts, c, f) <= u32::MAX);
            assert(0 <= pres_of(u, c, f) <= u32::MAX);
        }
        assert forall|key: (FileId, FileId)| #[trigger] has_of(ts + us, key) == (has_of(ts, key) || has_of(
            us,
            key,
        )) by {
            assert(has_of(w, key) == (has_of(ts, key) || has_of(u, key)));
        }
        assert forall|key: (FileId, FileId)| #[trigger] kd_of(ts + us, key) == (if has_of(us, key) {
            sat(kd_of(ts, key) + kd_of(us, key))
        } else {
            kd_of(ts, key)
        }) by {
            assert(kd_of(w, key) == (if has_of(u, key) {
                sat(kd_of(ts, key) + kd_of(u, key))
            } else {
                kd_of(ts, key)
            }));
            lemma_kd_bounds(ts, key);
            lemma_kd_bounds(u, key);
            lemma_keyed_bounds(t.children@, key);
        }
        assert(total_of(w) == sat(total_of(ts) + total_of(u)));
        assert(trunc_of(w) == sat_usize(trunc_of(ts) + trunc_of(u)));
        assert(cycles_of(ts + us) =~= cycles_of(ts) + cycles_of(us));
    }
}

proof fn lemma_bounds(ts: Seq<(u32, TuCosts)>)
    ensures
        forall|f: int| 0 <= #[trigger] ex_of(ts, f) <= u64::MAX,
        forall|f: int| 0 <= #[trigger] exp_of(ts, f) <= u64::MAX,
        forall|c: int, f: int| 0 <= #[trigger] pres_of(ts, c, f) <= u32::MAX,
        0 <= total_of(ts) <= u64::MAX,
        0 <= trunc_of(ts) <= usize::MAX,
    decreases ts.len(),
{
    if ts.len() > 0 {
        let t = ts.drop_last();
        lemma_bounds(t);
        assert forall|f: int| 0 <= #[trigger] ex_of(ts, f) <= u64::MAX by {
            assert(0 <= ex_of(t, f) <= u64::MAX);
        }
        assert forall|f: int| 0 <= #[trigger] exp_of(ts, f) <= u64::MAX by {
            assert(0 <= exp_of(t, f) <= u64::MAX);
        }
        assert forall|c: int, f: int| 0 <= #[trigger] pres_of(ts, c, f) <= u32::MAX by {
            assert(0 <= pres_of(t, c, f) <= u32::MAX);
        }
    }
}

/// Merging the accumulators of two lists of tables gives the accumulator of
/// their concatenation.
pub proof fn lemma_merge_is_concat(
    a: Accum,
    b: Accum,
    r: Accum,
    ts: Seq<(u32, TuCosts)>,
    us: Seq<(u32, TuCosts)>,
    n: nat,
    nc: nat,
)
    requires
        acc_matches(a, ts, n, nc),
        acc_matches(b, us, n, nc),
        merge_of(a, b, r),
    ensures
        acc_matches(r, ts + us, n, nc),
{
    lemma_concat(ts, us);
    assert forall|key: (FileId, FileId)| #[trigger] keyed(r.children@, key) == kd_of(ts + us, key) by {
        assert(has_key(b.children@, key) == has_of(us, key));
    }
}

/// An accumulator with nothing added holds the totals of no tables.
pub proof fn lemma_empty_matches(a: Accum, n: nat, nc: nat)
    requires
        a.shaped(n, nc),
        forall|f: int| 0 <= f < n ==> a.exclusive@[f] == 0 && a.expansions@[f] == 0,
        forall|c: int, f: int| 0 <= c < nc && 0 <= f < n ==> #[trigger] a.presence@[c]@[f] == 0,
        a.children@.len() == 0,
        a.total == 0,
        a.cycles@.len() == 0,
        a.truncated == 0,
    ensures
        acc_matches(a, Seq::empty(), n, nc),
{
    assert(a.cycles@ =~= cycles_of(Seq::empty()));
}

/// Adding one table to an accumulator extends the tables it holds the
/// totals of.
pub proof fn lemma_add_extends(a: Accum, config: u32, c: TuCosts, r: Accum, ts: Seq<(u32, TuCosts)>, n: nat, nc: nat)
    requires
        acc_matches(a, ts, n, nc),
        add_of(a, config, c, r),
    ensures
        acc_matches(r, ts.push((config, c)), n, nc),
{
    let us = ts.push((config, c));
    assert(us.drop_last() =~= ts);
    assert forall|f: int| 0 <= f < n implies #[trigger] r.exclusive@[f] == ex_of(us, f) by {}
    assert forall|f: int| 0 <= f < n implies #[trigger] r.expansions@[f] == exp_of(us, f) by {}
    assert forall|cc: int, f: int| 0 <= cc < nc && 0 <= f < n implies #[trigger] r.presence@[cc]@[f] == pres_of(
        us,
        cc,
        f,
    ) by {}
    assert forall|key: (FileId, FileId)| #[trigger] has_key(r.children@, key) == has_of(us, key) by {}
    assert forall|key: (FileId, FileId)| #[trigger] keyed(r.children@, key) == kd_of(us, key) by {}
    assert(r.cycles@ =~= cycles_of(us));
}

/// Swapping the two halves of the tables changes no total, and the cut
/// cycles only in their order.
pub proof fn lemma_order_free(ts: Seq<(u32, TuCosts)>, us: Seq<(u32, TuCosts)>)
    ensures
        totals_agree(ts + us, us + ts),
{
    lemma_concat(ts, us);
    lemma_concat(us, ts);
    lemma_bounds(ts);
    lemma_bounds(us);
    assert forall|f: int| #[trigger] ex_of(ts + us, f) == ex_of(us + ts, f) by {
        assert(ex_of(ts + us, f) == sat(ex_of(ts, f) + ex_of(us, f)));
        assert(ex_of(us + ts, f) == sat(ex_of(us, f) + ex_of(ts, f)));
    }
    assert forall|f: int| #[trigger] exp_of(ts + us, f) == exp_of(us + ts, f) by {
        assert(exp_of(ts + us, f) == sat(exp_of(ts, f) + exp_of(us, f)));
        assert(exp_of(us + ts, f) == sat(exp_of(us, f) + exp_of(ts, f)));
    }
    assert forall|c: int, f: int| #[trigger] pres_of(ts + us, c, f) == pres_of(us + ts, c, f) by {
        assert(pres_of(ts + us, c, f) == sat32(pres_of(ts, c, f) + pres_of(us, c, f)));
        assert(pres_of(us + ts, c, f) == sat32(pres_of(us, c, f) + pres_of(ts, c, f)));
    }
    assert forall|key: (FileId, FileId)| #[trigger] has_of(ts + us, key) == has_of(us + ts, key) by {
        assert(has_of(ts + us, key) == (has_of(ts, key) || has_of(us, key)));
        assert(has_of(us + ts, key) == (has_of(us, key) || has_of(ts, key)));
    }
    assert forall|key: (FileId, FileId)| #[trigger] kd_of(ts + us, key) == kd_of(us + ts, key) by {
        lemma_kd_bounds(ts, key);
        lemma_kd_bounds(us, key);
        assert(kd_of(ts + us, key) == (if has_of(us, key) {
            sat(kd_of(ts, key) + kd_of(us, key))
        } else {
            kd_of(ts, key)
        }));
        assert(kd_of(us + ts, key) == (if has_of(ts, key) {
            sat(kd_of(us, key) + kd_of(ts, key))
        } else {
            kd_of(us, key)
        }));
    }
    let a = cycles_of(ts);
    let b = cycles_of(us);
    vstd::seq_lib::lemma_multiset_commutative(a, b);
    vstd::seq_lib::lemma_multiset_commutative(b, a);
    assert(a.to_multiset().add(b.to_multiset()) =~= b.to_multiset().add(a.to_multiset()));
    assert(cycles_of(ts + us).to_multiset() == cycles_of(us + ts).to_multiset());
    assert(total_of(ts + us) == total_of(us + ts));
    assert(trunc_of(ts + us) == trunc_of(us + ts));
}

proof fn lemma_agree_trans(ts: Seq<(u32, TuCosts)>, us: Seq<(u32, TuCosts)>, vs: Seq<(u32, TuCosts)>)
    requires
        totals_agree(ts, us),
        totals_agree(us, vs),
    ensures
        totals_agree(ts, vs),
        totals_agree(vs, ts),
{
    assert forall|f: int| #[trigger] ex_of(ts, f) == ex_of(vs, f) by {
        assert(ex_of(ts, f) == ex_of(us, f));
    }
    assert forall|f: int| #[trigger] exp_of(ts, f) == exp_of(vs, f) by {
        assert(exp_of(ts, f) == exp_of(us, f));
    }
    assert forall|c: int, f: int| #[trigger] pres_of(ts, c, f) == pres_of(vs, c, f) by {
        assert(pres_of(ts, c, f) == pres_of(us, c, f));
    }
    assert forall|key: (FileId, FileId)| #[trigger] has_of(ts, key) == has_of(vs, key) by {
        assert(has_of(ts, key) == has_of(us, key));
    }
    assert forall|key: (FileId, FileId)| #[trigger] kd_of(ts, key) == kd_of(vs, key) by {
        assert(kd_of(ts, key) == kd_of(us, key));
    }
}

/// Agreeing tables still agree with the same tables added before or after.
proof fn lemma_agree_append(ts: Seq<(u32, TuCosts)>, us: Seq<(u32, TuCosts)>, vs: Seq<(u32, TuCosts)>)
    requires
        totals_agree(ts, us),
    ensures
        totals_agree(ts + vs, us + vs),
        totals_agree(vs + ts, vs + us),
{
    broadcast use vstd::seq_lib::group_to_multiset_ensures;

    lemma_concat(ts, vs);
    lemma_concat(us, vs);
    lemma_concat(vs, ts);
    lemma_concat(vs, us);
    assert forall|f: int| #[trigger] ex_of(ts + vs, f) == ex_of(us + vs, f) && ex_of(vs + ts, f) == ex_of(vs + us, f) by {
        assert(ex_of(ts, f) == ex_of(us, f));
    }
    assert forall|f: int| #[trigger] exp_of(ts + vs, f) == exp_of(us + vs, f) && exp_of(vs + ts, f) == exp_of(vs + us, f) by {
        assert(exp_of(ts, f) == exp_of(us, f));
    }
    assert forall|c: int, f: int| #[trigger] pres_of(ts + vs, c, f) == pres_of(us + vs, c, f) && pres_of(vs + ts, c, f)
        == pres_of(vs + us, c, f) by {
        assert(pres_of(ts, c, f) == pres_of(us, c, f));
    }
    assert forall|key: (FileId, FileId)| #[trigger] has_of(ts + vs, key) == has_of(us + vs, key) && has_of(vs + ts, key)
        == has_of(vs + us, key) by {
        assert(has_of(ts, key) == has_of(us, key));
    }
    assert forall|key: (FileId, FileId)| #[trigger] kd_of(ts + vs, key) == kd_of(us + vs, key) && kd_of(vs + ts, key)
        == kd_of(vs + us, key) by {
        assert(kd_of(ts, key) == kd_of(us, key));
        assert(has_of(ts, key) == has_of(us, key));
    }
    assert forall|f: int| #[trigger] ex_of(vs + ts, f) == ex_of(vs + us, f) by {
        assert(ex_of(vs + ts, f) == ex_of(vs + us, f) && ex_of(ts + vs, f) == ex_of(us + vs, f));
    }
    assert forall|f: int| #[trigger] exp_of(vs + ts, f) == exp_of(vs + us, f) by {
        assert(exp_of(vs + ts, f) == exp_of(vs + us, f) && exp_of(ts + vs, f) == exp_of(us + vs, f));
    }
    assert forall|c: int, f: int| #[trigger] pres_of(vs + ts, c, f) == pres_of(vs + us, c, f) by {
        assert(pres_of(vs + ts, c, f) == pres_of(vs + us, c, f) && pres_of(ts + vs, c, f) == pres_of(us + vs, c, f));
    }
    assert forall|key: (FileId, FileId)| #[trigger] has_of(vs + ts, key) == has_of(vs + us, key) by {
        assert(has_of(vs + ts, key) == has_of(vs + us, key) && has_of(ts + vs, key) == has_of(us + vs, key));
    }
    assert forall|key: (FileId, FileId)| #[trigger] kd_of(vs + ts, key) == kd_of(vs + us, key) by {
        assert(kd_of(vs + ts, key) == kd_of(vs + us, key) && kd_of(ts + vs, key) == kd_of(us + vs, key));
    }
    vstd::seq_lib::lemma_multiset_commutative(cycles_of(ts), cycles_of(vs));
    vstd::seq_lib::lemma_multiset_commutative(cycles_of(us), cycles_of(vs));
    vstd::seq_lib::lemma_multiset_commutative(cycles_of(vs), cycles_of(ts));
    vstd::seq_lib::lemma_multiset_commutative(cycles_of(vs), cycles_of(us));
}

/// The totals depend only on which tables were added, not on their order:
/// tables that are a permutation of each other agree on every total, and
/// their cut cycles differ only in order.
pub proof fn lemma_permutation_free(ts: Seq<(u32, TuCosts)>, us: Seq<(u32, TuCosts)>)
    requires
        ts.to_multiset() == us.to_multiset(),
    ensures
        totals_agree(ts, us),
    decreases ts.len(),
{
    broadcast use vstd::seq_lib::group_to_multiset_ensures;

    if ts.len() == 0 {
        assert(ts.to_multiset().len() == ts.len());
        assert(us.to_multiset().len() == us.len());
        assert(ts =~= us);
    } else {
        let x = ts.last();
        let t0 = ts.drop_last();
        assert(ts =~= t0.push(x));
        assert(ts.to_multiset().count(x) > 0);
        assert(us.contains(x));
        let k = choose|k: int| 0 <= k < us.len() && us[k] == x;
        let a = us.subrange(0, k);
        let b = us.subrange(k + 1, us.len() as int);
        assert(us.remove(k) =~= a + b);
        assert(us.remove(k).to_multiset() =~= us.to_multiset().remove(x));
        assert(t0.to_multiset() =~= ts.to_multiset().remove(x));
        lemma_permutation_free(t0, a + b);
        lemma_agree_append(t0, a + b, seq![x]);
        assert(t0 + seq![x] =~= ts);
        assert((a + b) + seq![x] =~= a + (b + seq![x]));
        lemma_order_free(seq![x], b);
        lemma_agree_append(seq![x] + b, b + seq![x], a);
        assert(us =~= a + (seq![x] + b));
        lemma_agree_trans(ts, a + (b + seq![x]), a + (seq![x] + b));
    }
}

/// The first `k` tables of `cs`, each with the config of its TU in `p`.
pub open spec fn tables(p: Project, cs: Seq<TuCosts>, k: int) -> Seq<(u32, TuCosts)> {
    Seq::new(k as nat, |i: int| (p.tus@[i].config, cs[i]))
}

proof fn lemma_folds_are_tables(p: Project, cs: Seq<TuCosts>, k: int)
    requires
        0 <= k,
    ensures
        forall|f: int| #[trigger] ex_fold(cs, f, k) == ex_of(tables(p, cs, k), f),
        forall|f: int| #[trigger] exp_fold(cs, f, k) == exp_of(tables(p, cs, k), f),
        forall|c: int, f: int| #[trigger] pres_fold(p, cs, c, f, k) == pres_of(tables(p, cs, k), c, f),
        forall|key: (FileId, FileId)| #[trigger] has_fold(cs, key, k) == has_of(tables(p, cs, k), key),
        forall|key: (FileId, FileId)| #[trigger] kd_fold(cs, key, k) == kd_of(tables(p, cs, k), key),
        total_fold(cs, k) == total_of(tables(p, cs, k)),
        cycles_fold(cs, k) == cycles_of(tables(p, cs, k)),
        trunc_fold(cs, k) == trunc_of(tables(p, cs, k)),
    decreases k,
{
    let t = tables(p, cs, k);
    if k > 0 {
        lemma_folds_are_tables(p, cs, k - 1);
        assert(t.drop_last() =~= tables(p, cs, k - 1));
        assert(t.last() == (p.tus@[k - 1].config, cs[k - 1]));
        assert forall|f: int| #[trigger] ex_fold(cs, f, k) == ex_of(t, f) by {
            assert(ex_fold(cs, f, k - 1) == ex_of(tables(p, cs, k - 1), f));
        }
        assert forall|f: int| #[trigger] exp_fold(cs, f, k) == exp_of(t, f) by {
            assert(exp_fold(cs, f, k - 1) == exp_of(tables(p, cs, k - 1), f));
        }
        assert forall|c: int, f: int| #[trigger] pres_fold(p, cs, c, f, k) == pres_of(t, c, f) by {
            assert(pres_fold(p, cs, c, f, k - 1) == pres_of(tables(p, cs, k - 1), c, f));
        }
        assert forall|key: (FileId, FileId)| #[trigger] has_fold(cs, key, k) == has_of(t, key) by {
            assert(has_fold(cs, key, k - 1) == has_of(tables(p, cs, k - 1), key));
        }
        assert forall|key: (FileId, FileId)| #[trigger] kd_fold(cs, key, k) == kd_of(t, key) by {
            assert(kd_fold(cs, key, k - 1) == kd_of(tables(p, cs, k - 1), key));
        }
    } else {
        assert(cycles_of(t) =~= cycles_fold(cs, k));
    }
}

/// The accumulator that `analyze` builds over the TUs in order holds the
/// totals of the TUs' tables in that order.
pub proof fn lemma_sequential_matches(p: Project, cs: Seq<TuCosts>, acc: Accum, k: int)
    requires
        0 <= k,
        folds_match(p, cs, acc, k),
    ensures
        acc_matches(acc, tables(p, cs, k), p.paths@.len(), p.configs@.len()),
{
    lemma_folds_are_tables(p, cs, k);
}

// ---------------------------------------------------------------------------
// The report does not depend on the order of the tables either.
// ---------------------------------------------------------------------------
/// Each candidate child occurs once.
pub open spec fn ids_unique(cand: Seq<(u32, u64)>) -> bool {
    forall|i: int, j: int| 0 <= i < cand.len() && 0 <= j < cand.len() && i != j ==> (#[trigger] cand[i]).0 != (#[trigger] cand[j]).0
}

proof fn lemma_children_of_has(list: Seq<((FileId, FileId), u64)>, f: u32, n: int, e: (u32, u64))
    ensures
        children_of(list, f, n).contains(e) <==> exists|k: int|
            0 <= k < list.len() && #[trigger] list[k] == ((f, e.0), e.1) && (e.0 as int) < n,
    decreases list.len(),
{
    if list.len() > 0 {
        let l0 = list.drop_last();
        let r = children_of(l0, f, n);
        let last = list.last();
        let c = children_of(list, f, n);
        lemma_children_of_has(l0, f, n, e);
        if c.contains(e) {
            let i = choose|i: int| 0 <= i < c.len() && c[i] == e;
            if i < r.len() {
                assert(c[i] == r[i]);
                assert(r.contains(e));
                let k = choose|k: int| 0 <= k < l0.len() && #[trigger] l0[k] == ((f, e.0), e.1) && (e.0 as int) < n;
                assert(list[k] == l0[k]);
            } else {
                assert(list[list.len() - 1] == ((f, e.0), e.1));
            }
        }
        if exists|k: int| 0 <= k < list.len() && #[trigger] list[k] == ((f, e.0), e.1) && (e.0 as int) < n {
            let k = choose|k: int| 0 <= k < list.len() && #[trigger] list[k] == ((f, e.0), e.1) && (e.0 as int) < n;
            if k < l0.len() {
                assert(l0[k] == list[k]);
                assert(r.contains(e));
                let i = choose|i: int| 0 <= i < r.len() && r[i] == e;
                if last.0.0 == f && last.0.1 < n {
                    assert(c[i] == r[i]);
                }
            } else {
                assert(c[r.len() as int] == e);
            }
        }
    }
}

proof fn lemma_children_of_unique(list: Seq<((FileId, FileId), u64)>, f: u32, n: int)
    requires
        keys_unique(list),
    ensures
        ids_unique(children_of(list, f, n)),
    decreases list.len(),
{
    if list.len() > 0 {
        let l0 = list.drop_last();
        let r = children_of(l0, f, n);
        let last = list.last();
        assert forall|a: int, b: int| 0 <= a < l0.len() && 0 <= b < l0.len() && a != b implies (#[trigger] l0[a]).0
            != (#[trigger] l0[b]).0 by {
            assert(l0[a] == list[a] && l0[b] == list[b]);
        }
        lemma_children_of_unique(l0, f, n);
        if last.0.0 == f && last.0.1 < n {
            let c = children_of(list, f, n);
            assert forall|i: int, j: int| 0 <= i < c.len() && 0 <= j < c.len() && i != j implies (#[trigger] c[i]).0
                != (#[trigger] c[j]).0 by {
                if i < r.len() && j < r.len() {
                    assert(c[i] == r[i] && c[j] == r[j]);
                } else if i < r.len() || j < r.len() {
                    let m = if i < r.len() {
                        i
                    } else {
                        j
                    };
                    assert(c[m] == r[m]);
                    assert(r.contains(r[m]));
                    lemma_children_of_has(l0, f, n, r[m]);
                    let k = choose|k: int| 0 <= k < l0.len() && #[trigger] l0[k] == ((f, r[m].0), r[m].1) && (r[m].0 as int) < n;
                    assert(list[k] == l0[k]);
                    assert(list[k].0 != list[list.len() - 1].0);
                }
            }
        }
    }
}

/// Two keyed lists with the same entries give every file the same
/// candidate children.
proof fn lemma_same_children(l1: Seq<((FileId, FileId), u64)>, l2: Seq<((FileId, FileId), u64)>, f: u32, n: int, e: (u32, u64))
    requires
        keys_unique(l1),
        keys_unique(l2),
        forall|key: (FileId, FileId)| #[trigger] has_key(l1, key) == has_key(l2, key),
        forall|key: (FileId, FileId)| #[trigger] keyed(l1, key) == keyed(l2, key),
        children_of(l1, f, n).contains(e),
    ensures
        children_of(l2, f, n).contains(e),
{
    lemma_children_of_has(l1, f, n, e);
    lemma_children_of_has(l2, f, n, e);
    let key = (f, e.0);
    let k = choose|k: int| 0 <= k < l1.len() && #[trigger] l1[k] == ((f, e.0), e.1) && (e.0 as int) < n;
    lemma_keyed_at(l1, k);
    assert(has_key(l2, key) == has_key(l1, key));
    let k2 = choose|k2: int| 0 <= k2 < l2.len() && (#[trigger] l2[k2]).0 == key;
    lemma_keyed_at(l2, k2);
    assert(keyed(l2, key) == keyed(l1, key));
    assert(l2[k2] == ((f, e.0), e.1));
}

/// A choice of carried children among some candidates is one among any
/// candidates with the same members.
proof fn lemma_picks_transfer(p: Project, c1: Seq<(u32, u64)>, c2: Seq<(u32, u64)>, sel1: Seq<int>, carries: Seq<(String, u64)>) -> (sel2: Seq<int>)
    requires
        ids_unique(c1),
        ids_unique(c2),
        forall|e: (u32, u64)| #[trigger] c1.contains(e) <==> c2.contains(e),
        picks(p, c1, sel1, carries),
    ensures
        picks(p, c2, sel2, carries),
        c1.len() == c2.len(),
{
    assert(c1.no_duplicates()) by {
        assert forall|i: int, j: int| 0 <= i < c1.len() && 0 <= j < c1.len() && i != j implies c1[i] != c1[j] by {
            assert(c1[i].0 != c1[j].0);
        }
    }
    assert(c2.no_duplicates()) by {
        assert forall|i: int, j: int| 0 <= i < c2.len() && 0 <= j < c2.len() && i != j implies c2[i] != c2[j] by {
            assert(c2[i].0 != c2[j].0);
        }
    }
    assert forall|e: (u32, u64)| c1.to_set().contains(e) == c2.to_set().contains(e) by {
        assert(c1.to_set().contains(e) == c1.contains(e));
        assert(c2.to_set().contains(e) == c2.contains(e));
    }
    assert(c1.to_set() =~= c2.to_set());
    c1.unique_seq_to_set();
    c2.unique_seq_to_set();
    let sel2 = Seq::new(sel1.len(), |i: int| choose|k: int| 0 <= k < c2.len() && c2[k] == c1[sel1[i]]);
    assert forall|i: int| 0 <= i < sel1.len() implies 0 <= #[trigger] sel2[i] < c2.len() && c2[sel2[i]] == c1[sel1[i]] by {
        assert(0 <= sel1[i] < c1.len());
        assert(c1.contains(c1[sel1[i]]));
        assert(c2.contains(c1[sel1[i]]));
    }
    assert(sel2.no_duplicates()) by {
        assert forall|i: int, j: int| 0 <= i < sel2.len() && 0 <= j < sel2.len() && i != j implies sel2[i] != sel2[j] by {
            assert(sel1[i] != sel1[j]);
            assert(c2[sel2[i]] == c1[sel1[i]]);
            assert(c2[sel2[j]] == c1[sel1[j]]);
            assert(c1[sel1[i]].0 != c1[sel1[j]].0);
        }
    }
    assert forall|i: int| 0 <= i < sel2.len() implies 0 <= #[trigger] sel2[i] < c2.len() && carries[i].0@
        == p.paths@[c2[sel2[i]].0 as int]@ && carries[i].1 == c2[sel2[i]].1 by {
        assert(0 <= sel1[i] < c1.len());
    }
    assert forall|i: int, j: int| 0 <= i < j < sel2.len() implies !crate::order::ranks_before(
        crate::summary::child_key(p, c2[#[trigger] sel2[j]]),
        crate::summary::child_key(p, c2[#[trigger] sel2[i]]),
    ) by {
        assert(c2[sel2[i]] == c1[sel1[i]]);
        assert(c2[sel2[j]] == c1[sel1[j]]);
        assert(!crate::order::ranks_before(
            crate::summary::child_key(p, c1[sel1[j]]),
            crate::summary::child_key(p, c1[sel1[i]]),
        ));
    }
    assert forall|k: int, i: int| 0 <= k < c2.len() && !sel2.contains(k) && 0 <= i < sel2.len() implies !crate::order::ranks_before(
        crate::summary::child_key(p, #[trigger] c2[k]),
        crate::summary::child_key(p, c2[#[trigger] sel2[i]]),
    ) by {
        assert(c2.contains(c2[k]));
        assert(c1.contains(c2[k]));
        let k1 = choose|k1: int| 0 <= k1 < c1.len() && c1[k1] == c2[k];
        if sel1.contains(k1) {
            let m = choose|m: int| 0 <= m < sel1.len() && sel1[m] == k1;
            assert(c2[sel2[m]] == c1[sel1[m]]);
            if sel2[m] != k {
                assert(c2[sel2[m]].0 != c2[k].0);
            }
            assert(sel2[m] == k);
        }
        assert(c2[sel2[i]] == c1[sel1[i]]);
        assert(!crate::order::ranks_before(crate::summary::child_key(p, c1[k1]), crate::summary::child_key(p, c1[sel1[i]])));
    }
    sel2
}

proof fn lemma_upto_same(p: Project, a1: Accum, a2: Accum, f: int, c: int)
    requires
        forall|cc: int| 0 <= cc < c ==> #[trigger] a1.presence@[cc]@[f] == a2.presence@[cc]@[f],
    ensures
        inclusive_upto(p, a1, f, c) == inclusive_upto(p, a2, f, c),
        tus_upto(a1, f, c) == tus_upto(a2, f, c),
    decreases c,
{
    if c > 0 {
        lemma_upto_same(p, a1, a2, f, c - 1);
        assert(a1.presence@[c - 1]@[f] == a2.presence@[c - 1]@[f]);
    }
}

proof fn lemma_cycles_transfer(p: Project, c1: Seq<(FileId, FileId)>, c2: Seq<(FileId, FileId)>, out: Seq<(String, String)>)
    requires
        forall|x: (FileId, FileId)| #[trigger] c1.contains(x) <==> c2.contains(x),
        cycles_ok(p, c1, out),
    ensures
        cycles_ok(p, c2, out),
{
    assert forall|i: int| 0 <= i < out.len() implies crate::summary::cycle_entry(p, c2, #[trigger] out[i]) by {
        assert(crate::summary::cycle_entry(p, c1, out[i]));
        let k = choose|k: int|
            0 <= k < c1.len() && #[trigger] cycle_valid(p, c1, k) && out[i].0@ == p.paths@[c1[k].0 as int]@ && out[i].1@
                == p.paths@[c1[k].1 as int]@;
        assert(c1.contains(c1[k]));
        let k2 = choose|k2: int| 0 <= k2 < c2.len() && c2[k2] == c1[k];
        assert(cycle_valid(p, c2, k2));
    }
    assert forall|k: int| 0 <= k < c2.len() && #[trigger] cycle_valid(p, c2, k) implies exists|i: int|
        0 <= i < out.len() && pair_key((#[trigger] out[i]).0@, out[i].1@) == pair_key(
            p.paths@[c2[k].0 as int]@,
            p.paths@[c2[k].1 as int]@,
        ) by {
        assert(c2.contains(c2[k]));
        assert(c1.contains(c2[k]));
        let k1 = choose|k1: int| 0 <= k1 < c1.len() && c1[k1] == c2[k];
        assert(cycle_valid(p, c1, k1));
    }
}

/// A header reported from one accumulator is reported the same way from
/// another that holds the same totals.
proof fn lemma_header_transfer(p: Project, max: int, a1: Accum, a2: Accum, f: int, h: crate::summary::HeaderCost)
    requires
        a1.shaped(p.paths@.len(), p.configs@.len()),
        a2.shaped(p.paths@.len(), p.configs@.len()),
        0 <= f < p.paths@.len(),
        a1.exclusive@[f] == a2.exclusive@[f],
        a1.expansions@[f] == a2.expansions@[f],
        forall|cc: int| 0 <= cc < p.configs@.len() ==> #[trigger] a1.presence@[cc]@[f] == a2.presence@[cc]@[f],
        forall|key: (FileId, FileId)| #[trigger] has_key(a1.children@, key) == has_key(a2.children@, key),
        forall|key: (FileId, FileId)| #[trigger] keyed(a1.children@, key) == keyed(a2.children@, key),
        header_ok(p, a1, max, f, h),
    ensures
        header_ok(p, a2, max, f, h),
{
    let n = p.paths@.len() as int;
    lemma_upto_same(p, a1, a2, f, p.configs@.len() as int);
    let c1 = children_of(a1.children@, f as u32, n);
    let c2 = children_of(a2.children@, f as u32, n);
    lemma_children_of_unique(a1.children@, f as u32, n);
    lemma_children_of_unique(a2.children@, f as u32, n);
    assert forall|e: (u32, u64)| #[trigger] c1.contains(e) <==> c2.contains(e) by {
        if c1.contains(e) {
            lemma_same_children(a1.children@, a2.children@, f as u32, n, e);
        }
        if c2.contains(e) {
            lemma_same_children(a2.children@, a1.children@, f as u32, n, e);
        }
    }
    let sel1 = choose|sel: Seq<int>| #[trigger] picks(p, c1, sel, h.carries@);
    let sel2 = lemma_picks_transfer(p, c1, c2, sel1, h.carries@);
    assert(carries_ok(p, c2, max, h.carries@));
}

/// How the TUs were shared among workers, and in which order the workers'
/// totals were merged, does not change the report: accumulators of tables
/// that are a permutation of each other admit exactly the same reports.
pub proof fn lemma_report_order_free(
    p: Project,
    max: int,
    ts: Seq<(u32, TuCosts)>,
    us: Seq<(u32, TuCosts)>,
    a1: Accum,
    a2: Accum,
    r: crate::summary::Analysis,
)
    requires
        ts.to_multiset() == us.to_multiset(),
        acc_matches(a1, ts, p.paths@.len(), p.configs@.len()),
        acc_matches(a2, us, p.paths@.len(), p.configs@.len()),
        summary_ok(p, max, a1, r),
    ensures
        summary_ok(p, max, a2, r),
{
    broadcast use vstd::seq_lib::group_to_multiset_ensures;

    lemma_permutation_free(ts, us);
    let n = p.paths@.len() as int;
    let nc = p.configs@.len() as int;
    let sel = choose|sel: Seq<int>| #[trigger] header_pick(p, a1, max, sel, r.headers@);
    let hs = r.headers@;
    assert forall|key: (FileId, FileId)| #[trigger] has_key(a1.children@, key) == has_key(a2.children@, key) by {
        assert(has_of(ts, key) == has_of(us, key));
    }
    assert forall|key: (FileId, FileId)| #[trigger] keyed(a1.children@, key) == keyed(a2.children@, key) by {
        assert(kd_of(ts, key) == kd_of(us, key));
    }
    assert forall|f: int| 0 <= f < n implies #[trigger] a1.expansions@[f] == a2.expansions@[f] by {
        assert(exp_of(ts, f) == exp_of(us, f));
    }
    assert forall|i: int| 0 <= i < sel.len() implies 0 <= #[trigger] sel[i] < n && a2.expansions@[sel[i]] > 0
        && header_ok(p, a2, max, sel[i], hs[i]) by {
        let f = sel[i];
        assert(0 <= f < n && a1.expansions@[f] > 0 && header_ok(p, a1, max, f, hs[i]));
        assert(ex_of(ts, f) == ex_of(us, f));
        assert forall|cc: int| 0 <= cc < nc implies #[trigger] a1.presence@[cc]@[f] == a2.presence@[cc]@[f] by {
            assert(pres_of(ts, cc, f) == pres_of(us, cc, f));
        }
        lemma_header_transfer(p, max, a1, a2, f, hs[i]);
    }
    assert forall|f: int| 0 <= f < n && #[trigger] a2.expansions@[f] > 0 implies sel.contains(f) by {
        assert(a1.expansions@[f] > 0);
    }
    assert(header_pick(p, a2, max, sel, hs));
    assert forall|x: (FileId, FileId)| #[trigger] a1.cycles@.contains(x) <==> a2.cycles@.contains(x) by {
        assert(a1.cycles@.to_multiset().count(x) == a2.cycles@.to_multiset().count(x));
    }
    lemma_cycles_transfer(p, a1.cycles@, a2.cycles@, r.unguarded_cycles@);
}

} // verus!
