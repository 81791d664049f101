//! Incremental operators: count-by-key and the co-occurrence self-join.
//!
//! Both operators propagate deltas instead of recomputing.  Count-by-key
//! updates exactly the items a batch mentions, each by the batch's own
//! net count, without rescanning the interaction store.  The self-join
//! folds every applied diff into the co-occurrence state through the
//! arranged (user-sorted) store: a diff on (user, item) moves only the
//! pairs joining that item with the user's other items, each by the
//! diff's multiplicity times the partner multiplicity — the bilinear
//! join delta.

use vstd::prelude::*;

use crate::keys::{hi_of, lemma_pair_key, lo_of, pack_pair, pair_key};
use crate::kv::{kv_get, kv_has, kv_has_key, kv_insert_new, kv_maps, kv_set, kv_sorted, Kv};
use crate::store::cooc_shift;
use crate::model::{
    abs_of, cooc_count, count_upto, item_count, lemma_cooc_upto_bound, lemma_count_upto_bound,
    lemma_count_upto_witness, lemma_weight_upto_nonneg, mult_upto, row_mult, store_wf,
    total_weight, weight_upto, InputRow,
};
use crate::store::{mult_value, MAX_TOTAL_WEIGHT};

verus! {

/// The item-count state is correct for the interaction store `s`: an
/// entry per item with nonzero net count, and nothing else.
pub open spec fn counts_ok(st: Seq<Kv>, s: Seq<InputRow>) -> bool {
    &&& kv_sorted(st)
    &&& forall|k: u64, v: i64|
        #[trigger] kv_maps(st, k, v) <==> ((k as int) < 0x1_0000_0000 && v != 0 && item_count(
            s,
            k as int,
        ) == v as int)
}

/// The co-occurrence state is correct for the interaction store `s`: an
/// entry per packed canonical pair with nonzero co-occurrence count.
pub open spec fn cooc_ok(st: Seq<Kv>, s: Seq<InputRow>) -> bool {
    &&& kv_sorted(st)
    &&& forall|k: u64, v: i64|
        #[trigger] kv_maps(st, k, v) <==> (v != 0 && cooc_count(s, hi_of(k as int), lo_of(k as int))
            == v as int)
}

/// A lookup in a correct item-count state returns the item's count: the
/// state lists exactly the items with nonzero counts.
pub proof fn lemma_count_lookup(st: Seq<Kv>, s: Seq<InputRow>, it: u32, r: i64)
    requires
        counts_ok(st, s),
        total_weight(s) <= MAX_TOTAL_WEIGHT,
        r as int == crate::kv::val_of(st, it as u64),
        kv_has_key(st, it as u64) ==> kv_maps(st, it as u64, r),
    ensures
        r as int == item_count(s, it as int),
{
    if kv_has_key(st, it as u64) {
        assert(kv_maps(st, it as u64, r));
    } else {
        crate::kv::lemma_kv_absent_val(st, it as u64);
        let m = item_count(s, it as int);
        if m != 0 {
            lemma_count_upto_bound(s, s.len() as int, it as int);
            lemma_weight_upto_nonneg(s, s.len() as int);
            assert(kv_maps(st, it as u64, m as i64));
            let j = choose|j: int|
                0 <= j < st.len() && #[trigger] st[j] == (Kv { key: it as u64, val: m as i64 });
            assert(st[j].key == it as u64);
        }
    }
}

/// Net interaction count of item `it`, by one scan of the consolidated
/// interaction store.
pub fn count_value(base: &Vec<InputRow>, it: u32) -> (r: i64)
    requires
        total_weight(base@) <= MAX_TOTAL_WEIGHT,
    ensures
        r as int == item_count(base@, it as int),
{
    let mut acc: i64 = 0;
    let mut i: usize = 0;
    while i < base.len()
        invariant
            0 <= i <= base.len(),
            total_weight(base@) <= MAX_TOTAL_WEIGHT,
            acc as int == count_upto(base@, i as int, it as int),
        decreases base.len() - i,
    {
        proof {
            lemma_count_upto_bound(base@, i as int, it as int);
            lemma_count_upto_bound(base@, i as int + 1, it as int);
            lemma_weight_upto_nonneg(base@, i as int);
            lemma_weight_upto_nonneg(base@, i as int + 1);
        }
        if base[i].item == it {
            acc = acc + base[i].mult;
        }
        i = i + 1;
    }
    acc
}

/// Copies a derived state.
pub(crate) fn copy_kvs(v: &Vec<Kv>) -> (r: Vec<Kv>)
    ensures
        r@ == v@,
{
    let mut out: Vec<Kv> = Vec::new();
    let mut i: usize = 0;
    while i < v.len()
        invariant
            0 <= i <= v@.len(),
            out@ == v@.subrange(0, i as int),
        decreases v.len() - i,
    {
        out.push(v[i]);
        i = i + 1;
    }
    proof {
        assert(out@ == v@);
    }
    out
}

/// Whether some of the first `i` batch rows mention item `k`.
pub open spec fn batch_touches(b: Seq<InputRow>, i: int, k: u64) -> bool {
    exists|j: int| 0 <= j < i && (#[trigger] b[j]).item as u64 == k
}

/// Delta-driven count-by-key: starting from the previous count state,
/// only the items the batch touches are updated — each new count is the
/// old count plus the batch's net count for that item, read from the
/// batch alone.  The two interaction stores anchor the contract; neither
/// is scanned.
pub fn count_state_delta(
    old_counts: &Vec<Kv>,
    batch: &Vec<InputRow>,
    old_base: &Vec<InputRow>,
    new_base: &Vec<InputRow>,
) -> (r: Vec<Kv>)
    requires
        counts_ok(old_counts@, old_base@),
        total_weight(old_base@) <= MAX_TOTAL_WEIGHT,
        total_weight(new_base@) <= MAX_TOTAL_WEIGHT,
        total_weight(batch@) <= MAX_TOTAL_WEIGHT,
        forall|it: int|
            #[trigger] item_count(new_base@, it) == item_count(old_base@, it) + item_count(
                batch@,
                it,
            ),
    ensures
        counts_ok(r@, new_base@),
{
    let mut acc = copy_kvs(old_counts);
    let mut i: usize = 0;
    while i < batch.len()
        invariant
            0 <= i <= batch.len(),
            counts_ok(old_counts@, old_base@),
            total_weight(old_base@) <= MAX_TOTAL_WEIGHT,
            total_weight(new_base@) <= MAX_TOTAL_WEIGHT,
            total_weight(batch@) <= MAX_TOTAL_WEIGHT,
            forall|it: int|
                #[trigger] item_count(new_base@, it) == item_count(old_base@, it) + item_count(
                    batch@,
                    it,
                ),
            kv_sorted(acc@),
            forall|k: u64, v: i64|
                #[trigger] kv_maps(acc@, k, v) <==> ((k as int) < 0x1_0000_0000 && v != 0
                    && v as int == (if batch_touches(batch@, i as int, k) {
                    item_count(new_base@, k as int)
                } else {
                    item_count(old_base@, k as int)
                })),
        decreases batch.len() - i,
    {
        let it = batch[i].item;
        let oldv = kv_get(old_counts, it as u64);
        proof {
            lemma_count_lookup(old_counts@, old_base@, it, oldv);
            lemma_count_upto_bound(old_base@, old_base@.len() as int, it as int);
            lemma_count_upto_bound(batch@, batch@.len() as int, it as int);
            lemma_count_upto_bound(new_base@, new_base@.len() as int, it as int);
            lemma_weight_upto_nonneg(old_base@, old_base@.len() as int);
            lemma_weight_upto_nonneg(batch@, batch@.len() as int);
            lemma_weight_upto_nonneg(new_base@, new_base@.len() as int);
        }
        let d = count_value(batch, it);
        let nv = oldv + d;
        let ghost acc1 = acc@;
        kv_set(&mut acc, it as u64, nv);
        proof {
            assert(nv as int == item_count(new_base@, it as int));
            assert forall|k: u64, v: i64|
                #[trigger] kv_maps(acc@, k, v) <==> ((k as int) < 0x1_0000_0000 && v != 0
                    && v as int == (if batch_touches(batch@, i as int + 1, k) {
                    item_count(new_base@, k as int)
                } else {
                    item_count(old_base@, k as int)
                })) by {
                if k == it as u64 {
                    assert(batch_touches(batch@, i as int + 1, k)) by {
                        assert((batch@[i as int]).item as u64 == k);
                    }
                } else {
                    assert(batch_touches(batch@, i as int + 1, k) <==> batch_touches(
                        batch@,
                        i as int,
                        k,
                    )) by {
                        if batch_touches(batch@, i as int + 1, k) {
                            let j = choose|j: int|
                                0 <= j < i + 1 && (#[trigger] batch@[j]).item as u64 == k;
                            assert(j < i);
                            assert(batch_touches(batch@, i as int, k));
                        }
                        if batch_touches(batch@, i as int, k) {
                            let j = choose|j: int|
                                0 <= j < i && (#[trigger] batch@[j]).item as u64 == k;
                            assert(batch_touches(batch@, i as int + 1, k));
                        }
                    }
                }
            }
        }
        i = i + 1;
    }
    proof {
        assert forall|k: u64, v: i64|
            #[trigger] kv_maps(acc@, k, v) <==> ((k as int) < 0x1_0000_0000 && v != 0
                && item_count(new_base@, k as int) == v as int) by {
            if !batch_touches(batch@, batch@.len() as int, k) {
                // An untouched item keeps its old count: the batch has no
                // row for it.
                assert(item_count(batch@, k as int) == 0) by {
                    if item_count(batch@, k as int) != 0 {
                        lemma_count_upto_witness(batch@, batch@.len() as int, k as int);
                        let j = choose|j: int|
                            0 <= j < batch@.len() && (#[trigger] batch@[j]).item == k as int;
                        assert((batch@[j]).item as u64 == k);
                        assert(batch_touches(batch@, batch@.len() as int, k));
                    }
                }
            }
        }
    }
    acc
}

/// The canonical packed key of the unordered pair {x, y}: larger item
/// first.
pub open spec fn canon_key(x: int, y: int) -> int {
    if x > y {
        pair_key(x, y)
    } else {
        pair_key(y, x)
    }
}

/// Whether one of the first `j` store rows pairs user `k`'s item with
/// `it` under the packed key `pk`.
pub open spec fn pair_done(s: Seq<InputRow>, j: int, k: int, it: int, pk: u64) -> bool {
    exists|jj: int|
        0 <= jj < j && (#[trigger] s[jj]).key == k && s[jj].item != it && canon_key(
            it,
            s[jj].item as int,
        ) == pk as int
}

/// Folds one applied diff into the co-occurrence state: the delta join.
/// The only pairs that move pair `it` with another item of user `k`, so
/// the pass looks up user `k`'s rows in the arranged store and adjusts
/// exactly those entries, by the diff's multiplicity times the partner
/// multiplicity.  `base1` is the store before the diff, `base2` after.
fn cooc_apply_row(
    cooc: &mut Vec<Kv>,
    base2: &Vec<InputRow>,
    k: u32,
    it: u32,
    d: i64,
    Ghost(base1): Ghost<Seq<InputRow>>,
)
    requires
        cooc_ok(old(cooc)@, base1),
        store_wf(base2@),
        total_weight(base1) <= MAX_TOTAL_WEIGHT,
        total_weight(base2@) <= MAX_TOTAL_WEIGHT,
        abs_of(d as int) <= MAX_TOTAL_WEIGHT,
        forall|a: int, b: int|
            #[trigger] cooc_count(base2@, a, b) == cooc_count(base1, a, b) + crate::store::cooc_shift(
                base2@,
                k as int,
                it as int,
                d as int,
                a,
                b,
            ),
    ensures
        cooc_ok(final(cooc)@, base2@),
{
    let ghost t1 = total_weight(base1);
    let ghost t2 = total_weight(base2@);
    proof {
        lemma_weight_upto_nonneg(base1, base1.len() as int);
        lemma_weight_upto_nonneg(base2@, base2@.len() as int);
        assert(t1 * t1 <= 0x4000_0000_0000_0000 && t2 * t2 <= 0x4000_0000_0000_0000) by (
        nonlinear_arith)
            requires
                0 <= t1 <= 0x8000_0000,
                0 <= t2 <= 0x8000_0000,
        {}
    }
    let mut j: usize = 0;
    while j < base2.len()
        invariant
            0 <= j <= base2.len(),
            store_wf(base2@),
            total_weight(base1) <= MAX_TOTAL_WEIGHT,
            total_weight(base2@) <= MAX_TOTAL_WEIGHT,
            abs_of(d as int) <= MAX_TOTAL_WEIGHT,
            forall|a: int, b: int|
                #[trigger] cooc_count(base2@, a, b) == cooc_count(base1, a, b)
                    + crate::store::cooc_shift(base2@, k as int, it as int, d as int, a, b),
            kv_sorted(cooc@),
            forall|k2: u64, v: i64|
                #[trigger] kv_maps(cooc@, k2, v) <==> (v != 0 && v as int == (if pair_done(
                    base2@,
                    j as int,
                    k as int,
                    it as int,
                    k2,
                ) {
                    cooc_count(base2@, hi_of(k2 as int), lo_of(k2 as int))
                } else {
                    cooc_count(base1, hi_of(k2 as int), lo_of(k2 as int))
                })),
        decreases base2.len() - j,
    {
        let row = base2[j];
        if row.key == k && row.item != it {
            let x = row.item;
            let m = row.mult;
            let (hi, lo) = if x > it {
                (x, it)
            } else {
                (it, x)
            };
            let pk = pack_pair(hi, lo);
            proof {
                lemma_pair_key(hi as int, lo as int);
                crate::model::lemma_store_row_mult(base2@, j as int);
                lemma_cooc_upto_bound(base1, base1.len() as int, hi as int, lo as int);
                lemma_cooc_upto_bound(base2@, base2@.len() as int, hi as int, lo as int);
                lemma_weight_upto_nonneg(base1, base1.len() as int);
                lemma_weight_upto_nonneg(base2@, base2@.len() as int);
                let t1 = total_weight(base1);
                let t2 = total_weight(base2@);
                assert(t1 * t1 <= 0x4000_0000_0000_0000 && t2 * t2 <= 0x4000_0000_0000_0000) by (
                nonlinear_arith)
                    requires
                        0 <= t1 <= 0x8000_0000,
                        0 <= t2 <= 0x8000_0000,
                {}
                crate::model::lemma_row_abs_le_weight(base2@, j as int);
                assert(abs_of((d as int) * (m as int)) == abs_of(d as int) * abs_of(m as int)
                    && abs_of(d as int) * abs_of(m as int) <= 0x8000_0000 * 0x8000_0000) by (
                nonlinear_arith)
                    requires
                        abs_of(d as int) <= 0x8000_0000,
                        abs_of(m as int) <= 0x8000_0000,
                {}
                // No earlier row of user k carries this partner item, so
                // this pair still holds its pre-diff count.
                assert(!pair_done(base2@, j as int, k as int, it as int, pk)) by {
                    if pair_done(base2@, j as int, k as int, it as int, pk) {
                        let jj = choose|jj: int|
                            0 <= jj < j && (#[trigger] base2@[jj]).key == k as int
                                && base2@[jj].item != it && canon_key(
                                it as int,
                                base2@[jj].item as int,
                            ) == pk as int;
                        lemma_pair_key(it as int, base2@[jj].item as int);
                        lemma_pair_key(base2@[jj].item as int, it as int);
                        assert(base2@[jj].item == x);
                        assert(crate::model::row_lt(base2@[jj], base2@[j as int]));
                        assert(false);
                    }
                }
            }
            let cur = kv_get(cooc, pk);
            proof {
                let cc1 = cooc_count(base1, hi as int, lo as int);
                if kv_has_key(cooc@, pk) {
                    assert(kv_maps(cooc@, pk, cur));
                } else {
                    crate::kv::lemma_kv_absent_val(cooc@, pk);
                    if cc1 != 0 {
                        assert(kv_maps(cooc@, pk, cc1 as i64));
                        let y = choose|y: int|
                            0 <= y < cooc@.len() && #[trigger] cooc@[y] == (Kv {
                                key: pk,
                                val: cc1 as i64,
                            });
                        assert(cooc@[y].key == pk);
                        assert(false);
                    }
                }
                assert(cur as int == cc1);
                // The shift for this pair is the diff times this row's
                // multiplicity.
                assert(crate::store::cooc_shift(base2@, k as int, it as int, d as int, hi as int,
                    lo as int) == (d as int) * (m as int));
                assert(cur as int + (d as int) * (m as int) == cooc_count(base2@, hi as int,
                    lo as int));
            }
            let nv = cur + d * m;
            let ghost cooc1 = cooc@;
            kv_set(cooc, pk, nv);
            proof {
                assert forall|k2: u64, v: i64|
                    #[trigger] kv_maps(cooc@, k2, v) <==> (v != 0 && v as int == (if pair_done(
                        base2@,
                        j as int + 1,
                        k as int,
                        it as int,
                        k2,
                    ) {
                        cooc_count(base2@, hi_of(k2 as int), lo_of(k2 as int))
                    } else {
                        cooc_count(base1, hi_of(k2 as int), lo_of(k2 as int))
                    })) by {
                    if k2 == pk {
                        assert(pair_done(base2@, j as int + 1, k as int, it as int, k2)) by {
                            assert((base2@[j as int]).key == k as int && base2@[j as int].item
                                != it && canon_key(it as int, base2@[j as int].item as int)
                                == pk as int);
                        }
                    } else {
                        assert(pair_done(base2@, j as int + 1, k as int, it as int, k2)
                            <==> pair_done(base2@, j as int, k as int, it as int, k2)) by {
                            if pair_done(base2@, j as int + 1, k as int, it as int, k2) {
                                let jj = choose|jj: int|
                                    0 <= jj < j + 1 && (#[trigger] base2@[jj]).key == k as int
                                        && base2@[jj].item != it && canon_key(
                                        it as int,
                                        base2@[jj].item as int,
                                    ) == k2 as int;
                                if jj == j {
                                    assert(false);
                                }
                                assert(pair_done(base2@, j as int, k as int, it as int, k2));
                            }
                            if pair_done(base2@, j as int, k as int, it as int, k2) {
                                let jj = choose|jj: int|
                                    0 <= jj < j && (#[trigger] base2@[jj]).key == k as int
                                        && base2@[jj].item != it && canon_key(
                                        it as int,
                                        base2@[jj].item as int,
                                    ) == k2 as int;
                                assert(pair_done(base2@, j as int + 1, k as int, it as int, k2));
                            }
                        }
                    }
                }
            }
        } else {
            proof {
                assert forall|k2: u64|
                    pair_done(base2@, j as int + 1, k as int, it as int, k2) <==> pair_done(
                    base2@,
                    j as int,
                    k as int,
                    it as int,
                    k2,
                ) by {
                    if pair_done(base2@, j as int + 1, k as int, it as int, k2) {
                        let jj = choose|jj: int|
                            0 <= jj < j + 1 && (#[trigger] base2@[jj]).key == k as int
                                && base2@[jj].item != it && canon_key(
                                it as int,
                                base2@[jj].item as int,
                            ) == k2 as int;
                        assert(jj != j);
                        assert(pair_done(base2@, j as int, k as int, it as int, k2));
                    }
                    if pair_done(base2@, j as int, k as int, it as int, k2) {
                        let jj = choose|jj: int|
                            0 <= jj < j && (#[trigger] base2@[jj]).key == k as int
                                && base2@[jj].item != it && canon_key(
                                it as int,
                                base2@[jj].item as int,
                            ) == k2 as int;
                        assert(pair_done(base2@, j as int + 1, k as int, it as int, k2));
                    }
                }
            }
        }
        j = j + 1;
    }
    proof {
        // Pairs no row of user k witnesses kept their count: their shift
        // has a zero partner multiplicity.
        assert forall|k2: u64, v: i64|
            #[trigger] kv_maps(cooc@, k2, v) <==> (v != 0 && cooc_count(
                base2@,
                hi_of(k2 as int),
                lo_of(k2 as int),
            ) == v as int) by {
            let a = hi_of(k2 as int);
            let b = lo_of(k2 as int);
            if !pair_done(base2@, base2@.len() as int, k as int, it as int, k2) {
                assert(cooc_count(base2@, a, b) == cooc_count(base1, a, b)) by {
                    lemma_pair_done_shift(base2@, k as int, it as int, d as int, k2);
                }
            }
        }
    }
}

/// A pair no row of user `k` witnesses as a partner of `it` has a zero
/// co-occurrence shift.
proof fn lemma_pair_done_shift(s2: Seq<InputRow>, k: int, it: int, d: int, pk: u64)
    requires
        !pair_done(s2, s2.len() as int, k, it, pk),
    ensures
        crate::store::cooc_shift(s2, k, it, d, hi_of(pk as int), lo_of(pk as int)) == 0,
{
    let a = hi_of(pk as int);
    let b = lo_of(pk as int);
    crate::keys::lemma_key_split(pk);
    if a == it && a > b {
        assert(row_mult(s2, k, b) == 0) by {
            if row_mult(s2, k, b) != 0 {
                crate::model::lemma_mult_upto_witness(s2, s2.len() as int, k, b);
                let jj = choose|jj: int|
                    0 <= jj < s2.len() && (#[trigger] s2[jj]).key == k && s2[jj].item == b;
                assert(canon_key(it, b) == pk as int) by {
                    lemma_pair_key(a, b);
                }
                assert(pair_done(s2, s2.len() as int, k, it, pk));
                assert(false);
            }
        }
        assert(d * 0 == 0) by (nonlinear_arith);
    } else if b == it && a > b {
        assert(row_mult(s2, k, a) == 0) by {
            if row_mult(s2, k, a) != 0 {
                crate::model::lemma_mult_upto_witness(s2, s2.len() as int, k, a);
                let jj = choose|jj: int|
                    0 <= jj < s2.len() && (#[trigger] s2[jj]).key == k && s2[jj].item == a;
                assert(canon_key(it, a) == pk as int) by {
                    lemma_pair_key(a, b);
                }
                assert(pair_done(s2, s2.len() as int, k, it, pk));
                assert(false);
            }
        }
        assert(d * 0 == 0) by (nonlinear_arith);
    }
}

/// Applies a diff batch to the interaction store while folding each
/// applied diff into the co-occurrence state — the arrangement-backed
/// delta join: per diff, only user `k`'s rows are consulted and only the
/// touched pairs move.
pub fn apply_rows_with_cooc(base: &mut Vec<InputRow>, cooc: &mut Vec<Kv>, batch: &Vec<InputRow>)
    requires
        store_wf(old(base)@),
        cooc_ok(old(cooc)@, old(base)@),
        total_weight(old(base)@) + total_weight(batch@) <= MAX_TOTAL_WEIGHT,
    ensures
        store_wf(final(base)@),
        forall|k: int, it: int|
            row_mult(final(base)@, k, it) == row_mult(old(base)@, k, it) + row_mult(batch@, k, it),
        forall|it: int|
            #[trigger] item_count(final(base)@, it) == item_count(old(base)@, it) + item_count(
                batch@,
                it,
            ),
        total_weight(final(base)@) <= total_weight(old(base)@) + total_weight(batch@),
        cooc_ok(final(cooc)@, final(base)@),
{
    let ghost s1 = old(base)@;
    let mut i: usize = 0;
    proof {
        lemma_weight_upto_nonneg(batch@, 0);
        lemma_weight_upto_nonneg(s1, s1.len() as int);
    }
    while i < batch.len()
        invariant
            0 <= i <= batch.len(),
            store_wf(base@),
            total_weight(s1) + total_weight(batch@) <= MAX_TOTAL_WEIGHT,
            total_weight(base@) <= total_weight(s1) + weight_upto(batch@, i as int),
            forall|k: int, it: int|
                row_mult(base@, k, it) == row_mult(s1, k, it) + mult_upto(batch@, i as int, k, it),
            forall|it: int|
                #[trigger] item_count(base@, it) == item_count(s1, it) + count_upto(
                    batch@,
                    i as int,
                    it,
                ),
            kv_sorted(cooc@),
            cooc_ok(cooc@, base@),
        decreases batch.len() - i,
    {
        let r = batch[i];
        proof {
            lemma_weight_upto_nonneg(batch@, i as int);
            lemma_weight_upto_nonneg(batch@, i + 1);
            lemma_weight_upto_nonneg(s1, s1.len() as int);
            crate::model::lemma_row_abs_le_weight(batch@, i as int);
        }
        let ghost pre = base@;
        crate::store::add_row_delta(base, r.key, r.item, r.mult);
        cooc_apply_row(cooc, base, r.key, r.item, r.mult, Ghost(pre));
        i = i + 1;
    }
    proof {
        lemma_weight_upto_nonneg(batch@, batch@.len() as int);
    }
}

} // verus!
