//! Jaccard similarity of item pairs.
//!
//! For a canonical pair (a, b) with co-occurrence count `c` and item
//! counts `ca`, `cb`, the Jaccard similarity is c / (ca + cb − c).  To
//! keep values totally ordered and deterministically serializable, the
//! engine carries each similarity as the integer ⌊c·10¹⁰/(ca+cb−c)⌋; the
//! wire value is that integer rendered as a decimal fraction.

use vstd::prelude::*;

use vstd::arithmetic::div_mod::{
    lemma_div_is_ordered, lemma_div_multiples_vanish, lemma_fundamental_div_mod,
};

use crate::errors::EngineError;
use crate::keys::{hi_of, lemma_pair_key, lo_of, pair_key, unpack_pair};
use crate::kv::{
    kv_get, kv_has_key, kv_maps, kv_sorted, lemma_kv_absent_val, lemma_kv_entry_val,
    lemma_kv_maps_val, Kv,
};
use crate::model::{
    abs_of, cooc_count, item_count, lemma_count_upto_bound, lemma_cooc_upto_bound,
    lemma_weight_upto_nonneg, total_weight, InputRow,
};
use crate::operators::{cooc_ok, counts_ok, lemma_count_lookup};
use crate::store::MAX_TOTAL_WEIGHT;

verus! {

/// Fixed-point scale of a carried similarity: ten decimal digits.
pub const SIM_SCALE: i64 = 10_000_000_000;

/// Jaccard denominator of the pair (a, b): how many users interacted
/// with at least one of the two items, counted with multiplicity.
pub open spec fn sim_denom(s: Seq<InputRow>, a: int, b: int) -> int {
    item_count(s, a) + item_count(s, b) - cooc_count(s, a, b)
}

/// A similarity row exists for (a, b): the pair co-occurs and both items
/// have a live count row to join with.
pub open spec fn sim_present(s: Seq<InputRow>, a: int, b: int) -> bool {
    cooc_count(s, a, b) != 0 && item_count(s, a) != 0 && item_count(s, b) != 0
}

/// The pair (a, b) admits a sound Jaccard value: whenever its similarity
/// row exists, the co-occurrence count is positive and no larger than the
/// denominator.  Balanced insert/remove histories satisfy this for every
/// pair; a violation is the degenerate-division condition.
pub open spec fn pair_nondegenerate(s: Seq<InputRow>, a: int, b: int) -> bool {
    sim_present(s, a, b) ==> 1 <= cooc_count(s, a, b) <= sim_denom(s, a, b)
}

/// Every pair of the store admits a sound Jaccard value.
pub open spec fn nondegenerate(s: Seq<InputRow>) -> bool {
    forall|a: int, b: int| pair_nondegenerate(s, a, b)
}

/// The similarity of (a, b), scaled by `SIM_SCALE` and truncated; zero
/// when no similarity row exists.
pub open spec fn sim_scaled(s: Seq<InputRow>, a: int, b: int) -> int {
    if sim_present(s, a, b) && 1 <= cooc_count(s, a, b) <= sim_denom(s, a, b) {
        (cooc_count(s, a, b) * SIM_SCALE) / sim_denom(s, a, b)
    } else {
        0
    }
}

/// The similarity state is correct for the interaction store `s`: an
/// entry per present canonical pair, carrying its scaled similarity.
pub open spec fn sims_ok(st: Seq<Kv>, s: Seq<InputRow>) -> bool {
    &&& kv_sorted(st)
    &&& forall|k: u64, v: i64|
        #[trigger] kv_maps(st, k, v) <==> (sim_present(s, hi_of(k as int), lo_of(k as int))
            && v as int == sim_scaled(s, hi_of(k as int), lo_of(k as int)) && v != 0)
}

/// A present, nondegenerate pair has a scaled similarity between 1 and
/// `SIM_SCALE`: the carried value never collapses to zero and never
/// exceeds the scale, so the rational it denotes lies in (0, 1].
pub proof fn lemma_sim_scaled_bounds(s: Seq<InputRow>, a: int, b: int)
    requires
        total_weight(s) <= MAX_TOTAL_WEIGHT,
        sim_present(s, a, b),
        pair_nondegenerate(s, a, b),
    ensures
        1 <= sim_scaled(s, a, b) <= SIM_SCALE,
        sim_denom(s, a, b) * sim_scaled(s, a, b) <= cooc_count(s, a, b) * SIM_SCALE < sim_denom(
            s,
            a,
            b,
        ) * (sim_scaled(s, a, b) + 1),
{
    let c = cooc_count(s, a, b);
    let d = sim_denom(s, a, b);
    let q = sim_scaled(s, a, b);
    lemma_count_upto_bound(s, s.len() as int, a);
    lemma_count_upto_bound(s, s.len() as int, b);
    lemma_weight_upto_nonneg(s, s.len() as int);
    assert(d <= item_count(s, a) + item_count(s, b));
    assert(d <= 2 * MAX_TOTAL_WEIGHT);
    assert(d < SIM_SCALE);
    // Truncated division: d*q <= c*SIM_SCALE < d*(q+1).
    lemma_fundamental_div_mod(c * SIM_SCALE, d);
    assert(c * SIM_SCALE == d * ((c * SIM_SCALE) / d) + (c * SIM_SCALE) % d);
    assert(d * (q + 1) == d * q + d) by (nonlinear_arith);
    // Upper bound: c <= d gives q <= SIM_SCALE.
    assert(c * SIM_SCALE <= d * SIM_SCALE) by (nonlinear_arith)
        requires
            c <= d,
            0 < SIM_SCALE,
    {}
    lemma_div_is_ordered(c * SIM_SCALE, d * SIM_SCALE, d);
    lemma_div_multiples_vanish(SIM_SCALE as int, d);
    // Lower bound: d <= SIM_SCALE <= c*SIM_SCALE gives q >= 1.
    assert(SIM_SCALE <= c * SIM_SCALE) by (nonlinear_arith)
        requires
            1 <= c,
            0 < SIM_SCALE,
    {}
    lemma_div_is_ordered(d, c * SIM_SCALE, d);
    lemma_div_multiples_vanish(1, d);
}

/// The similarity collection derived from the co-occurrence and
/// item-count states: the two-hop join attaching both endpoint counts,
/// then the scaled Jaccard value per surviving pair.  Fails with the
/// degenerate-division error — committing nothing — exactly when some
/// pair's counts fall below its co-occurrence count.
pub fn sim_state(base: &Vec<InputRow>, counts: &Vec<Kv>, cooc: &Vec<Kv>) -> (r: Result<
    Vec<Kv>,
    EngineError,
>)
    requires
        total_weight(base@) <= MAX_TOTAL_WEIGHT,
        counts_ok(counts@, base@),
        cooc_ok(cooc@, base@),
    ensures
        r is Ok <==> nondegenerate(base@),
        r is Err ==> r == Err::<Vec<Kv>, EngineError>(EngineError::DivisionDegenerate),
        r is Ok ==> sims_ok(r.unwrap()@, base@),
{
    let mut acc: Vec<Kv> = Vec::new();
    let mut i: usize = 0;
    while i < cooc.len()
        invariant
            total_weight(base@) <= MAX_TOTAL_WEIGHT,
            counts_ok(counts@, base@),
            cooc_ok(cooc@, base@),
            0 <= i <= cooc.len(),
            kv_sorted(acc@),
            forall|x: int|
                0 <= x < acc@.len() ==> (exists|y: int|
                    0 <= y < i && (#[trigger] acc@[x]).key == (#[trigger] cooc@[y]).key),
            forall|k: u64, v: i64|
                #[trigger] kv_maps(acc@, k, v) <==> (sim_present(
                    base@,
                    hi_of(k as int),
                    lo_of(k as int),
                ) && v as int == sim_scaled(base@, hi_of(k as int), lo_of(k as int)) && v != 0
                    && (exists|y: int| 0 <= y < i && (#[trigger] cooc@[y]).key == k)),
            forall|a: int, b: int|
                (exists|y: int|
                    0 <= y < i && (#[trigger] cooc@[y]).key as int == pair_key(a, b))
                    ==> pair_nondegenerate(base@, a, b),
        decreases cooc.len() - i,
    {
        let e = cooc[i];
        let (a, b) = unpack_pair(e.key);
        let c = e.val;
        proof {
            assert(kv_maps(cooc@, e.key, e.val)) by {
                assert(cooc@[i as int] == (Kv { key: e.key, val: e.val }));
            }
            assert(c as int == cooc_count(base@, a as int, b as int));
            lemma_count_upto_bound(base@, base@.len() as int, a as int);
            lemma_count_upto_bound(base@, base@.len() as int, b as int);
            lemma_cooc_upto_bound(base@, base@.len() as int, a as int, b as int);
            lemma_weight_upto_nonneg(base@, base@.len() as int);
            let t = total_weight(base@);
            assert(t * t <= 0x4000_0000_0000_0000) by (nonlinear_arith)
                requires
                    0 <= t <= 0x8000_0000,
            {}
        }
        let ca = kv_get(counts, a as u64);
        let cb = kv_get(counts, b as u64);
        proof {
            lemma_count_lookup(counts@, base@, a, ca);
            lemma_count_lookup(counts@, base@, b, cb);
        }
        let ghost acc1 = acc@;
        if ca != 0 && cb != 0 {
            let d = ca + cb - c;
            if !(1 <= c && c <= d) {
                // Degenerate division: the pair is present but its
                // counts cannot support a Jaccard value in [0, 1].
                proof {
                    assert(sim_present(base@, a as int, b as int));
                    assert(!pair_nondegenerate(base@, a as int, b as int));
                }
                return Err(EngineError::DivisionDegenerate);
            }
            proof {
                lemma_sim_scaled_bounds(base@, a as int, b as int);
                assert(c as int * (SIM_SCALE as int) <= 0x1_0000_0000 * 10000000000) by (
                nonlinear_arith)
                    requires
                        1 <= c as int <= 0x1_0000_0000,
                {}
            }
            let q = (((c as u128) * (SIM_SCALE as u128)) / (d as u128)) as i64;
            proof {
                assert(q as int == sim_scaled(base@, a as int, b as int));
            }
            proof {
                assert(!kv_has_key(acc1, e.key)) by {
                    if kv_has_key(acc1, e.key) {
                        let x = choose|x: int|
                            0 <= x < acc1.len() && (#[trigger] acc1[x]).key == e.key;
                        let y = choose|y: int|
                            0 <= y < i && (#[trigger] acc1[x]).key == (#[trigger] cooc@[y]).key;
                        assert(cooc@[y].key < cooc@[i as int].key);
                    }
                }
            }
            crate::kv::kv_insert_new(&mut acc, e.key, q);
            proof {
                lemma_pair_key(a as int, b as int);
                assert forall|k: u64, v: i64|
                    #[trigger] kv_maps(acc@, k, v) <==> (sim_present(
                        base@,
                        hi_of(k as int),
                        lo_of(k as int),
                    ) && v as int == sim_scaled(base@, hi_of(k as int), lo_of(k as int)) && v != 0
                        && (exists|y: int|
                        0 <= y < i + 1 && (#[trigger] cooc@[y]).key == k)) by {
                    if kv_maps(acc@, k, v) && !kv_maps(acc1, k, v) {
                        assert(k == e.key && v == q);
                        assert(cooc@[i as int].key == k);
                    }
                    if sim_present(base@, hi_of(k as int), lo_of(k as int)) && v as int
                        == sim_scaled(base@, hi_of(k as int), lo_of(k as int)) && v != 0 && (
                    exists|y: int| 0 <= y < i + 1 && (#[trigger] cooc@[y]).key == k) {
                        let y = choose|y: int|
                            0 <= y < i + 1 && (#[trigger] cooc@[y]).key == k;
                        if y < i {
                            assert(kv_maps(acc1, k, v));
                        } else {
                            assert(k == e.key);
                            assert(v == q);
                        }
                    }
                }
                assert forall|x: int|
                    0 <= x < acc@.len() implies (exists|y: int|
                    0 <= y < i + 1 && (#[trigger] acc@[x]).key == (#[trigger] cooc@[y]).key) by {
                    if acc@[x].key == e.key {
                        assert(acc@[x].key == cooc@[i as int].key);
                    } else {
                        assert(kv_maps(acc@, acc@[x].key, acc@[x].val)) by {
                            assert(acc@[x] == (Kv { key: acc@[x].key, val: acc@[x].val }));
                        }
                        assert(kv_maps(acc1, acc@[x].key, acc@[x].val));
                        let x1 = choose|x1: int|
                            0 <= x1 < acc1.len() && #[trigger] acc1[x1] == (Kv {
                                key: acc@[x].key,
                                val: acc@[x].val,
                            });
                        assert(exists|y: int|
                            0 <= y < i && (#[trigger] acc1[x1]).key == (#[trigger] cooc@[y]).key);
                    }
                }
            }
        } else {
            // One endpoint has no live count row: the two-hop join drops
            // the pair, so no similarity row exists.
            proof {
                assert(!sim_present(base@, a as int, b as int));
                lemma_pair_key(a as int, b as int);
                assert forall|k: u64, v: i64|
                    #[trigger] kv_maps(acc@, k, v) <==> (sim_present(
                        base@,
                        hi_of(k as int),
                        lo_of(k as int),
                    ) && v as int == sim_scaled(base@, hi_of(k as int), lo_of(k as int)) && v != 0
                        && (exists|y: int|
                        0 <= y < i + 1 && (#[trigger] cooc@[y]).key == k)) by {
                    if sim_present(base@, hi_of(k as int), lo_of(k as int)) && v as int
                        == sim_scaled(base@, hi_of(k as int), lo_of(k as int)) && v != 0 && (
                    exists|y: int| 0 <= y < i + 1 && (#[trigger] cooc@[y]).key == k) {
                        let y = choose|y: int|
                            0 <= y < i + 1 && (#[trigger] cooc@[y]).key == k;
                        if y < i {
                            assert(kv_maps(acc1, k, v));
                        } else {
                            assert(k == e.key);
                            assert(hi_of(k as int) == a as int && lo_of(k as int) == b as int);
                            assert(false);
                        }
                    }
                }
            }
        }
        proof {
            assert forall|a2: int, b2: int|
                (exists|y: int|
                    0 <= y < i + 1 && (#[trigger] cooc@[y]).key as int == pair_key(a2, b2))
                    implies pair_nondegenerate(base@, a2, b2) by {
                let y = choose|y: int|
                    0 <= y < i + 1 && (#[trigger] cooc@[y]).key as int == pair_key(a2, b2);
                if y == i {
                    if sim_present(base@, a2, b2) {
                        // This iteration examined exactly this pair and
                        // did not fail, so it is nondegenerate.
                        assert(kv_maps(cooc@, cooc@[y].key, cooc@[y].val)) by {
                            assert(cooc@[y] == (Kv { key: cooc@[y].key, val: cooc@[y].val }));
                        }
                        if 0 <= a2 < 0x1_0000_0000 && 0 <= b2 < 0x1_0000_0000 {
                            lemma_pair_key(a2, b2);
                            assert(a2 == a as int && b2 == b as int);
                        } else {
                            lemma_pair_key_range(base@, a2, b2);
                        }
                    }
                }
            }
        }
        i = i + 1;
    }
    proof {
        assert forall|k: u64, v: i64|
            #[trigger] kv_maps(acc@, k, v) <==> (sim_present(
                base@,
                hi_of(k as int),
                lo_of(k as int),
            ) && v as int == sim_scaled(base@, hi_of(k as int), lo_of(k as int)) && v != 0) by {
            let a = hi_of(k as int);
            let b = lo_of(k as int);
            if sim_present(base@, a, b) && !(exists|y: int|
                0 <= y < cooc@.len() && (#[trigger] cooc@[y]).key == k) {
                // A present pair has a nonzero co-occurrence count, so
                // the co-occurrence state must list its key.
                let cc = cooc_count(base@, a, b);
                lemma_cooc_upto_bound(base@, base@.len() as int, a, b);
                lemma_weight_upto_nonneg(base@, base@.len() as int);
                let t = total_weight(base@);
                assert(t * t <= 0x4000_0000_0000_0000) by (nonlinear_arith)
                    requires
                        0 <= t <= 0x8000_0000,
                {}
                assert(kv_maps(cooc@, k, cc as i64)) by {
                    lemma_fundamental_div_mod(k as int, 0x1_0000_0000);
                }
                let x = choose|x: int|
                    0 <= x < cooc@.len() && #[trigger] cooc@[x] == (Kv { key: k, val: cc as i64 });
                assert(cooc@[x].key == k);
            }
        }
        assert(nondegenerate(base@)) by {
            assert forall|a: int, b: int| pair_nondegenerate(base@, a, b) by {
                if sim_present(base@, a, b) {
                    let cc = cooc_count(base@, a, b);
                    lemma_cooc_upto_bound(base@, base@.len() as int, a, b);
                    lemma_weight_upto_nonneg(base@, base@.len() as int);
                    let t = total_weight(base@);
                    assert(t * t <= 0x4000_0000_0000_0000) by (nonlinear_arith)
                        requires
                            0 <= t <= 0x8000_0000,
                    {}
                    lemma_pair_key_range(base@, a, b);
                    lemma_pair_key(a, b);
                    assert(kv_maps(cooc@, pair_key(a, b) as u64, cc as i64));
                    let x = choose|x: int|
                        0 <= x < cooc@.len() && #[trigger] cooc@[x] == (Kv {
                            key: pair_key(a, b) as u64,
                            val: cc as i64,
                        });
                    assert(cooc@[x].key as int == pair_key(a, b));
                }
            }
        }
    }
    Ok(acc)
}

/// A pair with a nonzero co-occurrence count has both components in the
/// 32-bit item range.
proof fn lemma_pair_key_range(s: Seq<InputRow>, a: int, b: int)
    requires
        cooc_count(s, a, b) != 0,
    ensures
        0 <= a < 0x1_0000_0000,
        0 <= b < 0x1_0000_0000,
{
    lemma_cooc_item_range(s, s.len() as int, a, b);
}

proof fn lemma_cooc_item_range(s: Seq<InputRow>, n: int, a: int, b: int)
    requires
        0 <= n <= s.len(),
        crate::model::cooc_upto(s, n, a, b) != 0,
    ensures
        0 <= a < 0x1_0000_0000,
        0 <= b < 0x1_0000_0000,
    decreases n,
{
    if crate::model::cooc_term(s, s[n - 1], a, b) != 0 {
        assert(s[n - 1].item == a);
        if crate::model::row_mult(s, s[n - 1].key as int, b) != 0 {
            crate::model::lemma_mult_upto_witness(s, s.len() as int, s[n - 1].key as int, b);
        }
    } else {
        lemma_cooc_item_range(s, n - 1, a, b);
    }
}

} // verus!
