//! The incremental view-maintenance engine.
//!
//! The engine owns the interaction and query logs, the consolidated input
//! stores, the current state of every derived collection, and one
//! versioned diff store per collection.  Handling a request appends the
//! batch to its log, advances the logical clock by one, propagates the
//! batch's deltas into the count and co-occurrence states, rederives the
//! similarity and recommendation states, records each collection's diffs
//! at the new time, and returns the broadcast-ordered records —
//! retractions before additions, collections in the fixed sequence item
//! counts, co-occurrences, similarities, recommendations.

use vstd::prelude::*;

use crate::batch::{
    brow_lt, has_row, kv_diff, lemma_negs_shape, lemma_ordered_distinct, lemma_ordered_has_row,
    lemma_poss_shape, negs_upto, order_for_broadcast, poss_upto, BatchRow,
};
use crate::errors::EngineError;
use crate::jaccard::{
    nondegenerate, pair_nondegenerate, sim_present, sim_state, sims_ok, lemma_sim_scaled_bounds,
    SIM_SCALE,
};
use crate::keys::{hi_of, lemma_key_split, lo_of};
use crate::kv::{kv_maps, kv_sorted, lemma_kv_maps_val, Kv};
use crate::log::InputLog;
use crate::model::{
    abs_of, cooc_count, item_count, lemma_cooc_noncanonical, lemma_unit_weight,
    lemma_weight_upto_nonneg, row_mult, store_wf, total_weight, InputRow,
};
use crate::operators::{apply_rows_with_cooc, cooc_ok, count_state_delta, counts_ok};
use crate::output::{
    has_cooc_rec, has_count_rec, has_rec_rec, has_sim_rec, is_cooc_rec, is_count_rec, is_rec_rec,
    is_sim_rec, push_cooc_records, push_count_records, push_rec_records, push_sim_records,
    rec_change, OutputRecord,
};
use crate::recommend::{rec_winner, recs_ok, recs_state, sims_rows_ok};
use crate::requests::{Change, ChangeRequest};
use crate::store::{apply_rows, lemma_store_canonical, MAX_TOTAL_WEIGHT};
use crate::trace::{all_before, DiffStore};

verus! {

/// The signed rows a change request stands for: one row per interaction,
/// with multiplicity +1 for an addition and −1 for a removal.
pub open spec fn req_rows(c: Change, pairs: Seq<(u32, u32)>) -> Seq<InputRow> {
    Seq::new(
        pairs.len(),
        |i: int|
            InputRow {
                key: pairs[i].0,
                item: pairs[i].1,
                mult: if c is Add {
                    1i64
                } else {
                    -1i64
                },
            },
    )
}

/// Applying `rows` to the store `s` yields a degenerate multiset: however
/// the result is consolidated, some pair's similarity row would need a
/// non-positive Jaccard denominator.
pub open spec fn updated_degenerate(s: Seq<InputRow>, rows: Seq<InputRow>) -> bool {
    forall|s2: Seq<InputRow>|
        (store_wf(s2) && (forall|k: int, it: int|
            #[trigger] row_mult(s2, k, it) == row_mult(s, k, it) + row_mult(rows, k, it)))
            ==> !nondegenerate(s2)
}

/// The incremental view-maintenance engine.
pub struct Engine {
    interactions: InputLog,
    queries: InputLog,
    base: Vec<InputRow>,
    qbase: Vec<InputRow>,
    counts: Vec<Kv>,
    cooc: Vec<Kv>,
    sims: Vec<Kv>,
    recs: Vec<Kv>,
    counts_trace: DiffStore,
    cooc_trace: DiffStore,
    sims_trace: DiffStore,
    recs_trace: DiffStore,
    weight: u64,
    qweight: u64,
}

impl Engine {
    /// The consolidated interaction multiset.
    pub closed spec fn base_view(&self) -> Seq<InputRow> {
        self.base@
    }

    /// The consolidated query multiset.
    pub closed spec fn qbase_view(&self) -> Seq<InputRow> {
        self.qbase@
    }

    /// The current item-count state.
    pub closed spec fn counts_view(&self) -> Seq<Kv> {
        self.counts@
    }

    /// The current co-occurrence state.
    pub closed spec fn cooc_view(&self) -> Seq<Kv> {
        self.cooc@
    }

    /// The current similarity state.
    pub closed spec fn sims_view(&self) -> Seq<Kv> {
        self.sims@
    }

    /// The current recommendation state.
    pub closed spec fn recs_view(&self) -> Seq<Kv> {
        self.recs@
    }

    /// The logical clock: the time of the most recent accepted batch.
    pub closed spec fn current_time(&self) -> u64 {
        self.interactions.current_time()
    }

    /// Exact total absolute weight of the interaction store; removals
    /// shrink it, reclaiming capacity.
    pub closed spec fn used_weight(&self) -> u64 {
        self.weight
    }

    /// Exact total absolute weight of the query store.
    pub closed spec fn used_query_weight(&self) -> u64 {
        self.qweight
    }

    /// Reads the interaction store's current weight: how much of the
    /// engine's capacity is in use.
    pub fn capacity_used(&self) -> (r: u64)
        ensures
            r == self.used_weight(),
    {
        self.weight
    }

    /// Reads the query store's current weight.
    pub fn query_capacity_used(&self) -> (r: u64)
        ensures
            r == self.used_query_weight(),
    {
        self.qweight
    }

    spec fn traces_wf(&self) -> bool {
        &&& self.counts_trace.wf()
        &&& self.cooc_trace.wf()
        &&& self.sims_trace.wf()
        &&& self.recs_trace.wf()
        &&& forall|i: int|
            0 <= i < self.counts_trace.view_batches().len()
                ==> (#[trigger] self.counts_trace.view_batches()[i]).time <= self.current_time()
        &&& forall|i: int|
            0 <= i < self.cooc_trace.view_batches().len()
                ==> (#[trigger] self.cooc_trace.view_batches()[i]).time <= self.current_time()
        &&& forall|i: int|
            0 <= i < self.sims_trace.view_batches().len()
                ==> (#[trigger] self.sims_trace.view_batches()[i]).time <= self.current_time()
        &&& forall|i: int|
            0 <= i < self.recs_trace.view_batches().len()
                ==> (#[trigger] self.recs_trace.view_batches()[i]).time <= self.current_time()
    }

    /// The engine invariant: consolidated stores within capacity, every
    /// derived state exactly the mathematical function of its inputs, a
    /// nondegenerate committed history, flushed logs on a shared clock,
    /// and diff stores holding nothing beyond the current time.
    pub closed spec fn wf(&self) -> bool {
        &&& store_wf(self.base_view())
        &&& store_wf(self.qbase_view())
        &&& total_weight(self.base_view()) == self.used_weight()
        &&& self.used_weight() <= MAX_TOTAL_WEIGHT
        &&& total_weight(self.qbase_view()) == self.used_query_weight()
        &&& self.used_query_weight() <= MAX_TOTAL_WEIGHT
        &&& nondegenerate(self.base_view())
        &&& counts_ok(self.counts_view(), self.base_view())
        &&& cooc_ok(self.cooc_view(), self.base_view())
        &&& sims_ok(self.sims_view(), self.base_view())
        &&& recs_ok(self.recs_view(), self.sims_view(), self.qbase_view())
        &&& self.queries.current_time() == self.interactions.current_time()
        &&& self.interactions.pending_rows().len() == 0
        &&& self.queries.pending_rows().len() == 0
        &&& self.traces_wf()
    }

    /// The component facts of a well-formed engine, for callers.
    pub proof fn lemma_wf_states(&self)
        requires
            self.wf(),
        ensures
            store_wf(self.base_view()),
            store_wf(self.qbase_view()),
            total_weight(self.base_view()) <= MAX_TOTAL_WEIGHT,
            total_weight(self.qbase_view()) <= MAX_TOTAL_WEIGHT,
            nondegenerate(self.base_view()),
            counts_ok(self.counts_view(), self.base_view()),
            cooc_ok(self.cooc_view(), self.base_view()),
            sims_ok(self.sims_view(), self.base_view()),
            recs_ok(self.recs_view(), self.sims_view(), self.qbase_view()),
    {
    }

    /// A fresh engine: time zero, nothing stored anywhere.
    pub fn new() -> (r: Engine)
        ensures
            r.wf(),
            r.current_time() == 0,
            r.used_weight() == 0,
            r.used_query_weight() == 0,
            r.base_view().len() == 0,
            r.qbase_view().len() == 0,
            r.counts_view().len() == 0,
            r.cooc_view().len() == 0,
            r.sims_view().len() == 0,
            r.recs_view().len() == 0,
    {
        let e = Engine {
            interactions: InputLog::new(),
            queries: InputLog::new(),
            base: Vec::new(),
            qbase: Vec::new(),
            counts: Vec::new(),
            cooc: Vec::new(),
            sims: Vec::new(),
            recs: Vec::new(),
            counts_trace: DiffStore::new(),
            cooc_trace: DiffStore::new(),
            sims_trace: DiffStore::new(),
            recs_trace: DiffStore::new(),
            weight: 0,
            qweight: 0,
        };
        proof {
            lemma_empty_engine(&e);
        }
        e
    }
}

proof fn lemma_empty_engine(e: &Engine)
    requires
        e.base_view().len() == 0,
        e.qbase_view().len() == 0,
        e.counts_view().len() == 0,
        e.cooc_view().len() == 0,
        e.sims_view().len() == 0,
        e.recs_view().len() == 0,
    ensures
        nondegenerate(e.base_view()),
        counts_ok(e.counts_view(), e.base_view()),
        cooc_ok(e.cooc_view(), e.base_view()),
        sims_ok(e.sims_view(), e.base_view()),
        recs_ok(e.recs_view(), e.sims_view(), e.qbase_view()),
{
    let s = e.base_view();
    assert forall|a: int, b: int| pair_nondegenerate(s, a, b) by {}
    assert forall|k: u64, v: i64| !kv_maps(e.counts_view(), k, v) by {}
    assert forall|k: u64, v: i64| !kv_maps(e.cooc_view(), k, v) by {}
    assert forall|k: u64, v: i64| !kv_maps(e.sims_view(), k, v) by {}
    assert forall|k: u64, v: i64| !kv_maps(e.recs_view(), k, v) by {}
    assert forall|k: u64, v: i64|
        !((k as int) < 0x1_0000_0000 && 0 <= v < 0x1_0000_0000 && rec_winner(
            e.sims_view(),
            e.qbase_view(),
            k as int,
            v as int,
        )) by {
        if rec_winner(e.sims_view(), e.qbase_view(), k as int, v as int) {
            assert(crate::recommend::cand_pw(e.sims_view(), e.qbase_view(), k as int, v as int)
                == 0);
        }
    }
}

/// One extraction's broadcast records for one (key ↦ value) diff: an
/// addition when the entry newly appears, a retraction when it vanishes.
pub open spec fn diff_cond(a: Seq<Kv>, b: Seq<Kv>, k: u64, v: i64, m: i64) -> bool {
    if m == 1 {
        kv_maps(b, k, v) && !kv_maps(a, k, v)
    } else if m == -1 {
        kv_maps(a, k, v) && !kv_maps(b, k, v)
    } else {
        false
    }
}

/// The record announces some item-count diff that really happened
/// between the two states at time `t`.
pub open spec fn count_rec_ok(rec: OutputRecord, a: Seq<Kv>, b: Seq<Kv>, t: u64) -> bool {
    exists|k: u64, v: i64, m: i64|
        #[trigger] is_count_rec(rec, k, v, t, m) && diff_cond(a, b, k, v, m)
}

/// The record announces some co-occurrence diff that really happened
/// between the two states at time `t`.
pub open spec fn cooc_rec_ok(rec: OutputRecord, a: Seq<Kv>, b: Seq<Kv>, t: u64) -> bool {
    exists|k: u64, v: i64, m: i64|
        #[trigger] is_cooc_rec(rec, k, v, t, m) && diff_cond(a, b, k, v, m)
}

/// The record announces some similarity diff that really happened
/// between the two states at time `t`.
pub open spec fn sim_rec_ok(rec: OutputRecord, a: Seq<Kv>, b: Seq<Kv>, t: u64) -> bool {
    exists|k: u64, v: i64, m: i64|
        #[trigger] is_sim_rec(rec, k, v, t, m) && diff_cond(a, b, k, v, m)
}

/// The record announces some recommendation diff that really happened
/// between the two states at time `t`.
pub open spec fn rec_rec_ok(rec: OutputRecord, a: Seq<Kv>, b: Seq<Kv>, t: u64) -> bool {
    exists|k: u64, v: i64, m: i64|
        #[trigger] is_rec_rec(rec, k, v, t, m) && diff_cond(a, b, k, v, m)
}

/// Diffs one derived collection's old state against its new one, records
/// the diff at time `t`, reads it back through the collector, compacts
/// the diff store through `t`, and returns the broadcast-ordered rows:
/// retractions first, each group in (key, value) order.
fn emit_collection(old_st: &Vec<Kv>, new_st: &Vec<Kv>, store: &mut DiffStore, t: u64) -> (rows:
    Vec<BatchRow>)
    requires
        kv_sorted(old_st@),
        kv_sorted(new_st@),
        old(store).wf(),
        all_before(old(store).view_batches(), t),
    ensures
        final(store).wf(),
        final(store).view_batches().len() == 0,
        forall|k: u64, v: i64|
            #[trigger] has_row(rows@, k, v, -1i64) <==> (kv_maps(old_st@, k, v) && !kv_maps(
                new_st@,
                k,
                v,
            )),
        forall|k: u64, v: i64|
            #[trigger] has_row(rows@, k, v, 1i64) <==> (kv_maps(new_st@, k, v) && !kv_maps(
                old_st@,
                k,
                v,
            )),
        forall|x: int|
            0 <= x < rows@.len() ==> ((#[trigger] rows@[x]).mult == -1 || rows@[x].mult == 1),
        forall|x: int, y: int|
            0 <= x < y < rows@.len() && (#[trigger] rows@[y]).mult < 0 ==> (
            #[trigger] rows@[x]).mult < 0,
        forall|x: int, y: int|
            0 <= x < y < rows@.len() && (#[trigger] rows@[x]).mult == (#[trigger] rows@[y]).mult
                ==> brow_lt(rows@[x], rows@[y]),
        forall|x: int, y: int| 0 <= x < y < rows@.len() ==> rows@[x] != rows@[y],
        forall|x: int|
            0 <= x < rows@.len() ==> has_row(
                rows@,
                (#[trigger] rows@[x]).key,
                rows@[x].val,
                rows@[x].mult,
            ),
{
    let d = kv_diff(old_st, new_st);
    let ghost dv = d@;
    store.append(t, d);
    let collected = store.collect_at(t);
    proof {
        assert(collected@ == dv);
    }
    let ordered = order_for_broadcast(&collected);
    let ghost pre = store.view_batches();
    store.advance_by(t);
    proof {
        assert forall|i: int| 0 <= i < pre.len() implies (#[trigger] pre[i]).time <= t by {}
        assert(final(store).view_batches().len() == 0);
        let n = dv.len() as int;
        lemma_negs_shape(dv, n);
        lemma_poss_shape(dv, n);
        lemma_ordered_distinct(dv);
        let ng = negs_upto(dv, n);
        let ps = poss_upto(dv, n);
        assert(ordered@ == ng + ps);
        assert forall|k: u64, v: i64|
            #[trigger] has_row(ordered@, k, v, -1i64) <==> (kv_maps(old_st@, k, v) && !kv_maps(
                new_st@,
                k,
                v,
            )) by {
            lemma_ordered_has_row(dv, k, v, -1i64);
        }
        assert forall|k: u64, v: i64|
            #[trigger] has_row(ordered@, k, v, 1i64) <==> (kv_maps(new_st@, k, v) && !kv_maps(
                old_st@,
                k,
                v,
            )) by {
            lemma_ordered_has_row(dv, k, v, 1i64);
        }
        assert forall|x: int|
            0 <= x < ordered@.len() implies ((#[trigger] ordered@[x]).mult == -1
            || ordered@[x].mult == 1) by {
            let row = ordered@[x];
            assert(has_row(ordered@, row.key, row.val, row.mult)) by {
                assert(ordered@[x] == (BatchRow { key: row.key, val: row.val, mult: row.mult }));
            }
            lemma_ordered_has_row(dv, row.key, row.val, row.mult);
            let j = choose|j: int|
                0 <= j < dv.len() && #[trigger] dv[j] == (BatchRow {
                    key: row.key,
                    val: row.val,
                    mult: row.mult,
                });
        }
        assert forall|x: int, y: int|
            0 <= x < y < ordered@.len() && (#[trigger] ordered@[y]).mult < 0 implies (
        #[trigger] ordered@[x]).mult < 0 by {
            if y >= ng.len() {
                assert(ordered@[y] == ps[y - ng.len()]);
            } else {
                assert(ordered@[x] == ng[x]);
            }
        }
        assert forall|x: int, y: int|
            0 <= x < y < ordered@.len() && (#[trigger] ordered@[x]).mult == (
        #[trigger] ordered@[y]).mult implies brow_lt(ordered@[x], ordered@[y]) by {
            // Rows with one sign share one part of the ordered batch, and
            // each part keeps the diff's strict (key, value) order.
            if ordered@[x].mult < 0 {
                assert(y < ng.len()) by {
                    if y >= ng.len() {
                        assert(ordered@[y] == ps[y - ng.len()]);
                    }
                }
                assert(ordered@[x] == ng[x] && ordered@[y] == ng[y]);
                assert(brow_lt(ng[x], ng[y]));
            } else {
                assert(x >= ng.len()) by {
                    if x < ng.len() {
                        assert(ordered@[x] == ng[x]);
                    }
                }
                assert(ordered@[x] == ps[x - ng.len()] && ordered@[y] == ps[y - ng.len()]);
                assert(brow_lt(ps[x - ng.len()], ps[y - ng.len()]));
            }
        }
        assert forall|x: int|
            0 <= x < ordered@.len() implies has_row(
            ordered@,
            (#[trigger] ordered@[x]).key,
            ordered@[x].val,
            ordered@[x].mult,
        ) by {
            let row = ordered@[x];
            assert(ordered@[x] == (BatchRow { key: row.key, val: row.val, mult: row.mult }));
        }
    }
    ordered
}


/// Item-count update: record, extract, order and convert this
/// collection's diffs at time `t`, compacting its store afterwards.
#[verifier::rlimit(40)]
fn emit_count_output(old_st: &Vec<Kv>, new_st: &Vec<Kv>, store: &mut DiffStore, t: u64) -> (out:
    Vec<OutputRecord>)
    requires
        kv_sorted(old_st@),
        kv_sorted(new_st@),
        old(store).wf(),
        all_before(old(store).view_batches(), t),
        forall|k: u64, v: i64| #[trigger] kv_maps(old_st@, k, v) ==> (k as int) < 0x1_0000_0000,
        forall|k: u64, v: i64| #[trigger] kv_maps(new_st@, k, v) ==> (k as int) < 0x1_0000_0000,
    ensures
        final(store).wf(),
        final(store).view_batches().len() == 0,
        forall|k: u64, v: i64, m: i64|
            #[trigger] has_count_rec(out@, k, v, t, m) <==> diff_cond(old_st@, new_st@, k, v, m),
        forall|x: int|
            0 <= x < out@.len() ==> #[trigger] count_rec_ok(out@[x], old_st@, new_st@, t),
        forall|x: int, y: int|
            0 <= x < y < out@.len() && rec_change(#[trigger] out@[y]) < 0 ==> rec_change(
                #[trigger] out@[x],
            ) < 0,
        forall|x: int, y: int, k: u64, v1: i64, v2: i64, m: i64|
            0 <= x < y < out@.len() ==> !(#[trigger] is_count_rec(out@[x], k, v1, t, m)
                && #[trigger] is_count_rec(out@[y], k, v2, t, m)),
        forall|x: int, y: int, k1: u64, v1: i64, k2: u64, v2: i64, m: i64|
            0 <= x < y < out@.len() && #[trigger] is_count_rec(out@[x], k1, v1, t, m)
                && #[trigger] is_count_rec(out@[y], k2, v2, t, m) ==> k1 < k2,
{
    let rows = emit_collection(old_st, new_st, store, t);
    proof {
        assert forall|x: int|
            0 <= x < rows@.len() implies ((#[trigger] rows@[x]).key as int) < 0x1_0000_0000 by {
            let row = rows@[x];
            assert(has_row(rows@, row.key, row.val, row.mult));
            if row.mult == -1 {
                assert(kv_maps(old_st@, row.key, row.val));
            } else {
                assert(kv_maps(new_st@, row.key, row.val));
            }
        }
    }
    let mut out: Vec<OutputRecord> = Vec::new();
    push_count_records(&mut out, &rows, t);
    proof {
        assert(out@.len() == rows@.len());
        assert forall|x: int|
            0 <= x < rows@.len() implies is_count_rec(
            #[trigger] out@[x],
            rows@[x].key,
            rows@[x].val,
            t,
            rows@[x].mult,
        ) by {
            assert(is_count_rec(out@[0 + x], rows@[x].key, rows@[x].val, t, rows@[x].mult));
        }
        assert forall|k: u64, v: i64, m: i64|
            #[trigger] has_count_rec(out@, k, v, t, m) <==> diff_cond(old_st@, new_st@, k, v,
            m) by {
            if has_count_rec(out@, k, v, t, m) {
                let x = choose|x: int|
                    0 <= x < out@.len() && #[trigger] is_count_rec(out@[x], k, v, t, m);
                assert(is_count_rec(out@[x], rows@[x].key, rows@[x].val, t, rows@[x].mult));
                assert((k as u32) as u64 == k && (rows@[x].key as u32) as u64 == rows@[x].key);
                assert(k == rows@[x].key && v == rows@[x].val && m == rows@[x].mult);
                assert(has_row(rows@, k, v, m)) by {
                    assert(rows@[x] == (BatchRow { key: k, val: v, mult: m }));
                }
            }
            if diff_cond(old_st@, new_st@, k, v, m) {
                assert(has_row(rows@, k, v, m));
                let j = choose|j: int|
                    0 <= j < rows@.len() && #[trigger] rows@[j] == (BatchRow {
                        key: k,
                        val: v,
                        mult: m,
                    });
                assert(is_count_rec(out@[j], rows@[j].key, rows@[j].val, t, rows@[j].mult));
                assert(is_count_rec(out@[j], k, v, t, m));
            }
        }
        assert forall|x: int|
            0 <= x < out@.len() implies #[trigger] count_rec_ok(out@[x], old_st@, new_st@, t) by {
            let row = rows@[x];
            assert(is_count_rec(out@[x], row.key, row.val, t, row.mult));
            assert(has_row(rows@, row.key, row.val, row.mult)) by {
                assert(rows@[x] == (BatchRow { key: row.key, val: row.val, mult: row.mult }));
            }
            if row.mult == -1 {
                assert(diff_cond(old_st@, new_st@, row.key, row.val, -1i64));
            } else {
                assert(row.mult == 1);
                assert(diff_cond(old_st@, new_st@, row.key, row.val, 1i64));
            }
            assert(is_count_rec(out@[x], row.key, row.val, t, row.mult) && diff_cond(
                old_st@,
                new_st@,
                row.key,
                row.val,
                row.mult,
            ));
        }
        assert forall|x: int, y: int|
            0 <= x < y < out@.len() && rec_change(#[trigger] out@[y]) < 0 implies rec_change(
            #[trigger] out@[x],
        ) < 0 by {
            assert(is_count_rec(out@[x], rows@[x].key, rows@[x].val, t, rows@[x].mult));
            assert(is_count_rec(out@[y], rows@[y].key, rows@[y].val, t, rows@[y].mult));
            assert(rec_change(out@[x]) == rows@[x].mult && rec_change(out@[y]) == rows@[y].mult);
        }
        assert forall|x: int, y: int, k: u64, v1: i64, v2: i64, m: i64|
            0 <= x < y < out@.len() implies !(#[trigger] is_count_rec(out@[x], k, v1, t, m)
            && #[trigger] is_count_rec(out@[y], k, v2, t, m)) by {
            if is_count_rec(out@[x], k, v1, t, m) && is_count_rec(out@[y], k, v2, t, m) {
                assert(is_count_rec(out@[x], rows@[x].key, rows@[x].val, t, rows@[x].mult));
                assert(is_count_rec(out@[y], rows@[y].key, rows@[y].val, t, rows@[y].mult));
                assert((k as u32) as u64 == k);
                assert(rows@[x].key == k && rows@[y].key == k);
                assert(rows@[x].mult == m && rows@[y].mult == m);
                assert(rows@[x].val == v1 && rows@[y].val == v2);
                assert(has_row(rows@, k, v1, m)) by {
                    assert(rows@[x] == (BatchRow { key: k, val: v1, mult: m }));
                }
                assert(has_row(rows@, k, v2, m)) by {
                    assert(rows@[y] == (BatchRow { key: k, val: v2, mult: m }));
                }
                // Both rows retract (or both add) the same key, so the
                // sorted source state forces one value: the rows collide.
                if m == -1 {
                    lemma_kv_maps_val(old_st@, k, v1);
                    lemma_kv_maps_val(old_st@, k, v2);
                } else {
                    lemma_kv_maps_val(new_st@, k, v1);
                    lemma_kv_maps_val(new_st@, k, v2);
                }
                assert(v1 == v2);
                assert(rows@[x] != rows@[y]);
                assert(false);
            }
        }
        assert forall|x: int, y: int, k1: u64, v1: i64, k2: u64, v2: i64, m: i64|
            0 <= x < y < out@.len() && #[trigger] is_count_rec(out@[x], k1, v1, t, m)
                && #[trigger] is_count_rec(out@[y], k2, v2, t, m) implies k1 < k2 by {
            assert(is_count_rec(out@[x], rows@[x].key, rows@[x].val, t, rows@[x].mult));
            assert(is_count_rec(out@[y], rows@[y].key, rows@[y].val, t, rows@[y].mult));
            assert((k1 as u32) as u64 == k1 && (k2 as u32) as u64 == k2);
            assert((rows@[x].key as u32) as u64 == rows@[x].key);
            assert((rows@[y].key as u32) as u64 == rows@[y].key);
            assert(rows@[x].key == k1 && rows@[y].key == k2);
            assert(rows@[x].mult == m && rows@[y].mult == m);
            // Rows of one sign keep the strict (key, value) order; a
            // shared key with one sign would force a shared value.
            assert(brow_lt(rows@[x], rows@[y]));
            if rows@[x].key == rows@[y].key {
                assert(has_row(rows@, k1, rows@[x].val, m)) by {
                    assert(rows@[x] == (BatchRow { key: k1, val: rows@[x].val, mult: m }));
                }
                assert(has_row(rows@, k1, rows@[y].val, m)) by {
                    assert(rows@[y] == (BatchRow { key: k1, val: rows@[y].val, mult: m }));
                }
                if m == -1 {
                    lemma_kv_maps_val(old_st@, k1, rows@[x].val);
                    lemma_kv_maps_val(old_st@, k1, rows@[y].val);
                } else {
                    lemma_kv_maps_val(new_st@, k1, rows@[x].val);
                    lemma_kv_maps_val(new_st@, k1, rows@[y].val);
                }
                assert(rows@[x].val == rows@[y].val);
                assert(false);
            }
        }
    }
    out
}


/// Co-occurrence update: record, extract, order and convert this
/// collection's diffs at time `t`, compacting its store afterwards.
#[verifier::rlimit(40)]
fn emit_cooc_output(old_st: &Vec<Kv>, new_st: &Vec<Kv>, store: &mut DiffStore, t: u64) -> (out:
    Vec<OutputRecord>)
    requires
        kv_sorted(old_st@),
        kv_sorted(new_st@),
        old(store).wf(),
        all_before(old(store).view_batches(), t),
    ensures
        final(store).wf(),
        final(store).view_batches().len() == 0,
        forall|k: u64, v: i64, m: i64|
            #[trigger] has_cooc_rec(out@, k, v, t, m) <==> diff_cond(old_st@, new_st@, k, v, m),
        forall|x: int|
            0 <= x < out@.len() ==> #[trigger] cooc_rec_ok(out@[x], old_st@, new_st@, t),
        forall|x: int, y: int|
            0 <= x < y < out@.len() && rec_change(#[trigger] out@[y]) < 0 ==> rec_change(
                #[trigger] out@[x],
            ) < 0,
        forall|x: int, y: int, k: u64, v1: i64, v2: i64, m: i64|
            0 <= x < y < out@.len() ==> !(#[trigger] is_cooc_rec(out@[x], k, v1, t, m)
                && #[trigger] is_cooc_rec(out@[y], k, v2, t, m)),
        forall|x: int, y: int, k1: u64, v1: i64, k2: u64, v2: i64, m: i64|
            0 <= x < y < out@.len() && #[trigger] is_cooc_rec(out@[x], k1, v1, t, m)
                && #[trigger] is_cooc_rec(out@[y], k2, v2, t, m) ==> k1 < k2,
{
    let rows = emit_collection(old_st, new_st, store, t);
    let mut out: Vec<OutputRecord> = Vec::new();
    push_cooc_records(&mut out, &rows, t);
    proof {
        assert(out@.len() == rows@.len());
        assert forall|x: int|
            0 <= x < rows@.len() implies is_cooc_rec(
            #[trigger] out@[x],
            rows@[x].key,
            rows@[x].val,
            t,
            rows@[x].mult,
        ) by {
            assert(is_cooc_rec(out@[0 + x], rows@[x].key, rows@[x].val, t, rows@[x].mult));
        }
        assert forall|k: u64, v: i64, m: i64|
            #[trigger] has_cooc_rec(out@, k, v, t, m) <==> diff_cond(old_st@, new_st@, k, v,
            m) by {
            if has_cooc_rec(out@, k, v, t, m) {
                let x = choose|x: int|
                    0 <= x < out@.len() && #[trigger] is_cooc_rec(out@[x], k, v, t, m);
                assert(is_cooc_rec(out@[x], rows@[x].key, rows@[x].val, t, rows@[x].mult));
                lemma_key_split(k);
                lemma_key_split(rows@[x].key);
                assert(k == rows@[x].key && v == rows@[x].val && m == rows@[x].mult);
                assert(has_row(rows@, k, v, m)) by {
                    assert(rows@[x] == (BatchRow { key: k, val: v, mult: m }));
                }
            }
            if diff_cond(old_st@, new_st@, k, v, m) {
                assert(has_row(rows@, k, v, m));
                let j = choose|j: int|
                    0 <= j < rows@.len() && #[trigger] rows@[j] == (BatchRow {
                        key: k,
                        val: v,
                        mult: m,
                    });
                assert(is_cooc_rec(out@[j], rows@[j].key, rows@[j].val, t, rows@[j].mult));
                assert(is_cooc_rec(out@[j], k, v, t, m));
            }
        }
        assert forall|x: int|
            0 <= x < out@.len() implies #[trigger] cooc_rec_ok(out@[x], old_st@, new_st@, t) by {
            let row = rows@[x];
            assert(is_cooc_rec(out@[x], row.key, row.val, t, row.mult));
            assert(has_row(rows@, row.key, row.val, row.mult)) by {
                assert(rows@[x] == (BatchRow { key: row.key, val: row.val, mult: row.mult }));
            }
            if row.mult == -1 {
                assert(diff_cond(old_st@, new_st@, row.key, row.val, -1i64));
            } else {
                assert(row.mult == 1);
                assert(diff_cond(old_st@, new_st@, row.key, row.val, 1i64));
            }
            assert(is_cooc_rec(out@[x], row.key, row.val, t, row.mult) && diff_cond(
                old_st@,
                new_st@,
                row.key,
                row.val,
                row.mult,
            ));
        }
        assert forall|x: int, y: int|
            0 <= x < y < out@.len() && rec_change(#[trigger] out@[y]) < 0 implies rec_change(
            #[trigger] out@[x],
        ) < 0 by {
            assert(is_cooc_rec(out@[x], rows@[x].key, rows@[x].val, t, rows@[x].mult));
            assert(is_cooc_rec(out@[y], rows@[y].key, rows@[y].val, t, rows@[y].mult));
            assert(rec_change(out@[x]) == rows@[x].mult && rec_change(out@[y]) == rows@[y].mult);
        }
        assert forall|x: int, y: int, k: u64, v1: i64, v2: i64, m: i64|
            0 <= x < y < out@.len() implies !(#[trigger] is_cooc_rec(out@[x], k, v1, t, m)
            && #[trigger] is_cooc_rec(out@[y], k, v2, t, m)) by {
            if is_cooc_rec(out@[x], k, v1, t, m) && is_cooc_rec(out@[y], k, v2, t, m) {
                assert(is_cooc_rec(out@[x], rows@[x].key, rows@[x].val, t, rows@[x].mult));
                assert(is_cooc_rec(out@[y], rows@[y].key, rows@[y].val, t, rows@[y].mult));
                lemma_key_split(k);
                lemma_key_split(rows@[x].key);
                lemma_key_split(rows@[y].key);
                assert(rows@[x].key == k && rows@[y].key == k);
                assert(rows@[x].mult == m && rows@[y].mult == m);
                assert(rows@[x].val == v1 && rows@[y].val == v2);
                assert(has_row(rows@, k, v1, m)) by {
                    assert(rows@[x] == (BatchRow { key: k, val: v1, mult: m }));
                }
                assert(has_row(rows@, k, v2, m)) by {
                    assert(rows@[y] == (BatchRow { key: k, val: v2, mult: m }));
                }
                if m == -1 {
                    lemma_kv_maps_val(old_st@, k, v1);
                    lemma_kv_maps_val(old_st@, k, v2);
                } else {
                    lemma_kv_maps_val(new_st@, k, v1);
                    lemma_kv_maps_val(new_st@, k, v2);
                }
                assert(v1 == v2);
                assert(rows@[x] != rows@[y]);
                assert(false);
            }
        }
        assert forall|x: int, y: int, k1: u64, v1: i64, k2: u64, v2: i64, m: i64|
            0 <= x < y < out@.len() && #[trigger] is_cooc_rec(out@[x], k1, v1, t, m)
                && #[trigger] is_cooc_rec(out@[y], k2, v2, t, m) implies k1 < k2 by {
            assert(is_cooc_rec(out@[x], rows@[x].key, rows@[x].val, t, rows@[x].mult));
            assert(is_cooc_rec(out@[y], rows@[y].key, rows@[y].val, t, rows@[y].mult));
            lemma_key_split(k1);
            lemma_key_split(k2);
            lemma_key_split(rows@[x].key);
            lemma_key_split(rows@[y].key);
            assert(rows@[x].key == k1 && rows@[y].key == k2);
            assert(rows@[x].mult == m && rows@[y].mult == m);
            // Rows of one sign keep the strict (key, value) order; a
            // shared key with one sign would force a shared value.
            assert(brow_lt(rows@[x], rows@[y]));
            if rows@[x].key == rows@[y].key {
                assert(has_row(rows@, k1, rows@[x].val, m)) by {
                    assert(rows@[x] == (BatchRow { key: k1, val: rows@[x].val, mult: m }));
                }
                assert(has_row(rows@, k1, rows@[y].val, m)) by {
                    assert(rows@[y] == (BatchRow { key: k1, val: rows@[y].val, mult: m }));
                }
                if m == -1 {
                    lemma_kv_maps_val(old_st@, k1, rows@[x].val);
                    lemma_kv_maps_val(old_st@, k1, rows@[y].val);
                } else {
                    lemma_kv_maps_val(new_st@, k1, rows@[x].val);
                    lemma_kv_maps_val(new_st@, k1, rows@[y].val);
                }
                assert(rows@[x].val == rows@[y].val);
                assert(false);
            }
        }
    }
    out
}

/// Similarity update: record, extract, order and convert this
/// collection's diffs at time `t`, compacting its store afterwards.
#[verifier::rlimit(40)]
fn emit_sim_output(old_st: &Vec<Kv>, new_st: &Vec<Kv>, store: &mut DiffStore, t: u64) -> (out:
    Vec<OutputRecord>)
    requires
        kv_sorted(old_st@),
        kv_sorted(new_st@),
        old(store).wf(),
        all_before(old(store).view_batches(), t),
        forall|k: u64, v: i64| #[trigger] kv_maps(old_st@, k, v) ==> 0 <= v <= SIM_SCALE,
        forall|k: u64, v: i64| #[trigger] kv_maps(new_st@, k, v) ==> 0 <= v <= SIM_SCALE,
    ensures
        final(store).wf(),
        final(store).view_batches().len() == 0,
        forall|k: u64, v: i64, m: i64|
            diff_cond(old_st@, new_st@, k, v, m) ==> #[trigger] has_sim_rec(out@, k, v, t, m),
        forall|x: int|
            0 <= x < out@.len() ==> #[trigger] sim_rec_ok(out@[x], old_st@, new_st@, t),
        forall|x: int, y: int|
            0 <= x < y < out@.len() && rec_change(#[trigger] out@[y]) < 0 ==> rec_change(
                #[trigger] out@[x],
            ) < 0,
        forall|x: int, y: int, k: u64, v1: i64, v2: i64, m: i64|
            0 <= x < y < out@.len() ==> !(#[trigger] is_sim_rec(out@[x], k, v1, t, m)
                && #[trigger] is_sim_rec(out@[y], k, v2, t, m)),
        forall|x: int, y: int, k1: u64, v1: i64, k2: u64, v2: i64, m: i64|
            0 <= x < y < out@.len() && #[trigger] is_sim_rec(out@[x], k1, v1, t, m)
                && #[trigger] is_sim_rec(out@[y], k2, v2, t, m) ==> k1 < k2,
{
    let rows = emit_collection(old_st, new_st, store, t);
    proof {
        assert forall|x: int|
            0 <= x < rows@.len() implies 0 <= (#[trigger] rows@[x]).val <= SIM_SCALE by {
            let row = rows@[x];
            assert(has_row(rows@, row.key, row.val, row.mult));
            if row.mult == -1 {
                assert(kv_maps(old_st@, row.key, row.val));
            } else {
                assert(kv_maps(new_st@, row.key, row.val));
            }
        }
    }
    let mut out: Vec<OutputRecord> = Vec::new();
    push_sim_records(&mut out, &rows, t);
    proof {
        assert(out@.len() == rows@.len());
        assert forall|x: int|
            0 <= x < rows@.len() implies is_sim_rec(
            #[trigger] out@[x],
            rows@[x].key,
            rows@[x].val,
            t,
            rows@[x].mult,
        ) by {
            assert(is_sim_rec(out@[0 + x], rows@[x].key, rows@[x].val, t, rows@[x].mult));
        }
        assert forall|k: u64, v: i64, m: i64|
            diff_cond(old_st@, new_st@, k, v, m) implies #[trigger] has_sim_rec(out@, k, v, t,
            m) by {
            assert(has_row(rows@, k, v, m));
            let j = choose|j: int|
                0 <= j < rows@.len() && #[trigger] rows@[j] == (BatchRow {
                    key: k,
                    val: v,
                    mult: m,
                });
            assert(is_sim_rec(out@[j], rows@[j].key, rows@[j].val, t, rows@[j].mult));
            assert(is_sim_rec(out@[j], k, v, t, m));
        }
        assert forall|x: int|
            0 <= x < out@.len() implies #[trigger] sim_rec_ok(out@[x], old_st@, new_st@, t) by {
            let row = rows@[x];
            assert(is_sim_rec(out@[x], row.key, row.val, t, row.mult));
            assert(has_row(rows@, row.key, row.val, row.mult)) by {
                assert(rows@[x] == (BatchRow { key: row.key, val: row.val, mult: row.mult }));
            }
            if row.mult == -1 {
                assert(diff_cond(old_st@, new_st@, row.key, row.val, -1i64));
            } else {
                assert(row.mult == 1);
                assert(diff_cond(old_st@, new_st@, row.key, row.val, 1i64));
            }
            assert(is_sim_rec(out@[x], row.key, row.val, t, row.mult) && diff_cond(
                old_st@,
                new_st@,
                row.key,
                row.val,
                row.mult,
            ));
        }
        assert forall|x: int, y: int|
            0 <= x < y < out@.len() && rec_change(#[trigger] out@[y]) < 0 implies rec_change(
            #[trigger] out@[x],
        ) < 0 by {
            assert(is_sim_rec(out@[x], rows@[x].key, rows@[x].val, t, rows@[x].mult));
            assert(is_sim_rec(out@[y], rows@[y].key, rows@[y].val, t, rows@[y].mult));
            assert(rec_change(out@[x]) == rows@[x].mult && rec_change(out@[y]) == rows@[y].mult);
        }
        assert forall|x: int, y: int, k: u64, v1: i64, v2: i64, m: i64|
            0 <= x < y < out@.len() implies !(#[trigger] is_sim_rec(out@[x], k, v1, t, m)
            && #[trigger] is_sim_rec(out@[y], k, v2, t, m)) by {
            if is_sim_rec(out@[x], k, v1, t, m) && is_sim_rec(out@[y], k, v2, t, m) {
                assert(is_sim_rec(out@[x], rows@[x].key, rows@[x].val, t, rows@[x].mult));
                assert(is_sim_rec(out@[y], rows@[y].key, rows@[y].val, t, rows@[y].mult));
                lemma_key_split(k);
                lemma_key_split(rows@[x].key);
                lemma_key_split(rows@[y].key);
                assert(rows@[x].key == k && rows@[y].key == k);
                assert(rows@[x].mult == m && rows@[y].mult == m);
                assert(has_row(rows@, k, rows@[x].val, m)) by {
                    assert(rows@[x] == (BatchRow { key: k, val: rows@[x].val, mult: m }));
                }
                assert(has_row(rows@, k, rows@[y].val, m)) by {
                    assert(rows@[y] == (BatchRow { key: k, val: rows@[y].val, mult: m }));
                }
                if m == -1 {
                    lemma_kv_maps_val(old_st@, k, rows@[x].val);
                    lemma_kv_maps_val(old_st@, k, rows@[y].val);
                } else {
                    lemma_kv_maps_val(new_st@, k, rows@[x].val);
                    lemma_kv_maps_val(new_st@, k, rows@[y].val);
                }
                assert(rows@[x].val == rows@[y].val);
                assert(rows@[x] != rows@[y]);
                assert(false);
            }
        }
        assert forall|x: int, y: int, k1: u64, v1: i64, k2: u64, v2: i64, m: i64|
            0 <= x < y < out@.len() && #[trigger] is_sim_rec(out@[x], k1, v1, t, m)
                && #[trigger] is_sim_rec(out@[y], k2, v2, t, m) implies k1 < k2 by {
            assert(is_sim_rec(out@[x], rows@[x].key, rows@[x].val, t, rows@[x].mult));
            assert(is_sim_rec(out@[y], rows@[y].key, rows@[y].val, t, rows@[y].mult));
            lemma_key_split(k1);
            lemma_key_split(k2);
            lemma_key_split(rows@[x].key);
            lemma_key_split(rows@[y].key);
            assert(rows@[x].key == k1 && rows@[y].key == k2);
            assert(rows@[x].mult == m && rows@[y].mult == m);
            // Rows of one sign keep the strict (key, value) order; a
            // shared key with one sign would force a shared value.
            assert(brow_lt(rows@[x], rows@[y]));
            if rows@[x].key == rows@[y].key {
                assert(has_row(rows@, k1, rows@[x].val, m)) by {
                    assert(rows@[x] == (BatchRow { key: k1, val: rows@[x].val, mult: m }));
                }
                assert(has_row(rows@, k1, rows@[y].val, m)) by {
                    assert(rows@[y] == (BatchRow { key: k1, val: rows@[y].val, mult: m }));
                }
                if m == -1 {
                    lemma_kv_maps_val(old_st@, k1, rows@[x].val);
                    lemma_kv_maps_val(old_st@, k1, rows@[y].val);
                } else {
                    lemma_kv_maps_val(new_st@, k1, rows@[x].val);
                    lemma_kv_maps_val(new_st@, k1, rows@[y].val);
                }
                assert(rows@[x].val == rows@[y].val);
                assert(false);
            }
        }
    }
    out
}

/// Recommendation update: record, extract, order and convert this
/// collection's diffs at time `t`, compacting its store afterwards.
#[verifier::rlimit(40)]
fn emit_rec_output(old_st: &Vec<Kv>, new_st: &Vec<Kv>, store: &mut DiffStore, t: u64) -> (out:
    Vec<OutputRecord>)
    requires
        kv_sorted(old_st@),
        kv_sorted(new_st@),
        old(store).wf(),
        all_before(old(store).view_batches(), t),
        forall|k: u64, v: i64|
            #[trigger] kv_maps(old_st@, k, v) ==> (k as int) < 0x1_0000_0000 && 0 <= v
                < 0x1_0000_0000,
        forall|k: u64, v: i64|
            #[trigger] kv_maps(new_st@, k, v) ==> (k as int) < 0x1_0000_0000 && 0 <= v
                < 0x1_0000_0000,
    ensures
        final(store).wf(),
        final(store).view_batches().len() == 0,
        forall|k: u64, v: i64, m: i64|
            #[trigger] has_rec_rec(out@, k, v, t, m) <==> diff_cond(old_st@, new_st@, k, v, m),
        forall|x: int|
            0 <= x < out@.len() ==> #[trigger] rec_rec_ok(out@[x], old_st@, new_st@, t),
        forall|x: int, y: int|
            0 <= x < y < out@.len() && rec_change(#[trigger] out@[y]) < 0 ==> rec_change(
                #[trigger] out@[x],
            ) < 0,
        forall|x: int, y: int, k: u64, v1: i64, v2: i64, m: i64|
            0 <= x < y < out@.len() ==> !(#[trigger] is_rec_rec(out@[x], k, v1, t, m)
                && #[trigger] is_rec_rec(out@[y], k, v2, t, m)),
        forall|x: int, y: int, k1: u64, v1: i64, k2: u64, v2: i64, m: i64|
            0 <= x < y < out@.len() && #[trigger] is_rec_rec(out@[x], k1, v1, t, m)
                && #[trigger] is_rec_rec(out@[y], k2, v2, t, m) ==> k1 < k2,
{
    let rows = emit_collection(old_st, new_st, store, t);
    proof {
        assert forall|x: int|
            0 <= x < rows@.len() implies ((#[trigger] rows@[x]).key as int) < 0x1_0000_0000 && 0
            <= rows@[x].val < 0x1_0000_0000 by {
            let row = rows@[x];
            assert(has_row(rows@, row.key, row.val, row.mult));
            if row.mult == -1 {
                assert(kv_maps(old_st@, row.key, row.val));
            } else {
                assert(kv_maps(new_st@, row.key, row.val));
            }
        }
    }
    let mut out: Vec<OutputRecord> = Vec::new();
    push_rec_records(&mut out, &rows, t);
    proof {
        assert(out@.len() == rows@.len());
        assert forall|x: int|
            0 <= x < rows@.len() implies is_rec_rec(
            #[trigger] out@[x],
            rows@[x].key,
            rows@[x].val,
            t,
            rows@[x].mult,
        ) by {
            assert(is_rec_rec(out@[0 + x], rows@[x].key, rows@[x].val, t, rows@[x].mult));
        }
        assert forall|k: u64, v: i64, m: i64|
            #[trigger] has_rec_rec(out@, k, v, t, m) <==> diff_cond(old_st@, new_st@, k, v, m) by {
            if has_rec_rec(out@, k, v, t, m) {
                let x = choose|x: int|
                    0 <= x < out@.len() && #[trigger] is_rec_rec(out@[x], k, v, t, m);
                assert(is_rec_rec(out@[x], rows@[x].key, rows@[x].val, t, rows@[x].mult));
                assert((k as u32) as u64 == k && (rows@[x].key as u32) as u64 == rows@[x].key);
                assert((v as u32) as i64 == v && (rows@[x].val as u32) as i64 == rows@[x].val);
                assert(k == rows@[x].key && v == rows@[x].val && m == rows@[x].mult);
                assert(has_row(rows@, k, v, m)) by {
                    assert(rows@[x] == (BatchRow { key: k, val: v, mult: m }));
                }
            }
            if diff_cond(old_st@, new_st@, k, v, m) {
                assert(has_row(rows@, k, v, m));
                let j = choose|j: int|
                    0 <= j < rows@.len() && #[trigger] rows@[j] == (BatchRow {
                        key: k,
                        val: v,
                        mult: m,
                    });
                assert(is_rec_rec(out@[j], rows@[j].key, rows@[j].val, t, rows@[j].mult));
                assert(is_rec_rec(out@[j], k, v, t, m));
            }
        }
        assert forall|x: int|
            0 <= x < out@.len() implies #[trigger] rec_rec_ok(out@[x], old_st@, new_st@, t) by {
            let row = rows@[x];
            assert(is_rec_rec(out@[x], row.key, row.val, t, row.mult));
            assert(has_row(rows@, row.key, row.val, row.mult)) by {
                assert(rows@[x] == (BatchRow { key: row.key, val: row.val, mult: row.mult }));
            }
            if row.mult == -1 {
                assert(diff_cond(old_st@, new_st@, row.key, row.val, -1i64));
            } else {
                assert(row.mult == 1);
                assert(diff_cond(old_st@, new_st@, row.key, row.val, 1i64));
            }
            assert(is_rec_rec(out@[x], row.key, row.val, t, row.mult) && diff_cond(
                old_st@,
                new_st@,
                row.key,
                row.val,
                row.mult,
            ));
        }
        assert forall|x: int, y: int|
            0 <= x < y < out@.len() && rec_change(#[trigger] out@[y]) < 0 implies rec_change(
            #[trigger] out@[x],
        ) < 0 by {
            assert(is_rec_rec(out@[x], rows@[x].key, rows@[x].val, t, rows@[x].mult));
            assert(is_rec_rec(out@[y], rows@[y].key, rows@[y].val, t, rows@[y].mult));
            assert(rec_change(out@[x]) == rows@[x].mult && rec_change(out@[y]) == rows@[y].mult);
        }
        assert forall|x: int, y: int, k: u64, v1: i64, v2: i64, m: i64|
            0 <= x < y < out@.len() implies !(#[trigger] is_rec_rec(out@[x], k, v1, t, m)
            && #[trigger] is_rec_rec(out@[y], k, v2, t, m)) by {
            if is_rec_rec(out@[x], k, v1, t, m) && is_rec_rec(out@[y], k, v2, t, m) {
                assert(is_rec_rec(out@[x], rows@[x].key, rows@[x].val, t, rows@[x].mult));
                assert(is_rec_rec(out@[y], rows@[y].key, rows@[y].val, t, rows@[y].mult));
                assert((k as u32) as u64 == k);
                assert((v1 as u32) as i64 == v1 && (v2 as u32) as i64 == v2);
                assert((rows@[x].val as u32) as i64 == rows@[x].val);
                assert((rows@[y].val as u32) as i64 == rows@[y].val);
                assert(rows@[x].key == k && rows@[y].key == k);
                assert(rows@[x].mult == m && rows@[y].mult == m);
                assert(rows@[x].val == v1 && rows@[y].val == v2);
                assert(has_row(rows@, k, v1, m)) by {
                    assert(rows@[x] == (BatchRow { key: k, val: v1, mult: m }));
                }
                assert(has_row(rows@, k, v2, m)) by {
                    assert(rows@[y] == (BatchRow { key: k, val: v2, mult: m }));
                }
                if m == -1 {
                    lemma_kv_maps_val(old_st@, k, v1);
                    lemma_kv_maps_val(old_st@, k, v2);
                } else {
                    lemma_kv_maps_val(new_st@, k, v1);
                    lemma_kv_maps_val(new_st@, k, v2);
                }
                assert(v1 == v2);
                assert(rows@[x] != rows@[y]);
                assert(false);
            }
        }
        assert forall|x: int, y: int, k1: u64, v1: i64, k2: u64, v2: i64, m: i64|
            0 <= x < y < out@.len() && #[trigger] is_rec_rec(out@[x], k1, v1, t, m)
                && #[trigger] is_rec_rec(out@[y], k2, v2, t, m) implies k1 < k2 by {
            assert(is_rec_rec(out@[x], rows@[x].key, rows@[x].val, t, rows@[x].mult));
            assert(is_rec_rec(out@[y], rows@[y].key, rows@[y].val, t, rows@[y].mult));
            assert((k1 as u32) as u64 == k1 && (k2 as u32) as u64 == k2);
            assert((rows@[x].key as u32) as u64 == rows@[x].key);
            assert((rows@[y].key as u32) as u64 == rows@[y].key);
            assert(rows@[x].key == k1 && rows@[y].key == k2);
            assert(rows@[x].mult == m && rows@[y].mult == m);
            // Rows of one sign keep the strict (key, value) order; a
            // shared key with one sign would force a shared value.
            assert(brow_lt(rows@[x], rows@[y]));
            if rows@[x].key == rows@[y].key {
                assert(has_row(rows@, k1, rows@[x].val, m)) by {
                    assert(rows@[x] == (BatchRow { key: k1, val: rows@[x].val, mult: m }));
                }
                assert(has_row(rows@, k1, rows@[y].val, m)) by {
                    assert(rows@[y] == (BatchRow { key: k1, val: rows@[y].val, mult: m }));
                }
                if m == -1 {
                    lemma_kv_maps_val(old_st@, k1, rows@[x].val);
                    lemma_kv_maps_val(old_st@, k1, rows@[y].val);
                } else {
                    lemma_kv_maps_val(new_st@, k1, rows@[x].val);
                    lemma_kv_maps_val(new_st@, k1, rows@[y].val);
                }
                assert(rows@[x].val == rows@[y].val);
                assert(false);
            }
        }
    }
    out
}


/// One accepted step's broadcast output: each derived collection's diff
/// records for the new logical time, in the fixed broadcast sequence —
/// item counts, then co-occurrences, then similarities, then
/// recommendations — each batch already in broadcast order.
pub struct StepDiffs {
    pub item_counts: Vec<OutputRecord>,
    pub cooccurrences: Vec<OutputRecord>,
    pub similarities: Vec<OutputRecord>,
    pub recommendations: Vec<OutputRecord>,
}

/// Retractions precede additions within one collection's batch.
pub open spec fn negs_first(rs: Seq<OutputRecord>) -> bool {
    forall|x: int, y: int|
        0 <= x < y < rs.len() && rec_change(#[trigger] rs[y]) < 0 ==> rec_change(
            #[trigger] rs[x],
        ) < 0
}

/// The returned records are exactly the diffs between the engine's old
/// and new derived states at time `t`: complete (every diff has its
/// record), sound (every record is a real diff), unrepeated, and in
/// broadcast order — retractions before additions, each sign group in
/// strictly ascending key order, so the whole sequence is a function of
/// the snapshot.
pub open spec fn step_records_ok(out: StepDiffs, pre: Engine, post: Engine, t: u64) -> bool {
    &&& forall|k: u64, v: i64, m: i64|
        #[trigger] has_count_rec(out.item_counts@, k, v, t, m) <==> diff_cond(
            pre.counts_view(),
            post.counts_view(),
            k,
            v,
            m,
        )
    &&& forall|x: int|
        0 <= x < out.item_counts@.len() ==> #[trigger] count_rec_ok(
            out.item_counts@[x],
            pre.counts_view(),
            post.counts_view(),
            t,
        )
    &&& forall|k: u64, v: i64, m: i64|
        #[trigger] has_cooc_rec(out.cooccurrences@, k, v, t, m) <==> diff_cond(
            pre.cooc_view(),
            post.cooc_view(),
            k,
            v,
            m,
        )
    &&& forall|x: int|
        0 <= x < out.cooccurrences@.len() ==> #[trigger] cooc_rec_ok(
            out.cooccurrences@[x],
            pre.cooc_view(),
            post.cooc_view(),
            t,
        )
    &&& forall|k: u64, v: i64, m: i64|
        diff_cond(pre.sims_view(), post.sims_view(), k, v, m) ==> #[trigger] has_sim_rec(
            out.similarities@,
            k,
            v,
            t,
            m,
        )
    &&& forall|x: int|
        0 <= x < out.similarities@.len() ==> #[trigger] sim_rec_ok(
            out.similarities@[x],
            pre.sims_view(),
            post.sims_view(),
            t,
        )
    &&& forall|k: u64, v: i64, m: i64|
        #[trigger] has_rec_rec(out.recommendations@, k, v, t, m) <==> diff_cond(
            pre.recs_view(),
            post.recs_view(),
            k,
            v,
            m,
        )
    &&& forall|x: int|
        0 <= x < out.recommendations@.len() ==> #[trigger] rec_rec_ok(
            out.recommendations@[x],
            pre.recs_view(),
            post.recs_view(),
            t,
        )
    &&& negs_first(out.item_counts@)
    &&& negs_first(out.cooccurrences@)
    &&& negs_first(out.similarities@)
    &&& negs_first(out.recommendations@)
    &&& forall|x: int, y: int, k: u64, v1: i64, v2: i64, m: i64|
        0 <= x < y < out.item_counts@.len() ==> !(#[trigger] is_count_rec(
            out.item_counts@[x],
            k,
            v1,
            t,
            m,
        ) && #[trigger] is_count_rec(out.item_counts@[y], k, v2, t, m))
    &&& forall|x: int, y: int, k: u64, v1: i64, v2: i64, m: i64|
        0 <= x < y < out.cooccurrences@.len() ==> !(#[trigger] is_cooc_rec(
            out.cooccurrences@[x],
            k,
            v1,
            t,
            m,
        ) && #[trigger] is_cooc_rec(out.cooccurrences@[y], k, v2, t, m))
    &&& forall|x: int, y: int, k: u64, v1: i64, v2: i64, m: i64|
        0 <= x < y < out.similarities@.len() ==> !(#[trigger] is_sim_rec(
            out.similarities@[x],
            k,
            v1,
            t,
            m,
        ) && #[trigger] is_sim_rec(out.similarities@[y], k, v2, t, m))
    &&& forall|x: int, y: int, k: u64, v1: i64, v2: i64, m: i64|
        0 <= x < y < out.recommendations@.len() ==> !(#[trigger] is_rec_rec(
            out.recommendations@[x],
            k,
            v1,
            t,
            m,
        ) && #[trigger] is_rec_rec(out.recommendations@[y], k, v2, t, m))
    &&& forall|x: int, y: int, k1: u64, v1: i64, k2: u64, v2: i64, m: i64|
        0 <= x < y < out.item_counts@.len() && #[trigger] is_count_rec(
            out.item_counts@[x],
            k1,
            v1,
            t,
            m,
        ) && #[trigger] is_count_rec(out.item_counts@[y], k2, v2, t, m) ==> k1 < k2
    &&& forall|x: int, y: int, k1: u64, v1: i64, k2: u64, v2: i64, m: i64|
        0 <= x < y < out.cooccurrences@.len() && #[trigger] is_cooc_rec(
            out.cooccurrences@[x],
            k1,
            v1,
            t,
            m,
        ) && #[trigger] is_cooc_rec(out.cooccurrences@[y], k2, v2, t, m) ==> k1 < k2
    &&& forall|x: int, y: int, k1: u64, v1: i64, k2: u64, v2: i64, m: i64|
        0 <= x < y < out.similarities@.len() && #[trigger] is_sim_rec(
            out.similarities@[x],
            k1,
            v1,
            t,
            m,
        ) && #[trigger] is_sim_rec(out.similarities@[y], k2, v2, t, m) ==> k1 < k2
    &&& forall|x: int, y: int, k1: u64, v1: i64, k2: u64, v2: i64, m: i64|
        0 <= x < y < out.recommendations@.len() && #[trigger] is_rec_rec(
            out.recommendations@[x],
            k1,
            v1,
            t,
            m,
        ) && #[trigger] is_rec_rec(out.recommendations@[y], k2, v2, t, m) ==> k1 < k2
}

/// Copies a row store.
fn copy_rows(v: &Vec<InputRow>) -> (r: Vec<InputRow>)
    ensures
        r@ == v@,
{
    let mut out: Vec<InputRow> = Vec::new();
    let mut i: usize = 0;
    while i < v.len()
        invariant
            0 <= i <= v@.len(),
            out@ == v@.subrange(0, i as int),
        decreases v.len() - i,
    {
        out.push(v[i]);
        i = i + 1;
    }
    proof {
        assert(out@ == v@);
    }
    out
}

/// A correct similarity state of a nondegenerate store within capacity
/// has canonical keys and values inside the fixed-point scale.
proof fn lemma_sims_shape(st: Seq<Kv>, s: Seq<InputRow>)
    requires
        sims_ok(st, s),
        nondegenerate(s),
        total_weight(s) <= MAX_TOTAL_WEIGHT,
    ensures
        sims_rows_ok(st),
        forall|k: u64, v: i64| #[trigger] kv_maps(st, k, v) ==> 0 <= v <= SIM_SCALE,
{
    assert forall|k: u64, v: i64| #[trigger] kv_maps(st, k, v) implies 0 <= v <= SIM_SCALE by {
        let a = hi_of(k as int);
        let b = lo_of(k as int);
        lemma_sim_scaled_bounds(s, a, b);
    }
    assert forall|x: int|
        0 <= x < st.len() implies 1 <= (#[trigger] st[x]).val <= SIM_SCALE && hi_of(
        st[x].key as int) != lo_of(st[x].key as int) by {
        let k = st[x].key;
        let v = st[x].val;
        assert(kv_maps(st, k, v)) by {
            assert(st[x] == (Kv { key: k, val: v }));
        }
        let a = hi_of(k as int);
        let b = lo_of(k as int);
        lemma_sim_scaled_bounds(s, a, b);
        if a == b {
            lemma_cooc_noncanonical(s, s.len() as int, a, b);
        }
    }
}

impl Engine {
    /// Handles one change request: appends the batch to the interaction
    /// log, advances the logical clock by one, flushes, propagates the
    /// batch's deltas through the derived chain, records each
    /// collection's diffs at the new time and returns them in broadcast
    /// order.  A batch that would push the store's weight past the
    /// arithmetic capacity, or one whose updated history cannot carry
    /// Jaccard values, is rejected whole: nothing is committed.
    pub fn handle_request(&mut self, req: &ChangeRequest) -> (r: Result<StepDiffs, EngineError>)
        requires
            old(self).wf(),
        ensures
            final(self).wf(),
            r is Err ==> *final(self) == *old(self),
            (r matches Err(e) && e == EngineError::CapacityExceeded) <==> (old(self).used_weight()
                + req.interactions@.len() > MAX_TOTAL_WEIGHT || old(self).current_time()
                == u64::MAX),
            (r matches Err(e) && e == EngineError::DivisionDegenerate) <==> (!(old(
                self,
            ).used_weight() + req.interactions@.len() > MAX_TOTAL_WEIGHT || old(
                self,
            ).current_time() == u64::MAX) && updated_degenerate(
                old(self).base_view(),
                req_rows(req.change, req.interactions@),
            )),
            r is Ok <==> (!(old(self).used_weight() + req.interactions@.len() > MAX_TOTAL_WEIGHT
                || old(self).current_time() == u64::MAX) && !updated_degenerate(
                old(self).base_view(),
                req_rows(req.change, req.interactions@),
            )),
            r is Ok ==> final(self).current_time() == old(self).current_time() + 1,
            r is Ok ==> final(self).qbase_view() == old(self).qbase_view(),
            r is Ok ==> final(self).used_weight() == total_weight(final(self).base_view()),
            r is Ok ==> final(self).used_query_weight() == old(self).used_query_weight(),
            r is Ok ==> forall|k: int, it: int|
                #[trigger] row_mult(final(self).base_view(), k, it) == row_mult(
                    old(self).base_view(),
                    k,
                    it,
                ) + row_mult(req_rows(req.change, req.interactions@), k, it),
            r matches Ok(out) ==> step_records_ok(
                out,
                *old(self),
                *final(self),
                (old(self).current_time() + 1) as u64,
            ),
    {
        let len = req.interactions.len();
        if self.interactions.time() == u64::MAX || (len as u64) > MAX_TOTAL_WEIGHT - self.weight {
            return Err(EngineError::CapacityExceeded);
        }
        let ghost rows_spec = req_rows(req.change, req.interactions@);
        // Build the batch the request stands for.
        let m: i64 = if req.change == Change::Add {
            1
        } else {
            -1
        };
        let mut batch: Vec<InputRow> = Vec::new();
        let mut i: usize = 0;
        while i < len
            invariant
                0 <= i <= len,
                len == req.interactions@.len(),
                rows_spec == req_rows(req.change, req.interactions@),
                m == (if req.change is Add { 1i64 } else { -1i64 }),
                batch@ == rows_spec.subrange(0, i as int),
            decreases len - i,
        {
            let (u, it) = req.interactions[i];
            batch.push(InputRow { key: u, item: it, mult: m });
            proof {
                assert(batch@ =~= rows_spec.subrange(0, i as int + 1));
            }
            i = i + 1;
        }
        proof {
            assert(batch@ =~= rows_spec);
            assert forall|j: int|
                0 <= j < batch@.len() implies abs_of((#[trigger] batch@[j]).mult as int) == 1 by {}
            lemma_unit_weight(batch@, batch@.len() as int);
            lemma_weight_upto_nonneg(self.base@, self.base@.len() as int);
        }
        // Trial run: apply the batch and recompute the derived chain
        // before committing anything, so a degenerate batch is rejected
        // without touching state.
        let mut new_base = copy_rows(&self.base);
        let mut cooc2 = crate::operators::copy_kvs(&self.cooc);
        apply_rows_with_cooc(&mut new_base, &mut cooc2, &batch);
        let counts2 = count_state_delta(&self.counts, &batch, &self.base, &new_base);
        let sims2 = match sim_state(&new_base, &counts2, &cooc2) {
            Ok(st) => st,
            Err(e) => {
                proof {
                    assert(updated_degenerate(self.base@, rows_spec)) by {
                        assert forall|s2: Seq<InputRow>|
                            (store_wf(s2) && (forall|k: int, it: int|
                                #[trigger] row_mult(s2, k, it) == row_mult(self.base@, k, it)
                                    + row_mult(rows_spec, k, it))) implies !nondegenerate(s2) by {
                            lemma_store_canonical(s2, new_base@);
                        }
                    }
                }
                return Err(e);
            },
        };
        proof {
            // The committed-to-be store is nondegenerate: the trial run
            // succeeded, and any candidate store equals it.
            assert(!updated_degenerate(self.base@, rows_spec)) by {
                assert(store_wf(new_base@) && (forall|k: int, it: int|
                    #[trigger] row_mult(new_base@, k, it) == row_mult(self.base@, k, it)
                        + row_mult(rows_spec, k, it)) && nondegenerate(new_base@));
            }
            lemma_sims_shape(sims2@, new_base@);
            lemma_sims_shape(self.sims@, self.base@);
        }
        let recs2 = recs_state(&self.qbase, &sims2);
        // Commit: feed the log, advance the shared clock, flush the batch
        // and fold it into the interaction store.
        let t_new = self.interactions.time() + 1;
        let mut j: usize = 0;
        while j < len
            invariant
                0 <= j <= len,
                len == req.interactions@.len(),
                rows_spec == req_rows(req.change, req.interactions@),
                self.interactions.pending_rows() == rows_spec.subrange(0, j as int),
                self.interactions.current_time() == old(self).current_time(),
                self.base@ == old(self).base@,
                self.qbase@ == old(self).qbase@,
                self.counts@ == old(self).counts@,
                self.cooc@ == old(self).cooc@,
                self.sims@ == old(self).sims@,
                self.recs@ == old(self).recs@,
                self.weight == old(self).weight,
                self.qweight == old(self).qweight,
                self.queries == old(self).queries,
                self.counts_trace == old(self).counts_trace,
                self.cooc_trace == old(self).cooc_trace,
                self.sims_trace == old(self).sims_trace,
                self.recs_trace == old(self).recs_trace,
            decreases len - j,
        {
            let (u, it) = req.interactions[j];
            if req.change == Change::Add {
                self.interactions.insert(u, it);
            } else {
                self.interactions.remove(u, it);
            }
            proof {
                assert(self.interactions.pending_rows() =~= rows_spec.subrange(0, j as int + 1));
            }
            j = j + 1;
        }
        match self.interactions.advance_to(t_new) {
            Ok(()) => {},
            Err(e) => {
                proof {
                    assert(false);
                }
                return Err(e);
            },
        }
        match self.queries.advance_to(t_new) {
            Ok(()) => {},
            Err(e) => {
                proof {
                    assert(false);
                }
                return Err(e);
            },
        }
        let flushed = self.interactions.flush();
        proof {
            assert(flushed@ =~= rows_spec);
            assert(flushed@ == batch@);
        }
        apply_rows(&mut self.base, &flushed);
        proof {
            assert forall|k: int, it: int|
                #[trigger] row_mult(self.base@, k, it) == row_mult(new_base@, k, it) by {
                assert(row_mult(flushed@, k, it) == row_mult(batch@, k, it));
            }
            lemma_store_canonical(self.base@, new_base@);
        }
        self.weight = crate::store::weight_value(&self.base);
        // Record, extract and order each collection's diffs at the new
        // time; the diff stores compact behind the collector.
        let out_counts = emit_count_output(&self.counts, &counts2, &mut self.counts_trace, t_new);
        let out_cooc = emit_cooc_output(&self.cooc, &cooc2, &mut self.cooc_trace, t_new);
        let out_sims = emit_sim_output(&self.sims, &sims2, &mut self.sims_trace, t_new);
        let out_recs = emit_rec_output(&self.recs, &recs2, &mut self.recs_trace, t_new);
        self.counts = counts2;
        self.cooc = cooc2;
        self.sims = sims2;
        self.recs = recs2;
        Ok(StepDiffs {
            item_counts: out_counts,
            cooccurrences: out_cooc,
            similarities: out_sims,
            recommendations: out_recs,
        })
    }

    /// Handles one change to the query stream: appends the (query,
    /// history item) batch to the query log, advances the shared clock by
    /// one, and recomputes the recommendations.  The other collections do
    /// not depend on queries, so their diff batches are empty.
    pub fn handle_query_change(&mut self, change: Change, pairs: &Vec<(u32, u32)>) -> (r: Result<
        StepDiffs,
        EngineError,
    >)
        requires
            old(self).wf(),
        ensures
            final(self).wf(),
            r is Err ==> *final(self) == *old(self),
            (r matches Err(e) && e == EngineError::CapacityExceeded) <==> (old(
                self,
            ).used_query_weight() + pairs@.len() > MAX_TOTAL_WEIGHT || old(self).current_time()
                == u64::MAX),
            r is Ok <==> !(old(self).used_query_weight() + pairs@.len() > MAX_TOTAL_WEIGHT || old(
                self,
            ).current_time() == u64::MAX),
            r is Ok ==> final(self).current_time() == old(self).current_time() + 1,
            r is Ok ==> final(self).base_view() == old(self).base_view(),
            r is Ok ==> final(self).used_query_weight() == total_weight(final(self).qbase_view()),
            r is Ok ==> final(self).used_weight() == old(self).used_weight(),
            r is Ok ==> final(self).counts_view() == old(self).counts_view(),
            r is Ok ==> final(self).cooc_view() == old(self).cooc_view(),
            r is Ok ==> final(self).sims_view() == old(self).sims_view(),
            r is Ok ==> forall|k: int, it: int|
                #[trigger] row_mult(final(self).qbase_view(), k, it) == row_mult(
                    old(self).qbase_view(),
                    k,
                    it,
                ) + row_mult(req_rows(change, pairs@), k, it),
            r matches Ok(out) ==> step_records_ok(
                out,
                *old(self),
                *final(self),
                (old(self).current_time() + 1) as u64,
            ),
    {
        let len = pairs.len();
        if self.interactions.time() == u64::MAX || (len as u64) > MAX_TOTAL_WEIGHT
            - self.qweight {
            return Err(EngineError::CapacityExceeded);
        }
        let ghost rows_spec = req_rows(change, pairs@);
        let t_new = self.interactions.time() + 1;
        let mut j: usize = 0;
        while j < len
            invariant
                0 <= j <= len,
                len == pairs@.len(),
                rows_spec == req_rows(change, pairs@),
                self.queries.pending_rows() == rows_spec.subrange(0, j as int),
                self.queries.current_time() == old(self).queries.current_time(),
                self.interactions == old(self).interactions,
                self.base@ == old(self).base@,
                self.qbase@ == old(self).qbase@,
                self.counts@ == old(self).counts@,
                self.cooc@ == old(self).cooc@,
                self.sims@ == old(self).sims@,
                self.recs@ == old(self).recs@,
                self.weight == old(self).weight,
                self.qweight == old(self).qweight,
                self.counts_trace == old(self).counts_trace,
                self.cooc_trace == old(self).cooc_trace,
                self.sims_trace == old(self).sims_trace,
                self.recs_trace == old(self).recs_trace,
            decreases len - j,
        {
            let (q, it) = pairs[j];
            if change == Change::Add {
                self.queries.insert(q, it);
            } else {
                self.queries.remove(q, it);
            }
            proof {
                assert(self.queries.pending_rows() =~= rows_spec.subrange(0, j as int + 1));
            }
            j = j + 1;
        }
        match self.interactions.advance_to(t_new) {
            Ok(()) => {},
            Err(e) => {
                proof {
                    assert(false);
                }
                return Err(e);
            },
        }
        match self.queries.advance_to(t_new) {
            Ok(()) => {},
            Err(e) => {
                proof {
                    assert(false);
                }
                return Err(e);
            },
        }
        let flushed = self.queries.flush();
        proof {
            assert(flushed@ =~= rows_spec);
            assert forall|x: int|
                0 <= x < flushed@.len() implies abs_of((#[trigger] flushed@[x]).mult as int)
                == 1 by {}
            lemma_unit_weight(flushed@, flushed@.len() as int);
            lemma_weight_upto_nonneg(self.qbase@, self.qbase@.len() as int);
        }
        apply_rows(&mut self.qbase, &flushed);
        self.qweight = crate::store::weight_value(&self.qbase);
        proof {
            lemma_sims_shape(self.sims@, self.base@);
        }
        let recs2 = recs_state(&self.qbase, &self.sims);
        let out_counts = emit_count_output(
            &self.counts,
            &self.counts,
            &mut self.counts_trace,
            t_new,
        );
        let out_cooc = emit_cooc_output(&self.cooc, &self.cooc, &mut self.cooc_trace, t_new);
        let out_sims = emit_sim_output(&self.sims, &self.sims, &mut self.sims_trace, t_new);
        let out_recs = emit_rec_output(&self.recs, &recs2, &mut self.recs_trace, t_new);
        self.recs = recs2;
        Ok(StepDiffs {
            item_counts: out_counts,
            cooccurrences: out_cooc,
            similarities: out_sims,
            recommendations: out_recs,
        })
    }
}


/// Law (idempotence of balanced operations): a batch whose rows cancel
/// pairwise — inserting then removing the same interactions within one
/// batch — leaves the interaction multiset, and with it every derived
/// collection, unchanged, so the diff set of that time is empty for every
/// collection.
pub proof fn lemma_balanced_step_empty(
    pre: Engine,
    post: Engine,
    rows: Seq<InputRow>,
    out: StepDiffs,
    t: u64,
)
    requires
        pre.wf(),
        post.wf(),
        forall|k: int, it: int| #[trigger] row_mult(rows, k, it) == 0,
        forall|k: int, it: int|
            #[trigger] row_mult(post.base_view(), k, it) == row_mult(pre.base_view(), k, it)
                + row_mult(rows, k, it),
        post.qbase_view() == pre.qbase_view(),
        step_records_ok(out, pre, post, t),
    ensures
        post.base_view() == pre.base_view(),
        out.item_counts@.len() == 0,
        out.cooccurrences@.len() == 0,
        out.similarities@.len() == 0,
        out.recommendations@.len() == 0,
{
    assert forall|k: int, it: int|
        #[trigger] row_mult(post.base_view(), k, it) == row_mult(pre.base_view(), k, it) by {}
    lemma_store_canonical(post.base_view(), pre.base_view());
    assert forall|k: u64, v: i64|
        #[trigger] kv_maps(pre.counts_view(), k, v) <==> kv_maps(post.counts_view(), k, v) by {
        if kv_maps(pre.counts_view(), k, v) {
        }
        if kv_maps(post.counts_view(), k, v) {
        }
    }
    crate::kv::lemma_kv_canonical(pre.counts_view(), post.counts_view());
    assert forall|k: u64, v: i64|
        #[trigger] kv_maps(pre.cooc_view(), k, v) <==> kv_maps(post.cooc_view(), k, v) by {}
    crate::kv::lemma_kv_canonical(pre.cooc_view(), post.cooc_view());
    assert forall|k: u64, v: i64|
        #[trigger] kv_maps(pre.sims_view(), k, v) <==> kv_maps(post.sims_view(), k, v) by {}
    crate::kv::lemma_kv_canonical(pre.sims_view(), post.sims_view());
    assert forall|k: u64, v: i64|
        #[trigger] kv_maps(pre.recs_view(), k, v) <==> kv_maps(post.recs_view(), k, v) by {}
    crate::kv::lemma_kv_canonical(pre.recs_view(), post.recs_view());
    if out.item_counts@.len() > 0 {
        assert(count_rec_ok(out.item_counts@[0], pre.counts_view(), post.counts_view(), t));
        assert(false);
    }
    if out.cooccurrences@.len() > 0 {
        assert(cooc_rec_ok(out.cooccurrences@[0], pre.cooc_view(), post.cooc_view(), t));
        assert(false);
    }
    if out.similarities@.len() > 0 {
        assert(sim_rec_ok(out.similarities@[0], pre.sims_view(), post.sims_view(), t));
        assert(false);
    }
    if out.recommendations@.len() > 0 {
        assert(rec_rec_ok(out.recommendations@[0], pre.recs_view(), post.recs_view(), t));
        assert(false);
    }
}

/// Law (count correctness): the item-count collection holds exactly the
/// items with a nonzero net count, mapped to that count; on a history of
/// single-copy interactions the count is the number of surviving
/// interactions mentioning the item.
pub proof fn lemma_item_count_correct(e: Engine, it: u32, v: i64)
    requires
        e.wf(),
    ensures
        kv_maps(e.counts_view(), it as u64, v) <==> (v != 0 && item_count(e.base_view(), it as int)
            == v as int),
        (forall|j: int| 0 <= j < e.base_view().len() ==> (#[trigger] e.base_view()[j]).mult == 1)
            ==> item_count(e.base_view(), it as int) == crate::model::rows_with_item(
            e.base_view(),
            e.base_view().len() as int,
            it as int,
        ),
{
    if forall|j: int| 0 <= j < e.base_view().len() ==> (#[trigger] e.base_view()[j]).mult == 1 {
        crate::model::lemma_count_is_survivors(e.base_view(), e.base_view().len() as int,
            it as int);
    }
}

/// Law (co-occurrence canonicalization): every emitted co-occurrence key
/// packs a strictly descending pair — no pair with `item_a <= item_b` and
/// no self-pair is ever emitted — and carries the pair's exact count.
pub proof fn lemma_cooc_canonical(e: Engine, k: u64, v: i64)
    requires
        e.wf(),
        kv_maps(e.cooc_view(), k, v),
    ensures
        hi_of(k as int) > lo_of(k as int),
        cooc_count(e.base_view(), hi_of(k as int), lo_of(k as int)) == v as int,
        v != 0,
{
    let a = hi_of(k as int);
    let b = lo_of(k as int);
    if a <= b {
        lemma_cooc_noncanonical(e.base_view(), e.base_view().len() as int, a, b);
    }
}

/// Law (co-occurrence counts users): on a consolidated single-copy
/// history, each emitted co-occurrence count is the number of users with
/// a surviving interaction with both items of the pair.
pub proof fn lemma_cooc_user_count(e: Engine, k: u64, v: i64)
    requires
        e.wf(),
        kv_maps(e.cooc_view(), k, v),
        forall|j: int| 0 <= j < e.base_view().len() ==> (#[trigger] e.base_view()[j]).mult == 1,
    ensures
        v as int == crate::model::users_with_both(
            e.base_view(),
            e.base_view().len() as int,
            hi_of(k as int),
            lo_of(k as int),
        ),
{
    crate::model::lemma_cooc_counts_users(
        e.base_view(),
        e.base_view().len() as int,
        hi_of(k as int),
        lo_of(k as int),
    );
}

/// Law (Jaccard bounds): every emitted similarity is a live pair's exact
/// truncated scaled Jaccard value: with co-occurrence count c and
/// denominator d = count_a + count_b − c, the carried value q satisfies
/// d·q ≤ c·SIM_SCALE < d·(q+1) and 1 ≤ q ≤ SIM_SCALE, so the rational it
/// denotes lies in (0, 1] and within 1/SIM_SCALE of c/d.
pub proof fn lemma_similarity_bounds(e: Engine, k: u64, v: i64)
    requires
        e.wf(),
        kv_maps(e.sims_view(), k, v),
    ensures
        ({
            let a = hi_of(k as int);
            let b = lo_of(k as int);
            let c = cooc_count(e.base_view(), a, b);
            let d = crate::jaccard::sim_denom(e.base_view(), a, b);
            &&& sim_present(e.base_view(), a, b)
            &&& 1 <= v <= SIM_SCALE
            &&& d * (v as int) <= c * SIM_SCALE < d * ((v as int) + 1)
        }),
{
    let a = hi_of(k as int);
    let b = lo_of(k as int);
    lemma_sim_scaled_bounds(e.base_view(), a, b);
}

/// Law (recommendation determinism): derived state is a function of the
/// input snapshots alone — two well-formed engines over the same
/// interaction and query multisets hold identical counts, co-occurrences,
/// similarities and recommendations, so replaying a snapshot always
/// reproduces the same winners.
pub proof fn lemma_derived_deterministic(e1: Engine, e2: Engine)
    requires
        e1.wf(),
        e2.wf(),
        e1.base_view() == e2.base_view(),
        e1.qbase_view() == e2.qbase_view(),
    ensures
        e1.counts_view() == e2.counts_view(),
        e1.cooc_view() == e2.cooc_view(),
        e1.sims_view() == e2.sims_view(),
        e1.recs_view() == e2.recs_view(),
{
    assert forall|k: u64, v: i64|
        #[trigger] kv_maps(e1.counts_view(), k, v) <==> kv_maps(e2.counts_view(), k, v) by {}
    crate::kv::lemma_kv_canonical(e1.counts_view(), e2.counts_view());
    assert forall|k: u64, v: i64|
        #[trigger] kv_maps(e1.cooc_view(), k, v) <==> kv_maps(e2.cooc_view(), k, v) by {}
    crate::kv::lemma_kv_canonical(e1.cooc_view(), e2.cooc_view());
    assert forall|k: u64, v: i64|
        #[trigger] kv_maps(e1.sims_view(), k, v) <==> kv_maps(e2.sims_view(), k, v) by {}
    crate::kv::lemma_kv_canonical(e1.sims_view(), e2.sims_view());
    assert forall|k: u64, v: i64|
        #[trigger] kv_maps(e1.recs_view(), k, v) <==> kv_maps(e2.recs_view(), k, v) by {}
    crate::kv::lemma_kv_canonical(e1.recs_view(), e2.recs_view());
}


} // verus!
