//! Output records handed to the transport for broadcast.
//!
//! Each record describes one diff of one derived collection at one
//! logical time: its key fields, its new value, and the signed change.
//! A similarity's value travels as its deterministic decimal string.

use vstd::prelude::*;

use crate::batch::BatchRow;
use crate::decimal::{decimal_seq, render_similarity};
use crate::jaccard::SIM_SCALE;
use crate::keys::{hi_of, lo_of, unpack_pair};

verus! {

/// One broadcast record: which derived collection changed, how, and when.
pub enum OutputRecord {
    ItemInteractions { item: u32, count: i64, time: u64, change: i64 },
    Cooccurrences { item_a: u32, item_b: u32, num_cooccurrences: i64, time: u64, change: i64 },
    Similarities { item_a: u32, item_b: u32, similarity: String, time: u64, change: i64 },
    Recommendations { query: u32, item: u32, time: u64, change: i64 },
}

/// The record's signed change.
pub open spec fn rec_change(r: OutputRecord) -> i64 {
    match r {
        OutputRecord::ItemInteractions { change, .. } => change,
        OutputRecord::Cooccurrences { change, .. } => change,
        OutputRecord::Similarities { change, .. } => change,
        OutputRecord::Recommendations { change, .. } => change,
    }
}

/// The record announces the item-count entry (k ↦ v) changing by `m` at
/// time `t`.
pub open spec fn is_count_rec(r: OutputRecord, k: u64, v: i64, t: u64, m: i64) -> bool {
    (k as int) < 0x1_0000_0000 && r == (OutputRecord::ItemInteractions {
        item: k as u32,
        count: v,
        time: t,
        change: m,
    })
}

/// The record announces the co-occurrence entry (k ↦ v) changing by `m`
/// at time `t`; `k` packs the item pair.
pub open spec fn is_cooc_rec(r: OutputRecord, k: u64, v: i64, t: u64, m: i64) -> bool {
    r == (OutputRecord::Cooccurrences {
        item_a: hi_of(k as int) as u32,
        item_b: lo_of(k as int) as u32,
        num_cooccurrences: v,
        time: t,
        change: m,
    })
}

/// The record announces the similarity entry (k ↦ v) changing by `m` at
/// time `t`: the pair is unpacked from `k` and the scaled value `v`
/// travels as its decimal string.
pub open spec fn is_sim_rec(r: OutputRecord, k: u64, v: i64, t: u64, m: i64) -> bool {
    match r {
        OutputRecord::Similarities { item_a, item_b, similarity, time, change } => {
            &&& item_a as int == hi_of(k as int)
            &&& item_b as int == lo_of(k as int)
            &&& similarity@ == decimal_seq(v as int)
            &&& time == t
            &&& change == m
        },
        _ => false,
    }
}

/// The record announces the recommendation entry (k ↦ v) changing by `m`
/// at time `t`: query `k` now recommends item `v`.
pub open spec fn is_rec_rec(r: OutputRecord, k: u64, v: i64, t: u64, m: i64) -> bool {
    (k as int) < 0x1_0000_0000 && 0 <= v < 0x1_0000_0000 && r == (OutputRecord::Recommendations {
        query: k as u32,
        item: v as u32,
        time: t,
        change: m,
    })
}

/// Some record in the sequence announces the given item-count diff.
pub open spec fn has_count_rec(rs: Seq<OutputRecord>, k: u64, v: i64, t: u64, m: i64) -> bool {
    exists|x: int| 0 <= x < rs.len() && #[trigger] is_count_rec(rs[x], k, v, t, m)
}

/// Some record in the sequence announces the given co-occurrence diff.
pub open spec fn has_cooc_rec(rs: Seq<OutputRecord>, k: u64, v: i64, t: u64, m: i64) -> bool {
    exists|x: int| 0 <= x < rs.len() && #[trigger] is_cooc_rec(rs[x], k, v, t, m)
}

/// Some record in the sequence announces the given similarity diff.
pub open spec fn has_sim_rec(rs: Seq<OutputRecord>, k: u64, v: i64, t: u64, m: i64) -> bool {
    exists|x: int| 0 <= x < rs.len() && #[trigger] is_sim_rec(rs[x], k, v, t, m)
}

/// Some record in the sequence announces the given recommendation diff.
pub open spec fn has_rec_rec(rs: Seq<OutputRecord>, k: u64, v: i64, t: u64, m: i64) -> bool {
    exists|x: int| 0 <= x < rs.len() && #[trigger] is_rec_rec(rs[x], k, v, t, m)
}

/// Appends broadcast records for an ordered count diff batch.
pub fn push_count_records(out: &mut Vec<OutputRecord>, rows: &Vec<BatchRow>, t: u64)
    requires
        forall|x: int| 0 <= x < rows@.len() ==> ((#[trigger] rows@[x]).key as int) < 0x1_0000_0000,
    ensures
        final(out)@.len() == old(out)@.len() + rows@.len(),
        forall|x: int| 0 <= x < old(out)@.len() ==> #[trigger] final(out)@[x] == old(out)@[x],
        forall|x: int|
            0 <= x < rows@.len() ==> is_count_rec(
                #[trigger] final(out)@[old(out)@.len() + x],
                rows@[x].key,
                rows@[x].val,
                t,
                rows@[x].mult,
            ),
{
    let ghost base_len = out@.len();
    let ghost out0 = out@;
    let mut i: usize = 0;
    while i < rows.len()
        invariant
            0 <= i <= rows.len(),
        forall|x: int| 0 <= x < rows@.len() ==> ((#[trigger] rows@[x]).key as int) < 0x1_0000_0000,
            out@.len() == base_len + i,
            forall|x: int| 0 <= x < base_len ==> #[trigger] out@[x] == out0[x],
            forall|x: int|
                0 <= x < i ==> is_count_rec(#[trigger] out@[base_len + x], rows@[x].key, rows@[x].val, t,
                    rows@[x].mult),
        decreases rows.len() - i,
    {
        let row = rows[i];
        out.push(OutputRecord::ItemInteractions {
            item: row.key as u32,
            count: row.val,
            time: t,
            change: row.mult,
        });
        i = i + 1;
    }
}

/// Appends broadcast records for an ordered cooc diff batch.
pub fn push_cooc_records(out: &mut Vec<OutputRecord>, rows: &Vec<BatchRow>, t: u64)
    requires
    ensures
        final(out)@.len() == old(out)@.len() + rows@.len(),
        forall|x: int| 0 <= x < old(out)@.len() ==> #[trigger] final(out)@[x] == old(out)@[x],
        forall|x: int|
            0 <= x < rows@.len() ==> is_cooc_rec(
                #[trigger] final(out)@[old(out)@.len() + x],
                rows@[x].key,
                rows@[x].val,
                t,
                rows@[x].mult,
            ),
{
    let ghost base_len = out@.len();
    let ghost out0 = out@;
    let mut i: usize = 0;
    while i < rows.len()
        invariant
            0 <= i <= rows.len(),
            out@.len() == base_len + i,
            forall|x: int| 0 <= x < base_len ==> #[trigger] out@[x] == out0[x],
            forall|x: int|
                0 <= x < i ==> is_cooc_rec(#[trigger] out@[base_len + x], rows@[x].key, rows@[x].val, t,
                    rows@[x].mult),
        decreases rows.len() - i,
    {
        let row = rows[i];
        let (a, b) = unpack_pair(row.key);
        out.push(OutputRecord::Cooccurrences {
            item_a: a,
            item_b: b,
            num_cooccurrences: row.val,
            time: t,
            change: row.mult,
        });
        i = i + 1;
    }
}

/// Appends broadcast records for an ordered sim diff batch.
pub fn push_sim_records(out: &mut Vec<OutputRecord>, rows: &Vec<BatchRow>, t: u64)
    requires
        forall|x: int| 0 <= x < rows@.len() ==> 0 <= (#[trigger] rows@[x]).val <= SIM_SCALE,
    ensures
        final(out)@.len() == old(out)@.len() + rows@.len(),
        forall|x: int| 0 <= x < old(out)@.len() ==> #[trigger] final(out)@[x] == old(out)@[x],
        forall|x: int|
            0 <= x < rows@.len() ==> is_sim_rec(
                #[trigger] final(out)@[old(out)@.len() + x],
                rows@[x].key,
                rows@[x].val,
                t,
                rows@[x].mult,
            ),
{
    let ghost base_len = out@.len();
    let ghost out0 = out@;
    let mut i: usize = 0;
    while i < rows.len()
        invariant
            0 <= i <= rows.len(),
        forall|x: int| 0 <= x < rows@.len() ==> 0 <= (#[trigger] rows@[x]).val <= SIM_SCALE,
            out@.len() == base_len + i,
            forall|x: int| 0 <= x < base_len ==> #[trigger] out@[x] == out0[x],
            forall|x: int|
                0 <= x < i ==> is_sim_rec(#[trigger] out@[base_len + x], rows@[x].key, rows@[x].val, t,
                    rows@[x].mult),
        decreases rows.len() - i,
    {
        let row = rows[i];
        let (a, b) = unpack_pair(row.key);
        let sim = render_similarity(row.val);
        out.push(OutputRecord::Similarities {
            item_a: a,
            item_b: b,
            similarity: sim,
            time: t,
            change: row.mult,
        });
        i = i + 1;
    }
}

/// Appends broadcast records for an ordered rec diff batch.
pub fn push_rec_records(out: &mut Vec<OutputRecord>, rows: &Vec<BatchRow>, t: u64)
    requires
        forall|x: int| 0 <= x < rows@.len() ==> ((#[trigger] rows@[x]).key as int) < 0x1_0000_0000,
        forall|x: int| 0 <= x < rows@.len() ==> 0 <= (#[trigger] rows@[x]).val < 0x1_0000_0000,
    ensures
        final(out)@.len() == old(out)@.len() + rows@.len(),
        forall|x: int| 0 <= x < old(out)@.len() ==> #[trigger] final(out)@[x] == old(out)@[x],
        forall|x: int|
            0 <= x < rows@.len() ==> is_rec_rec(
                #[trigger] final(out)@[old(out)@.len() + x],
                rows@[x].key,
                rows@[x].val,
                t,
                rows@[x].mult,
            ),
{
    let ghost base_len = out@.len();
    let ghost out0 = out@;
    let mut i: usize = 0;
    while i < rows.len()
        invariant
            0 <= i <= rows.len(),
        forall|x: int| 0 <= x < rows@.len() ==> ((#[trigger] rows@[x]).key as int) < 0x1_0000_0000,
        forall|x: int| 0 <= x < rows@.len() ==> 0 <= (#[trigger] rows@[x]).val < 0x1_0000_0000,
            out@.len() == base_len + i,
            forall|x: int| 0 <= x < base_len ==> #[trigger] out@[x] == out0[x],
            forall|x: int|
                0 <= x < i ==> is_rec_rec(#[trigger] out@[base_len + x], rows@[x].key, rows@[x].val, t,
                    rows@[x].mult),
        decreases rows.len() - i,
    {
        let row = rows[i];
        out.push(OutputRecord::Recommendations {
            query: row.key as u32,
            item: row.val as u32,
            time: t,
            change: row.mult,
        });
        i = i + 1;
    }
}

} // verus!
