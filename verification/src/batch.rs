//! Diff batches: what a derived collection changed at one logical time.
//!
//! Diffing two sorted states yields one retraction row (multiplicity −1)
//! for every (key, value) entry that is leaving and one addition row
//! (multiplicity +1) for every entry that is arriving.  Broadcast ordering
//! puts retractions before additions, keeping discovery order within each
//! group.

use vstd::prelude::*;

use crate::kv::{kv_maps, kv_sorted, lemma_kv_maps_val, Kv};

verus! {

/// One row of a diff batch: the entry's packed key, its value, and the
/// signed change (−1 retracts the entry, +1 adds it).
#[derive(Clone, Copy, Debug, PartialEq, Eq, Structural)]
pub struct BatchRow {
    pub key: u64,
    pub val: i64,
    pub mult: i64,
}

/// Strict (key, value) ordering of diff rows.
pub open spec fn brow_lt(x: BatchRow, y: BatchRow) -> bool {
    x.key < y.key || (x.key == y.key && x.val < y.val)
}

/// Strictly sorted by (key, value): each entry occurs at most once.
pub open spec fn rows_sorted(s: Seq<BatchRow>) -> bool {
    forall|i: int, j: int| 0 <= i < j < s.len() ==> brow_lt(#[trigger] s[i], #[trigger] s[j])
}

/// The batch contains the given row.
pub open spec fn has_row(s: Seq<BatchRow>, k: u64, v: i64, m: i64) -> bool {
    exists|j: int| 0 <= j < s.len() && #[trigger] s[j] == (BatchRow { key: k, val: v, mult: m })
}

proof fn lemma_has_row_push(s: Seq<BatchRow>, r: BatchRow, k: u64, v: i64, m: i64)
    ensures
        has_row(s.push(r), k, v, m) <==> (has_row(s, k, v, m) || r == (BatchRow {
            key: k,
            val: v,
            mult: m,
        })),
{
    let s2 = s.push(r);
    if has_row(s, k, v, m) {
        let j = choose|j: int| 0 <= j < s.len() && #[trigger] s[j] == (BatchRow {
            key: k,
            val: v,
            mult: m,
        });
        assert(s2[j] == s[j]);
    }
    if r == (BatchRow { key: k, val: v, mult: m }) {
        assert(s2[s.len() as int] == r);
    }
    if has_row(s2, k, v, m) {
        let j = choose|j: int| 0 <= j < s2.len() && #[trigger] s2[j] == (BatchRow {
            key: k,
            val: v,
            mult: m,
        });
        if j < s.len() {
            assert(s[j] == s2[j]);
        }
    }
}

/// Spec-level key of position `idx`, beyond every real key when `idx` is
/// past the end.
pub open spec fn key_at(s: Seq<Kv>, idx: int) -> int {
    if idx < s.len() {
        s[idx].key as int
    } else {
        0x1_0000_0000_0000_0000
    }
}

/// Diffs two sorted states: the rows that transform `a` into `b`, one
/// retraction per vanishing (key, value) entry and one addition per
/// appearing one, in (key, value) order.
pub fn kv_diff(a: &Vec<Kv>, b: &Vec<Kv>) -> (r: Vec<BatchRow>)
    requires
        kv_sorted(a@),
        kv_sorted(b@),
    ensures
        rows_sorted(r@),
        forall|k: u64, v: i64|
            #[trigger] has_row(r@, k, v, -1i64) <==> (kv_maps(a@, k, v) && !kv_maps(b@, k, v)),
        forall|k: u64, v: i64|
            #[trigger] has_row(r@, k, v, 1i64) <==> (kv_maps(b@, k, v) && !kv_maps(a@, k, v)),
        forall|j: int|
            0 <= j < r@.len() ==> ((#[trigger] r@[j]).mult == -1 || r@[j].mult == 1),
{
    let mut out: Vec<BatchRow> = Vec::new();
    let mut i: usize = 0;
    let mut j: usize = 0;
    while i < a.len() || j < b.len()
        invariant
            kv_sorted(a@),
            kv_sorted(b@),
            0 <= i <= a.len(),
            0 <= j <= b.len(),
            forall|x: int|
                0 <= x < i ==> ((#[trigger] a@[x]).key as int) < bound_of(a@, b@, i as int, j as int),
            forall|y: int|
                0 <= y < j ==> ((#[trigger] b@[y]).key as int) < bound_of(a@, b@, i as int, j as int),
            rows_sorted(out@),
            forall|x: int|
                0 <= x < out@.len() ==> ((#[trigger] out@[x]).key as int) < bound_of(
                    a@,
                    b@,
                    i as int,
                    j as int,
                ),
            forall|x: int|
                0 <= x < out@.len() ==> ((#[trigger] out@[x]).mult == -1 || out@[x].mult == 1),
            forall|k: u64, v: i64|
                #[trigger] has_row(out@, k, v, -1i64) <==> (kv_maps(a@, k, v) && !kv_maps(b@, k, v)
                    && (k as int) < bound_of(a@, b@, i as int, j as int)),
            forall|k: u64, v: i64|
                #[trigger] has_row(out@, k, v, 1i64) <==> (kv_maps(b@, k, v) && !kv_maps(a@, k, v)
                    && (k as int) < bound_of(a@, b@, i as int, j as int)),
        decreases a.len() + b.len() - i - j,
    {
        let ghost bnd = bound_of(a@, b@, i as int, j as int);
        if j == b.len() || (i < a.len() && a[i].key < b[j].key) {
            // The key exists only on the old side: retract its entry.
            let e = a[i];
            let row = BatchRow { key: e.key, val: e.val, mult: -1i64 };
            proof {
                lemma_step_facts(a@, b@, i as int, j as int);
                lemma_only_side(a@, b@, i as int, j as int, true);
            }
            let ghost out1 = out@;
            out.push(row);
            i = i + 1;
            proof {
                lemma_step_after(a@, b@, out1, row, i as int, j as int, i as int - 1, true);
            }
        } else if i == a.len() || b[j].key < a[i].key {
            // The key exists only on the new side: add its entry.
            let e = b[j];
            let row = BatchRow { key: e.key, val: e.val, mult: 1i64 };
            proof {
                lemma_step_facts(a@, b@, i as int, j as int);
                lemma_only_side(a@, b@, i as int, j as int, false);
            }
            let ghost out1 = out@;
            out.push(row);
            j = j + 1;
            proof {
                lemma_step_after(a@, b@, out1, row, i as int, j as int, j as int - 1, false);
            }
        } else {
            // The key exists on both sides.
            let ea = a[i];
            let eb = b[j];
            proof {
                lemma_step_facts(a@, b@, i as int, j as int);
            }
            let ghost out1 = out@;
            if ea.val != eb.val {
                let ra = BatchRow { key: ea.key, val: ea.val, mult: -1i64 };
                let rb = BatchRow { key: eb.key, val: eb.val, mult: 1i64 };
                if ea.val < eb.val {
                    out.push(ra);
                    out.push(rb);
                } else {
                    out.push(rb);
                    out.push(ra);
                }
            }
            i = i + 1;
            j = j + 1;
            proof {
                lemma_step_after_both(a@, b@, out1, out@, i as int, j as int);
            }
        }
    }
    proof {
        assert(bound_of(a@, b@, i as int, j as int) == 0x1_0000_0000_0000_0000);
        assert forall|k: u64, v: i64|
            #[trigger] has_row(out@, k, v, -1i64) <==> (kv_maps(a@, k, v) && !kv_maps(
                b@,
                k,
                v,
            )) by {
            assert((k as int) < 0x1_0000_0000_0000_0000);
        }
        assert forall|k: u64, v: i64|
            #[trigger] has_row(out@, k, v, 1i64) <==> (kv_maps(b@, k, v) && !kv_maps(
                a@,
                k,
                v,
            )) by {
            assert((k as int) < 0x1_0000_0000_0000_0000);
        }
    }
    out
}

/// Least key not yet processed by the diff walk.
pub open spec fn bound_of(a: Seq<Kv>, b: Seq<Kv>, i: int, j: int) -> int {
    if key_at(a, i) < key_at(b, j) {
        key_at(a, i)
    } else {
        key_at(b, j)
    }
}

proof fn lemma_step_facts(a: Seq<Kv>, b: Seq<Kv>, i: int, j: int)
    requires
        kv_sorted(a),
        kv_sorted(b),
        0 <= i <= a.len(),
        0 <= j <= b.len(),
    ensures
        forall|x: int| i <= x < a.len() ==> (#[trigger] a[x]).key as int >= key_at(a, i),
        forall|y: int| j <= y < b.len() ==> (#[trigger] b[y]).key as int >= key_at(b, j),
{
    assert forall|x: int| i <= x < a.len() implies (#[trigger] a[x]).key as int >= key_at(
        a,
        i,
    ) by {
        if x > i {
            assert(a[i].key < a[x].key);
        }
    }
    assert forall|y: int| j <= y < b.len() implies (#[trigger] b[y]).key as int >= key_at(
        b,
        j,
    ) by {
        if y > j {
            assert(b[j].key < b[y].key);
        }
    }
}

/// When the front key of one side is strictly smaller than every key the
/// other side still offers — and every key it already consumed — the other
/// side does not contain that key at all.
proof fn lemma_only_side(a: Seq<Kv>, b: Seq<Kv>, i: int, j: int, from_a: bool)
    requires
        kv_sorted(a),
        kv_sorted(b),
        0 <= i <= a.len(),
        0 <= j <= b.len(),
        from_a ==> i < a.len() && key_at(a, i) < key_at(b, j) && forall|y: int|
            0 <= y < j ==> ((#[trigger] b[y]).key as int) < bound_of(a, b, i, j),
        !from_a ==> j < b.len() && key_at(b, j) < key_at(a, i) && forall|x: int|
            0 <= x < i ==> ((#[trigger] a[x]).key as int) < bound_of(a, b, i, j),
    ensures
        from_a ==> forall|v: i64| !kv_maps(b, a[i].key, v),
        !from_a ==> forall|v: i64| !kv_maps(a, b[j].key, v),
{
    lemma_step_facts(a, b, i, j);
    if from_a {
        let k = a[i].key;
        assert forall|v: i64| !kv_maps(b, k, v) by {
            if kv_maps(b, k, v) {
                let y = choose|y: int| 0 <= y < b.len() && #[trigger] b[y] == (Kv {
                    key: k,
                    val: v,
                });
                if y < j {
                    assert((b[y].key as int) < bound_of(a, b, i, j));
                } else {
                    assert(b[y].key as int >= key_at(b, j));
                }
            }
        }
    } else {
        let k = b[j].key;
        assert forall|v: i64| !kv_maps(a, k, v) by {
            if kv_maps(a, k, v) {
                let x = choose|x: int| 0 <= x < a.len() && #[trigger] a[x] == (Kv {
                    key: k,
                    val: v,
                });
                if x < i {
                    assert((a[x].key as int) < bound_of(a, b, i, j));
                } else {
                    assert(a[x].key as int >= key_at(a, i));
                }
            }
        }
    }
}

/// Re-establishes the walk invariant after emitting the single row of a
/// key present on only one side.
#[verifier::spinoff_prover]
proof fn lemma_step_after(
    a: Seq<Kv>,
    b: Seq<Kv>,
    out1: Seq<BatchRow>,
    row: BatchRow,
    i: int,
    j: int,
    p: int,
    from_a: bool,
)
    requires
        kv_sorted(a),
        kv_sorted(b),
        from_a ==> 0 < i <= a.len() && p == i - 1 && 0 <= j <= b.len() && row == (BatchRow {
            key: a[p].key,
            val: a[p].val,
            mult: -1i64,
        }) && key_at(a, p) < key_at(b, j) && (forall|v: i64| !kv_maps(b, a[p].key, v)),
        !from_a ==> 0 < j <= b.len() && p == j - 1 && 0 <= i <= a.len() && row == (BatchRow {
            key: b[p].key,
            val: b[p].val,
            mult: 1i64,
        }) && key_at(b, p) < key_at(a, i) && (forall|v: i64| !kv_maps(a, b[p].key, v)),
        ({
            let ob = if from_a {
                bound_of(a, b, p, j)
            } else {
                bound_of(a, b, i, p)
            };
            &&& forall|x: int|
                0 <= x < (if from_a { p } else { i }) ==> ((#[trigger] a[x]).key as int) < ob
            &&& forall|y: int|
                0 <= y < (if from_a { j } else { p }) ==> ((#[trigger] b[y]).key as int) < ob
            &&& rows_sorted(out1)
            &&& forall|x: int| 0 <= x < out1.len() ==> ((#[trigger] out1[x]).key as int) < ob
            &&& forall|x: int|
                0 <= x < out1.len() ==> ((#[trigger] out1[x]).mult == -1 || out1[x].mult == 1)
            &&& forall|k: u64, v: i64|
                #[trigger] has_row(out1, k, v, -1i64) <==> (kv_maps(a, k, v) && !kv_maps(b, k, v) && (
                k as int) < ob)
            &&& forall|k: u64, v: i64|
                #[trigger] has_row(out1, k, v, 1i64) <==> (kv_maps(b, k, v) && !kv_maps(a, k, v) && (
                k as int) < ob)
        }),
    ensures
        ({
            let out2 = out1.push(row);
            let nb = bound_of(a, b, i, j);
            &&& forall|x: int| 0 <= x < i ==> ((#[trigger] a[x]).key as int) < nb
            &&& forall|y: int| 0 <= y < j ==> ((#[trigger] b[y]).key as int) < nb
            &&& rows_sorted(out2)
            &&& forall|x: int| 0 <= x < out2.len() ==> ((#[trigger] out2[x]).key as int) < nb
            &&& forall|x: int|
                0 <= x < out2.len() ==> ((#[trigger] out2[x]).mult == -1 || out2[x].mult == 1)
            &&& forall|k: u64, v: i64|
                #[trigger] has_row(out2, k, v, -1i64) <==> (kv_maps(a, k, v) && !kv_maps(b, k, v) && (
                k as int) < nb)
            &&& forall|k: u64, v: i64|
                #[trigger] has_row(out2, k, v, 1i64) <==> (kv_maps(b, k, v) && !kv_maps(a, k, v) && (
                k as int) < nb)
        }),
{
    let out2 = out1.push(row);
    let nb = bound_of(a, b, i, j);
    let ob = if from_a {
        bound_of(a, b, p, j)
    } else {
        bound_of(a, b, i, p)
    };
    let ks = if from_a {
        a[p]
    } else {
        b[p]
    };
    lemma_step_facts(a, b, i, j);
    // The bound strictly grows: the emitted key sits below both new fronts.
    assert(ob == ks.key as int);
    assert(ob < nb);
    if from_a {
        lemma_kv_maps_val(a, ks.key, ks.val);
        assert(kv_maps(a, ks.key, ks.val)) by {
            assert(a[p] == (Kv { key: ks.key, val: ks.val }));
        }
    } else {
        assert(kv_maps(b, ks.key, ks.val)) by {
            assert(b[p] == (Kv { key: ks.key, val: ks.val }));
        }
    }
    assert forall|x: int| 0 <= x < out2.len() implies ((#[trigger] out2[x]).key as int) < nb by {
        if x < out1.len() {
            assert((out1[x].key as int) < ob);
        }
    }
    assert(rows_sorted(out2)) by {
        assert forall|x: int, y: int| 0 <= x < y < out2.len() implies brow_lt(
            #[trigger] out2[x],
            #[trigger] out2[y],
        ) by {
            if y < out1.len() {
            } else {
                assert(out2[y] == row);
                if x < out1.len() {
                    assert((out1[x].key as int) < ob);
                }
            }
        }
    }
    assert forall|k: u64, v: i64|
        #[trigger] has_row(out2, k, v, -1i64) <==> (kv_maps(a, k, v) && !kv_maps(b, k, v) && (
        k as int) < nb) by {
        lemma_has_row_push(out1, row, k, v, -1i64);
        lemma_diff_cond_frame(a, b, ob, nb, k, v, ks.key);
        if kv_maps(a, k, v) && k == ks.key && from_a {
            lemma_kv_maps_val(a, k, v);
            lemma_kv_maps_val(a, ks.key, ks.val);
        }
    }
    assert forall|k: u64, v: i64|
        #[trigger] has_row(out2, k, v, 1i64) <==> (kv_maps(b, k, v) && !kv_maps(a, k, v) && (
        k as int) < nb) by {
        lemma_has_row_push(out1, row, k, v, 1i64);
        lemma_diff_cond_frame(a, b, ob, nb, k, v, ks.key);
        if kv_maps(b, k, v) && k == ks.key && !from_a {
            lemma_kv_maps_val(b, k, v);
            lemma_kv_maps_val(b, ks.key, ks.val);
        }
    }
}

/// Keys strictly between the old bound (exclusive of the consumed key) and
/// the new bound are absent from both states.
proof fn lemma_diff_cond_frame(
    a: Seq<Kv>,
    b: Seq<Kv>,
    ob: int,
    nb: int,
    k: u64,
    v: i64,
    consumed: u64,
)
    requires
        kv_sorted(a),
        kv_sorted(b),
        ob <= nb,
        ob == consumed as int,
        forall|x: int|
            0 <= x < a.len() ==> (((#[trigger] a[x]).key as int) < ob || a[x].key == consumed
                || a[x].key as int >= nb),
        forall|y: int|
            0 <= y < b.len() ==> (((#[trigger] b[y]).key as int) < ob || b[y].key == consumed
                || b[y].key as int >= nb),
    ensures
        ob < k as int && (k as int) < nb && k != consumed ==> !kv_maps(a, k, v) && !kv_maps(
            b,
            k,
            v,
        ),
{
    if ob < k as int && (k as int) < nb && k != consumed {
        if kv_maps(a, k, v) {
            let x = choose|x: int| 0 <= x < a.len() && #[trigger] a[x] == (Kv { key: k, val: v });
            assert((a[x].key as int) < ob || a[x].key == consumed || a[x].key as int >= nb);
        }
        if kv_maps(b, k, v) {
            let y = choose|y: int| 0 <= y < b.len() && #[trigger] b[y] == (Kv { key: k, val: v });
            assert((b[y].key as int) < ob || b[y].key == consumed || b[y].key as int >= nb);
        }
    }
}

/// Re-establishes the walk invariant after a key present on both sides.
#[verifier::spinoff_prover]
proof fn lemma_step_after_both(
    a: Seq<Kv>,
    b: Seq<Kv>,
    out1: Seq<BatchRow>,
    out2: Seq<BatchRow>,
    i: int,
    j: int,
)
    requires
        kv_sorted(a),
        kv_sorted(b),
        0 < i <= a.len(),
        0 < j <= b.len(),
        a[i - 1].key == b[j - 1].key,
        ({
            let ob = bound_of(a, b, i - 1, j - 1);
            let ea = a[i - 1];
            let eb = b[j - 1];
            &&& forall|x: int| 0 <= x < i - 1 ==> ((#[trigger] a[x]).key as int) < ob
            &&& forall|y: int| 0 <= y < j - 1 ==> ((#[trigger] b[y]).key as int) < ob
            &&& rows_sorted(out1)
            &&& forall|x: int| 0 <= x < out1.len() ==> ((#[trigger] out1[x]).key as int) < ob
            &&& forall|x: int|
                0 <= x < out1.len() ==> ((#[trigger] out1[x]).mult == -1 || out1[x].mult == 1)
            &&& forall|k: u64, v: i64|
                #[trigger] has_row(out1, k, v, -1i64) <==> (kv_maps(a, k, v) && !kv_maps(b, k, v) && (
                k as int) < ob)
            &&& forall|k: u64, v: i64|
                #[trigger] has_row(out1, k, v, 1i64) <==> (kv_maps(b, k, v) && !kv_maps(a, k, v) && (
                k as int) < ob)
            &&& (ea.val == eb.val ==> out2 == out1)
            &&& (ea.val != eb.val && ea.val < eb.val ==> out2 == out1.push(
                BatchRow { key: ea.key, val: ea.val, mult: -1i64 },
            ).push(BatchRow { key: eb.key, val: eb.val, mult: 1i64 }))
            &&& (ea.val != eb.val && ea.val > eb.val ==> out2 == out1.push(
                BatchRow { key: eb.key, val: eb.val, mult: 1i64 },
            ).push(BatchRow { key: ea.key, val: ea.val, mult: -1i64 }))
        }),
    ensures
        ({
            let nb = bound_of(a, b, i, j);
            &&& forall|x: int| 0 <= x < i ==> ((#[trigger] a[x]).key as int) < nb
            &&& forall|y: int| 0 <= y < j ==> ((#[trigger] b[y]).key as int) < nb
            &&& rows_sorted(out2)
            &&& forall|x: int| 0 <= x < out2.len() ==> ((#[trigger] out2[x]).key as int) < nb
            &&& forall|x: int|
                0 <= x < out2.len() ==> ((#[trigger] out2[x]).mult == -1 || out2[x].mult == 1)
            &&& forall|k: u64, v: i64|
                #[trigger] has_row(out2, k, v, -1i64) <==> (kv_maps(a, k, v) && !kv_maps(b, k, v) && (
                k as int) < nb)
            &&& forall|k: u64, v: i64|
                #[trigger] has_row(out2, k, v, 1i64) <==> (kv_maps(b, k, v) && !kv_maps(a, k, v) && (
                k as int) < nb)
        }),
{
    let ob = bound_of(a, b, i - 1, j - 1);
    let nb = bound_of(a, b, i, j);
    let ea = a[i - 1];
    let eb = b[j - 1];
    let kk = ea.key;
    lemma_step_facts(a, b, i, j);
    assert(ob == kk as int);
    assert(ob < nb);
    assert(kv_maps(a, kk, ea.val)) by {
        assert(a[i - 1] == (Kv { key: kk, val: ea.val }));
    }
    assert(kv_maps(b, kk, eb.val)) by {
        assert(b[j - 1] == (Kv { key: kk, val: eb.val }));
    }
    assert forall|k: u64, v: i64, m: i64|
        m == -1i64 || m == 1i64 implies (#[trigger] has_row(out2, k, v, m) <==> (if m == -1i64 {
        kv_maps(a, k, v) && !kv_maps(b, k, v)
    } else {
        kv_maps(b, k, v) && !kv_maps(a, k, v)
    } && (k as int) < nb)) by {
        let ra = BatchRow { key: kk, val: ea.val, mult: -1i64 };
        let rb = BatchRow { key: kk, val: eb.val, mult: 1i64 };
        if ea.val != eb.val {
            if ea.val < eb.val {
                lemma_has_row_push(out1, ra, k, v, -1i64);
                lemma_has_row_push(out1.push(ra), rb, k, v, -1i64);
                lemma_has_row_push(out1, ra, k, v, 1i64);
                lemma_has_row_push(out1.push(ra), rb, k, v, 1i64);
            } else {
                lemma_has_row_push(out1, rb, k, v, -1i64);
                lemma_has_row_push(out1.push(rb), ra, k, v, -1i64);
                lemma_has_row_push(out1, rb, k, v, 1i64);
                lemma_has_row_push(out1.push(rb), ra, k, v, 1i64);
            }
        }
        lemma_diff_cond_frame(a, b, ob, nb, k, v, kk);
        if k == kk {
            if kv_maps(a, k, v) {
                lemma_kv_maps_val(a, k, v);
                lemma_kv_maps_val(a, kk, ea.val);
            }
            if kv_maps(b, k, v) {
                lemma_kv_maps_val(b, k, v);
                lemma_kv_maps_val(b, kk, eb.val);
            }
        }
    }
    assert forall|x: int| 0 <= x < out2.len() implies ((#[trigger] out2[x]).key as int) < nb by {
        if x < out1.len() {
            assert((out1[x].key as int) < ob);
        }
    }
    assert(rows_sorted(out2)) by {
        assert forall|x: int, y: int| 0 <= x < y < out2.len() implies brow_lt(
            #[trigger] out2[x],
            #[trigger] out2[y],
        ) by {
            if y < out1.len() {
            } else if x < out1.len() {
                assert((out1[x].key as int) < ob);
            }
        }
    }
    assert(forall|x: int| 0 <= x < i ==> ((#[trigger] a[x]).key as int) < nb);
    assert(forall|y: int| 0 <= y < j ==> ((#[trigger] b[y]).key as int) < nb);
    assert(forall|x: int| 0 <= x < out2.len() ==> ((#[trigger] out2[x]).key as int) < nb);
    assert(forall|x: int|
        0 <= x < out2.len() ==> ((#[trigger] out2[x]).mult == -1 || out2[x].mult == 1));
}

/// Diff rows with negative change among the first `n` rows, in order.
pub open spec fn negs_upto(s: Seq<BatchRow>, n: int) -> Seq<BatchRow>
    decreases n,
{
    if n <= 0 {
        Seq::empty()
    } else if s[n - 1].mult < 0 {
        negs_upto(s, n - 1).push(s[n - 1])
    } else {
        negs_upto(s, n - 1)
    }
}

/// Diff rows with non-negative change among the first `n` rows, in order.
pub open spec fn poss_upto(s: Seq<BatchRow>, n: int) -> Seq<BatchRow>
    decreases n,
{
    if n <= 0 {
        Seq::empty()
    } else if s[n - 1].mult >= 0 {
        poss_upto(s, n - 1).push(s[n - 1])
    } else {
        poss_upto(s, n - 1)
    }
}

/// Rows of the negative selection carry negative change, keep the strict
/// (key, value) order, and precede every unprocessed batch row.
pub proof fn lemma_negs_shape(s: Seq<BatchRow>, n: int)
    requires
        0 <= n <= s.len(),
        rows_sorted(s),
    ensures
        rows_sorted(negs_upto(s, n)),
        forall|x: int| 0 <= x < negs_upto(s, n).len() ==> (#[trigger] negs_upto(s, n)[x]).mult < 0,
        forall|x: int, m: int|
            0 <= x < negs_upto(s, n).len() && n <= m < s.len() ==> brow_lt(
                #[trigger] negs_upto(s, n)[x],
                #[trigger] s[m],
            ),
    decreases n,
{
    if n > 0 {
        lemma_negs_shape(s, n - 1);
        let prev = negs_upto(s, n - 1);
        let cur = negs_upto(s, n);
        if s[n - 1].mult < 0 {
            assert forall|x: int, m: int|
                0 <= x < cur.len() && n <= m < s.len() implies brow_lt(
                #[trigger] cur[x],
                #[trigger] s[m],
            ) by {
                if x < prev.len() {
                    assert(cur[x] == prev[x]);
                    assert(brow_lt(prev[x], s[m]));
                } else {
                    assert(cur[x] == s[n - 1]);
                }
            }
            assert forall|x: int, y: int| 0 <= x < y < cur.len() implies brow_lt(
                #[trigger] cur[x],
                #[trigger] cur[y],
            ) by {
                if y == cur.len() - 1 {
                    assert(cur[x] == prev[x]);
                    assert(brow_lt(prev[x], s[n - 1]));
                } else {
                    assert(cur[x] == prev[x] && cur[y] == prev[y]);
                }
            }
        }
    }
}

/// Rows of the non-negative selection carry non-negative change, keep the
/// strict (key, value) order, and precede every unprocessed batch row.
pub proof fn lemma_poss_shape(s: Seq<BatchRow>, n: int)
    requires
        0 <= n <= s.len(),
        rows_sorted(s),
    ensures
        rows_sorted(poss_upto(s, n)),
        forall|x: int| 0 <= x < poss_upto(s, n).len() ==> (#[trigger] poss_upto(s, n)[x]).mult >= 0,
        forall|x: int, m: int|
            0 <= x < poss_upto(s, n).len() && n <= m < s.len() ==> brow_lt(
                #[trigger] poss_upto(s, n)[x],
                #[trigger] s[m],
            ),
    decreases n,
{
    if n > 0 {
        lemma_poss_shape(s, n - 1);
        let prev = poss_upto(s, n - 1);
        let cur = poss_upto(s, n);
        if s[n - 1].mult >= 0 {
            assert forall|x: int, m: int|
                0 <= x < cur.len() && n <= m < s.len() implies brow_lt(
                #[trigger] cur[x],
                #[trigger] s[m],
            ) by {
                if x < prev.len() {
                    assert(cur[x] == prev[x]);
                    assert(brow_lt(prev[x], s[m]));
                } else {
                    assert(cur[x] == s[n - 1]);
                }
            }
            assert forall|x: int, y: int| 0 <= x < y < cur.len() implies brow_lt(
                #[trigger] cur[x],
                #[trigger] cur[y],
            ) by {
                if y == cur.len() - 1 {
                    assert(cur[x] == prev[x]);
                    assert(brow_lt(prev[x], s[n - 1]));
                } else {
                    assert(cur[x] == prev[x] && cur[y] == prev[y]);
                }
            }
        }
    }
}

/// Reordering a batch for broadcast keeps exactly its rows: membership is
/// unchanged.
pub proof fn lemma_ordered_has_row(s: Seq<BatchRow>, k: u64, v: i64, m: i64)
    ensures
        has_row(negs_upto(s, s.len() as int) + poss_upto(s, s.len() as int), k, v, m) <==> has_row(
            s,
            k,
            v,
            m,
        ),
{
    lemma_ordered_has_row_upto(s, s.len() as int, k, v, m);
}

proof fn lemma_ordered_has_row_upto(s: Seq<BatchRow>, n: int, k: u64, v: i64, m: i64)
    requires
        0 <= n <= s.len(),
    ensures
        has_row(negs_upto(s, n) + poss_upto(s, n), k, v, m) <==> (exists|j: int|
            0 <= j < n && #[trigger] s[j] == (BatchRow { key: k, val: v, mult: m })),
    decreases n,
{
    let r = BatchRow { key: k, val: v, mult: m };
    if n > 0 {
        lemma_ordered_has_row_upto(s, n - 1, k, v, m);
        let np = negs_upto(s, n - 1);
        let pp = poss_upto(s, n - 1);
        let nc = negs_upto(s, n);
        let pc = poss_upto(s, n);
        assert forall|x: int|
            0 <= x < (np + pp).len() implies (np + pp)[x] == (nc + pc)[if s[n - 1].mult < 0 && x
            >= np.len() {
            x + 1
        } else {
            x
        }] by {}
        if has_row(np + pp, k, v, m) {
            let x = choose|x: int| 0 <= x < (np + pp).len() && #[trigger] (np + pp)[x] == r;
            assert(has_row(nc + pc, k, v, m)) by {
                if s[n - 1].mult < 0 && x >= np.len() {
                    assert((nc + pc)[x + 1] == r);
                } else {
                    assert((nc + pc)[x] == r);
                }
            }
        }
        if s[n - 1] == r {
            assert(has_row(nc + pc, k, v, m)) by {
                if r.mult < 0 {
                    assert((nc + pc)[nc.len() - 1] == r);
                } else {
                    assert((nc + pc)[(nc + pc).len() - 1] == r);
                }
            }
        }
        if has_row(nc + pc, k, v, m) {
            let x = choose|x: int| 0 <= x < (nc + pc).len() && #[trigger] (nc + pc)[x] == r;
            if s[n - 1].mult < 0 {
                if x == nc.len() - 1 {
                    assert(s[n - 1] == r);
                } else if x < nc.len() - 1 {
                    assert((np + pp)[x] == nc[x]);
                    assert(has_row(np + pp, k, v, m));
                } else {
                    assert((np + pp)[x - 1] == (nc + pc)[x]);
                    assert(has_row(np + pp, k, v, m));
                }
            } else {
                if x == (nc + pc).len() - 1 {
                    assert(s[n - 1] == r);
                } else {
                    assert((np + pp)[x] == (nc + pc)[x]);
                    assert(has_row(np + pp, k, v, m));
                }
            }
        }
    }
}

/// The broadcast-ordered batch of a (key, value)-sorted diff has no
/// repeated row.
pub proof fn lemma_ordered_distinct(s: Seq<BatchRow>)
    requires
        rows_sorted(s),
    ensures
        ({
            let ord = negs_upto(s, s.len() as int) + poss_upto(s, s.len() as int);
            forall|x: int, y: int| 0 <= x < y < ord.len() ==> ord[x] != ord[y]
        }),
{
    let n = s.len() as int;
    let ng = negs_upto(s, n);
    let ps = poss_upto(s, n);
    let ord = ng + ps;
    lemma_negs_shape(s, n);
    lemma_poss_shape(s, n);
    assert forall|x: int, y: int| 0 <= x < y < ord.len() implies ord[x] != ord[y] by {
        if y < ng.len() {
            assert(brow_lt(ng[x], ng[y]));
        } else if x >= ng.len() {
            assert(brow_lt(ps[x - ng.len()], ps[y - ng.len()]));
        } else {
            // A retraction never equals an addition: the signs differ.
            assert(ord[x] == ng[x] && ord[y] == ps[y - ng.len()]);
            assert(ng[x].mult < 0 && ps[y - ng.len()].mult >= 0);
        }
    }
}

/// Broadcast order of one extraction batch: all retraction rows first,
/// then all addition rows, each group keeping the original discovery
/// order.
pub fn order_for_broadcast(rows: &Vec<BatchRow>) -> (r: Vec<BatchRow>)
    ensures
        r@ == negs_upto(rows@, rows@.len() as int) + poss_upto(rows@, rows@.len() as int),
{
    let mut out: Vec<BatchRow> = Vec::new();
    let mut i: usize = 0;
    while i < rows.len()
        invariant
            0 <= i <= rows.len(),
            out@ == negs_upto(rows@, i as int),
        decreases rows.len() - i,
    {
        if rows[i].mult < 0 {
            out.push(rows[i]);
        }
        i = i + 1;
    }
    let mut j: usize = 0;
    while j < rows.len()
        invariant
            0 <= j <= rows.len(),
            out@ == negs_upto(rows@, rows@.len() as int) + poss_upto(rows@, j as int),
        decreases rows.len() - j,
    {
        proof {
            if j == 0 {
                assert(out@ == negs_upto(rows@, rows@.len() as int) + poss_upto(rows@, 0));
            }
        }
        if rows[j].mult >= 0 {
            out.push(rows[j]);
            proof {
                assert(out@ == negs_upto(rows@, rows@.len() as int) + poss_upto(
                    rows@,
                    j as int + 1,
                ));
            }
        }
        j = j + 1;
    }
    out
}

} // verus!
