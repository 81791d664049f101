//! Per-query top-1 recommendation.
//!
//! Each similarity row (a, b) acts bidirectionally: a query whose history
//! contains `a` sees candidate `b` and vice versa, weighted by how often
//! the history item appears (sign included) and scored by the similarity
//! scaled to four decimal digits.  Per query, the candidate with the
//! highest accumulated score wins; ties break toward the lowest item id.

use vstd::prelude::*;

use crate::jaccard::SIM_SCALE;
use crate::keys::{hi_of, lo_of, unpack_pair};
use crate::kv::{kv_has, kv_has_key, kv_insert_new, kv_maps, kv_sorted, Kv};
use crate::model::{
    abs_of, lemma_mult_upto_bound, lemma_mult_upto_witness, lemma_weight_upto_nonneg, row_mult,
    store_wf, total_weight, InputRow,
};
use crate::store::{mult_value, MAX_TOTAL_WEIGHT};

verus! {

/// A similarity value scaled down to four decimal digits, the fixed-point
/// weight the reduction accumulates.
pub open spec fn scale4(v: int) -> int {
    v / 1000000
}

/// How much similarity entry `e` contributes to the presence weight of
/// `cand` for `query`: the query's net weight on the entry's other
/// endpoint, when `cand` is one of the endpoints.
pub open spec fn pw_term(q: Seq<InputRow>, e: Kv, query: int, cand: int) -> int {
    if lo_of(e.key as int) == cand {
        row_mult(q, query, hi_of(e.key as int))
    } else if hi_of(e.key as int) == cand {
        row_mult(q, query, lo_of(e.key as int))
    } else {
        0
    }
}

/// How much similarity entry `e` contributes to the score of `cand` for
/// `query`: the presence contribution times the scaled-down similarity.
pub open spec fn sc_term(q: Seq<InputRow>, e: Kv, query: int, cand: int) -> int {
    pw_term(q, e, query, cand) * scale4(e.val as int)
}

/// Presence weight of `cand` for `query` over the first `n` similarity
/// entries.
pub open spec fn pw_upto(st: Seq<Kv>, q: Seq<InputRow>, n: int, query: int, cand: int) -> int
    decreases n,
{
    if n <= 0 {
        0
    } else {
        pw_upto(st, q, n - 1, query, cand) + pw_term(q, st[n - 1], query, cand)
    }
}

/// Accumulated score of `cand` for `query` over the first `n` similarity
/// entries.
pub open spec fn sc_upto(st: Seq<Kv>, q: Seq<InputRow>, n: int, query: int, cand: int) -> int
    decreases n,
{
    if n <= 0 {
        0
    } else {
        sc_upto(st, q, n - 1, query, cand) + sc_term(q, st[n - 1], query, cand)
    }
}

/// Presence weight of `cand` in the reduction for `query`.
pub open spec fn cand_pw(st: Seq<Kv>, q: Seq<InputRow>, query: int, cand: int) -> int {
    pw_upto(st, q, st.len() as int, query, cand)
}

/// Accumulated score of `cand` in the reduction for `query`.
pub open spec fn cand_sc(st: Seq<Kv>, q: Seq<InputRow>, query: int, cand: int) -> int {
    sc_upto(st, q, st.len() as int, query, cand)
}

/// `cand` is the winner for `query`: it is present, and every other
/// present candidate scores strictly lower or ties with a higher id.
pub open spec fn rec_winner(st: Seq<Kv>, q: Seq<InputRow>, query: int, cand: int) -> bool {
    &&& cand_pw(st, q, query, cand) != 0
    &&& forall|c2: int|
        #[trigger] cand_pw(st, q, query, c2) != 0 ==> (cand_sc(st, q, query, c2) < cand_sc(
            st,
            q,
            query,
            cand,
        ) || (cand_sc(st, q, query, c2) == cand_sc(st, q, query, cand) && cand <= c2))
}

/// The reduction is deterministic: a query has at most one winner.
pub proof fn lemma_winner_unique(st: Seq<Kv>, q: Seq<InputRow>, query: int, c1: int, c2: int)
    requires
        rec_winner(st, q, query, c1),
        rec_winner(st, q, query, c2),
    ensures
        c1 == c2,
{
    assert(cand_pw(st, q, query, c1) != 0);
    assert(cand_pw(st, q, query, c2) != 0);
}

/// The recommendation state is correct: one entry per query that has a
/// winner, carrying that winner.
pub open spec fn recs_ok(st: Seq<Kv>, sims: Seq<Kv>, q: Seq<InputRow>) -> bool {
    &&& kv_sorted(st)
    &&& forall|k: u64, v: i64|
        #[trigger] kv_maps(st, k, v) <==> ((k as int) < 0x1_0000_0000 && 0 <= v < 0x1_0000_0000
            && rec_winner(sims, q, k as int, v as int))
}

/// Well-formedness the reduction needs of a similarity state: canonical
/// distinct endpoints and values within the fixed-point scale.
pub open spec fn sims_rows_ok(st: Seq<Kv>) -> bool {
    &&& kv_sorted(st)
    &&& forall|x: int|
        0 <= x < st.len() ==> 1 <= (#[trigger] st[x]).val <= SIM_SCALE && hi_of(st[x].key as int)
            != lo_of(st[x].key as int)
}

/// One candidate accumulator row: presence weight and score, wide enough
/// that no history can overflow them.
#[derive(Clone, Copy)]
struct CandAcc {
    cand: u64,
    pw: i128,
    sc: i128,
}

spec fn acc_sorted(s: Seq<CandAcc>) -> bool {
    forall|i: int, j: int| 0 <= i < j < s.len() ==> (#[trigger] s[i]).cand < (#[trigger] s[j]).cand
}

spec fn acc_pw_upto(s: Seq<CandAcc>, n: int, c: u64) -> int
    decreases n,
{
    if n <= 0 {
        0
    } else {
        acc_pw_upto(s, n - 1, c) + if s[n - 1].cand == c {
            s[n - 1].pw as int
        } else {
            0
        }
    }
}

spec fn acc_sc_upto(s: Seq<CandAcc>, n: int, c: u64) -> int
    decreases n,
{
    if n <= 0 {
        0
    } else {
        acc_sc_upto(s, n - 1, c) + if s[n - 1].cand == c {
            s[n - 1].sc as int
        } else {
            0
        }
    }
}

spec fn acc_pw_of(s: Seq<CandAcc>, c: u64) -> int {
    acc_pw_upto(s, s.len() as int, c)
}

spec fn acc_sc_of(s: Seq<CandAcc>, c: u64) -> int {
    acc_sc_upto(s, s.len() as int, c)
}

spec fn acc_has(s: Seq<CandAcc>, c: u64) -> bool {
    exists|j: int| 0 <= j < s.len() && (#[trigger] s[j]).cand == c
}

proof fn lemma_acc_entry(s: Seq<CandAcc>, n: int, j: int)
    requires
        acc_sorted(s),
        0 <= j < s.len(),
        0 <= n <= s.len(),
    ensures
        acc_pw_upto(s, n, s[j].cand) == if j < n {
            s[j].pw as int
        } else {
            0
        },
        acc_sc_upto(s, n, s[j].cand) == if j < n {
            s[j].sc as int
        } else {
            0
        },
    decreases n,
{
    if n > 0 {
        lemma_acc_entry(s, n - 1, j);
    }
}

proof fn lemma_acc_absent(s: Seq<CandAcc>, c: u64, n: int)
    requires
        forall|j: int| 0 <= j < s.len() ==> (#[trigger] s[j]).cand != c,
        0 <= n <= s.len(),
    ensures
        acc_pw_upto(s, n, c) == 0,
        acc_sc_upto(s, n, c) == 0,
    decreases n,
{
    if n > 0 {
        lemma_acc_absent(s, c, n - 1);
    }
}

proof fn lemma_acc_update(s1: Seq<CandAcc>, p: int, e: CandAcc, n: int, c: u64)
    requires
        0 <= p < s1.len(),
        0 <= n <= s1.len(),
        e.cand == s1[p].cand,
    ensures
        acc_pw_upto(s1.update(p, e), n, c) == acc_pw_upto(s1, n, c) + if p < n && e.cand == c {
            e.pw - s1[p].pw
        } else {
            0
        },
        acc_sc_upto(s1.update(p, e), n, c) == acc_sc_upto(s1, n, c) + if p < n && e.cand == c {
            e.sc - s1[p].sc
        } else {
            0
        },
    decreases n,
{
    if n > 0 {
        lemma_acc_update(s1, p, e, n - 1, c);
    }
}

proof fn lemma_acc_insert(s1: Seq<CandAcc>, p: int, e: CandAcc, n: int, c: u64)
    requires
        0 <= p <= s1.len(),
        0 <= n <= s1.len() + 1,
    ensures
        acc_pw_upto(s1.insert(p, e), n, c) == if n <= p {
            acc_pw_upto(s1, n, c)
        } else {
            acc_pw_upto(s1, n - 1, c) + if e.cand == c {
                e.pw as int
            } else {
                0
            }
        },
        acc_sc_upto(s1.insert(p, e), n, c) == if n <= p {
            acc_sc_upto(s1, n, c)
        } else {
            acc_sc_upto(s1, n - 1, c) + if e.cand == c {
                e.sc as int
            } else {
                0
            }
        },
    decreases n,
{
    let s2 = s1.insert(p, e);
    if n > 0 {
        lemma_acc_insert(s1, p, e, n - 1, c);
        if n - 1 < p {
            assert(s2[n - 1] == s1[n - 1]);
        } else if n - 1 == p {
            assert(s2[n - 1] == e);
        } else {
            assert(s2[n - 1] == s1[n - 2]);
        }
    }
}

/// Merges a (presence, score) delta into the accumulator at `cand`.
fn acc_add(s: &mut Vec<CandAcc>, cand: u64, dpw: i128, dsc: i128)
    requires
        acc_sorted(old(s)@),
        -0x10_0000_0000_0000_0000_0000_0000_0000 <= acc_pw_of(old(s)@, cand) + dpw
            <= 0x10_0000_0000_0000_0000_0000_0000_0000,
        -0x10_0000_0000_0000_0000_0000_0000_0000 <= acc_sc_of(old(s)@, cand) + dsc
            <= 0x10_0000_0000_0000_0000_0000_0000_0000,
    ensures
        acc_sorted(final(s)@),
        forall|c: u64|
            acc_pw_of(final(s)@, c) == acc_pw_of(old(s)@, c) + if c == cand {
                dpw as int
            } else {
                0
            },
        forall|c: u64|
            acc_sc_of(final(s)@, c) == acc_sc_of(old(s)@, c) + if c == cand {
                dsc as int
            } else {
                0
            },
        forall|c: u64| acc_has(final(s)@, c) <==> (acc_has(old(s)@, c) || c == cand),
        forall|x: int|
            0 <= x < final(s)@.len() ==> ((#[trigger] final(s)@[x]).cand == cand || acc_has(
                old(s)@,
                final(s)@[x].cand,
            )),
{
    let ghost s1 = s@;
    let mut i: usize = 0;
    while i < s.len() && s[i].cand < cand
        invariant
            0 <= i <= s.len(),
            s@ == s1,
            forall|j: int| 0 <= j < i ==> (#[trigger] s1[j]).cand < cand,
        decreases s.len() - i,
    {
        i = i + 1;
    }
    if i < s.len() && s[i].cand == cand {
        proof {
            lemma_acc_entry(s1, s1.len() as int, i as int);
        }
        let e = CandAcc { cand, pw: s[i].pw + dpw, sc: s[i].sc + dsc };
        let ghost eg = e;
        s.set(i, e);
        proof {
            let s2 = s@;
            assert forall|c: u64|
                acc_pw_of(s2, c) == acc_pw_of(s1, c) + (if c == cand {
                    dpw as int
                } else {
                    0
                }) && acc_sc_of(s2, c) == acc_sc_of(s1, c) + (if c == cand {
                    dsc as int
                } else {
                    0
                }) by {
                lemma_acc_update(s1, i as int, eg, s2.len() as int, c);
            }
            assert forall|c: u64| acc_has(s2, c) <==> (acc_has(s1, c) || c == cand) by {
                if acc_has(s1, c) {
                    let j = choose|j: int| 0 <= j < s1.len() && (#[trigger] s1[j]).cand == c;
                    assert(s2[j].cand == c);
                }
                if acc_has(s2, c) {
                    let j = choose|j: int| 0 <= j < s2.len() && (#[trigger] s2[j]).cand == c;
                    assert(s1[j].cand == s2[j].cand || j == i);
                }
                if c == cand {
                    assert(s2[i as int].cand == c);
                }
            }
            assert forall|x: int|
                0 <= x < s2.len() implies ((#[trigger] s2[x]).cand == cand || acc_has(
                s1,
                s2[x].cand,
            )) by {
                if x != i {
                    assert(s1[x].cand == s2[x].cand);
                }
            }
        }
    } else {
        proof {
            assert forall|j: int| 0 <= j < s1.len() implies (#[trigger] s1[j]).cand != cand by {
                if j >= i {
                    assert(!(s1[i as int].cand < cand));
                    if j > i {
                        assert(s1[i as int].cand < s1[j].cand);
                    }
                }
            }
            lemma_acc_absent(s1, cand, s1.len() as int);
        }
        let e = CandAcc { cand, pw: dpw, sc: dsc };
        let ghost eg = e;
        s.insert(i, e);
        proof {
            let s2 = s@;
            assert forall|x: int| 0 <= x < s2.len() implies #[trigger] s2[x] == (if x < i {
                s1[x]
            } else if x == i {
                eg
            } else {
                s1[x - 1]
            }) by {}
            assert forall|x: int, y: int| 0 <= x < y < s2.len() implies (#[trigger] s2[x]).cand < (
            #[trigger] s2[y]).cand by {
                if y == i {
                } else if x == i {
                    assert(s2[y] == s1[y - 1]);
                    assert(!(s1[y - 1].cand < cand));
                    assert(s1[y - 1].cand != cand);
                }
            }
            assert forall|c: u64|
                acc_pw_of(s2, c) == acc_pw_of(s1, c) + (if c == cand {
                    dpw as int
                } else {
                    0
                }) && acc_sc_of(s2, c) == acc_sc_of(s1, c) + (if c == cand {
                    dsc as int
                } else {
                    0
                }) by {
                lemma_acc_insert(s1, i as int, eg, s2.len() as int, c);
                if c == cand {
                    lemma_acc_absent(s1, cand, s1.len() as int);
                }
            }
            assert forall|c: u64| acc_has(s2, c) <==> (acc_has(s1, c) || c == cand) by {
                if acc_has(s1, c) {
                    let j = choose|j: int| 0 <= j < s1.len() && (#[trigger] s1[j]).cand == c;
                    if j < i {
                        assert(s2[j].cand == c);
                    } else {
                        assert(s2[j + 1].cand == c);
                    }
                }
                if acc_has(s2, c) {
                    let j = choose|j: int| 0 <= j < s2.len() && (#[trigger] s2[j]).cand == c;
                    if j < i {
                        assert(s1[j].cand == c);
                    } else if j > i {
                        assert(s1[j - 1].cand == c);
                    }
                }
                if c == cand {
                    assert(s2[i as int].cand == c);
                }
            }
            assert forall|x: int|
                0 <= x < s2.len() implies ((#[trigger] s2[x]).cand == cand || acc_has(
                s1,
                s2[x].cand,
            )) by {
                if x < i {
                    assert(s1[x].cand == s2[x].cand);
                } else if x > i {
                    assert(s1[x - 1].cand == s2[x].cand);
                }
            }
        }
    }
}

/// Per-entry contributions are bounded by the query store's weight and
/// the fixed-point scale.
proof fn lemma_terms_bounded(st: Seq<Kv>, q: Seq<InputRow>, n: int, query: int, cand: int)
    requires
        0 <= n <= st.len(),
        total_weight(q) <= MAX_TOTAL_WEIGHT,
        sims_rows_ok(st),
    ensures
        abs_of(pw_upto(st, q, n, query, cand)) <= n * 0x8000_0000,
        abs_of(sc_upto(st, q, n, query, cand)) <= n * 0x1388_0000_0000,
    decreases n,
{
    if n > 0 {
        lemma_terms_bounded(st, q, n - 1, query, cand);
        let e = st[n - 1];
        lemma_mult_upto_bound(q, q.len() as int, query, hi_of(e.key as int));
        lemma_mult_upto_bound(q, q.len() as int, query, lo_of(e.key as int));
        lemma_weight_upto_nonneg(q, q.len() as int);
        assert(abs_of(pw_term(q, e, query, cand)) <= 0x8000_0000);
        assert(0 <= scale4(e.val as int) <= 10000) by {
            assert(e.val / 1000000 >= 0 && e.val / 1000000 <= 10000) by (nonlinear_arith)
                requires
                    1 <= e.val <= 10_000_000_000i64,
            {}
        }
        assert(abs_of(sc_term(q, e, query, cand)) <= 0x1388_0000_0000) by {
            assert(abs_of(pw_term(q, e, query, cand) * scale4(e.val as int)) == abs_of(
                pw_term(q, e, query, cand),
            ) * abs_of(scale4(e.val as int)) && abs_of(pw_term(q, e, query, cand)) * abs_of(
                scale4(e.val as int),
            ) <= 0x8000_0000 * 10000) by (nonlinear_arith)
                requires
                    abs_of(pw_term(q, e, query, cand)) <= 0x8000_0000,
                    0 <= scale4(e.val as int) <= 10000,
            {}
        }
        assert((n - 1) * 0x8000_0000 + 0x8000_0000 == n * 0x8000_0000) by (nonlinear_arith);
        assert((n - 1) * 0x1388_0000_0000 + 0x1388_0000_0000 == n * 0x1388_0000_0000) by (nonlinear_arith);
    }
}

/// A candidate the accumulator never saw has presence weight zero.
proof fn lemma_pw_zero_off(st: Seq<Kv>, q: Seq<InputRow>, n: int, query: int, cand: int)
    requires
        0 <= n <= st.len(),
        forall|x: int|
            0 <= x < n ==> (pw_term(q, #[trigger] st[x], query, cand) == 0 && sc_term(
                q,
                st[x],
                query,
                cand,
            ) == 0),
    ensures
        pw_upto(st, q, n, query, cand) == 0,
        sc_upto(st, q, n, query, cand) == 0,
    decreases n,
{
    if n > 0 {
        lemma_pw_zero_off(st, q, n - 1, query, cand);
    }
}

/// The contribution of the similarity entry at position `n` to each
/// candidate: its other endpoint's query weight for the two endpoints,
/// nothing for anyone else.
proof fn lemma_step_terms(
    st: Seq<Kv>,
    q: Seq<InputRow>,
    n: int,
    query: int,
    cand: int,
    a: u32,
    b: u32,
    wa: int,
    wb: int,
)
    requires
        0 <= n < st.len(),
        a as int == hi_of(st[n].key as int),
        b as int == lo_of(st[n].key as int),
        a != b,
        wa == row_mult(q, query, a as int),
        wb == row_mult(q, query, b as int),
    ensures
        pw_upto(st, q, n + 1, query, cand) == pw_upto(st, q, n, query, cand) + if cand == b as int {
            wa
        } else if cand == a as int {
            wb
        } else {
            0
        },
        sc_upto(st, q, n + 1, query, cand) == sc_upto(st, q, n, query, cand) + (if cand
            == b as int {
            wa
        } else if cand == a as int {
            wb
        } else {
            0
        }) * scale4(st[n].val as int),
{
    let e = st[n];
    if cand == b as int {
        assert(pw_term(q, e, query, cand) == wa);
    } else if cand == a as int {
        assert(pw_term(q, e, query, cand) == wb);
    } else {
        assert(pw_term(q, e, query, cand) == 0);
        assert(sc_term(q, e, query, cand) == 0) by {
            assert(0 * scale4(e.val as int) == 0) by (nonlinear_arith);
        }
    }
}

/// The top-1 reduction for one query: accumulates, per candidate item,
/// the presence weight and score contributed by every similarity row
/// touching the query's history, then picks the highest-scoring present
/// candidate, lowest item id first.  Returns nothing when no candidate
/// is present.
pub fn rec_for_query(qbase: &Vec<InputRow>, sims: &Vec<Kv>, query: u32) -> (r: Option<u32>)
    requires
        total_weight(qbase@) <= MAX_TOTAL_WEIGHT,
        sims_rows_ok(sims@),
    ensures
        match r {
            Some(it) => rec_winner(sims@, qbase@, query as int, it as int),
            None => forall|cand: int| #[trigger] cand_pw(sims@, qbase@, query as int, cand) == 0,
        },
{
    let mut acc: Vec<CandAcc> = Vec::new();
    let mut n: usize = 0;
    while n < sims.len()
        invariant
            0 <= n <= sims.len(),
            total_weight(qbase@) <= MAX_TOTAL_WEIGHT,
            sims_rows_ok(sims@),
            acc_sorted(acc@),
            forall|x: int| 0 <= x < acc@.len() ==> ((#[trigger] acc@[x]).cand as int) < 0x1_0000_0000,
            forall|c: u64|
                #[trigger] acc_pw_of(acc@, c) == pw_upto(sims@, qbase@, n as int, query as int,
                    c as int),
            forall|c: u64|
                #[trigger] acc_sc_of(acc@, c) == sc_upto(sims@, qbase@, n as int, query as int,
                    c as int),
            forall|c: u64|
                !acc_has(acc@, c) ==> pw_upto(sims@, qbase@, n as int, query as int, c as int)
                    == 0,
        decreases sims.len() - n,
    {
        let ghost acc_start = acc@;
        let e = sims[n];
        let (a, b) = unpack_pair(e.key);
        proof {
            assert(sims@[n as int] == e);
            lemma_terms_bounded(sims@, qbase@, n as int, query as int, a as int);
            lemma_terms_bounded(sims@, qbase@, n as int, query as int, b as int);
            lemma_mult_upto_bound(qbase@, qbase@.len() as int, query as int, a as int);
            lemma_mult_upto_bound(qbase@, qbase@.len() as int, query as int, b as int);
            lemma_weight_upto_nonneg(qbase@, qbase@.len() as int);
            assert(0 <= scale4(e.val as int) <= 10000) by {
                assert(e.val / 1000000 >= 0 && e.val / 1000000 <= 10000) by (nonlinear_arith)
                    requires
                        1 <= e.val <= 10_000_000_000i64,
                {}
            }
            assert(n as int * 0x8000_0000 + 0x8000_0000 <= 0x10_0000_0000_0000_0000_0000_0000_0000
                && n as int * 0x1388_0000_0000 + 0x1388_0000_0000
                <= 0x10_0000_0000_0000_0000_0000_0000_0000) by (nonlinear_arith)
                requires
                    0 <= n as int <= 0x10000000000000000,
            {}
        }
        let s4 = (e.val / 1000000) as i128;
        let wa = mult_value(qbase, query, a);
        let ghost acc_mid = acc@;
        if wa != 0 {
            proof {
                assert(abs_of(wa as int * s4 as int) == abs_of(wa as int) * abs_of(s4 as int)
                    && abs_of(wa as int) * abs_of(s4 as int) <= 0x8000_0000 * 10000)
                    by (nonlinear_arith)
                    requires
                        abs_of(wa as int) <= 0x8000_0000,
                        0 <= s4 as int <= 10000,
                {}
            }
            acc_add(&mut acc, b as u64, wa as i128, (wa as i128) * s4);
        }
        let ghost acc_mid = acc@;
        let wb = mult_value(qbase, query, b);
        if wb != 0 {
            proof {
                assert(abs_of(wb as int * s4 as int) == abs_of(wb as int) * abs_of(s4 as int)
                    && abs_of(wb as int) * abs_of(s4 as int) <= 0x8000_0000 * 10000)
                    by (nonlinear_arith)
                    requires
                        abs_of(wb as int) <= 0x8000_0000,
                        0 <= s4 as int <= 10000,
                {}
                if a == b {
                    assert(false);
                }
            }
            acc_add(&mut acc, a as u64, wb as i128, (wb as i128) * s4);
        }
        proof {
            assert forall|c: u64|
                #[trigger] acc_pw_of(acc@, c) == pw_upto(sims@, qbase@, n as int + 1, query as int,
                    c as int) by {
                lemma_step_terms(sims@, qbase@, n as int, query as int, c as int, a, b, wa as int,
                    wb as int);
            }
            assert forall|c: u64|
                #[trigger] acc_sc_of(acc@, c) == sc_upto(sims@, qbase@, n as int + 1, query as int,
                    c as int) by {
                lemma_step_terms(sims@, qbase@, n as int, query as int, c as int, a, b, wa as int,
                    wb as int);
            }
            assert forall|c: u64|
                !acc_has(acc@, c) implies pw_upto(sims@, qbase@, n as int + 1, query as int,
                c as int) == 0 by {
                lemma_step_terms(sims@, qbase@, n as int, query as int, c as int, a, b, wa as int,
                    wb as int);
            }
            assert forall|x: int|
                0 <= x < acc@.len() implies ((#[trigger] acc@[x]).cand as int) < 0x1_0000_0000 by {
                let c = acc@[x].cand;
                if c != a as u64 && c != b as u64 {
                    assert(acc_has(acc_mid, c) || c == a as u64);
                    assert(acc_has(acc_start, c) || c == b as u64);
                    let y = choose|y: int|
                        0 <= y < acc_start.len() && (#[trigger] acc_start[y]).cand == c;
                }
            }
        }
        n = n + 1;
    }
    // Select the winner: highest accumulated score among present
    // candidates, lowest candidate id on ties.
    let mut best_set = false;
    let mut best_cand: u64 = 0;
    let mut best_sc: i128 = 0;
    let mut x: usize = 0;
    while x < acc.len()
        invariant
            0 <= x <= acc.len(),
            acc_sorted(acc@),
            forall|y: int| 0 <= y < acc@.len() ==> ((#[trigger] acc@[y]).cand as int) < 0x1_0000_0000,
            forall|c: u64|
                #[trigger] acc_pw_of(acc@, c) == cand_pw(sims@, qbase@, query as int, c as int),
            forall|c: u64|
                #[trigger] acc_sc_of(acc@, c) == cand_sc(sims@, qbase@, query as int, c as int),
            forall|c: u64|
                !acc_has(acc@, c) ==> cand_pw(sims@, qbase@, query as int, c as int) == 0,
            !best_set ==> forall|y: int| 0 <= y < x ==> (#[trigger] acc@[y]).pw == 0,
            best_set ==> exists|y: int|
                0 <= y < x && (#[trigger] acc@[y]).cand == best_cand && acc@[y].pw != 0
                    && acc@[y].sc == best_sc,
            best_set ==> forall|y: int|
                0 <= y < x && (#[trigger] acc@[y]).pw != 0 ==> (acc@[y].sc < best_sc || (acc@[y].sc
                    == best_sc && best_cand <= acc@[y].cand)),
        decreases acc.len() - x,
    {
        if acc[x].pw != 0 {
            if !best_set || acc[x].sc > best_sc {
                best_set = true;
                best_cand = acc[x].cand;
                best_sc = acc[x].sc;
                proof {
                    assert(acc@[x as int].cand == best_cand && acc@[x as int].pw != 0
                        && acc@[x as int].sc == best_sc);
                }
            }
        }
        x = x + 1;
    }
    if best_set {
        proof {
            let st = sims@;
            let q = qbase@;
            let y = choose|y: int|
                0 <= y < acc@.len() && (#[trigger] acc@[y]).cand == best_cand && acc@[y].pw != 0
                    && acc@[y].sc == best_sc;
            lemma_acc_entry(acc@, acc@.len() as int, y);
            assert(acc_pw_of(acc@, best_cand) == acc@[y].pw as int);
            assert(acc_sc_of(acc@, best_cand) == best_sc as int);
            assert(cand_pw(st, q, query as int, best_cand as int) == acc@[y].pw as int);
            assert(cand_sc(st, q, query as int, best_cand as int) == best_sc as int);
            assert forall|c2: int|
                #[trigger] cand_pw(st, q, query as int, c2) != 0 implies (cand_sc(st, q,
                query as int, c2) < best_sc as int || (cand_sc(st, q, query as int, c2)
                == best_sc as int && best_cand as int <= c2)) by {
                if 0 <= c2 < 0x1_0000_0000_0000_0000 {
                    let c2u = c2 as u64;
                    assert(cand_pw(st, q, query as int, c2u as int) != 0);
                    assert(acc_pw_of(acc@, c2u) != 0);
                    if !acc_has(acc@, c2u) {
                        assert forall|j: int|
                            0 <= j < acc@.len() implies (#[trigger] acc@[j]).cand != c2u by {}
                        lemma_acc_absent(acc@, c2u, acc@.len() as int);
                    }
                    let z = choose|z: int| 0 <= z < acc@.len() && (#[trigger] acc@[z]).cand == c2u;
                    lemma_acc_entry(acc@, acc@.len() as int, z);
                    assert(acc_pw_of(acc@, c2u) == acc@[z].pw as int);
                    assert(acc_sc_of(acc@, c2u) == acc@[z].sc as int);
                    assert(acc@[z].pw as int == cand_pw(st, q, query as int, c2));
                    assert(acc@[z].sc as int == cand_sc(st, q, query as int, c2));
                } else {
                    // Out-of-range candidates get no contribution from
                    // any entry, so their presence weight is zero.
                    assert forall|xx: int|
                        0 <= xx < st.len() implies (pw_term(q, #[trigger] st[xx], query as int, c2)
                        == 0 && sc_term(q, st[xx], query as int, c2) == 0) by {
                        lemma_key_parts_range(st[xx].key, c2);
                    }
                    lemma_pw_zero_off(st, q, st.len() as int, query as int, c2);
                }
            }
        }
        Some(best_cand as u32)
    } else {
        proof {
            let st = sims@;
            let q = qbase@;
            assert forall|cand: int| #[trigger] cand_pw(st, q, query as int, cand) == 0 by {
                if 0 <= cand < 0x1_0000_0000_0000_0000 {
                    let cu = cand as u64;
                    if acc_has(acc@, cu) {
                        let z = choose|z: int| 0 <= z < acc@.len() && (#[trigger] acc@[z]).cand == cu;
                        lemma_acc_entry(acc@, acc@.len() as int, z);
                        assert(acc_pw_of(acc@, cu) == acc@[z].pw as int);
                        assert(acc@[z].pw == 0);
                    } else {
                        assert(cand_pw(st, q, query as int, cu as int) == 0);
                    }
                } else {
                    assert forall|xx: int|
                        0 <= xx < st.len() implies (pw_term(q, #[trigger] st[xx], query as int,
                        cand) == 0 && sc_term(q, st[xx], query as int, cand) == 0) by {
                        lemma_key_parts_range(st[xx].key, cand);
                    }
                    lemma_pw_zero_off(st, q, st.len() as int, query as int, cand);
                }
            }
        }
        None
    }
}

/// The packed halves of a similarity key are 32-bit values, so an
/// out-of-range candidate matches neither.
proof fn lemma_key_parts_range(k: u64, cand: int)
    requires
        !(0 <= cand < 0x1_0000_0000_0000_0000),
    ensures
        hi_of(k as int) != cand,
        lo_of(k as int) != cand,
{
    assert(0 <= hi_of(k as int) < 0x1_0000_0000_0000_0000 && 0 <= lo_of(k as int)
        < 0x1_0000_0000_0000_0000) by (nonlinear_arith)
        requires
            0 <= k < 0x1_0000_0000_0000_0000,
            hi_of(k as int) == k as int / 0x1_0000_0000,
            lo_of(k as int) == k as int % 0x1_0000_0000,
    {}
}

/// The recommendation collection: one winner row per query that has any
/// present candidate.
pub fn recs_state(qbase: &Vec<InputRow>, sims: &Vec<Kv>) -> (r: Vec<Kv>)
    requires
        store_wf(qbase@),
        total_weight(qbase@) <= MAX_TOTAL_WEIGHT,
        sims_rows_ok(sims@),
    ensures
        recs_ok(r@, sims@, qbase@),
{
    let mut acc: Vec<Kv> = Vec::new();
    let mut i: usize = 0;
    while i < qbase.len()
        invariant
            0 <= i <= qbase.len(),
            store_wf(qbase@),
            total_weight(qbase@) <= MAX_TOTAL_WEIGHT,
            sims_rows_ok(sims@),
            kv_sorted(acc@),
            forall|k: u64, v: i64|
                #[trigger] kv_maps(acc@, k, v) <==> ((k as int) < 0x1_0000_0000 && 0 <= v
                    < 0x1_0000_0000 && rec_winner(sims@, qbase@, k as int, v as int) && (exists|
                    j: int,
                |
                    0 <= j < i && (#[trigger] qbase@[j]).key == k)),
        decreases qbase.len() - i,
    {
        let qid = qbase[i].key;
        let ghost acc1 = acc@;
        if !kv_has(&acc, qid as u64) {
            let w = rec_for_query(qbase, sims, qid);
            if let Some(it) = w {
                kv_insert_new(&mut acc, qid as u64, it as i64);
            }
        }
        proof {
            let acc2 = acc@;
            assert forall|k: u64, v: i64|
                #[trigger] kv_maps(acc2, k, v) <==> ((k as int) < 0x1_0000_0000 && 0 <= v
                    < 0x1_0000_0000 && rec_winner(sims@, qbase@, k as int, v as int) && (exists|
                    j: int,
                |
                    0 <= j < i + 1 && (#[trigger] qbase@[j]).key == k)) by {
                if (k as int) < 0x1_0000_0000 && 0 <= v < 0x1_0000_0000 && rec_winner(sims@, qbase@,
                    k as int, v as int) && (exists|j: int|
                    0 <= j < i + 1 && (#[trigger] qbase@[j]).key == k) {
                    let j = choose|j: int| 0 <= j < i + 1 && (#[trigger] qbase@[j]).key == k;
                    if j < i {
                        assert(kv_maps(acc1, k, v));
                    } else {
                        assert(k == qid as u64);
                        if kv_has_key(acc1, qid as u64) {
                            let x = choose|x: int|
                                0 <= x < acc1.len() && (#[trigger] acc1[x]).key == qid as u64;
                            assert(kv_maps(acc1, qid as u64, acc1[x].val)) by {
                                assert(acc1[x] == (Kv { key: qid as u64, val: acc1[x].val }));
                            }
                            lemma_winner_unique(sims@, qbase@, k as int, acc1[x].val as int,
                                v as int);
                        }
                    }
                }
                if kv_maps(acc2, k, v) && !kv_maps(acc1, k, v) {
                    assert(qbase@[i as int].key == k);
                }
            }
        }
        i = i + 1;
    }
    proof {
        assert forall|k: u64, v: i64|
            #[trigger] kv_maps(acc@, k, v) <==> ((k as int) < 0x1_0000_0000 && 0 <= v
                < 0x1_0000_0000 && rec_winner(sims@, qbase@, k as int, v as int)) by {
            if (k as int) < 0x1_0000_0000 && 0 <= v < 0x1_0000_0000 && rec_winner(sims@, qbase@,
                k as int, v as int) {
                // A winner needs a nonzero presence weight, which needs a
                // query row carrying this query id.
                lemma_pw_needs_row(sims@, qbase@, sims@.len() as int, k as int, v as int);
            }
        }
    }
    acc
}

/// A nonzero presence weight needs a row of the query store with the
/// given query id.
proof fn lemma_pw_needs_row(st: Seq<Kv>, q: Seq<InputRow>, n: int, query: int, cand: int)
    requires
        0 <= n <= st.len(),
        pw_upto(st, q, n, query, cand) != 0,
    ensures
        exists|j: int| 0 <= j < q.len() && (#[trigger] q[j]).key == query,
    decreases n,
{
    if pw_term(q, st[n - 1], query, cand) != 0 {
        let e = st[n - 1];
        if lo_of(e.key as int) == cand {
            lemma_mult_upto_witness(q, q.len() as int, query, hi_of(e.key as int));
        } else {
            lemma_mult_upto_witness(q, q.len() as int, query, lo_of(e.key as int));
        }
    } else {
        lemma_pw_needs_row(st, q, n - 1, query, cand);
    }
}

} // verus!
