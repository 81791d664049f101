//! Consolidated input stores.
//!
//! An input collection (interactions or queries) is held as a vector of
//! rows strictly sorted by (key, item) with no zero multiplicities — the
//! canonical consolidated form of a signed multiset.  Applying a diff batch
//! merges each row's multiplicity into the store.

use vstd::prelude::*;

use crate::model::{
    abs_of, cooc_count, cooc_term, cooc_upto, count_upto, item_count, mult_upto, row_lt, row_mult,
    store_wf, total_weight, weight_upto, InputRow, lemma_mult_upto_bound,
    lemma_mult_upto_witness, lemma_row_mult_absent, lemma_store_row_mult,
    lemma_weight_upto_nonneg,
};

verus! {

/// Cap on the total absolute weight a store may hold, set at the machine
/// limit of the engine's arithmetic: with total weight W every count is
/// bounded by W and every co-occurrence by W², so W = 2³¹ keeps W² inside
/// `i64`, and the Jaccard denominator (at most 2·W) stays below the 10¹⁰
/// fixed-point scale.  Removals shrink the store's weight, so capacity is
/// reclaimed as interactions are retracted.
pub const MAX_TOTAL_WEIGHT: u64 = 2147483648;

/// Effect of replacing row `p` by `r` on the accumulated sums.
#[verifier::rlimit(40)]
#[verifier::spinoff_prover]
proof fn lemma_edit_update(s1: Seq<InputRow>, p: int, r: InputRow, n: int, k: int, it: int)
    requires
        0 <= p < s1.len(),
        0 <= n <= s1.len(),
    ensures
        mult_upto(s1.update(p, r), n, k, it) == mult_upto(s1, n, k, it) + if p < n {
            row_part(r, k, it) - row_part(s1[p], k, it)
        } else {
            0
        },
        count_upto(s1.update(p, r), n, it) == count_upto(s1, n, it) + if p < n {
            row_item_part(r, it) - row_item_part(s1[p], it)
        } else {
            0
        },
        weight_upto(s1.update(p, r), n) == weight_upto(s1, n) + if p < n {
            abs_of(r.mult as int) - abs_of(s1[p].mult as int)
        } else {
            0
        },
    decreases n,
{
    if n > 0 {
        lemma_edit_update(s1, p, r, n - 1, k, it);
    }
}

/// Effect of inserting row `r` at position `p` on the accumulated sums.
#[verifier::rlimit(40)]
#[verifier::spinoff_prover]
proof fn lemma_edit_insert(s1: Seq<InputRow>, p: int, r: InputRow, n: int, k: int, it: int)
    requires
        0 <= p <= s1.len(),
        0 <= n <= s1.len() + 1,
    ensures
        mult_upto(s1.insert(p, r), n, k, it) == if n <= p {
            mult_upto(s1, n, k, it)
        } else {
            mult_upto(s1, n - 1, k, it) + row_part(r, k, it)
        },
        count_upto(s1.insert(p, r), n, it) == if n <= p {
            count_upto(s1, n, it)
        } else {
            count_upto(s1, n - 1, it) + row_item_part(r, it)
        },
        weight_upto(s1.insert(p, r), n) == if n <= p {
            weight_upto(s1, n)
        } else {
            weight_upto(s1, n - 1) + abs_of(r.mult as int)
        },
    decreases n,
{
    let s2 = s1.insert(p, r);
    if n > 0 {
        lemma_edit_insert(s1, p, r, n - 1, k, it);
        if n - 1 < p {
            assert(s2[n - 1] == s1[n - 1]);
        } else if n - 1 == p {
            assert(s2[n - 1] == r);
        } else {
            assert(s2[n - 1] == s1[n - 2]);
        }
    }
}

/// Effect of removing row `p` on the accumulated sums.
#[verifier::rlimit(40)]
#[verifier::spinoff_prover]
proof fn lemma_edit_remove(s1: Seq<InputRow>, p: int, n: int, k: int, it: int)
    requires
        0 <= p < s1.len(),
        0 <= n <= s1.len() - 1,
    ensures
        mult_upto(s1.remove(p), n, k, it) == if n <= p {
            mult_upto(s1, n, k, it)
        } else {
            mult_upto(s1, n + 1, k, it) - row_part(s1[p], k, it)
        },
        count_upto(s1.remove(p), n, it) == if n <= p {
            count_upto(s1, n, it)
        } else {
            count_upto(s1, n + 1, it) - row_item_part(s1[p], it)
        },
        weight_upto(s1.remove(p), n) == if n <= p {
            weight_upto(s1, n)
        } else {
            weight_upto(s1, n + 1) - abs_of(s1[p].mult as int)
        },
    decreases n,
{
    let s2 = s1.remove(p);
    if n > 0 {
        lemma_edit_remove(s1, p, n - 1, k, it);
        if n - 1 < p {
            assert(s2[n - 1] == s1[n - 1]);
            assert(mult_upto(s2, n, k, it) == mult_upto(s2, n - 1, k, it) + row_part(
                s2[n - 1],
                k,
                it,
            ));
            assert(mult_upto(s1, n, k, it) == mult_upto(s1, n - 1, k, it) + row_part(
                s1[n - 1],
                k,
                it,
            ));
            assert(count_upto(s2, n, it) == count_upto(s2, n - 1, it) + row_item_part(
                s2[n - 1],
                it,
            ));
            assert(count_upto(s1, n, it) == count_upto(s1, n - 1, it) + row_item_part(
                s1[n - 1],
                it,
            ));
        } else {
            assert(s2[n - 1] == s1[n]);
            assert(mult_upto(s2, n, k, it) == mult_upto(s2, n - 1, k, it) + row_part(
                s2[n - 1],
                k,
                it,
            ));
            assert(mult_upto(s1, n + 1, k, it) == mult_upto(s1, n, k, it) + row_part(
                s1[n as int],
                k,
                it,
            ));
            assert(count_upto(s2, n, it) == count_upto(s2, n - 1, it) + row_item_part(
                s2[n - 1],
                it,
            ));
            assert(count_upto(s1, n + 1, it) == count_upto(s1, n, it) + row_item_part(
                s1[n as int],
                it,
            ));
        }
    }
}

/// Effect of inserting one row on the co-occurrence sums: the new row
/// adds its multiplicity times the partner multiplicity for every pair it
/// participates in — the bilinear delta of the self-join.
proof fn lemma_cooc_edit_insert(s1: Seq<InputRow>, p: int, r: InputRow, n: int, a: int, b: int)
    requires
        0 <= p <= s1.len(),
        0 <= n <= s1.len() + 1,
    ensures
        ({
            let s2 = s1.insert(p, r);
            let sh = if n <= p {
                n
            } else {
                n - 1
            };
            cooc_upto(s2, n, a, b) == cooc_upto(s1, sh, a, b) + (if n > p && r.item == a && a > b {
                (r.mult as int) * row_mult(s2, r.key as int, b)
            } else {
                0
            }) + (if r.item == b && a > b {
                (r.mult as int) * mult_upto(s1, sh, r.key as int, a)
            } else {
                0
            })
        }),
    decreases n,
{
    let s2 = s1.insert(p, r);
    let sh = if n <= p {
        n
    } else {
        n - 1
    };
    // How the insertion shifts each pair's net multiplicity.
    assert forall|k2: int, b2: int|
        #[trigger] row_mult(s2, k2, b2) == row_mult(s1, k2, b2) + (if r.key == k2 && r.item == b2 {
            r.mult as int
        } else {
            0
        }) by {
        lemma_edit_insert(s1, p, r, s1.len() as int + 1, k2, b2);
    }
    if n > 0 {
        lemma_cooc_edit_insert(s1, p, r, n - 1, a, b);
        if n - 1 == p {
            assert(s2[n - 1] == r);
            assert(cooc_term(s2, r, a, b) == if r.item == a && a > b {
                (r.mult as int) * row_mult(s2, r.key as int, b)
            } else {
                0
            });
        } else {
            let e = if n - 1 < p {
                s1[n - 1]
            } else {
                s1[n - 2]
            };
            assert(s2[n - 1] == e);
            // The old row's term changes only when the inserted row is a
            // new partner of its user on item b.
            assert(cooc_term(s2, e, a, b) == cooc_term(s1, e, a, b) + (if e.item == a && a > b
                && e.key == r.key && r.item == b {
                (e.mult as int) * (r.mult as int)
            } else {
                0
            })) by {
                if e.item == a && a > b {
                    assert(row_mult(s2, e.key as int, b) == row_mult(s1, e.key as int, b) + (
                    if r.key == e.key && r.item == b {
                        r.mult as int
                    } else {
                        0
                    }));
                    assert((e.mult as int) * (row_mult(s1, e.key as int, b) + (if r.key == e.key
                        && r.item == b {
                        r.mult as int
                    } else {
                        0
                    })) == (e.mult as int) * row_mult(s1, e.key as int, b) + (e.mult as int) * (
                    if r.key == e.key && r.item == b {
                        r.mult as int
                    } else {
                        0
                    })) by (nonlinear_arith);
                }
            }
            if r.item == b && a > b {
                let shp = if n - 1 <= p {
                    n - 1
                } else {
                    n - 2
                };
                assert(mult_upto(s1, sh, r.key as int, a) == mult_upto(s1, shp, r.key as int, a)
                    + (if e.key == r.key && e.item == a {
                    e.mult as int
                } else {
                    0
                })) by {
                    assert(sh == shp + 1);
                    assert(s1[sh - 1] == e);
                }
                assert((r.mult as int) * (mult_upto(s1, shp, r.key as int, a) + (if e.key == r.key
                    && e.item == a {
                    e.mult as int
                } else {
                    0
                })) == (r.mult as int) * mult_upto(s1, shp, r.key as int, a) + (r.mult as int) * (
                if e.key == r.key && e.item == a {
                    e.mult as int
                } else {
                    0
                })) by (nonlinear_arith);
                assert((r.mult as int) * (e.mult as int) == (e.mult as int) * (r.mult as int))
                    by (nonlinear_arith);
            }
        }
    }
}

/// The bilinear co-occurrence delta of changing the pair (k, it) by `d`:
/// every canonical pair joining `it` with another item of user `k` moves
/// by `d` times that item's net multiplicity; every other pair is still.
pub open spec fn cooc_shift(s2: Seq<InputRow>, k: int, it: int, d: int, a: int, b: int) -> int {
    if a == it && a > b {
        d * row_mult(s2, k, b)
    } else if b == it && a > b {
        d * row_mult(s2, k, a)
    } else {
        0
    }
}

/// `lemma_cooc_edit_insert` at full length: the inserted row's pairs each
/// move by its multiplicity times the partner multiplicity.
proof fn lemma_cooc_insert_full(s1: Seq<InputRow>, p: int, r: InputRow, a: int, b: int)
    requires
        0 <= p <= s1.len(),
    ensures
        ({
            let s2 = s1.insert(p, r);
            cooc_count(s2, a, b) == cooc_count(s1, a, b) + (if r.item == a && a > b {
                (r.mult as int) * row_mult(s2, r.key as int, b)
            } else {
                0
            }) + (if r.item == b && a > b {
                (r.mult as int) * row_mult(s1, r.key as int, a)
            } else {
                0
            })
        }),
{
    lemma_cooc_edit_insert(s1, p, r, s1.len() as int + 1, a, b);
}

/// Contribution of a single row to the multiplicity of the pair (k, it).
pub open spec fn row_part(r: InputRow, k: int, it: int) -> int {
    if r.key == k && r.item == it {
        r.mult as int
    } else {
        0
    }
}

/// Contribution of a single row to the count of item `it`.
pub open spec fn row_item_part(r: InputRow, it: int) -> int {
    if r.item == it {
        r.mult as int
    } else {
        0
    }
}

/// Net multiplicity of (k, it) in a store, by a single scan.
pub fn mult_value(v: &Vec<InputRow>, k: u32, it: u32) -> (r: i64)
    requires
        total_weight(v@) <= MAX_TOTAL_WEIGHT,
    ensures
        r as int == row_mult(v@, k as int, it as int),
{
    let mut acc: i64 = 0;
    let mut i: usize = 0;
    while i < v.len()
        invariant
            0 <= i <= v.len(),
            total_weight(v@) <= MAX_TOTAL_WEIGHT,
            acc as int == mult_upto(v@, i as int, k as int, it as int),
        decreases v.len() - i,
    {
        proof {
            lemma_mult_upto_bound(v@, i as int + 1, k as int, it as int);
            lemma_mult_upto_bound(v@, i as int, k as int, it as int);
            lemma_weight_upto_nonneg(v@, i as int + 1);
            lemma_weight_upto_nonneg(v@, i as int);
        }
        if v[i].key == k && v[i].item == it {
            acc = acc + v[i].mult;
        }
        i = i + 1;
    }
    acc
}

/// Exact total absolute weight of a store, by a single scan.
pub fn weight_value(v: &Vec<InputRow>) -> (r: u64)
    requires
        total_weight(v@) <= MAX_TOTAL_WEIGHT,
    ensures
        r as int == total_weight(v@),
{
    let mut acc: u64 = 0;
    let mut i: usize = 0;
    while i < v.len()
        invariant
            0 <= i <= v.len(),
            total_weight(v@) <= MAX_TOTAL_WEIGHT,
            acc as int == weight_upto(v@, i as int),
        decreases v.len() - i,
    {
        proof {
            lemma_weight_upto_nonneg(v@, i as int);
            lemma_weight_upto_nonneg(v@, i as int + 1);
        }
        let m = v[i].mult;
        if m >= 0 {
            acc = acc + (m as u64);
        } else {
            acc = acc + ((-m) as u64);
        }
        i = i + 1;
    }
    acc
}

/// Merges a signed multiplicity delta for the pair (k, it) into a
/// consolidated store, keeping it sorted and free of zero rows.
pub fn add_row_delta(v: &mut Vec<InputRow>, k: u32, it: u32, d: i64)
    requires
        store_wf(old(v)@),
        total_weight(old(v)@) <= MAX_TOTAL_WEIGHT,
        abs_of(d as int) <= MAX_TOTAL_WEIGHT,
    ensures
        store_wf(final(v)@),
        forall|k2: int, it2: int|
            row_mult(final(v)@, k2, it2) == row_mult(old(v)@, k2, it2) + if k2 == k as int && it2
                == it as int {
                d as int
            } else {
                0
            },
        forall|it2: int|
            item_count(final(v)@, it2) == item_count(old(v)@, it2) + if it2 == it as int {
                d as int
            } else {
                0
            },
        forall|a: int, b: int|
            #[trigger] cooc_count(final(v)@, a, b) == cooc_count(old(v)@, a, b) + cooc_shift(
                final(v)@,
                k as int,
                it as int,
                d as int,
                a,
                b,
            ),
        total_weight(final(v)@) <= total_weight(old(v)@) + abs_of(d as int),
{
    let ghost s1 = v@;
    let target = InputRow { key: k, item: it, mult: d };
    let mut i: usize = 0;
    while i < v.len() && row_before(&v[i], &target)
        invariant
            0 <= i <= v.len(),
            v@ == s1,
            forall|j: int| 0 <= j < i ==> row_lt(#[trigger] s1[j], target),
        decreases v.len() - i,
    {
        i = i + 1;
    }
    if i < v.len() && v[i].key == k && v[i].item == it {
        let m = v[i].mult;
        proof {
            lemma_store_row_mult(s1, i as int);
            lemma_mult_upto_bound(s1, s1.len() as int, k as int, it as int);
        }
        let nm = m + d;
        if nm == 0 {
            v.remove(i);
            proof {
                assert forall|k2: int, it2: int|
                    row_mult(v@, k2, it2) == row_mult(s1, k2, it2) + (if k2 == k as int && it2
                        == it as int {
                        d as int
                    } else {
                        0
                    }) by {
                    lemma_edit_remove(s1, i as int, v@.len() as int, k2, it2);
                }
                assert forall|it2: int|
                    item_count(v@, it2) == item_count(s1, it2) + (if it2 == it as int {
                        d as int
                    } else {
                        0
                    }) by {
                    lemma_edit_remove(s1, i as int, v@.len() as int, 0, it2);
                }
                lemma_edit_remove(s1, i as int, v@.len() as int, 0, 0);
                // Undoing the removal is an insertion, so the insertion
                // delta read backwards gives the co-occurrence shift.
                assert(s1 =~= v@.insert(i as int, s1[i as int]));
                assert forall|a: int, b: int|
                    #[trigger] cooc_count(v@, a, b) == cooc_count(s1, a, b) + cooc_shift(
                    v@,
                    k as int,
                    it as int,
                    d as int,
                    a,
                    b,
                ) by {
                    lemma_cooc_insert_full(v@, i as int, s1[i as int], a, b);
                    assert(row_mult(s1, k as int, b) == row_mult(v@, k as int, b) + (if b
                        == it as int {
                        m as int
                    } else {
                        0
                    })) by {
                        lemma_edit_insert(v@, i as int, s1[i as int], s1.len() as int, k as int,
                            b);
                    }
                    if it as int == a && a > b {
                        assert((m as int) * row_mult(s1, k as int, b) + (d as int) * row_mult(
                            s1,
                            k as int,
                            b,
                        ) == 0) by (nonlinear_arith)
                            requires
                                m as int + d as int == 0,
                        {}
                    }
                    if it as int == b && a > b {
                        assert((m as int) * row_mult(v@, k as int, a) + (d as int) * row_mult(
                            v@,
                            k as int,
                            a,
                        ) == 0) by (nonlinear_arith)
                            requires
                                m as int + d as int == 0,
                        {}
                    }
                }
            }
        } else {
            let nr = InputRow { key: k, item: it, mult: nm };
            v.set(i, nr);
            proof {
                assert forall|k2: int, it2: int|
                    row_mult(v@, k2, it2) == row_mult(s1, k2, it2) + (if k2 == k as int && it2
                        == it as int {
                        d as int
                    } else {
                        0
                    }) by {
                    lemma_edit_update(s1, i as int, nr, v@.len() as int, k2, it2);
                }
                assert forall|it2: int|
                    item_count(v@, it2) == item_count(s1, it2) + (if it2 == it as int {
                        d as int
                    } else {
                        0
                    }) by {
                    lemma_edit_update(s1, i as int, nr, v@.len() as int, 0, it2);
                }
                lemma_edit_update(s1, i as int, nr, v@.len() as int, 0, 0);
                // An update is a removal followed by an insertion of the
                // new row; composing the two insertion deltas gives the
                // co-occurrence shift.
                let t = s1.remove(i as int);
                assert(s1 =~= t.insert(i as int, s1[i as int]));
                assert(v@ =~= t.insert(i as int, nr));
                assert forall|a: int, b: int|
                    #[trigger] cooc_count(v@, a, b) == cooc_count(s1, a, b) + cooc_shift(
                    v@,
                    k as int,
                    it as int,
                    d as int,
                    a,
                    b,
                ) by {
                    lemma_cooc_insert_full(t, i as int, s1[i as int], a, b);
                    lemma_cooc_insert_full(t, i as int, nr, a, b);
                    assert(row_mult(s1, k as int, b) == row_mult(t, k as int, b) + (if b
                        == it as int {
                        m as int
                    } else {
                        0
                    })) by {
                        lemma_edit_insert(t, i as int, s1[i as int], t.len() as int + 1, k as int,
                            b);
                    }
                    assert(row_mult(v@, k as int, b) == row_mult(t, k as int, b) + (if b
                        == it as int {
                        nm as int
                    } else {
                        0
                    })) by {
                        lemma_edit_insert(t, i as int, nr, t.len() as int + 1, k as int, b);
                    }
                    if it as int == a && a > b {
                        // Partner multiplicities on item b are untouched.
                        assert(row_mult(v@, k as int, b) == row_mult(s1, k as int, b));
                        assert((nm as int) * row_mult(v@, k as int, b) - (m as int) * row_mult(
                            v@,
                            k as int,
                            b,
                        ) == (d as int) * row_mult(v@, k as int, b)) by (nonlinear_arith)
                            requires
                                nm as int == m as int + d as int,
                        {}
                    }
                    if it as int == b && a > b {
                        assert(row_mult(t, k as int, a) == row_mult(v@, k as int, a)) by {
                            lemma_edit_insert(t, i as int, nr, t.len() as int + 1, k as int, a);
                        }
                        assert((nm as int) * row_mult(t, k as int, a) - (m as int) * row_mult(
                            t,
                            k as int,
                            a,
                        ) == (d as int) * row_mult(t, k as int, a)) by (nonlinear_arith)
                            requires
                                nm as int == m as int + d as int,
                        {}
                    }
                }
            }
        }
    } else {
        proof {
            assert forall|j: int| 0 <= j < s1.len() implies !(
                (#[trigger] s1[j]).key == k && s1[j].item == it) by {
                if j >= i {
                    assert(!row_lt(s1[i as int], target));
                    if j > i {
                        assert(row_lt(s1[i as int], s1[j]));
                    }
                }
            }
            lemma_row_mult_absent(s1, k as int, it as int);
        }
        if d != 0 {
            v.insert(i, target);
            proof {
                assert forall|k2: int, it2: int|
                    row_mult(v@, k2, it2) == row_mult(s1, k2, it2) + (if k2 == k as int && it2
                        == it as int {
                        d as int
                    } else {
                        0
                    }) by {
                    lemma_edit_insert(s1, i as int, target, v@.len() as int, k2, it2);
                }
                assert forall|it2: int|
                    item_count(v@, it2) == item_count(s1, it2) + (if it2 == it as int {
                        d as int
                    } else {
                        0
                    }) by {
                    lemma_edit_insert(s1, i as int, target, v@.len() as int, 0, it2);
                }
                lemma_edit_insert(s1, i as int, target, v@.len() as int, 0, 0);
                assert forall|x: int, y: int| 0 <= x < y < v@.len() implies row_lt(
                    #[trigger] v@[x],
                    #[trigger] v@[y],
                ) by {
                    if y < i {
                    } else if x < i && y == i {
                    } else if x < i && y > i {
                        assert(v@[y] == s1[y - 1]);
                    } else if x == i {
                        assert(v@[y] == s1[y - 1]);
                        assert(!row_lt(s1[i as int], target));
                        if y - 1 > i {
                            assert(row_lt(s1[i as int], s1[y - 1]));
                        }
                    } else {
                        assert(v@[x] == s1[x - 1]);
                        assert(v@[y] == s1[y - 1]);
                    }
                }
                assert forall|a: int, b: int|
                    #[trigger] cooc_count(v@, a, b) == cooc_count(s1, a, b) + cooc_shift(
                    v@,
                    k as int,
                    it as int,
                    d as int,
                    a,
                    b,
                ) by {
                    lemma_cooc_insert_full(s1, i as int, target, a, b);
                    if it as int == b && a > b {
                        assert(row_mult(s1, k as int, a) == row_mult(v@, k as int, a)) by {
                            lemma_edit_insert(s1, i as int, target, s1.len() as int + 1, k as int,
                                a);
                        }
                    }
                }
            }
        } else {
            proof {
                assert forall|a: int, b: int|
                    #[trigger] cooc_count(v@, a, b) == cooc_count(s1, a, b) + cooc_shift(
                    v@,
                    k as int,
                    it as int,
                    d as int,
                    a,
                    b,
                ) by {
                    assert((d as int) * row_mult(v@, k as int, b) == 0 && (d as int) * row_mult(
                        v@,
                        k as int,
                        a,
                    ) == 0) by (nonlinear_arith)
                        requires
                            d as int == 0,
                    {}
                }
            }
        }
    }
}

/// Consolidated stores are canonical: two sorted, zero-free stores with
/// the same multiplicity for every pair are the same sequence.
pub proof fn lemma_store_canonical(s1: Seq<InputRow>, s2: Seq<InputRow>)
    requires
        store_wf(s1),
        store_wf(s2),
        forall|k: int, it: int| #[trigger] row_mult(s1, k, it) == row_mult(s2, k, it),
    ensures
        s1 == s2,
    decreases s1.len(),
{
    if s1.len() == 0 {
        if s2.len() > 0 {
            lemma_store_row_mult(s2, 0);
            assert(row_mult(s1, s2[0].key as int, s2[0].item as int) == 0) by {
                crate::model::lemma_row_mult_absent(s1, s2[0].key as int, s2[0].item as int);
            }
        }
        assert(s1 =~= s2);
    } else {
        lemma_store_row_mult(s1, 0);
        assert(row_mult(s2, s1[0].key as int, s1[0].item as int) != 0);
        lemma_mult_upto_witness(s2, s2.len() as int, s1[0].key as int, s1[0].item as int);
        let j = choose|j: int|
            0 <= j < s2.len() && (#[trigger] s2[j]).key == s1[0].key && s2[j].item == s1[0].item;
        // The heads carry the minimal pair on both sides, so they match.
        if j > 0 {
            lemma_store_row_mult(s2, 0);
            assert(row_mult(s1, s2[0].key as int, s2[0].item as int) != 0);
            lemma_mult_upto_witness(s1, s1.len() as int, s2[0].key as int, s2[0].item as int);
            let j1 = choose|j1: int|
                0 <= j1 < s1.len() && (#[trigger] s1[j1]).key == s2[0].key && s1[j1].item
                    == s2[0].item;
            assert(row_lt(s2[0], s2[j]));
            if j1 > 0 {
                assert(row_lt(s1[0], s1[j1]));
            }
            assert(false);
        }
        lemma_store_row_mult(s2, 0);
        assert(s1[0] == s2[0]);
        let r1 = s1.remove(0);
        let r2 = s2.remove(0);
        assert forall|k: int, it: int| #[trigger] row_mult(r1, k, it) == row_mult(r2, k, it) by {
            lemma_edit_remove(s1, 0, r1.len() as int, k, it);
            lemma_edit_remove(s2, 0, r2.len() as int, k, it);
            assert(row_mult(s1, k, it) == row_mult(s2, k, it));
            assert(row_part(s1[0], k, it) == row_part(s2[0], k, it));
        }
        assert forall|x: int, y: int| 0 <= x < y < r1.len() implies row_lt(
            #[trigger] r1[x],
            #[trigger] r1[y],
        ) by {
            assert(r1[x] == s1[x + 1] && r1[y] == s1[y + 1]);
        }
        assert forall|x: int, y: int| 0 <= x < y < r2.len() implies row_lt(
            #[trigger] r2[x],
            #[trigger] r2[y],
        ) by {
            assert(r2[x] == s2[x + 1] && r2[y] == s2[y + 1]);
        }
        assert forall|x: int| 0 <= x < r1.len() implies (#[trigger] r1[x]).mult != 0 by {
            assert(r1[x] == s1[x + 1]);
        }
        assert forall|x: int| 0 <= x < r2.len() implies (#[trigger] r2[x]).mult != 0 by {
            assert(r2[x] == s2[x + 1]);
        }
        lemma_store_canonical(r1, r2);
        assert forall|x: int| 0 <= x < s1.len() implies #[trigger] s1[x] == s2[x] by {
            if x > 0 {
                assert(r1[x - 1] == s1[x] && r2[x - 1] == s2[x]);
            }
        }
        assert(s1 =~= s2);
    }
}

/// Strict (key, item) comparison on rows.
fn row_before(x: &InputRow, y: &InputRow) -> (r: bool)
    ensures
        r == row_lt(*x, *y),
{
    x.key < y.key || (x.key == y.key && x.item < y.item)
}

/// Applies a whole diff batch to a consolidated store.  The resulting
/// multiplicity of every pair is the old multiplicity plus the batch's net
/// multiplicity for that pair.
pub fn apply_rows(v: &mut Vec<InputRow>, batch: &Vec<InputRow>)
    requires
        store_wf(old(v)@),
        total_weight(old(v)@) + total_weight(batch@) <= MAX_TOTAL_WEIGHT,
    ensures
        store_wf(final(v)@),
        forall|k: int, it: int|
            row_mult(final(v)@, k, it) == row_mult(old(v)@, k, it) + row_mult(batch@, k, it),
        forall|it: int|
            item_count(final(v)@, it) == item_count(old(v)@, it) + item_count(batch@, it),
        total_weight(final(v)@) <= total_weight(old(v)@) + total_weight(batch@),
{
    let ghost s1 = old(v)@;
    let mut i: usize = 0;
    proof {
        lemma_weight_upto_nonneg(batch@, 0);
        lemma_weight_upto_nonneg(s1, s1.len() as int);
    }
    while i < batch.len()
        invariant
            0 <= i <= batch.len(),
            store_wf(v@),
            total_weight(s1) + total_weight(batch@) <= MAX_TOTAL_WEIGHT,
            total_weight(v@) <= total_weight(s1) + weight_upto(batch@, i as int),
            forall|k: int, it: int|
                row_mult(v@, k, it) == row_mult(s1, k, it) + mult_upto(batch@, i as int, k, it),
            forall|it: int|
                item_count(v@, it) == item_count(s1, it) + count_upto(batch@, i as int, it),
        decreases batch.len() - i,
    {
        let r = batch[i];
        proof {
            lemma_weight_upto_nonneg(batch@, i as int);
            lemma_weight_upto_nonneg(batch@, i + 1);
            lemma_weight_upto_nonneg(s1, s1.len() as int);
        }
        add_row_delta(v, r.key, r.item, r.mult);
        i = i + 1;
    }
    proof {
        lemma_weight_upto_nonneg(batch@, batch@.len() as int);
    }
}

} // verus!
