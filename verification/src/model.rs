//! Mathematical model of the maintained collections.
//!
//! Every input stream is a multiset of rows with signed multiplicities: an
//! interaction row pairs a user with an item, a query row pairs a query with
//! a history item.  The derived quantities — per-item counts, pairwise
//! co-occurrence counts — are defined here as sums over a row sequence, and
//! the executable operators are verified against these definitions.

use vstd::prelude::*;

verus! {

/// One signed row of an input collection: `key` is the user for the
/// interaction stream and the query id for the query stream; `mult` is the
/// signed multiplicity of the (key, item) pair.
#[derive(Clone, Copy, Debug, PartialEq, Eq, Structural)]
pub struct InputRow {
    pub key: u32,
    pub item: u32,
    pub mult: i64,
}

/// Absolute value of a mathematical integer.
pub open spec fn abs_of(m: int) -> int {
    if m < 0 {
        -m
    } else {
        m
    }
}

/// Net multiplicity of the pair (k, it) among the first `n` rows.
pub open spec fn mult_upto(s: Seq<InputRow>, n: int, k: int, it: int) -> int
    decreases n,
{
    if n <= 0 {
        0
    } else {
        mult_upto(s, n - 1, k, it) + if s[n - 1].key == k && s[n - 1].item == it {
            s[n - 1].mult as int
        } else {
            0
        }
    }
}

/// Net multiplicity of the pair (k, it) in the whole row sequence.
pub open spec fn row_mult(s: Seq<InputRow>, k: int, it: int) -> int {
    mult_upto(s, s.len() as int, k, it)
}

/// Net interaction count of `it` among the first `n` rows, over all keys.
pub open spec fn count_upto(s: Seq<InputRow>, n: int, it: int) -> int
    decreases n,
{
    if n <= 0 {
        0
    } else {
        count_upto(s, n - 1, it) + if s[n - 1].item == it {
            s[n - 1].mult as int
        } else {
            0
        }
    }
}

/// Net interaction count of item `it`: the multiplicity of the `ItemCount`
/// collection at key `it`.
pub open spec fn item_count(s: Seq<InputRow>, it: int) -> int {
    count_upto(s, s.len() as int, it)
}

/// Sum of the absolute multiplicities of the first `n` rows.
pub open spec fn weight_upto(s: Seq<InputRow>, n: int) -> int
    decreases n,
{
    if n <= 0 {
        0
    } else {
        weight_upto(s, n - 1) + abs_of(s[n - 1].mult as int)
    }
}

/// Total absolute weight of a row sequence; every derived count is bounded
/// by it, which is what makes the engine's arithmetic overflow-free.
pub open spec fn total_weight(s: Seq<InputRow>) -> int {
    weight_upto(s, s.len() as int)
}

/// Contribution of one row to the co-occurrence count of the ordered pair
/// (a, b): a row carrying item `a` contributes its multiplicity times the
/// net multiplicity of (same key, b).  The `a > b` guard canonicalizes the
/// pair ordering and excludes self-pairs.
pub open spec fn cooc_term(s: Seq<InputRow>, e: InputRow, a: int, b: int) -> int {
    if e.item == a && a > b {
        (e.mult as int) * row_mult(s, e.key as int, b)
    } else {
        0
    }
}

/// Co-occurrence count of (a, b) accumulated over the first `n` rows.
pub open spec fn cooc_upto(s: Seq<InputRow>, n: int, a: int, b: int) -> int
    decreases n,
{
    if n <= 0 {
        0
    } else {
        cooc_upto(s, n - 1, a, b) + cooc_term(s, s[n - 1], a, b)
    }
}

/// Co-occurrence count of the ordered pair (a, b): the bilinear self-join
/// of the interaction collection on the user key, counted per item pair.
pub open spec fn cooc_count(s: Seq<InputRow>, a: int, b: int) -> int {
    cooc_upto(s, s.len() as int, a, b)
}

/// Number of rows among the first `n` that mention item `it`.
pub open spec fn rows_with_item(s: Seq<InputRow>, n: int, it: int) -> int
    decreases n,
{
    if n <= 0 {
        0
    } else {
        rows_with_item(s, n - 1, it) + if s[n - 1].item == it {
            1int
        } else {
            0int
        }
    }
}

/// On a history whose surviving interactions each carry multiplicity one,
/// an item's count is the number of surviving interactions mentioning it.
pub proof fn lemma_count_is_survivors(s: Seq<InputRow>, n: int, it: int)
    requires
        0 <= n <= s.len(),
        forall|j: int| 0 <= j < s.len() ==> (#[trigger] s[j]).mult == 1,
    ensures
        count_upto(s, n, it) == rows_with_item(s, n, it),
    decreases n,
{
    if n > 0 {
        lemma_count_is_survivors(s, n - 1, it);
    }
}

/// Number of rows among the first `n` that carry item `a` for a user who
/// also holds one surviving copy of item `b` — with at most one row per
/// (user, item) pair, the number of users interacting with both.
pub open spec fn users_with_both(s: Seq<InputRow>, n: int, a: int, b: int) -> int
    decreases n,
{
    if n <= 0 {
        0
    } else {
        users_with_both(s, n - 1, a, b) + if s[n - 1].item == a && a > b && row_mult(
            s,
            s[n - 1].key as int,
            b,
        ) == 1 {
            1int
        } else {
            0int
        }
    }
}

/// On a consolidated single-copy history, the co-occurrence count of the
/// canonical pair (a, b) is the number of users interacting with both.
pub proof fn lemma_cooc_counts_users(s: Seq<InputRow>, n: int, a: int, b: int)
    requires
        store_wf(s),
        0 <= n <= s.len(),
        forall|j: int| 0 <= j < s.len() ==> (#[trigger] s[j]).mult == 1,
    ensures
        cooc_upto(s, n, a, b) == users_with_both(s, n, a, b),
    decreases n,
{
    if n > 0 {
        lemma_cooc_counts_users(s, n - 1, a, b);
        let e = s[n - 1];
        if e.item == a && a > b {
            let w = row_mult(s, e.key as int, b);
            if w != 0 {
                lemma_mult_upto_witness(s, s.len() as int, e.key as int, b);
                let j = choose|j: int|
                    0 <= j < s.len() && (#[trigger] s[j]).key == e.key as int && s[j].item
                        == b;
                lemma_store_row_mult(s, j);
                assert(w == 1);
            }
            assert(cooc_term(s, e, a, b) == w);
        }
    }
}

/// Strict (key, item) ordering of rows, the store's sort order.
pub open spec fn row_lt(x: InputRow, y: InputRow) -> bool {
    x.key < y.key || (x.key == y.key && x.item < y.item)
}

/// A consolidated store: strictly sorted by (key, item) — hence each pair
/// occurs at most once — with no zero multiplicities.
pub open spec fn store_wf(s: Seq<InputRow>) -> bool {
    &&& forall|i: int, j: int| 0 <= i < j < s.len() ==> row_lt(#[trigger] s[i], #[trigger] s[j])
    &&& forall|i: int| 0 <= i < s.len() ==> (#[trigger] s[i]).mult != 0
}

pub proof fn lemma_weight_upto_nonneg(s: Seq<InputRow>, n: int)
    requires
        0 <= n <= s.len(),
    ensures
        0 <= weight_upto(s, n),
        weight_upto(s, n) <= weight_upto(s, s.len() as int),
{
    lemma_weight_upto_nonneg_rec(s, n);
    lemma_weight_upto_mono(s, n);
}

proof fn lemma_weight_upto_nonneg_rec(s: Seq<InputRow>, n: int)
    requires
        0 <= n <= s.len(),
    ensures
        0 <= weight_upto(s, n),
    decreases n,
{
    if n > 0 {
        lemma_weight_upto_nonneg_rec(s, n - 1);
    }
}

proof fn lemma_weight_upto_mono(s: Seq<InputRow>, n: int)
    requires
        0 <= n <= s.len(),
    ensures
        weight_upto(s, n) <= weight_upto(s, s.len() as int),
    decreases s.len() - n,
{
    if n < s.len() {
        lemma_weight_upto_mono(s, n + 1);
    }
}

/// A batch whose rows all carry multiplicity ±1 weighs exactly its length.
pub proof fn lemma_unit_weight(s: Seq<InputRow>, n: int)
    requires
        0 <= n <= s.len(),
        forall|i: int| 0 <= i < s.len() ==> abs_of((#[trigger] s[i]).mult as int) == 1,
    ensures
        weight_upto(s, n) == n,
    decreases n,
{
    if n > 0 {
        lemma_unit_weight(s, n - 1);
    }
}

/// A single row's absolute multiplicity is bounded by the total weight.
pub proof fn lemma_row_abs_le_weight(s: Seq<InputRow>, j: int)
    requires
        0 <= j < s.len(),
    ensures
        abs_of(s[j].mult as int) <= total_weight(s),
{
    lemma_weight_upto_nonneg(s, j);
    lemma_weight_upto_nonneg(s, j + 1);
}

pub proof fn lemma_mult_upto_bound(s: Seq<InputRow>, n: int, k: int, it: int)
    requires
        0 <= n <= s.len(),
    ensures
        abs_of(mult_upto(s, n, k, it)) <= weight_upto(s, n),
    decreases n,
{
    if n > 0 {
        lemma_mult_upto_bound(s, n - 1, k, it);
    }
}

pub proof fn lemma_count_upto_bound(s: Seq<InputRow>, n: int, it: int)
    requires
        0 <= n <= s.len(),
    ensures
        abs_of(count_upto(s, n, it)) <= weight_upto(s, n),
    decreases n,
{
    if n > 0 {
        lemma_count_upto_bound(s, n - 1, it);
    }
}

/// A nonzero accumulated multiplicity needs a matching row.
pub proof fn lemma_mult_upto_witness(s: Seq<InputRow>, n: int, k: int, it: int)
    requires
        0 <= n <= s.len(),
        mult_upto(s, n, k, it) != 0,
    ensures
        exists|j: int| 0 <= j < n && (#[trigger] s[j]).key == k && s[j].item == it,
    decreases n,
{
    if s[n - 1].key == k && s[n - 1].item == it {
    } else {
        lemma_mult_upto_witness(s, n - 1, k, it);
    }
}

/// A nonzero accumulated count needs a matching row.
pub proof fn lemma_count_upto_witness(s: Seq<InputRow>, n: int, it: int)
    requires
        0 <= n <= s.len(),
        count_upto(s, n, it) != 0,
    ensures
        exists|j: int| 0 <= j < n && (#[trigger] s[j]).item == it,
    decreases n,
{
    if s[n - 1].item == it {
    } else {
        lemma_count_upto_witness(s, n - 1, it);
    }
}

/// In a consolidated store the accumulated multiplicity of the pair held by
/// row `j` is exactly that row's multiplicity.
pub proof fn lemma_store_row_mult(s: Seq<InputRow>, j: int)
    requires
        store_wf(s),
        0 <= j < s.len(),
    ensures
        row_mult(s, s[j].key as int, s[j].item as int) == s[j].mult as int,
{
    lemma_store_row_mult_upto(s, s.len() as int, j);
}

proof fn lemma_store_row_mult_upto(s: Seq<InputRow>, n: int, j: int)
    requires
        store_wf(s),
        0 <= j < s.len(),
        0 <= n <= s.len(),
    ensures
        mult_upto(s, n, s[j].key as int, s[j].item as int) == if j < n {
            s[j].mult as int
        } else {
            0
        },
    decreases n,
{
    if n > 0 {
        lemma_store_row_mult_upto(s, n - 1, j);
        if n - 1 != j && s[n - 1].key == s[j].key && s[n - 1].item == s[j].item {
            // Two distinct rows with one (key, item) pair contradict sortedness.
            if j < n - 1 {
                assert(row_lt(s[j], s[n - 1]));
            } else {
                assert(row_lt(s[n - 1], s[j]));
            }
        }
    }
}

/// A pair absent from a consolidated store has multiplicity zero.
pub proof fn lemma_row_mult_absent(s: Seq<InputRow>, k: int, it: int)
    requires
        forall|j: int| 0 <= j < s.len() ==> !((#[trigger] s[j]).key == k && s[j].item == it),
    ensures
        row_mult(s, k, it) == 0,
{
    if row_mult(s, k, it) != 0 {
        lemma_mult_upto_witness(s, s.len() as int, k, it);
    }
}

/// Co-occurrence counts are bounded by the squared total weight.
pub proof fn lemma_cooc_upto_bound(s: Seq<InputRow>, n: int, a: int, b: int)
    requires
        0 <= n <= s.len(),
    ensures
        abs_of(cooc_upto(s, n, a, b)) <= weight_upto(s, n) * total_weight(s),
    decreases n,
{
    lemma_weight_upto_nonneg(s, s.len() as int);
    if n > 0 {
        lemma_cooc_upto_bound(s, n - 1, a, b);
        lemma_mult_upto_bound(s, s.len() as int, s[n - 1].key as int, b);
        let w = abs_of(s[n - 1].mult as int);
        let t = total_weight(s);
        assert(abs_of(cooc_term(s, s[n - 1], a, b)) <= w * t) by (nonlinear_arith)
            requires
                abs_of(row_mult(s, s[n - 1].key as int, b)) <= t,
                0 <= t,
                cooc_term(s, s[n - 1], a, b) == if s[n - 1].item == a && a > b {
                    (s[n - 1].mult as int) * row_mult(s, s[n - 1].key as int, b)
                } else {
                    0
                },
                w == abs_of(s[n - 1].mult as int),
        {}
        assert((weight_upto(s, n - 1) + w) * t == weight_upto(s, n - 1) * t + w * t)
            by (nonlinear_arith);
    } else {
        assert(weight_upto(s, n) * total_weight(s) == 0) by (nonlinear_arith)
            requires weight_upto(s, n) == 0,
        {}
    }
}

/// No co-occurrence is counted for a non-canonical pair ordering.
pub proof fn lemma_cooc_noncanonical(s: Seq<InputRow>, n: int, a: int, b: int)
    requires
        0 <= n <= s.len(),
        a <= b,
    ensures
        cooc_upto(s, n, a, b) == 0,
    decreases n,
{
    if n > 0 {
        lemma_cooc_noncanonical(s, n - 1, a, b);
    }
}


} // verus!
