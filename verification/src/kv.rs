//! Sorted key-value maps for derived collection states.
//!
//! Each derived collection (item counts, co-occurrences, similarities,
//! recommendations) keeps its current state as a vector of (key, value)
//! entries strictly sorted by key.  Pair keys are packed into a `u64`.

use vstd::prelude::*;

verus! {

/// One entry of a derived state: a packed key and its current value.
#[derive(Clone, Copy, Debug, PartialEq, Eq, Structural)]
pub struct Kv {
    pub key: u64,
    pub val: i64,
}

/// Strictly sorted by key: each key occurs at most once.
pub open spec fn kv_sorted(s: Seq<Kv>) -> bool {
    forall|i: int, j: int| 0 <= i < j < s.len() ==> (#[trigger] s[i]).key < (#[trigger] s[j]).key
}

/// The state maps key `k` to value `v`.
pub open spec fn kv_maps(s: Seq<Kv>, k: u64, v: i64) -> bool {
    exists|j: int| 0 <= j < s.len() && #[trigger] s[j] == (Kv { key: k, val: v })
}

/// Some entry carries key `k`.
pub open spec fn kv_has_key(s: Seq<Kv>, k: u64) -> bool {
    exists|j: int| 0 <= j < s.len() && (#[trigger] s[j]).key == k
}

/// Sum of the values stored at key `k` among the first `n` entries; in a
/// sorted state this is the value at `k`, or zero when `k` is absent.
pub open spec fn val_upto(s: Seq<Kv>, n: int, k: u64) -> int
    decreases n,
{
    if n <= 0 {
        0
    } else {
        val_upto(s, n - 1, k) + if s[n - 1].key == k {
            s[n - 1].val as int
        } else {
            0
        }
    }
}

/// Value of the state at key `k`, zero when absent.
pub open spec fn val_of(s: Seq<Kv>, k: u64) -> int {
    val_upto(s, s.len() as int, k)
}

pub proof fn lemma_val_upto_witness(s: Seq<Kv>, n: int, k: u64)
    requires
        0 <= n <= s.len(),
        val_upto(s, n, k) != 0,
    ensures
        exists|j: int| 0 <= j < n && (#[trigger] s[j]).key == k,
    decreases n,
{
    if s[n - 1].key == k {
    } else {
        lemma_val_upto_witness(s, n - 1, k);
    }
}

/// In a sorted state, the value at entry `j`'s key is exactly its value.
pub proof fn lemma_kv_entry_val(s: Seq<Kv>, j: int)
    requires
        kv_sorted(s),
        0 <= j < s.len(),
    ensures
        val_of(s, s[j].key) == s[j].val as int,
{
    lemma_kv_entry_val_upto(s, s.len() as int, j);
}

proof fn lemma_kv_entry_val_upto(s: Seq<Kv>, n: int, j: int)
    requires
        kv_sorted(s),
        0 <= j < s.len(),
        0 <= n <= s.len(),
    ensures
        val_upto(s, n, s[j].key) == if j < n {
            s[j].val as int
        } else {
            0
        },
    decreases n,
{
    if n > 0 {
        lemma_kv_entry_val_upto(s, n - 1, j);
    }
}

/// A key no entry carries has value zero.
pub proof fn lemma_kv_absent_val(s: Seq<Kv>, k: u64)
    requires
        !kv_has_key(s, k),
    ensures
        val_of(s, k) == 0,
{
    if val_of(s, k) != 0 {
        lemma_val_upto_witness(s, s.len() as int, k);
    }
}

/// In a sorted state, mapping to `v` means the value at that key is `v`.
pub proof fn lemma_kv_maps_val(s: Seq<Kv>, k: u64, v: i64)
    requires
        kv_sorted(s),
        kv_maps(s, k, v),
    ensures
        val_of(s, k) == v as int,
{
    let j = choose|j: int| 0 <= j < s.len() && #[trigger] s[j] == (Kv { key: k, val: v });
    lemma_kv_entry_val(s, j);
}

/// Sorted states are canonical: two sorted states with the same mappings
/// are the same sequence.
pub proof fn lemma_kv_canonical(s1: Seq<Kv>, s2: Seq<Kv>)
    requires
        kv_sorted(s1),
        kv_sorted(s2),
        forall|k: u64, v: i64| #[trigger] kv_maps(s1, k, v) <==> kv_maps(s2, k, v),
    ensures
        s1 == s2,
    decreases s1.len(),
{
    if s1.len() == 0 {
        if s2.len() > 0 {
            assert(kv_maps(s2, s2[0].key, s2[0].val)) by {
                assert(s2[0] == (Kv { key: s2[0].key, val: s2[0].val }));
            }
            assert(kv_maps(s1, s2[0].key, s2[0].val));
            let i = choose|i: int| 0 <= i < s1.len() && #[trigger] s1[i] == (Kv {
                key: s2[0].key,
                val: s2[0].val,
            });
        }
        assert(s1 =~= s2);
    } else {
        let e = s1[0];
        assert(kv_maps(s1, e.key, e.val)) by {
            assert(s1[0] == (Kv { key: e.key, val: e.val }));
        }
        assert(kv_maps(s2, e.key, e.val));
        let j = choose|j: int| 0 <= j < s2.len() && #[trigger] s2[j] == (Kv {
            key: e.key,
            val: e.val,
        });
        if j > 0 {
            // The head of s2 would carry a key below every key of s1.
            assert(s2[0].key < e.key);
            assert(kv_maps(s2, s2[0].key, s2[0].val)) by {
                assert(s2[0] == (Kv { key: s2[0].key, val: s2[0].val }));
            }
            assert(kv_maps(s1, s2[0].key, s2[0].val));
            let i = choose|i: int| 0 <= i < s1.len() && #[trigger] s1[i] == (Kv {
                key: s2[0].key,
                val: s2[0].val,
            });
            if i > 0 {
                assert(s1[0].key < s1[i].key);
            }
            assert(false);
        }
        assert(s2[0] == e);
        let t1 = s1.remove(0);
        let t2 = s2.remove(0);
        assert forall|k: u64, v: i64| #[trigger] kv_maps(t1, k, v) <==> kv_maps(t2, k, v) by {
            if kv_maps(t1, k, v) {
                let x = choose|x: int| 0 <= x < t1.len() && #[trigger] t1[x] == (Kv {
                    key: k,
                    val: v,
                });
                assert(s1[x + 1] == t1[x]);
                assert(kv_maps(s1, k, v));
                assert(kv_maps(s2, k, v));
                let y = choose|y: int| 0 <= y < s2.len() && #[trigger] s2[y] == (Kv {
                    key: k,
                    val: v,
                });
                // The shared head's key is below every tail key.
                assert(s1[0].key < s1[x + 1].key);
                if y == 0 {
                    assert(false);
                }
                assert(t2[y - 1] == s2[y]);
                assert(kv_maps(t2, k, v));
            }
            if kv_maps(t2, k, v) {
                let x = choose|x: int| 0 <= x < t2.len() && #[trigger] t2[x] == (Kv {
                    key: k,
                    val: v,
                });
                assert(s2[x + 1] == t2[x]);
                assert(kv_maps(s2, k, v));
                assert(kv_maps(s1, k, v));
                let y = choose|y: int| 0 <= y < s1.len() && #[trigger] s1[y] == (Kv {
                    key: k,
                    val: v,
                });
                assert(s2[0].key < s2[x + 1].key);
                if y == 0 {
                    assert(false);
                }
                assert(t1[y - 1] == s1[y]);
                assert(kv_maps(t1, k, v));
            }
        }
        assert forall|x: int, y: int| 0 <= x < y < t1.len() implies (#[trigger] t1[x]).key < (
        #[trigger] t1[y]).key by {
            assert(t1[x] == s1[x + 1] && t1[y] == s1[y + 1]);
        }
        assert forall|x: int, y: int| 0 <= x < y < t2.len() implies (#[trigger] t2[x]).key < (
        #[trigger] t2[y]).key by {
            assert(t2[x] == s2[x + 1] && t2[y] == s2[y + 1]);
        }
        lemma_kv_canonical(t1, t2);
        assert forall|x: int| 0 <= x < s1.len() implies #[trigger] s1[x] == s2[x] by {
            if x > 0 {
                assert(t1[x - 1] == s1[x] && t2[x - 1] == s2[x]);
            }
        }
        assert(s1 =~= s2);
    }
}

/// Looks up the value at key `k`, returning zero when absent.
pub fn kv_get(s: &Vec<Kv>, k: u64) -> (r: i64)
    requires
        kv_sorted(s@),
    ensures
        r as int == val_of(s@, k),
        kv_has_key(s@, k) ==> kv_maps(s@, k, r),
{
    let mut i: usize = 0;
    while i < s.len()
        invariant
            0 <= i <= s.len(),
            kv_sorted(s@),
            forall|j: int| 0 <= j < i ==> (#[trigger] s@[j]).key != k,
        decreases s.len() - i,
    {
        if s[i].key == k {
            proof {
                lemma_kv_entry_val(s@, i as int);
            }
            return s[i].val;
        }
        i = i + 1;
    }
    proof {
        lemma_kv_absent_val(s@, k);
    }
    0
}

/// Whether the state has an entry at key `k`.
pub fn kv_has(s: &Vec<Kv>, k: u64) -> (r: bool)
    ensures
        r == kv_has_key(s@, k),
{
    let mut i: usize = 0;
    while i < s.len()
        invariant
            0 <= i <= s.len(),
            forall|j: int| 0 <= j < i ==> (#[trigger] s@[j]).key != k,
        decreases s.len() - i,
    {
        if s[i].key == k {
            return true;
        }
        i = i + 1;
    }
    false
}

/// Inserts a fresh key into a sorted state.
pub fn kv_insert_new(s: &mut Vec<Kv>, k: u64, v: i64)
    requires
        kv_sorted(old(s)@),
        !kv_has_key(old(s)@, k),
    ensures
        kv_sorted(final(s)@),
        forall|k2: u64, v2: i64|
            kv_maps(final(s)@, k2, v2) <==> (kv_maps(old(s)@, k2, v2) || (k2 == k && v2 == v)),
        forall|k2: u64|
            kv_has_key(final(s)@, k2) <==> (kv_has_key(old(s)@, k2) || k2 == k),
        forall|k2: u64|
            val_of(final(s)@, k2) == val_of(old(s)@, k2) + if k2 == k {
                v as int
            } else {
                0
            },
{
    let ghost s1 = s@;
    let mut i: usize = 0;
    while i < s.len() && s[i].key < k
        invariant
            0 <= i <= s.len(),
            s@ == s1,
            forall|j: int| 0 <= j < i ==> (#[trigger] s1[j]).key < k,
        decreases s.len() - i,
    {
        i = i + 1;
    }
    let e = Kv { key: k, val: v };
    s.insert(i, e);
    proof {
        let s2 = s@;
        assert forall|x: int| 0 <= x < s2.len() implies #[trigger] s2[x] == if x < i {
            s1[x]
        } else if x == i {
            e
        } else {
            s1[x - 1]
        } by {}
        assert forall|x: int, y: int| 0 <= x < y < s2.len() implies (#[trigger] s2[x]).key < (
        #[trigger] s2[y]).key by {
            if y == i {
            } else if x == i {
                assert(s2[y] == s1[y - 1]);
                assert(s1[y - 1].key != k);
                assert(!(s1[y - 1].key < k));
            }
        }
        assert(s2[i as int] == e);
        assert forall|k2: u64, v2: i64|
            kv_maps(s2, k2, v2) <==> (kv_maps(s1, k2, v2) || (k2 == k && v2 == v)) by {
            if k2 == k && v2 == v {
                assert(s2[i as int] == (Kv { key: k2, val: v2 }));
            }
            if kv_maps(s1, k2, v2) {
                let j = choose|j: int| 0 <= j < s1.len() && #[trigger] s1[j] == (Kv {
                    key: k2,
                    val: v2,
                });
                if j < i {
                    assert(s2[j] == s1[j]);
                } else {
                    assert(s2[j + 1] == s1[j]);
                }
            }
            if kv_maps(s2, k2, v2) {
                let j = choose|j: int| 0 <= j < s2.len() && #[trigger] s2[j] == (Kv {
                    key: k2,
                    val: v2,
                });
                if j < i {
                    assert(s1[j] == s2[j]);
                } else if j > i {
                    assert(s1[j - 1] == s2[j]);
                }
            }
        }
        assert forall|k2: u64|
            kv_has_key(s2, k2) <==> (kv_has_key(s1, k2) || k2 == k) by {
            if k2 == k {
                assert((s2[i as int]).key == k2);
            }
            if kv_has_key(s1, k2) {
                let j = choose|j: int| 0 <= j < s1.len() && (#[trigger] s1[j]).key == k2;
                if j < i {
                    assert(s2[j].key == k2);
                } else {
                    assert(s2[j + 1].key == k2);
                }
            }
            if kv_has_key(s2, k2) {
                let j = choose|j: int| 0 <= j < s2.len() && (#[trigger] s2[j]).key == k2;
                if j < i {
                    assert(s1[j].key == k2);
                } else if j > i {
                    assert(s1[j - 1].key == k2);
                }
            }
        }
        assert forall|k2: u64|
            val_of(s2, k2) == val_of(s1, k2) + (if k2 == k {
                v as int
            } else {
                0
            }) by {
            lemma_kv_insert_val(s1, i as int, e, s2.len() as int, k2);
        }
    }
}

proof fn lemma_kv_insert_val(s1: Seq<Kv>, p: int, e: Kv, n: int, k: u64)
    requires
        0 <= p <= s1.len(),
        0 <= n <= s1.len() + 1,
    ensures
        val_upto(s1.insert(p, e), n, k) == if n <= p {
            val_upto(s1, n, k)
        } else {
            val_upto(s1, n - 1, k) + if e.key == k {
                e.val as int
            } else {
                0
            }
        },
    decreases n,
{
    let s2 = s1.insert(p, e);
    if n > 0 {
        lemma_kv_insert_val(s1, p, e, n - 1, k);
        if n - 1 < p {
            assert(s2[n - 1] == s1[n - 1]);
        } else if n - 1 == p {
            assert(s2[n - 1] == e);
        } else {
            assert(s2[n - 1] == s1[n - 2]);
        }
    }
}

/// Sets the value at key `k`: updates or inserts the entry, and removes
/// it when the new value is zero — absent and zero-valued are one state.
pub fn kv_set(s: &mut Vec<Kv>, k: u64, v: i64)
    requires
        kv_sorted(old(s)@),
    ensures
        kv_sorted(final(s)@),
        forall|k2: u64, v2: i64|
            #[trigger] kv_maps(final(s)@, k2, v2) <==> ((k2 != k && kv_maps(old(s)@, k2, v2)) || (
            k2 == k && v2 == v && v != 0)),
{
    let ghost s1 = s@;
    let mut i: usize = 0;
    while i < s.len() && s[i].key < k
        invariant
            0 <= i <= s.len(),
            s@ == s1,
            forall|j: int| 0 <= j < i ==> (#[trigger] s1[j]).key < k,
        decreases s.len() - i,
    {
        i = i + 1;
    }
    if i < s.len() && s[i].key == k {
        if v == 0 {
            s.remove(i);
            proof {
                let s2 = s@;
                assert forall|k2: u64, v2: i64|
                    #[trigger] kv_maps(s2, k2, v2) <==> ((k2 != k && kv_maps(s1, k2, v2)) || (k2
                        == k && v2 == v && v != 0)) by {
                    if kv_maps(s2, k2, v2) {
                        let x = choose|x: int|
                            0 <= x < s2.len() && #[trigger] s2[x] == (Kv { key: k2, val: v2 });
                        if x < i {
                            assert(s1[x] == s2[x]);
                        } else {
                            assert(s1[x + 1] == s2[x]);
                        }
                        assert(kv_maps(s1, k2, v2));
                        if k2 == k {
                            // The removed position held the only entry
                            // with this key.
                            let y = choose|y: int|
                                0 <= y < s1.len() && #[trigger] s1[y] == (Kv { key: k2, val: v2 });
                            if y < i {
                                assert(s1[y].key < k);
                            } else if y > i {
                                assert(s1[i as int].key < s1[y].key);
                            }
                            assert(false);
                        }
                    }
                    if k2 != k && kv_maps(s1, k2, v2) {
                        let x = choose|x: int|
                            0 <= x < s1.len() && #[trigger] s1[x] == (Kv { key: k2, val: v2 });
                        if x < i {
                            assert(s2[x] == s1[x]);
                        } else {
                            assert(x != i);
                            assert(s2[x - 1] == s1[x]);
                        }
                        assert(kv_maps(s2, k2, v2));
                    }
                }
            }
        } else {
            let e = Kv { key: k, val: v };
            s.set(i, e);
            proof {
                let s2 = s@;
                assert forall|k2: u64, v2: i64|
                    #[trigger] kv_maps(s2, k2, v2) <==> ((k2 != k && kv_maps(s1, k2, v2)) || (k2
                        == k && v2 == v && v != 0)) by {
                    if kv_maps(s2, k2, v2) {
                        let x = choose|x: int|
                            0 <= x < s2.len() && #[trigger] s2[x] == (Kv { key: k2, val: v2 });
                        if x != i {
                            assert(s1[x] == s2[x]);
                            if k2 == k {
                                if x < i {
                                    assert(s1[x].key < k);
                                } else {
                                    assert(s2[i as int].key < s2[x].key);
                                }
                                assert(false);
                            }
                        }
                    }
                    if k2 != k && kv_maps(s1, k2, v2) {
                        let x = choose|x: int|
                            0 <= x < s1.len() && #[trigger] s1[x] == (Kv { key: k2, val: v2 });
                        assert(x != i);
                        assert(s2[x] == s1[x]);
                        assert(kv_maps(s2, k2, v2));
                    }
                    if k2 == k && v2 == v {
                        assert(s2[i as int] == (Kv { key: k2, val: v2 }));
                    }
                }
            }
        }
    } else {
        proof {
            assert forall|j: int| 0 <= j < s1.len() implies (#[trigger] s1[j]).key != k by {
                if j >= i {
                    assert(!(s1[i as int].key < k));
                    if j > i {
                        assert(s1[i as int].key < s1[j].key);
                    }
                }
            }
        }
        if v != 0 {
            kv_insert_new(s, k, v);
            proof {
                assert forall|k2: u64, v2: i64|
                    #[trigger] kv_maps(s@, k2, v2) <==> ((k2 != k && kv_maps(s1, k2, v2)) || (k2
                        == k && v2 == v && v != 0)) by {
                    if k2 == k && kv_maps(s1, k2, v2) {
                        let x = choose|x: int|
                            0 <= x < s1.len() && #[trigger] s1[x] == (Kv { key: k2, val: v2 });
                        assert(false);
                    }
                }
            }
        } else {
            proof {
                assert forall|k2: u64, v2: i64|
                    #[trigger] kv_maps(s@, k2, v2) <==> ((k2 != k && kv_maps(s1, k2, v2)) || (k2
                        == k && v2 == v && v != 0)) by {
                    if k2 == k && kv_maps(s1, k2, v2) {
                        let x = choose|x: int|
                            0 <= x < s1.len() && #[trigger] s1[x] == (Kv { key: k2, val: v2 });
                        assert(false);
                    }
                }
            }
        }
    }
}

/// Adds a signed delta to the value at key `k`, creating the entry when it
/// is absent.  An entry whose value reaches zero is kept: presence in an
/// accumulator mirrors that the key was touched, as a per-key reduction
/// over a consolidated multiset sees it.
pub fn kv_add(s: &mut Vec<Kv>, k: u64, d: i64)
    requires
        kv_sorted(old(s)@),
        val_of(old(s)@, k) + d as int <= i64::MAX,
        i64::MIN <= val_of(old(s)@, k) + d as int,
    ensures
        kv_sorted(final(s)@),
        forall|k2: u64|
            val_of(final(s)@, k2) == val_of(old(s)@, k2) + if k2 == k {
                d as int
            } else {
                0
            },
        forall|k2: u64|
            kv_has_key(final(s)@, k2) <==> (kv_has_key(old(s)@, k2) || k2 == k),
{
    let ghost s1 = s@;
    let mut i: usize = 0;
    while i < s.len() && s[i].key < k
        invariant
            0 <= i <= s.len(),
            s@ == s1,
            forall|j: int| 0 <= j < i ==> (#[trigger] s1[j]).key < k,
        decreases s.len() - i,
    {
        i = i + 1;
    }
    if i < s.len() && s[i].key == k {
        proof {
            lemma_kv_entry_val(s1, i as int);
        }
        let nv = s[i].val + d;
        let e = Kv { key: k, val: nv };
        s.set(i, e);
        proof {
            let s2 = s@;
            assert forall|k2: u64|
                val_of(s2, k2) == val_of(s1, k2) + (if k2 == k {
                    d as int
                } else {
                    0
                }) by {
                lemma_kv_update_val(s1, i as int, e, s2.len() as int, k2);
            }
            assert forall|k2: u64|
                kv_has_key(s2, k2) <==> (kv_has_key(s1, k2) || k2 == k) by {
                if kv_has_key(s1, k2) {
                    let j = choose|j: int| 0 <= j < s1.len() && (#[trigger] s1[j]).key == k2;
                    assert(s2[j].key == k2);
                }
                if kv_has_key(s2, k2) {
                    let j = choose|j: int| 0 <= j < s2.len() && (#[trigger] s2[j]).key == k2;
                    assert(s1[j].key == s2[j].key);
                }
            }
        }
    } else {
        proof {
            assert forall|j: int| 0 <= j < s1.len() implies (#[trigger] s1[j]).key != k by {
                if j >= i {
                    assert(!(s1[i as int].key < k));
                    if j > i {
                        assert(s1[i as int].key < s1[j].key);
                    }
                }
            }
            lemma_kv_absent_val(s1, k);
        }
        kv_insert_new(s, k, d);
    }
}

proof fn lemma_kv_update_val(s1: Seq<Kv>, p: int, e: Kv, n: int, k: u64)
    requires
        0 <= p < s1.len(),
        0 <= n <= s1.len(),
        e.key == s1[p].key,
    ensures
        val_upto(s1.update(p, e), n, k) == val_upto(s1, n, k) + if p < n && e.key == k {
            e.val - s1[p].val
        } else {
            0
        },
    decreases n,
{
    if n > 0 {
        lemma_kv_update_val(s1, p, e, n - 1, k);
    }
}

} // verus!
