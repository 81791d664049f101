//! Versioned diff store behind each derived collection.
//!
//! The store keeps the diff batches a collection produced, one batch per
//! logical time, in time order.  The diff collector asks for exactly the
//! rows of one time; once it has consumed a time it promises never to ask
//! for it (or anything earlier) again, so the store may then discard every
//! batch at or before that frontier — the compaction that keeps a
//! long-running process bounded.

use vstd::prelude::*;

use crate::batch::{rows_sorted, BatchRow};

verus! {

/// The diffs one collection produced at one logical time.
pub struct DiffBatch {
    pub time: u64,
    pub rows: Vec<BatchRow>,
}

/// Time-ordered arena of diff batches for one collection.
pub struct DiffStore {
    batches: Vec<DiffBatch>,
}

/// Batch times are strictly increasing: at most one batch per time.
pub open spec fn times_sorted(s: Seq<DiffBatch>) -> bool {
    forall|i: int, j: int| 0 <= i < j < s.len() ==> (#[trigger] s[i]).time < (#[trigger] s[j]).time
}

/// Every stored batch lies strictly before time `t`.
pub open spec fn all_before(s: Seq<DiffBatch>, t: u64) -> bool {
    forall|i: int| 0 <= i < s.len() ==> (#[trigger] s[i]).time < t
}

/// The rows recorded at time `t` among the first `n` batches.
pub open spec fn rows_at_upto(s: Seq<DiffBatch>, n: int, t: u64) -> Seq<BatchRow>
    decreases n,
{
    if n <= 0 {
        Seq::empty()
    } else if s[n - 1].time == t {
        s[n - 1].rows@
    } else {
        rows_at_upto(s, n - 1, t)
    }
}

/// The rows the store records for time `t` — what changed in that batch,
/// not the accumulated state.
pub open spec fn rows_at(s: Seq<DiffBatch>, t: u64) -> Seq<BatchRow> {
    rows_at_upto(s, s.len() as int, t)
}

impl DiffStore {
    pub closed spec fn view_batches(&self) -> Seq<DiffBatch> {
        self.batches@
    }

    /// Well-formed: time-ordered, each batch's rows sorted by (key, value).
    pub open spec fn wf(&self) -> bool {
        &&& times_sorted(self.view_batches())
        &&& forall|i: int|
            0 <= i < self.view_batches().len() ==> rows_sorted(
                (#[trigger] self.view_batches()[i]).rows@,
            )
    }

    pub fn new() -> (r: DiffStore)
        ensures
            r.wf(),
            r.view_batches().len() == 0,
    {
        DiffStore { batches: Vec::new() }
    }

    /// Records the diff batch a collection produced at time `t`.  Times
    /// only ever advance, so `t` must lie beyond every recorded batch.
    pub fn append(&mut self, t: u64, rows: Vec<BatchRow>)
        requires
            old(self).wf(),
            all_before(old(self).view_batches(), t),
            rows_sorted(rows@),
        ensures
            final(self).wf(),
            final(self).view_batches() == old(self).view_batches().push(
                DiffBatch { time: t, rows },
            ),
            rows_at(final(self).view_batches(), t) == rows@,
            forall|t2: u64|
                t2 != t ==> rows_at(final(self).view_batches(), t2) == rows_at(
                    old(self).view_batches(),
                    t2,
                ),
            forall|t2: u64| t < t2 ==> all_before(final(self).view_batches(), t2),
    {
        let ghost s1 = self.batches@;
        let b = DiffBatch { time: t, rows };
        let ghost bg = DiffBatch { time: t, rows: b.rows };
        self.batches.push(b);
        proof {
            let s2 = self.batches@;
            assert forall|t2: u64|
                t2 != t implies rows_at(s2, t2) == rows_at(s1, t2) by {
                lemma_rows_at_push(s1, bg, t2);
            }
            assert(rows_at(s2, t) == s2[s2.len() - 1].rows@);
        }
    }

    /// Returns exactly the rows recorded at time `t` — the diff collector's
    /// read path.
    pub fn collect_at(&self, t: u64) -> (r: Vec<BatchRow>)
        requires
            self.wf(),
        ensures
            r@ == rows_at(self.view_batches(), t),
            rows_sorted(r@),
    {
        let mut i: usize = self.batches.len();
        while i > 0
            invariant
                0 <= i <= self.batches@.len(),
                self.wf(),
                rows_at(self.batches@, t) == rows_at_upto(self.batches@, i as int, t),
            decreases i,
        {
            i = i - 1;
            if self.batches[i].time == t {
                let src = &self.batches[i].rows;
                let mut out: Vec<BatchRow> = Vec::new();
                let mut j: usize = 0;
                while j < src.len()
                    invariant
                        0 <= j <= src@.len(),
                        out@ == src@.subrange(0, j as int),
                    decreases src.len() - j,
                {
                    out.push(src[j]);
                    j = j + 1;
                }
                proof {
                    assert(out@ == src@);
                }
                return out;
            }
        }
        Vec::new()
    }

    /// Compacts the store after the collector consumed time `t`: every
    /// batch at or before `t` is discarded.  Queries strictly after `t`
    /// are unaffected — the caller has promised never to ask at or below
    /// `t` again.
    pub fn advance_by(&mut self, t: u64)
        requires
            old(self).wf(),
        ensures
            final(self).wf(),
            forall|t2: u64|
                t < t2 ==> rows_at(final(self).view_batches(), t2) == rows_at(
                    old(self).view_batches(),
                    t2,
                ),
            forall|i: int|
                0 <= i < final(self).view_batches().len()
                    ==> (#[trigger] final(self).view_batches()[i]).time > t,
            forall|t2: u64|
                all_before(old(self).view_batches(), t2) ==> all_before(
                    final(self).view_batches(),
                    t2,
                ),
            (forall|i: int|
                0 <= i < old(self).view_batches().len() ==> (#[trigger] old(
                    self,
                ).view_batches()[i]).time <= t) ==> final(self).view_batches().len() == 0,
    {
        let ghost s0 = self.batches@;
        while self.batches.len() > 0 && first_time_at_most(&self.batches, t)
            invariant
                self.wf(),
                forall|t2: u64| t < t2 ==> rows_at(self.batches@, t2) == rows_at(s0, t2),
                forall|t2: u64| all_before(s0, t2) ==> all_before(self.batches@, t2),
                self.batches@.len() <= s0.len(),
                self.batches@ =~= s0.subrange(
                    s0.len() - self.batches@.len(),
                    s0.len() as int,
                ),
            decreases self.batches@.len(),
        {
            let ghost s1 = self.batches@;
            self.batches.remove(0);
            proof {
                let s2 = self.batches@;
                assert(s2 =~= s1.remove(0));
                assert forall|t2: u64| t < t2 implies rows_at(s2, t2) == rows_at(s1, t2) by {
                    lemma_rows_at_remove_front(s1, t2);
                }
                assert(s2.len() < s1.len() && s1.len() <= s0.len());
                assert forall|x: int| 0 <= x < s2.len() implies s2[x] == s0.subrange(
                    s0.len() - s2.len(),
                    s0.len() as int,
                )[x] by {
                    assert(s2[x] == s1[x + 1]);
                    assert(s1[x + 1] == s0.subrange(s0.len() - s1.len(), s0.len() as int)[x + 1]);
                }
                assert(s2 =~= s0.subrange(s0.len() - s2.len(), s0.len() as int));
            }
        }
        proof {
            if forall|i: int| 0 <= i < s0.len() ==> (#[trigger] s0[i]).time <= t {
                if self.batches@.len() > 0 {
                    assert(self.batches@[0] == s0[s0.len() - self.batches@.len()]);
                }
            }
        }
        proof {
            assert forall|i: int|
                0 <= i < self.batches@.len() implies (#[trigger] self.batches@[i]).time > t by {
                if i > 0 {
                    assert(self.batches@[0].time < self.batches@[i].time);
                }
            }
        }
    }
}

/// Whether the oldest stored batch lies at or before time `t`.
fn first_time_at_most(v: &Vec<DiffBatch>, t: u64) -> (r: bool)
    requires
        v@.len() > 0,
    ensures
        r == (v@[0].time <= t),
{
    v[0].time <= t
}

proof fn lemma_rows_at_push(s: Seq<DiffBatch>, b: DiffBatch, t: u64)
    requires
        b.time != t,
    ensures
        rows_at(s.push(b), t) == rows_at(s, t),
{
    let s2 = s.push(b);
    assert(rows_at_upto(s2, s2.len() as int, t) == rows_at_upto(s2, s2.len() as int - 1, t));
    lemma_rows_at_upto_prefix(s, b, s.len() as int, t);
}

proof fn lemma_rows_at_upto_prefix(s: Seq<DiffBatch>, b: DiffBatch, n: int, t: u64)
    requires
        0 <= n <= s.len(),
    ensures
        rows_at_upto(s.push(b), n, t) == rows_at_upto(s, n, t),
    decreases n,
{
    if n > 0 {
        lemma_rows_at_upto_prefix(s, b, n - 1, t);
        assert(s.push(b)[n - 1] == s[n - 1]);
    }
}

proof fn lemma_rows_at_remove_front(s: Seq<DiffBatch>, t: u64)
    requires
        s.len() > 0,
        s[0].time != t,
    ensures
        rows_at(s.remove(0), t) == rows_at(s, t),
{
    lemma_rows_at_remove_front_upto(s, s.len() as int - 1, t);
}

proof fn lemma_rows_at_remove_front_upto(s: Seq<DiffBatch>, n: int, t: u64)
    requires
        s.len() > 0,
        s[0].time != t,
        0 <= n <= s.len() - 1,
    ensures
        rows_at_upto(s.remove(0), n, t) == rows_at_upto(s, n + 1, t),
    decreases n,
{
    let s2 = s.remove(0);
    if n == 0 {
        assert(rows_at_upto(s2, 0, t) == Seq::<BatchRow>::empty());
        assert(rows_at_upto(s, 1, t) == rows_at_upto(s, 0, t));
    } else {
        lemma_rows_at_remove_front_upto(s, n - 1, t);
        assert(s2[n - 1] == s[n]);
    }
}

} // verus!
