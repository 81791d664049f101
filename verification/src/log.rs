//! Append-only input log with a logical clock.
//!
//! Insertions and removals accumulate as pending signed diffs; they become
//! visible to the dataflow only when flushed, all at once, at the time
//! established by the most recent clock advance.

use vstd::prelude::*;

use crate::errors::EngineError;
use crate::model::InputRow;

verus! {

/// One input stream: the interaction log, or the query log.
pub struct InputLog {
    time: u64,
    pending: Vec<InputRow>,
}

impl InputLog {
    /// The log's current logical time.
    pub closed spec fn current_time(&self) -> u64 {
        self.time
    }

    /// The diffs appended since the last flush, oldest first.
    pub closed spec fn pending_rows(&self) -> Seq<InputRow> {
        self.pending@
    }

    pub fn new() -> (r: InputLog)
        ensures
            r.current_time() == 0,
            r.pending_rows().len() == 0,
    {
        InputLog { time: 0, pending: Vec::new() }
    }

    /// Reads the current logical time.
    pub fn time(&self) -> (r: u64)
        ensures
            r == self.current_time(),
    {
        self.time
    }

    /// Appends a +1 diff for (key, item) at the pending time.
    pub fn insert(&mut self, key: u32, item: u32)
        ensures
            final(self).current_time() == old(self).current_time(),
            final(self).pending_rows() == old(self).pending_rows().push(
                InputRow { key, item, mult: 1i64 },
            ),
    {
        self.pending.push(InputRow { key, item, mult: 1 });
    }

    /// Appends a −1 diff for (key, item) at the pending time.
    pub fn remove(&mut self, key: u32, item: u32)
        ensures
            final(self).current_time() == old(self).current_time(),
            final(self).pending_rows() == old(self).pending_rows().push(
                InputRow { key, item, mult: -1i64 },
            ),
    {
        self.pending.push(InputRow { key, item, mult: -1 });
    }

    /// Advances the logical clock to `t`, which must be strictly beyond
    /// the current time; otherwise nothing changes and the out-of-order
    /// condition is reported.
    pub fn advance_to(&mut self, t: u64) -> (r: Result<(), EngineError>)
        ensures
            r is Ok <==> t > old(self).current_time(),
            r is Ok ==> final(self).current_time() == t,
            r is Err ==> final(self).current_time() == old(self).current_time() && r
                == Err::<(), EngineError>(EngineError::OutOfOrderTime),
            final(self).pending_rows() == old(self).pending_rows(),
    {
        if t > self.time {
            self.time = t;
            Ok(())
        } else {
            Err(EngineError::OutOfOrderTime)
        }
    }

    /// Makes the pending diffs visible as one atomic batch at the current
    /// time: the caller receives them in order and the log forgets them.
    pub fn flush(&mut self) -> (r: Vec<InputRow>)
        ensures
            r@ == old(self).pending_rows(),
            final(self).pending_rows().len() == 0,
            final(self).current_time() == old(self).current_time(),
    {
        let mut out: Vec<InputRow> = Vec::new();
        let ghost p = self.pending@;
        let mut i: usize = 0;
        while i < self.pending.len()
            invariant
                0 <= i <= p.len(),
                self.pending@ == p,
                out@ == p.subrange(0, i as int),
            decreases p.len() - i,
        {
            out.push(self.pending[i]);
            i = i + 1;
        }
        proof {
            assert(out@ == p);
        }
        self.pending = Vec::new();
        out
    }
}

} // verus!
