//! The rolling message buffer behind the transient log, and the durable
//! fuzzing events.

use vstd::prelude::*;

verus! {

/// What made a new path interesting: a plain exit code or a crash.
#[derive(Clone, Debug)]
pub enum NewPathKind {
    ExitCode(i32),
    Crash,
}

/// A durable event of the fuzzing loop, appended to the event log by the
/// embedding program.
#[derive(Clone, Debug)]
pub enum FuzzingEventKind {
    /// A fingerprint seen for the first time, under its fresh name.
    NewPath { kind: NewPathKind, trace_id: String },
    /// A smaller exemplar replaced a crash's sample; `delta` is the
    /// number of bytes saved.
    SizeImprovement { trace_id: String, delta: usize },
}

/// A bounded buffer of recent log lines: pushing beyond the capacity
/// drops the oldest line.
pub struct MessageBuffer {
    entries: Vec<String>,
    capacity: usize,
}

impl MessageBuffer {
    pub closed spec fn entries_seq(self) -> Seq<String> {
        self.entries@
    }

    pub closed spec fn spec_capacity(self) -> usize {
        self.capacity
    }

    #[verifier::type_invariant]
    pub open spec fn inv(self) -> bool {
        self.spec_capacity() > 0 && self.entries_seq().len() <= self.spec_capacity()
    }

    pub fn new(capacity: usize) -> (r: Self)
        requires
            capacity > 0,
        ensures
            r.entries_seq().len() == 0,
            r.spec_capacity() == capacity,
    {
        MessageBuffer { entries: Vec::new(), capacity }
    }

    /// Appends a line; at capacity the oldest line is dropped first.
    pub fn push(&mut self, message: String)
        ensures
            old(self).entries_seq().len() < old(self).spec_capacity() ==> final(self).entries_seq()
                == old(self).entries_seq().push(message),
            old(self).entries_seq().len() >= old(self).spec_capacity() ==> final(self).entries_seq() == old(self).entries_seq().drop_first().push(message),
            final(self).spec_capacity() == old(self).spec_capacity(),
    {
        proof {
            use_type_invariant(&*self);
        }
        let mut entries: Vec<String> = Vec::new();
        core::mem::swap(&mut entries, &mut self.entries);
        if entries.len() >= self.capacity {
            let dropped = entries.remove(0);
            proof {
                assert(entries@ =~= old(self).entries_seq().drop_first());
            }
        }
        entries.push(message);
        self.entries = entries;
    }

    /// The most recent `n` lines, oldest first.
    #[verifier::loop_isolation(false)]
    pub fn pull_messages(&self, n: usize) -> (r: Vec<String>)
        ensures
            r@.len() == vstd::math::min(n as int, self.entries_seq().len() as int),
            forall|i: int|
                0 <= i < r@.len() ==> #[trigger] r@[i] == self.entries_seq()[self.entries_seq().len()
                    - r@.len() + i],
    {
        let len = self.entries.len();
        let take = if n < len {
            n
        } else {
            len
        };
        let start = len - take;
        let mut out: Vec<String> = Vec::new();
        let mut i = start;
        while i < len
            invariant
                start <= i <= len == self.entries_seq().len(),
                out@.len() == i - start,
                forall|j: int|
                    0 <= j < out@.len() ==> #[trigger] out@[j] == self.entries_seq()[start + j],
            decreases len - i,
        {
            out.push(self.entries[i].clone());
            i += 1;
        }
        out
    }
}

} // verus!
