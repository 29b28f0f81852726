//! Execution outcomes and the tracer's bookkeeping.
//!
//! A run of the target yields a `RunTrace`: how the child terminated plus a
//! map from function offset to a saturating hit bucket.  The embedding
//! program drives the child under a debugger; the decisions taken on each
//! debugger event live here, in `TraceBuilder`.

use vstd::prelude::*;

verus! {

/// Saturating per-function hit counter: `Once -> Twice -> Many -> Many`.
#[derive(Clone, Copy, Debug, Default, Hash, PartialEq, Eq, Structural)]
pub enum Hits {
    #[default]
    Once,
    Twice,
    Many,
}

impl Hits {
    pub open spec fn inc_spec(self) -> Hits {
        match self {
            Hits::Once => Hits::Twice,
            Hits::Twice => Hits::Many,
            Hits::Many => Hits::Many,
        }
    }

    /// The bucket transition on a breakpoint hit: `inc(Once) == Twice`,
    /// `inc(Twice) == Many`, `inc(Many) == Many`.
    pub fn inc(self) -> (r: Self)
        ensures
            r == self.inc_spec(),
    {
        match self {
            Hits::Once => Hits::Twice,
            Hits::Twice => Hits::Many,
            Hits::Many => Hits::Many,
        }
    }
}

/// How the child terminated.
#[derive(Clone, Copy, Debug, Hash, PartialEq, Eq, Structural)]
pub enum ExecResult {
    Code(i32),
    Signal,
}

/// The function-entry hit map of one run, keyed by ELF-relative offset.
/// Kept as a vector of pairs sorted strictly by offset, so equal maps have
/// equal representations.
#[derive(Debug)]
pub struct Trajectory {
    entries: Vec<(usize, Hits)>,
}

impl Clone for Trajectory {
    fn clone(&self) -> (r: Self)
        ensures
            r.entries_seq() == self.entries_seq(),
    {
        let n = self.entries.len();
        let mut entries: Vec<(usize, Hits)> = Vec::new();
        for i in 0..n
            invariant
                n == self.entries@.len(),
                entries@ =~= self.entries@.take(i as int),
        {
            entries.push(self.entries[i]);
            proof {
                assert(entries@ =~= self.entries@.take(i + 1));
            }
        }
        proof {
            assert(self.entries@.take(n as int) =~= self.entries@);
        }
        Trajectory { entries }
    }
}

impl Trajectory {
    pub closed spec fn entries_seq(self) -> Seq<(usize, Hits)> {
        self.entries@
    }

    /// Keys strictly increase.
    pub open spec fn wf(self) -> bool {
        forall|i: int, j: int|
            0 <= i < j < self.entries_seq().len() ==> (#[trigger] self.entries_seq()[i]).0 < (
            #[trigger] self.entries_seq()[j]).0
    }

    pub open spec fn spec_contains(self, offset: usize) -> bool {
        exists|i: int|
            0 <= i < self.entries_seq().len() && (#[trigger] self.entries_seq()[i]).0 == offset
    }

    pub open spec fn spec_value(self, offset: usize) -> Hits {
        self.entries_seq()[choose|i: int|
            0 <= i < self.entries_seq().len() && (#[trigger] self.entries_seq()[i]).0 == offset].1
    }

    pub open spec fn spec_len(self) -> nat {
        self.entries_seq().len()
    }

    pub fn new() -> (r: Self)
        ensures
            r.spec_len() == 0,
            r.wf(),
    {
        Trajectory { entries: Vec::new() }
    }

    /// The number of distinct functions entered.
    pub fn len(&self) -> (r: usize)
        ensures
            r == self.spec_len(),
    {
        self.entries.len()
    }

    /// The `i`-th entry in offset order.
    pub fn entry_at(&self, i: usize) -> (r: (usize, Hits))
        requires
            i < self.spec_len(),
        ensures
            r == self.entries_seq()[i as int],
    {
        self.entries[i]
    }

    #[verifier::loop_isolation(false)]
    pub fn lookup(&self, offset: usize) -> (r: Option<Hits>)
        requires
            self.wf(),
        ensures
            match r {
                Some(h) => self.spec_contains(offset) && h == self.spec_value(offset),
                None => !self.spec_contains(offset),
            },
    {
        let n = self.entries.len();
        for i in 0..n
            invariant
                n == self.entries@.len(),
                forall|j: int| 0 <= j < i ==> (#[trigger] self.entries@[j]).0 != offset,
        {
            if self.entries[i].0 == offset {
                proof {
                    assert(self.entries_seq() == self.entries@);
                    lemma_unique_key(self.entries@, i as int, offset);
                }
                return Some(self.entries[i].1);
            }
        }
        None
    }

    /// Records one breakpoint hit at `offset`: a fresh key enters at
    /// `Once`, an existing key advances by `Hits::inc`.  Returns the
    /// bucket value after the hit.
    #[verifier::loop_isolation(false)]
    #[verifier::rlimit(60)]
    pub fn record_hit(&mut self, offset: usize) -> (now: Hits)
        requires
            old(self).wf(),
        ensures
            final(self).wf(),
            final(self).spec_contains(offset),
            final(self).spec_value(offset) == now,
            old(self).spec_contains(offset) ==> {
                &&& now == old(self).spec_value(offset).inc_spec()
                &&& final(self).spec_len() == old(self).spec_len()
            },
            !old(self).spec_contains(offset) ==> {
                &&& now == Hits::Once
                &&& final(self).spec_len() == old(self).spec_len() + 1
            },
            forall|k: usize|
                k != offset ==> #[trigger] final(self).spec_contains(k) == old(self).spec_contains(k),
            forall|k: usize|
                k != offset && old(self).spec_contains(k) ==> #[trigger] final(self).spec_value(k)
                    == old(self).spec_value(k),
    {
        let n = self.entries.len();
        let mut idx: usize = 0;
        while idx < n && self.entries[idx].0 < offset
            invariant
                idx <= n,
                forall|j: int| 0 <= j < idx ==> (#[trigger] self.entries@[j]).0 < offset,
            decreases n - idx,
        {
            idx += 1;
        }
        if idx < n && self.entries[idx].0 == offset {
            let newv = self.entries[idx].1.inc();
            proof {
                lemma_unique_key(self.entries@, idx as int, offset);
                assert(old(self).spec_value(offset) == old(self).entries@[idx as int].1);
            }
            self.entries.set(idx, (offset, newv));
            proof {
                assert(self.entries@ == old(self).entries@.update(idx as int, (offset, newv)));
                assert((self.entries@[idx as int]).0 == offset);
                lemma_unique_key(self.entries@, idx as int, offset);
                assert(self.spec_value(offset) == newv);
                assert forall|k: usize| k != offset implies #[trigger] self.spec_contains(k)
                    == old(self).spec_contains(k) by {
                    if old(self).spec_contains(k) {
                        let i = choose|i: int|
                            0 <= i < old(self).entries@.len() && (
                            #[trigger] old(self).entries@[i]).0 == k;
                        assert((self.entries@[i]).0 == k);
                    }
                    if self.spec_contains(k) {
                        let i = choose|i: int|
                            0 <= i < self.entries@.len() && (#[trigger] self.entries@[i]).0 == k;
                        assert((old(self).entries@[i]).0 == k);
                    }
                }
                assert forall|k: usize|
                    k != offset && old(self).spec_contains(k) implies #[trigger] self.spec_value(k)
                    == old(self).spec_value(k) by {
                    let i = choose|i: int|
                        0 <= i < old(self).entries@.len() && (#[trigger] old(self).entries@[i]).0
                        == k;
                    lemma_unique_key(old(self).entries@, i, k);
                    assert((self.entries@[i]).0 == k);
                    lemma_unique_key(self.entries@, i, k);
                    assert(self.spec_value(k) == self.entries@[i].1);
                    assert(old(self).spec_value(k) == old(self).entries@[i].1);
                }
            }
            newv
        } else {
            proof {
                assert forall|i: int|
                    0 <= i < old(self).entries@.len() implies (#[trigger] old(self).entries@[i]).0
                    != offset by {
                    if i >= idx {
                        if i > idx {
                            assert((old(self).entries@[idx as int]).0 < (old(self).entries@[i]).0);
                        }
                    }
                }
                assert(!old(self).spec_contains(offset));
            }
            self.entries.insert(idx, (offset, Hits::Once));
            proof {
                old(self).entries@.insert_ensures(idx as int, (offset, Hits::Once));
                assert(self.entries@ == old(self).entries@.insert(idx as int, (offset, Hits::Once)));
                assert(self.entries@.len() == old(self).entries@.len() + 1);
                assert forall|j: int| 0 <= j < idx implies #[trigger] self.entries@[j] == old(self).entries@[j] by {}
                assert(self.entries@[idx as int] == (offset, Hits::Once));
                assert forall|j: int| idx < j < self.entries@.len() implies #[trigger] self
                    .entries@[j] == old(self).entries@[j - 1] by {
                    assert(old(self).entries@.insert(idx as int, (offset, Hits::Once))[(j - 1) + 1]
                        == old(self).entries@[j - 1]);
                }
                assert forall|i: int, j: int|
                    0 <= i < j < self.entries@.len() implies (#[trigger] self.entries@[i]).0 < (
                #[trigger] self.entries@[j]).0 by {
                    if i < idx && j == idx {
                    } else if i == idx && j > idx {
                        assert(self.entries@[j] == old(self).entries@[j - 1]);
                        assert((old(self).entries@[j - 1]).0 != offset);
                        if (old(self).entries@[j - 1]).0 < offset {
                            if j - 1 >= idx {
                                assert((old(self).entries@[j - 1]).0 >= offset || (idx < n
                                    && (old(self).entries@[idx as int]).0 >= offset));
                            }
                        }
                    }
                }
                assert(self.wf());
                assert((self.entries@[idx as int]).0 == offset);
                lemma_unique_key(self.entries@, idx as int, offset);
                assert(self.spec_value(offset) == Hits::Once);
                assert forall|k: usize| k != offset implies #[trigger] self.spec_contains(k)
                    == old(self).spec_contains(k) by {
                    if old(self).spec_contains(k) {
                        let i = choose|i: int|
                            0 <= i < old(self).entries@.len() && (
                            #[trigger] old(self).entries@[i]).0 == k;
                        if i < idx {
                            assert((self.entries@[i]).0 == k);
                        } else {
                            assert((self.entries@[i + 1]).0 == k);
                        }
                    }
                    if self.spec_contains(k) {
                        let i = choose|i: int|
                            0 <= i < self.entries@.len() && (#[trigger] self.entries@[i]).0 == k;
                        if i < idx {
                            assert((old(self).entries@[i]).0 == k);
                        } else {
                            assert((old(self).entries@[i - 1]).0 == k);
                        }
                    }
                }
                assert forall|k: usize|
                    k != offset && old(self).spec_contains(k) implies #[trigger] self.spec_value(k)
                    == old(self).spec_value(k) by {
                    let j = choose|j: int|
                        0 <= j < old(self).entries@.len() && (#[trigger] old(self).entries@[j]).0
                        == k;
                    lemma_unique_key(old(self).entries@, j, k);
                    if j < idx {
                        assert((self.entries@[j]).0 == k);
                        lemma_unique_key(self.entries@, j, k);
                    } else {
                        assert((self.entries@[j + 1]).0 == k);
                        lemma_unique_key(self.entries@, j + 1, k);
                    }
                }
            }
            Hits::Once
        }
    }
}

/// In a strictly sorted entry sequence a key occurs at one index only, so
/// the chosen witness for that key is the index at hand.
proof fn lemma_unique_key(entries: Seq<(usize, Hits)>, at: int, key: usize)
    requires
        forall|i: int, j: int|
            0 <= i < j < entries.len() ==> (#[trigger] entries[i]).0 < (#[trigger] entries[j]).0,
        0 <= at < entries.len(),
        (entries[at]).0 == key,
    ensures
        forall|i: int| 0 <= i < entries.len() && (#[trigger] entries[i]).0 == key ==> i == at,
        (choose|i: int| 0 <= i < entries.len() && (#[trigger] entries[i]).0 == key) == at,
{
    assert forall|i: int| 0 <= i < entries.len() && (#[trigger] entries[i]).0 == key implies i
        == at by {
        if i < at {
            assert((entries[i]).0 < (entries[at]).0);
        } else if i > at {
            assert((entries[at]).0 < (entries[i]).0);
        }
    }
    assert(0 <= at < entries.len() && (entries[at]).0 == key);
}

impl PartialEq for Trajectory {
    fn eq(&self, other: &Self) -> (r: bool) {
        let n = self.entries.len();
        if n != other.entries.len() {
            return false;
        }
        for i in 0..n
            invariant
                n == self.entries@.len() == other.entries@.len(),
                forall|j: int| 0 <= j < i ==> self.entries@[j] == other.entries@[j],
        {
            let (ka, va) = self.entries[i];
            let (kb, vb) = other.entries[i];
            if ka != kb || va != vb {
                return false;
            }
            proof {
                assert(self.entries@[i as int] == other.entries@[i as int]);
            }
        }
        proof {
            assert(self.entries@ =~= other.entries@);
        }
        true
    }
}

impl vstd::std_specs::cmp::PartialEqSpecImpl for Trajectory {
    open spec fn obeys_eq_spec() -> bool {
        true
    }

    open spec fn eq_spec(&self, other: &Trajectory) -> bool {
        self.entries_seq() == other.entries_seq()
    }
}

/// The fingerprint of one run: termination result plus hit map.
#[derive(Debug)]
pub struct RunTrace {
    pub result: ExecResult,
    pub trajectory: Trajectory,
}

impl Clone for RunTrace {
    fn clone(&self) -> (r: Self)
        ensures
            r.result == self.result,
            r.trajectory.entries_seq() == self.trajectory.entries_seq(),
    {
        RunTrace { result: self.result, trajectory: self.trajectory.clone() }
    }
}

impl PartialEq for RunTrace {
    fn eq(&self, other: &Self) -> (r: bool) {
        self.result == other.result && self.trajectory == other.trajectory
    }
}

impl vstd::std_specs::cmp::PartialEqSpecImpl for RunTrace {
    open spec fn obeys_eq_spec() -> bool {
        true
    }

    open spec fn eq_spec(&self, other: &RunTrace) -> bool {
        self.result == other.result && self.trajectory.entries_seq()
            == other.trajectory.entries_seq()
    }
}

/// Coverage weight of a trace: proportional to the number of functions
/// entered, plus a floor so that no entry ever weighs zero.  Scaled by ten
/// relative to the conventional `len + 0.1` so it stays in integers, and
/// capped so sums of weights stay within machine bounds.
pub open spec fn trace_weight(len: nat) -> nat {
    if len <= 0xffff_ffff {
        10 * len + 1
    } else {
        10 * 0xffff_ffff + 1
    }
}

impl RunTrace {
    /// The weighted-sampling score of this trace.  Always at least one.
    pub fn get_score(&self) -> (r: u64)
        ensures
            r == trace_weight(self.trajectory.spec_len()),
            r >= 1,
    {
        let len = self.trajectory.len();
        if len <= 0xffff_ffff {
            10 * (len as u64) + 1
        } else {
            10 * 0xffff_ffffu64 + 1
        }
    }
}

/// An error talking to the child process.
#[derive(Clone, Debug)]
pub enum ExecutionError {
    SpawnError(String),
    StdinError(String),
}

/// Runs a target and scores it by bare exit code.  The embedding program
/// supplies the process machinery; this type only carries the target path.
pub struct ExitCodeEvaluator {
    pub binary: String,
}

impl ExitCodeEvaluator {
    pub fn new(binary: String) -> (r: Self)
        ensures
            r.binary@ == binary@,
    {
        ExitCodeEvaluator { binary }
    }
}

/// The decisions the tracer takes while a child runs: it accumulates the
/// hit map and the termination result, and says which breakpoints to drop.
pub struct TraceBuilder {
    trajectory: Trajectory,
    result: Option<ExecResult>,
}

impl TraceBuilder {
    pub closed spec fn spec_trajectory(self) -> Trajectory {
        self.trajectory
    }

    pub closed spec fn spec_result(self) -> Option<ExecResult> {
        self.result
    }

    pub open spec fn wf(self) -> bool {
        self.spec_trajectory().wf()
    }

    pub fn new() -> (r: Self)
        ensures
            r.wf(),
            r.spec_trajectory().spec_len() == 0,
            r.spec_result() is None,
    {
        TraceBuilder { trajectory: Trajectory::new(), result: None }
    }

    /// A breakpoint trap at absolute address `rip` while the target is
    /// loaded at `base`: record a hit for the ELF-relative offset and
    /// report whether the bucket has saturated, in which case the caller
    /// must remove the breakpoint at the absolute address.
    pub fn on_stop(&mut self, rip: usize, base: usize) -> (remove: bool)
        requires
            old(self).wf(),
            base <= rip,
        ensures
            final(self).wf(),
            final(self).spec_result() == old(self).spec_result(),
            remove == (final(self).spec_trajectory().spec_value((rip - base) as usize)
                is Many),
            final(self).spec_trajectory().spec_contains((rip - base) as usize),
            old(self).spec_trajectory().spec_contains((rip - base) as usize) ==> final(self).spec_trajectory().spec_value((rip - base) as usize) == old(self).spec_trajectory().spec_value((rip - base) as usize).inc_spec(),
            !old(self).spec_trajectory().spec_contains((rip - base) as usize) ==> final(self).spec_trajectory().spec_value((rip - base) as usize) == Hits::Once,
            forall|k: usize|
                k != (rip - base) as usize ==> #[trigger] final(self).spec_trajectory().spec_contains(k) == old(self).spec_trajectory().spec_contains(
                    k,
                ),
            forall|k: usize|
                k != (rip - base) as usize && old(self).spec_trajectory().spec_contains(k)
                    ==> #[trigger] final(self).spec_trajectory().spec_value(k) == old(self).spec_trajectory().spec_value(k),
    {
        let offset = rip - base;
        let now = self.trajectory.record_hit(offset);
        matches!(now, Hits::Many)
    }

    /// The child exited with a code.
    pub fn on_exit(&mut self, code: i32)
        ensures
            final(self).spec_result() == Some(ExecResult::Code(code)),
            final(self).spec_trajectory() == old(self).spec_trajectory(),
    {
        self.result = Some(ExecResult::Code(code));
    }

    /// The child was terminated by a signal.
    pub fn on_signal(&mut self)
        ensures
            final(self).spec_result() == Some(ExecResult::Signal),
            final(self).spec_trajectory() == old(self).spec_trajectory(),
    {
        self.result = Some(ExecResult::Signal);
    }

    /// Closes the trace.  The child must have produced a termination event;
    /// a run that never terminated is reported as an error.
    pub fn finish(self) -> (r: Result<RunTrace, ExecutionError>)
        ensures
            match r {
                Ok(trace) => {
                    &&& self.spec_result() == Some(trace.result)
                    &&& trace.trajectory == self.spec_trajectory()
                },
                Err(_) => self.spec_result() is None,
            },
    {
        match self.result {
            Some(result) => Ok(RunTrace { result, trajectory: self.trajectory }),
            None => Err(
                ExecutionError::SpawnError(String::from_str("child did not finish executing")),
            ),
        }
    }
}

} // verus!
