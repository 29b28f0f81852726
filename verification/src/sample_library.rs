//! The corpus: samples indexed by their execution fingerprint.
//!
//! Entries are kept in insertion order and looked up by structural
//! equality on the whole `RunTrace`.  `pick_random` draws an entry with
//! probability proportional to its coverage weight, which is never zero.

use crate::execution::RunTrace;
use crate::sample::Sample;
use vstd::prelude::*;

verus! {

/// Spec-level equality of fingerprints.
pub open spec fn trace_eq(a: RunTrace, b: RunTrace) -> bool {
    a.result == b.result && a.trajectory.entries_seq() == b.trajectory.entries_seq()
}

/// An exemplar sample plus the stable name it was persisted under, if any.
pub struct LibraryEntry {
    pub item: Sample,
    pub unique_name: Option<String>,
}

/// The corpus, keyed by `RunTrace`.
pub struct VectorLibrary {
    buffer: Vec<(RunTrace, LibraryEntry)>,
}

/// Sum of a weight sequence.
pub open spec fn total_weight(ws: Seq<u64>) -> int
    decreases ws,
{
    if ws.len() == 0 {
        0
    } else {
        ws.first() + total_weight(ws.drop_first())
    }
}

/// Which index a draw of `r` selects: the first index whose cumulative
/// weight exceeds `r`.
pub open spec fn pick_spec(ws: Seq<u64>, r: int) -> int
    decreases ws,
{
    if ws.len() == 0 {
        0
    } else if r < ws.first() {
        0
    } else {
        1 + pick_spec(ws.drop_first(), r - ws.first())
    }
}

pub open spec fn prefix_weight(ws: Seq<u64>, i: int) -> int {
    total_weight(ws.take(i))
}

proof fn lemma_total_take_succ(ws: Seq<u64>, i: int)
    requires
        0 <= i < ws.len(),
    ensures
        total_weight(ws.take(i + 1)) == total_weight(ws.take(i)) + ws[i],
    decreases ws,
{
    if i == 0 {
        reveal_with_fuel(total_weight, 3);
        assert(ws.take(1).drop_first() =~= Seq::<u64>::empty());
        assert(ws.take(0) =~= Seq::<u64>::empty());
        assert(ws.take(1).first() == ws[0]);
    } else {
        assert(ws.take(i + 1).first() == ws[0]);
        assert(ws.take(i).first() == ws[0]);
        assert(ws.take(i + 1).drop_first() =~= ws.drop_first().take(i));
        assert(ws.take(i).drop_first() =~= ws.drop_first().take(i - 1));
        lemma_total_take_succ(ws.drop_first(), i - 1);
        assert(ws.drop_first()[i - 1] == ws[i]);
    }
}

proof fn lemma_total_nonneg(ws: Seq<u64>)
    ensures
        total_weight(ws) >= 0,
    decreases ws,
{
    if ws.len() > 0 {
        lemma_total_nonneg(ws.drop_first());
    }
}

proof fn lemma_total_tail_bound(ws: Seq<u64>, i: int)
    requires
        0 <= i < ws.len(),
    ensures
        total_weight(ws) >= total_weight(ws.take(i)) + ws[i],
    decreases i,
{
    if i == 0 {
        assert(ws.take(0) =~= Seq::<u64>::empty());
        lemma_total_nonneg(ws.drop_first());
    } else {
        assert(ws.take(i).first() == ws[0]);
        assert(ws.take(i).drop_first() =~= ws.drop_first().take(i - 1));
        lemma_total_tail_bound(ws.drop_first(), i - 1);
        assert(ws.drop_first()[i - 1] == ws[i]);
    }
}

/// Every entry with nonzero weight is reachable by some draw: drawing the
/// entry's cumulative prefix weight selects exactly that entry.  With every
/// weight at least one — which `RunTrace::get_score` guarantees — no entry
/// has zero probability.
pub proof fn lemma_weighted_pick_reaches_all(ws: Seq<u64>, i: int)
    requires
        0 <= i < ws.len(),
        forall|j: int| 0 <= j < ws.len() ==> #[trigger] ws[j] >= 1,
    ensures
        0 <= prefix_weight(ws, i) < total_weight(ws),
        pick_spec(ws, prefix_weight(ws, i)) == i,
    decreases i,
{
    lemma_total_nonneg(ws.take(i));
    lemma_total_tail_bound(ws, i);
    if i == 0 {
        assert(ws.take(0) =~= Seq::<u64>::empty());
        assert(prefix_weight(ws, 0) == 0);
        assert(ws.first() == ws[0]);
    } else {
        assert(ws.take(i).first() == ws[0]);
        assert(ws.take(i).drop_first() =~= ws.drop_first().take(i - 1));
        assert(prefix_weight(ws, i) == ws[0] + prefix_weight(ws.drop_first(), i - 1));
        lemma_weighted_pick_reaches_all(ws.drop_first(), i - 1);
        assert(ws.first() == ws[0]);
        lemma_total_nonneg(ws.drop_first().take(i - 1));
        assert(prefix_weight(ws, i) >= ws[0]);
        assert(pick_spec(ws, prefix_weight(ws, i)) == 1 + pick_spec(
            ws.drop_first(),
            prefix_weight(ws, i) - ws[0],
        ));
    }
}

/// A drawn value below the total always lands on a valid index.
proof fn lemma_pick_in_range(ws: Seq<u64>, r: int)
    requires
        ws.len() > 0,
        0 <= r < total_weight(ws),
    ensures
        0 <= pick_spec(ws, r) < ws.len(),
    decreases ws,
{
    if r < ws.first() {
    } else {
        if ws.len() == 1 {
            assert(ws.drop_first() =~= Seq::<u64>::empty());
            assert(total_weight(ws.drop_first()) == 0);
        }
        lemma_pick_in_range(ws.drop_first(), r - ws.first());
    }
}

/// Walks the cumulative weights to find the selected index.
#[verifier::loop_isolation(false)]
fn pick_index_weighted(weights: &Vec<u64>, r: u128) -> (idx: usize)
    requires
        weights@.len() > 0,
        0 <= r < total_weight(weights@),
        total_weight(weights@) <= u128::MAX,
    ensures
        idx < weights@.len(),
        idx == pick_spec(weights@, r as int),
{
    let n = weights.len();
    let mut acc: u128 = 0;
    let mut i: usize = 0;
    proof {
        lemma_pick_in_range(weights@, r as int);
        assert(weights@.skip(0) =~= weights@);
    }
    loop
        invariant
            i < n,
            acc == prefix_weight(weights@, i as int),
            acc <= r,
            pick_spec(weights@, r as int) == i + pick_spec(weights@.skip(i as int), r - acc),
        decreases n - i,
    {
        proof {
            lemma_total_take_succ(weights@, i as int);
            lemma_total_tail_bound(weights@, i as int);
            assert(weights@.skip(i as int).first() == weights@[i as int]);
            assert(weights@.skip(i as int).drop_first() =~= weights@.skip(i + 1));
        }
        proof {
            assert(prefix_weight(weights@, i as int) + weights@[i as int] <= total_weight(
                weights@,
            ));
        }
        let w = weights[i] as u128;
        if r < acc + w {
            return i;
        }
        proof {
            if i + 1 >= n {
                assert(weights@.take(n as int) =~= weights@);
                assert(false);
            }
        }
        acc = acc + w;
        i = i + 1;
    }
}

impl VectorLibrary {
    pub closed spec fn entries(self) -> Seq<(RunTrace, LibraryEntry)> {
        self.buffer@
    }

    /// Keys are pairwise distinct; every library satisfies this by
    /// construction.
    #[verifier::type_invariant]
    pub open spec fn inv(self) -> bool {
        self.wf()
    }

    /// Keys are pairwise distinct.
    pub open spec fn wf(self) -> bool {
        forall|i: int, j: int|
            0 <= i < j < self.entries().len() ==> !trace_eq(
                (#[trigger] self.entries()[i]).0,
                (#[trigger] self.entries()[j]).0,
            )
    }

    pub open spec fn spec_contains(self, k: RunTrace) -> bool {
        exists|i: int| 0 <= i < self.entries().len() && trace_eq((#[trigger] self.entries()[i]).0, k)
    }

    pub open spec fn spec_index_of(self, k: RunTrace) -> int {
        choose|i: int| 0 <= i < self.entries().len() && trace_eq((#[trigger] self.entries()[i]).0, k)
    }

    pub open spec fn spec_entry(self, k: RunTrace) -> LibraryEntry {
        self.entries()[self.spec_index_of(k)].1
    }

    pub fn new() -> (r: Self)
        ensures
            r.wf(),
            r.entries().len() == 0,
    {
        VectorLibrary { buffer: Vec::new() }
    }

    pub fn len(&self) -> (r: usize)
        ensures
            r == self.entries().len(),
    {
        self.buffer.len()
    }

    /// The `i`-th fingerprint/entry pair, in insertion order.
    pub fn entry_at(&self, i: usize) -> (r: &(RunTrace, LibraryEntry))
        requires
            i < self.entries().len(),
        ensures
            *r == self.entries()[i as int],
    {
        &self.buffer[i]
    }

    /// Exact match on the full trace: both the result and the hit map with
    /// its bucket values.
    #[verifier::loop_isolation(false)]
    pub fn find_existing(&self, reference: &RunTrace) -> (r: Option<&LibraryEntry>)
        ensures
            match r {
                Some(e) => self.spec_contains(*reference) && *e == self.spec_entry(*reference),
                None => !self.spec_contains(*reference),
            },
    {
        proof {
            use_type_invariant(&*self);
        }
        let n = self.buffer.len();
        for i in 0..n
            invariant
                n == self.entries().len(),
                forall|j: int| 0 <= j < i ==> !trace_eq((#[trigger] self.entries()[j]).0, *reference),
        {
            if &self.buffer[i].0 == reference {
                proof {
                    lemma_unique_trace(self.entries(), i as int, *reference);
                }
                return Some(&self.buffer[i].1);
            }
        }
        None
    }

    /// Inserts a new exemplar or replaces the existing one for this
    /// fingerprint; a replacement keeps the entry's unique name.
    #[verifier::loop_isolation(false)]
    pub fn upsert(&mut self, key: RunTrace, object: Sample)
        ensures
            final(self).wf(),
            final(self).spec_contains(key),
            final(self).spec_entry(key).item.folded() == object.folded(),
            old(self).spec_contains(key) ==> {
                &&& final(self).entries().len() == old(self).entries().len()
                &&& final(self).spec_entry(key).unique_name == old(self).spec_entry(
                    key,
                ).unique_name
            },
            !old(self).spec_contains(key) ==> {
                &&& final(self).entries().len() == old(self).entries().len() + 1
                &&& final(self).spec_entry(key).unique_name is None
            },
            forall|k: RunTrace|
                !trace_eq(k, key) ==> #[trigger] final(self).spec_contains(k) == old(self).spec_contains(k),
            forall|k: RunTrace|
                !trace_eq(k, key) && old(self).spec_contains(k) ==> #[trigger] final(self).spec_entry(k) == old(self).spec_entry(k),
    {
        proof {
            use_type_invariant(&*self);
        }
        let n = self.buffer.len();
        let mut i: usize = 0;
        while i < n && !(&self.buffer[i].0 == &key)
            invariant
                i <= n,
                forall|j: int| 0 <= j < i ==> !trace_eq((#[trigger] self.entries()[j]).0, key),
            decreases n - i,
        {
            i += 1;
        }
        if i < n {
            proof {
                lemma_unique_trace(self.entries(), i as int, key);
            }
            let mut buffer: Vec<(RunTrace, LibraryEntry)> = Vec::new();
            core::mem::swap(&mut buffer, &mut self.buffer);
            let entry = buffer.remove(i);
            let sample = object.clone();
            buffer.insert(
                i,
                (entry.0, LibraryEntry { item: sample, unique_name: entry.1.unique_name }),
            );
            proof {
                assert(buffer@ =~= old(self).entries().update(i as int, buffer@[i as int]));
            }
            self.buffer = buffer;
            proof {
                assert(final(self).entries() =~= old(self).entries().update(
                    i as int,
                    final(self).entries()[i as int],
                ));
                assert(trace_eq(final(self).entries()[i as int].0, key));
                lemma_unique_trace(final(self).entries(), i as int, key);
                assert forall|k: RunTrace| !trace_eq(k, key) implies #[trigger] final(self).spec_contains(k) == old(self).spec_contains(k) by {
                    if old(self).spec_contains(k) {
                        let j = old(self).spec_index_of(k);
                        if j != i as int {
                            assert(trace_eq(final(self).entries()[j].0, k));
                        }
                    }
                    if final(self).spec_contains(k) {
                        let j = final(self).spec_index_of(k);
                        if j != i as int {
                            assert(trace_eq(old(self).entries()[j].0, k));
                        }
                    }
                }
                assert forall|k: RunTrace|
                    !trace_eq(k, key) && old(self).spec_contains(k) implies #[trigger] final(self).spec_entry(k) == old(self).spec_entry(k) by {
                    let j = old(self).spec_index_of(k);
                    lemma_unique_trace(old(self).entries(), j, k);
                    assert(trace_eq(final(self).entries()[j].0, k));
                    lemma_unique_trace(final(self).entries(), j, k);
                }
            }
        } else {
            proof {
                assert(!old(self).spec_contains(key));
            }
            let mut buffer: Vec<(RunTrace, LibraryEntry)> = Vec::new();
            core::mem::swap(&mut buffer, &mut self.buffer);
            buffer.push((key, LibraryEntry { item: object, unique_name: None }));
            self.buffer = buffer;
            proof {
                assert(final(self).entries() =~= old(self).entries().push(
                    final(self).entries()[n as int],
                ));
                assert(trace_eq(final(self).entries()[n as int].0, key));
                lemma_unique_trace(final(self).entries(), n as int, key);
                assert forall|k: RunTrace| !trace_eq(k, key) implies #[trigger] final(self).spec_contains(k) == old(self).spec_contains(k) by {
                    if old(self).spec_contains(k) {
                        let j = old(self).spec_index_of(k);
                        assert(trace_eq(final(self).entries()[j].0, k));
                    }
                    if final(self).spec_contains(k) {
                        let j = final(self).spec_index_of(k);
                        assert(j != n as int);
                        assert(trace_eq(old(self).entries()[j].0, k));
                    }
                }
                assert forall|k: RunTrace|
                    !trace_eq(k, key) && old(self).spec_contains(k) implies #[trigger] final(self).spec_entry(k) == old(self).spec_entry(k) by {
                    let j = old(self).spec_index_of(k);
                    lemma_unique_trace(old(self).entries(), j, k);
                    assert(trace_eq(final(self).entries()[j].0, k));
                    lemma_unique_trace(final(self).entries(), j, k);
                }
            }
        }
    }

    /// Attaches (or overrides) the unique name of an existing entry.  The
    /// fingerprint must have been inserted before.
    #[verifier::loop_isolation(false)]
    pub fn add_name(&mut self, key: &RunTrace, name: String)
        requires
            old(self).spec_contains(*key),
        ensures
            final(self).wf(),
            final(self).entries().len() == old(self).entries().len(),
            final(self).spec_contains(*key),
            final(self).spec_entry(*key).unique_name == Some(name),
            final(self).spec_entry(*key).item == old(self).spec_entry(*key).item,
            forall|k: RunTrace|
                !trace_eq(k, *key) ==> #[trigger] final(self).spec_contains(k) == old(self).spec_contains(k),
            forall|k: RunTrace|
                !trace_eq(k, *key) && old(self).spec_contains(k) ==> #[trigger] final(self).spec_entry(k) == old(self).spec_entry(k),
    {
        proof {
            use_type_invariant(&*self);
        }
        let n = self.buffer.len();
        let mut i: usize = 0;
        while i < n && !(&self.buffer[i].0 == key)
            invariant
                i <= n,
                forall|j: int| 0 <= j < i ==> !trace_eq((#[trigger] self.entries()[j]).0, *key),
            decreases n - i,
        {
            i += 1;
        }
        proof {
            if i >= n {
                assert(!old(self).spec_contains(*key));
            }
        }
        proof {
            lemma_unique_trace(self.entries(), i as int, *key);
        }
        let mut buffer: Vec<(RunTrace, LibraryEntry)> = Vec::new();
        core::mem::swap(&mut buffer, &mut self.buffer);
        let entry = buffer.remove(i);
        buffer.insert(i, (entry.0, LibraryEntry { item: entry.1.item, unique_name: Some(name) }));
        proof {
            assert(buffer@ =~= old(self).entries().update(i as int, buffer@[i as int]));
        }
        self.buffer = buffer;
        proof {
            assert(final(self).entries() =~= old(self).entries().update(
                i as int,
                final(self).entries()[i as int],
            ));
            assert(trace_eq(final(self).entries()[i as int].0, *key));
            lemma_unique_trace(final(self).entries(), i as int, *key);
            assert forall|k: RunTrace| !trace_eq(k, *key) implies #[trigger] final(self).spec_contains(k) == old(self).spec_contains(k) by {
                if old(self).spec_contains(k) {
                    let j = old(self).spec_index_of(k);
                    if j != i as int {
                        assert(trace_eq(final(self).entries()[j].0, k));
                    }
                }
                if final(self).spec_contains(k) {
                    let j = final(self).spec_index_of(k);
                    if j != i as int {
                        assert(trace_eq(old(self).entries()[j].0, k));
                    }
                }
            }
            assert forall|k: RunTrace|
                !trace_eq(k, *key) && old(self).spec_contains(k) implies #[trigger] final(self).spec_entry(k) == old(self).spec_entry(k) by {
                let j = old(self).spec_index_of(k);
                lemma_unique_trace(old(self).entries(), j, k);
                assert(trace_eq(final(self).entries()[j].0, k));
                lemma_unique_trace(final(self).entries(), j, k);
            }
        }
    }

    /// A fresh vector holding one copy of each exemplar, in insertion order.
    #[verifier::loop_isolation(false)]
    pub fn linearize(&self) -> (r: Vec<Sample>)
        ensures
            r@.len() == self.entries().len(),
            forall|i: int|
                0 <= i < r@.len() ==> (#[trigger] r@[i]).folded() == self.entries()[i].1.item.folded()
                    && r@[i].wf(),
    {
        let n = self.buffer.len();
        let mut out: Vec<Sample> = Vec::new();
        for i in 0..n
            invariant
                n == self.entries().len(),
                out@.len() == i,
                forall|j: int|
                    0 <= j < i ==> (#[trigger] out@[j]).folded() == self.entries()[j].1.item.folded()
                        && out@[j].wf(),
        {
            out.push(self.buffer[i].1.item.clone());
        }
        out
    }

    /// Weighted random draw: an entry is chosen with probability
    /// proportional to its trace's coverage weight, which is at least one
    /// for every entry.
    #[verifier::loop_isolation(false)]
    pub fn pick_random(&self) -> (r: Sample)
        requires
            self.entries().len() > 0,
        ensures
            r.wf(),
            exists|i: int|
                0 <= i < self.entries().len() && r.folded() == (
                #[trigger] self.entries()[i]).1.item.folded(),
    {
        proof {
            use_type_invariant(&*self);
        }
        let n = self.buffer.len();
        let mut weights: Vec<u64> = Vec::new();
        for i in 0..n
            invariant
                n == self.entries().len(),
                weights@.len() == i,
                forall|j: int| 0 <= j < i ==> 1 <= #[trigger] weights@[j] <= 0xffff_ffffu64 * 10 + 1,
        {
            weights.push(self.buffer[i].0.get_score());
        }
        let mut total: u128 = 0;
        let ghost maxw: int = 0xffff_ffffu64 * 10 + 1;
        for i in 0..n
            invariant
                n == self.entries().len() == weights@.len(),
                total == prefix_weight(weights@, i as int),
                total <= i as int * maxw,
                forall|j: int| 0 <= j < n ==> 1 <= #[trigger] weights@[j] <= maxw,
        {
            proof {
                lemma_total_take_succ(weights@, i as int);
                assert(weights@[i as int] <= maxw);
                assert((i as int + 1) * maxw == i as int * maxw + maxw) by (nonlinear_arith);
                assert((i as int + 1) * maxw <= n as int * maxw) by (nonlinear_arith)
                    requires
                        i as int + 1 <= n as int,
                        maxw >= 0,
                ;
                assert(n <= 0xffff_ffff_ffff_ffff);
                assert(n as int * maxw <= 0xffff_ffff_ffff_ffff * maxw) by (nonlinear_arith)
                    requires
                        n as int <= 0xffff_ffff_ffff_ffff,
                        maxw >= 0,
                ;
            }
            total = total + (weights[i] as u128);
        }
        proof {
            assert(weights@.take(n as int) =~= weights@);
            lemma_weighted_pick_reaches_all(weights@, 0);
        }
        let r = crate::rng::rand_below_u128(total);
        let idx = pick_index_weighted(&weights, r);
        proof {
            lemma_pick_in_range(weights@, r as int);
        }
        self.buffer[idx].1.item.clone()
    }
}

/// With pairwise distinct keys, the witness index for a contained key is
/// the index where it was found.
proof fn lemma_unique_trace(entries: Seq<(RunTrace, LibraryEntry)>, at: int, key: RunTrace)
    requires
        forall|i: int, j: int|
            0 <= i < j < entries.len() ==> !trace_eq(
                (#[trigger] entries[i]).0,
                (#[trigger] entries[j]).0,
            ),
        0 <= at < entries.len(),
        trace_eq((entries[at]).0, key),
    ensures
        forall|i: int| 0 <= i < entries.len() && trace_eq((#[trigger] entries[i]).0, key) ==> i == at,
        (choose|i: int| 0 <= i < entries.len() && trace_eq((#[trigger] entries[i]).0, key)) == at,
{
    assert forall|i: int|
        0 <= i < entries.len() && trace_eq((#[trigger] entries[i]).0, key) implies i == at by {
        if i < at {
            assert(!trace_eq((entries[i]).0, (entries[at]).0));
        } else if i > at {
            assert(!trace_eq((entries[at]).0, (entries[i]).0));
        }
    }
    assert(0 <= at < entries.len() && trace_eq((entries[at]).0, key));
}

/// Fingerprints that are equal as traces address the same entry.
pub proof fn lemma_entry_congruent(lib: VectorLibrary, a: RunTrace, b: RunTrace)
    requires
        lib.wf(),
        trace_eq(a, b),
        lib.spec_contains(a),
    ensures
        lib.spec_contains(b),
        lib.spec_entry(a) == lib.spec_entry(b),
        lib.spec_index_of(a) == lib.spec_index_of(b),
{
    let i = lib.spec_index_of(a);
    assert(0 <= i < lib.entries().len() && trace_eq(lib.entries()[i].0, a));
    assert(trace_eq(lib.entries()[i].0, b));
    lemma_unique_trace(lib.entries(), i, b);
    lemma_unique_trace(lib.entries(), i, a);
}

} // verus!
