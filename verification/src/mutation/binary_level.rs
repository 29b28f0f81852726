//! Byte-level mutation operators.  Each inspects the folded bytes of the
//! current sample (and, for fragment copying, the corpus) and emits a
//! patch to apply.

use crate::rng::{rand_below, rand_byte, rand_ratio};
use crate::sample::{patch_wf, Patch, PatchKind, Sample};
use vstd::prelude::*;

verus! {

/// The largest number of bytes any byte-level operator touches at once.
/// Inputs are kept this far below the address-space limit so that patch
/// intervals cannot wrap.
pub const MAX_MUTATION_SPAN: usize = 65536;

/// An input short enough for every byte-level operator.
pub open spec fn reference_fits(len: nat) -> bool {
    len <= usize::MAX - MAX_MUTATION_SPAN
}


/// What a bit flip guarantees: a single replacement byte; on empty input
/// it sits at offset zero and is a lone power of two, otherwise it is
/// the addressed byte with exactly one bit flipped.
pub open spec fn bitflip_patch_ok(reference: Seq<u8>, r: Patch) -> bool {
    &&& r.kind matches PatchKind::Replacement(c) && c@.len() == 1
    &&& reference.len() == 0 ==> r.position == 0 && (exists|k: int|
        0 <= k < 8 && (r.kind matches PatchKind::Replacement(c) && c@[0] == (#[trigger] (1u8
            << k))))
    &&& reference.len() > 0 ==> r.position < reference.len() && (exists|k: int|
        0 <= k < 8 && (r.kind matches PatchKind::Replacement(c) && c@[0] == (
        reference[r.position as int] ^ (#[trigger] (1u8 << k)))))
}

/// What an erasure guarantees: a span of one to `max_size` bytes at a
/// position inside the input (zero on empty input).
pub open spec fn erasure_patch_ok(m: Erasure, reference: Seq<u8>, r: Patch) -> bool {
    &&& r.kind matches PatchKind::Erasure(n) && 1 <= n <= m.max_size
    &&& reference.len() == 0 ==> r.position == 0
    &&& reference.len() > 0 ==> r.position < reference.len()
}

/// What a magic-value write guarantees: on empty input a single zero
/// byte at offset zero; otherwise one of the held magic values, possibly
/// reversed, at a position inside the input.
pub open spec fn known_bytes_patch_ok(m: KnownBytes, reference: Seq<u8>, r: Patch) -> bool {
    &&& r.kind matches PatchKind::Replacement(_)
    &&& reference.len() == 0 ==> r.position == 0 && (r.kind matches PatchKind::Replacement(c)
        && c@ == seq![0u8])
    &&& reference.len() > 0 ==> r.position < reference.len() && (exists|i: int|
        0 <= i < m.variants_seq().len() && (r.kind matches PatchKind::Replacement(c) && (c@ == (
        #[trigger] m.variants_seq()[i])@ || c@ == m.variants_seq()[i]@.reverse())))
}

/// What a garbage write guarantees: one to `max_size` replacement bytes
/// at a position inside the input (zero on empty input).
pub open spec fn garbage_patch_ok(m: Garbage, reference: Seq<u8>, r: Patch) -> bool {
    &&& r.kind matches PatchKind::Replacement(c) && 1 <= c@.len() <= m.max_size
    &&& reference.len() == 0 ==> r.position == 0
    &&& reference.len() > 0 ==> r.position < reference.len()
}

/// What a fragment copy guarantees: with no nonempty corpus sample, the
/// no-op empty replacement at zero; otherwise an insertion of a
/// contiguous slice of some corpus sample's folded bytes.
pub open spec fn copy_fragment_patch_ok(
    m: CopyFragment,
    reference: Seq<u8>,
    library: Seq<Sample>,
    r: Patch,
) -> bool {
    &&& (forall|i: int| 0 <= i < library.len() ==> (#[trigger] library[i]).folded().len() == 0)
        ==> r.position == 0 && (r.kind matches PatchKind::Replacement(c) && c@.len() == 0)
    &&& (exists|i: int| 0 <= i < library.len() && (#[trigger] library[i]).folded().len() > 0) ==> (
    r.kind matches PatchKind::Insertion(c) && 1 <= c@.len() <= m.max_size && (exists|i: int, off: int|
        #![trigger library[i].folded().subrange(off, off + c@.len())]
        0 <= i < library.len() && 0 <= off && off + c@.len() <= library[i].folded().len() && c@
            == library[i].folded().subrange(off, off + c@.len())) && (reference.len() == 0
        ==> r.position == 0) && (reference.len() > 0 ==> r.position < reference.len()))
}

/// Emits a patch for the given folded bytes.  `library` is the current
/// corpus linearization, used by fragment copying.
pub trait MutateBytes {
    spec fn wf(&self) -> bool;

    fn mutate(&self, reference: &[u8], library: &[Sample]) -> (r: Patch)
        requires
            self.wf(),
            reference_fits(reference@.len()),
        ensures
            patch_wf(r),
    ;
}

/// Flips one random bit of one random byte; on empty input it writes one
/// byte at offset zero.
pub struct BitFlip {}

impl MutateBytes for BitFlip {
    open spec fn wf(&self) -> bool {
        true
    }

    fn mutate(&self, reference: &[u8], library: &[Sample]) -> (r: Patch)
        ensures
            bitflip_patch_ok(reference@, r),
    {
        let shift = rand_below(8);
        let random_bit: u8 = 1u8 << shift;
        let position: usize = if reference.len() == 0 {
            0
        } else {
            rand_below(reference.len())
        };
        let new_data: u8 = if reference.len() == 0 {
            random_bit
        } else {
            random_bit ^ reference[position]
        };
        let mut content: Vec<u8> = Vec::new();
        content.push(new_data);
        proof {
            if reference@.len() > 0 {
                let b: u8 = reference@[position as int];
                assert((b ^ (1u8 << shift)) == ((1u8 << shift) ^ b)) by (bit_vector);
            }
        }
        Patch { position, kind: PatchKind::Replacement(content) }
    }
}

/// Erases a random span of one to `max_size` bytes at a random position.
pub struct Erasure {
    pub max_size: usize,
}

impl MutateBytes for Erasure {
    open spec fn wf(&self) -> bool {
        1 <= self.max_size <= MAX_MUTATION_SPAN
    }

    fn mutate(&self, reference: &[u8], library: &[Sample]) -> (r: Patch)
        ensures
            erasure_patch_ok(*self, reference@, r),
    {
        let random_size = 1 + rand_below(self.max_size);
        let random_position: usize = if reference.len() == 0 {
            0
        } else {
            rand_below(reference.len())
        };
        Patch { position: random_position, kind: PatchKind::Erasure(random_size) }
    }
}

/// The magic-value list: zero, all-ones and boundary patterns in one,
/// two, four and eight byte widths.
pub open spec fn known_bytes_list() -> Seq<Seq<u8>> {
    seq![
        seq![0u8],
        seq![0xffu8],
        seq![0u8, 0u8],
        seq![0xffu8, 0xffu8],
        seq![0u8, 0u8, 0u8, 0u8],
        seq![0xffu8, 0xffu8, 0xffu8, 0xffu8],
        seq![0u8, 0u8, 0u8, 0u8, 0u8, 0u8, 0u8, 0u8],
        seq![0xffu8, 0xffu8, 0xffu8, 0xffu8, 0xffu8, 0xffu8, 0xffu8, 0xffu8],
        seq![0x7fu8],
        seq![0x01u8],
        seq![0xf0u8],
        seq![0u8, 0u8, 0u8, 0x80u8],
        seq![0u8, 0u8, 0u8, 0x40u8],
    ]
}

/// Overwrites a random position with one of a fixed list of magic
/// values, half the time with its bytes reversed.
pub struct KnownBytes {
    variants: Vec<Vec<u8>>,
}

impl KnownBytes {
    pub closed spec fn variants_seq(self) -> Seq<Vec<u8>> {
        self.variants@
    }

    pub fn new() -> (r: Self)
        ensures
            r.wf(),
            r.variants_seq().len() == known_bytes_list().len(),
            forall|i: int|
                0 <= i < known_bytes_list().len() ==> (#[trigger] r.variants_seq()[i])@
                    == known_bytes_list()[i],
    {
        let mut variants: Vec<Vec<u8>> = Vec::new();
        variants.push(vec![0x00]);
        variants.push(vec![0xff]);
        variants.push(vec![0x00, 0x00]);
        variants.push(vec![0xff, 0xff]);
        variants.push(vec![0x00, 0x00, 0x00, 0x00]);
        variants.push(vec![0xff, 0xff, 0xff, 0xff]);
        variants.push(vec![0x00, 0x00, 0x00, 0x00, 0x00, 0x00, 0x00, 0x00]);
        variants.push(vec![0xff, 0xff, 0xff, 0xff, 0xff, 0xff, 0xff, 0xff]);
        variants.push(vec![0x7f]);
        variants.push(vec![0x01]);
        variants.push(vec![0xf0]);
        variants.push(vec![0x00, 0x00, 0x00, 0x80]);
        variants.push(vec![0x00, 0x00, 0x00, 0x40]);
        let r = KnownBytes { variants };
        proof {
            assert forall|i: int|
                0 <= i < known_bytes_list().len() implies (#[trigger] r.variants@[i])@
                == known_bytes_list()[i] by {
                if i == 0 {
                    assert(r.variants@[0]@ =~= known_bytes_list()[0]);
                } else if i == 1 {
                    assert(r.variants@[1]@ =~= known_bytes_list()[1]);
                } else if i == 2 {
                    assert(r.variants@[2]@ =~= known_bytes_list()[2]);
                } else if i == 3 {
                    assert(r.variants@[3]@ =~= known_bytes_list()[3]);
                } else if i == 4 {
                    assert(r.variants@[4]@ =~= known_bytes_list()[4]);
                } else if i == 5 {
                    assert(r.variants@[5]@ =~= known_bytes_list()[5]);
                } else if i == 6 {
                    assert(r.variants@[6]@ =~= known_bytes_list()[6]);
                } else if i == 7 {
                    assert(r.variants@[7]@ =~= known_bytes_list()[7]);
                } else if i == 8 {
                    assert(r.variants@[8]@ =~= known_bytes_list()[8]);
                } else if i == 9 {
                    assert(r.variants@[9]@ =~= known_bytes_list()[9]);
                } else if i == 10 {
                    assert(r.variants@[10]@ =~= known_bytes_list()[10]);
                } else if i == 11 {
                    assert(r.variants@[11]@ =~= known_bytes_list()[11]);
                } else {
                    assert(r.variants@[12]@ =~= known_bytes_list()[12]);
                }
            }
        }
        r
    }
}

impl MutateBytes for KnownBytes {
    open spec fn wf(&self) -> bool {
        &&& self.variants_seq().len() > 0
        &&& forall|i: int|
            0 <= i < self.variants_seq().len() ==> 1 <= (#[trigger] self.variants_seq()[i])@.len()
                <= 8
    }

    fn mutate(&self, reference: &[u8], library: &[Sample]) -> (r: Patch)
        ensures
            known_bytes_patch_ok(*self, reference@, r),
    {
        if reference.len() == 0 {
            let mut c: Vec<u8> = Vec::new();
            c.push(0x00);
            proof {
                assert(c@ =~= seq![0u8]);
            }
            return Patch { position: 0, kind: PatchKind::Replacement(c) };
        }
        let item = rand_below(self.variants.len());
        let position = rand_below(reference.len());
        let source = &self.variants[item];
        let swap_endianness = rand_ratio(1, 2);
        let n = source.len();
        let mut content: Vec<u8> = Vec::new();
        if swap_endianness {
            let mut i = n;
            while i > 0
                invariant
                    i <= n,
                    n == source@.len(),
                    content@.len() == n - i,
                    forall|j: int|
                        0 <= j < content@.len() ==> #[trigger] content@[j] == source@[n - 1 - j],
                decreases i,
            {
                i -= 1;
                content.push(source[i]);
            }
            proof {
                assert(content@ =~= source@.reverse());
            }
        } else {
            let mut i: usize = 0;
            while i < n
                invariant
                    i <= n,
                    n == source@.len(),
                    content@ =~= source@.take(i as int),
                decreases n - i,
            {
                content.push(source[i]);
                proof {
                    assert(content@ =~= source@.take(i + 1));
                }
                i += 1;
            }
            proof {
                assert(content@ =~= source@);
            }
        }
        Patch { position, kind: PatchKind::Replacement(content) }
    }
}

/// Overwrites a random position with one to `max_size` uniform random
/// bytes.
pub struct Garbage {
    pub max_size: usize,
}

impl MutateBytes for Garbage {
    open spec fn wf(&self) -> bool {
        1 <= self.max_size <= MAX_MUTATION_SPAN
    }

    fn mutate(&self, reference: &[u8], library: &[Sample]) -> (r: Patch)
        ensures
            garbage_patch_ok(*self, reference@, r),
    {
        let size = 1 + rand_below(self.max_size);
        let mut content: Vec<u8> = Vec::new();
        let mut i: usize = 0;
        while i < size
            invariant
                i <= size,
                content@.len() == i,
            decreases size - i,
        {
            content.push(rand_byte());
            i += 1;
        }
        let position: usize = if reference.len() == 0 {
            0
        } else {
            rand_below(reference.len())
        };
        Patch { position, kind: PatchKind::Replacement(content) }
    }
}

/// Inserts a slice carved from a random nonempty corpus sample at a
/// random offset.  With no nonempty sample in the corpus the patch is an
/// empty replacement at offset zero, a documented no-op.
pub struct CopyFragment {
    pub max_size: usize,
}

impl MutateBytes for CopyFragment {
    open spec fn wf(&self) -> bool {
        1 <= self.max_size <= MAX_MUTATION_SPAN
    }

    #[verifier::loop_isolation(false)]
    fn mutate(&self, reference: &[u8], library: &[Sample]) -> (r: Patch)
        ensures
            copy_fragment_patch_ok(*self, reference@, library@, r),
    {
        let mut nonempty: Vec<usize> = Vec::new();
        let nlib = library.len();
        for i in 0..nlib
            invariant
                nlib == library@.len(),
                forall|j: int|
                    0 <= j < nonempty@.len() ==> (#[trigger] nonempty@[j]) < nlib && library@[
                    nonempty@[j] as int].folded().len() > 0,
                forall|j: int| 0 <= j < i && (#[trigger] library@[j]).folded().len() > 0 ==> exists|
                    k: int|
                    0 <= k < nonempty@.len() && nonempty@[k] == j,
        {
            if library[i].get_size_score() > 0 {
                let ghost old_ne = nonempty@;
                nonempty.push(i);
                proof {
                    assert forall|j: int|
                        0 <= j < i + 1 && (#[trigger] library@[j]).folded().len() > 0 implies exists|
                        k: int|
                        0 <= k < nonempty@.len() && nonempty@[k] == j by {
                        if j == i as int {
                            assert(nonempty@[nonempty@.len() - 1] == i as int);
                        } else {
                            let k = choose|k: int| 0 <= k < old_ne.len() && old_ne[k] == j;
                            assert(nonempty@[k] == j);
                        }
                    }
                }
            }
        }
        if nonempty.len() == 0 {
            proof {
                assert forall|i: int|
                    0 <= i < library@.len() implies (#[trigger] library@[i]).folded().len()
                    == 0 by {
                    if library@[i].folded().len() > 0 {
                        let k = choose|k: int|
                            0 <= k < nonempty@.len() && nonempty@[k] == i;
                        assert(false);
                    }
                }
            }
            return Patch { position: 0, kind: PatchKind::Replacement(Vec::new()) };
        }
        let pick = nonempty[rand_below(nonempty.len())];
        let item = library[pick].get_folded();
        let item_len = item.len();
        let cap = if item_len < self.max_size {
            item_len
        } else {
            self.max_size
        };
        let patch_size = 1 + rand_below(cap);
        let random_position = rand_below(item_len - patch_size + 1);
        let mut content: Vec<u8> = Vec::new();
        let mut i = random_position;
        while i < random_position + patch_size
            invariant
                random_position <= i <= random_position + patch_size,
                random_position + patch_size <= item@.len(),
                content@ =~= item@.subrange(random_position as int, i as int),
            decreases random_position + patch_size - i,
        {
            content.push(item[i]);
            proof {
                assert(content@ =~= item@.subrange(random_position as int, i + 1));
            }
            i += 1;
        }
        proof {
            assert(item@ == library@[pick as int].folded());
            assert(content@ == library@[pick as int].folded().subrange(
                random_position as int,
                random_position + patch_size,
            ));
        }
        let insertion_position: usize = if reference.len() == 0 {
            0
        } else {
            rand_below(reference.len())
        };
        Patch { position: insertion_position, kind: PatchKind::Insertion(content) }
    }
}

/// The byte-level operator family, dispatched by variant.
pub enum ByteMutator {
    BitFlip(BitFlip),
    Erasure(Erasure),
    KnownBytes(KnownBytes),
    Garbage(Garbage),
    CopyFragment(CopyFragment),
}

/// The outcome a byte operator guarantees, by variant.
pub open spec fn byte_patch_ok(
    m: ByteMutator,
    reference: Seq<u8>,
    library: Seq<Sample>,
    r: Patch,
) -> bool {
    match m {
        ByteMutator::BitFlip(_) => bitflip_patch_ok(reference, r),
        ByteMutator::Erasure(e) => erasure_patch_ok(e, reference, r),
        ByteMutator::KnownBytes(k) => known_bytes_patch_ok(k, reference, r),
        ByteMutator::Garbage(g) => garbage_patch_ok(g, reference, r),
        ByteMutator::CopyFragment(c) => copy_fragment_patch_ok(c, reference, library, r),
    }
}

impl ByteMutator {
    pub open spec fn wf(self) -> bool {
        match self {
            ByteMutator::BitFlip(m) => m.wf(),
            ByteMutator::Erasure(m) => m.wf(),
            ByteMutator::KnownBytes(m) => m.wf(),
            ByteMutator::Garbage(m) => m.wf(),
            ByteMutator::CopyFragment(m) => m.wf(),
        }
    }

    /// Dispatches to the operator's `mutate`.
    pub fn mutate(&self, reference: &[u8], library: &[Sample]) -> (r: Patch)
        requires
            self.wf(),
            reference_fits(reference@.len()),
        ensures
            patch_wf(r),
            byte_patch_ok(*self, reference@, library@, r),
    {
        match self {
            ByteMutator::BitFlip(m) => m.mutate(reference, library),
            ByteMutator::Erasure(m) => m.mutate(reference, library),
            ByteMutator::KnownBytes(m) => m.mutate(reference, library),
            ByteMutator::Garbage(m) => m.mutate(reference, library),
            ByteMutator::CopyFragment(m) => m.mutate(reference, library),
        }
    }
}

} // verus!
