//! The host allocator: an arena of byte buffers.
//!
//! Every buffer that crosses a stage boundary is stored here. Buffers are
//! handed out zero-initialized, identified by their index, and are never
//! freed individually: the arena keeps them alive until it is dropped, so
//! a payload produced by one stage stays valid for the rest of the run.

use vstd::prelude::*;

verus! {

/// How the arena's memory is backed. The backing strategy is fixed at
/// construction; it does not change what the allocator guarantees.
#[derive(Clone, Copy, Debug, PartialEq, Eq, Structural)]
pub enum AllocationType {
    File,
    Memory,
}

/// The arena. `mmaps` holds one entry per allocation, in allocation order.
pub struct ModuleAllocator {
    allocation_type: AllocationType,
    mmaps: Vec<Vec<u8>>,
}

/// The sum of the lengths of `buffers[0 .. n]`.
pub open spec fn spec_size_sum(buffers: Seq<Seq<u8>>) -> int
    decreases buffers.len(),
{
    if buffers.len() == 0 {
        0
    } else {
        spec_size_sum(buffers.drop_last()) + buffers.last().len()
    }
}

pub proof fn lemma_size_sum_nonneg(buffers: Seq<Seq<u8>>)
    ensures
        spec_size_sum(buffers) >= 0,
    decreases buffers.len(),
{
    if buffers.len() > 0 {
        lemma_size_sum_nonneg(buffers.drop_last());
    }
}

/// Appending one buffer adds its length to the sum.
pub proof fn lemma_size_sum_push(buffers: Seq<Seq<u8>>, b: Seq<u8>)
    ensures
        spec_size_sum(buffers.push(b)) == spec_size_sum(buffers) + b.len(),
{
    assert(buffers.push(b).drop_last() =~= buffers);
    assert(buffers.push(b).last() =~= b);
}

impl ModuleAllocator {
    /// The buffers held by the arena, oldest first.
    pub closed spec fn buffers(self) -> Seq<Seq<u8>> {
        self.mmaps.deep_view()
    }

    /// Total number of live allocated bytes.
    pub open spec fn spec_total_size(self) -> int {
        spec_size_sum(self.buffers())
    }

    pub closed spec fn spec_allocation_type(self) -> AllocationType {
        self.allocation_type
    }

    /// The arena never holds more bytes than a machine word can count.
    pub open spec fn wf(self) -> bool {
        self.spec_total_size() <= usize::MAX
    }

    /// `other` extends `self`: every already-allocated buffer is unchanged.
    pub open spec fn extends(self, other: ModuleAllocator) -> bool {
        &&& other.buffers().len() >= self.buffers().len()
        &&& forall|i: int|
            0 <= i < self.buffers().len() ==> other.buffers()[i] == self.buffers()[i]
        &&& other.spec_allocation_type() == self.spec_allocation_type()
    }

    pub fn new_default() -> (r: ModuleAllocator)
        ensures
            r.buffers() =~= Seq::<Seq<u8>>::empty(),
            r.spec_allocation_type() == AllocationType::Memory,
            r.wf(),
    {
        Self::new(AllocationType::Memory)
    }

    pub fn new(allocation_type: AllocationType) -> (r: ModuleAllocator)
        ensures
            r.buffers() =~= Seq::<Seq<u8>>::empty(),
            r.spec_allocation_type() == allocation_type,
            r.wf(),
    {
        let r = ModuleAllocator { allocation_type, mmaps: Vec::new() };
        proof {
            assert(r.buffers() =~= Seq::<Seq<u8>>::empty());
        }
        r
    }

    /// Total bytes currently allocated. Never decreases over the life of a
    /// run: allocations only accumulate.
    pub fn total_size(&self) -> (r: usize)
        requires
            self.wf(),
        ensures
            r == self.spec_total_size(),
    {
        let mut total: usize = 0;
        let mut i: usize = 0;
        proof {
            assert(self.buffers().take(0) =~= Seq::<Seq<u8>>::empty());
        }
        while i < self.mmaps.len()
            invariant
                0 <= i <= self.mmaps.len(),
                self.wf(),
                total == spec_size_sum(self.buffers().take(i as int)),
            decreases self.mmaps.len() - i,
        {
            proof {
                assert(self.buffers().take(i + 1).drop_last() =~= self.buffers().take(i as int));
                assert(self.buffers().take(i + 1).last() =~= self.buffers()[i as int]);
                lemma_size_sum_prefix_le(self.buffers(), i + 1);
                lemma_size_sum_nonneg(self.buffers().take(i as int));
            }
            total = total + self.mmaps[i].len();
            i = i + 1;
        }
        proof {
            assert(self.buffers().take(self.mmaps.len() as int) =~= self.buffers());
        }
        total
    }

    /// Allocate `size` zeroed bytes; returns the new buffer's index.
    ///
    /// The arena grows by exactly one buffer; all earlier buffers are
    /// untouched, and the total size never shrinks.
    pub fn allocate(&mut self, size: usize) -> (r: usize)
        requires
            old(self).wf(),
            old(self).spec_total_size() + size <= usize::MAX,
        ensures
            final(self).wf(),
            old(self).extends(*final(self)),
            r == old(self).buffers().len(),
            final(self).buffers() =~= old(self).buffers().push(Seq::new(size as nat, |i: int| 0u8)),
            final(self).spec_total_size() == old(self).spec_total_size() + size,
            final(self).spec_total_size() >= old(self).spec_total_size(),
    {
        let mut buf: Vec<u8> = Vec::new();
        let mut i: usize = 0;
        while i < size
            invariant
                0 <= i <= size,
                buf@.len() == i,
                forall|j: int| 0 <= j < i ==> buf@[j] == 0u8,
            decreases size - i,
        {
            buf.push(0u8);
            i = i + 1;
        }
        let id = self.mmaps.len();
        proof {
            assert(buf.deep_view() =~= Seq::new(size as nat, |i: int| 0u8));
            lemma_size_sum_push(self.buffers(), buf.deep_view());
        }
        self.mmaps.push(buf);
        proof {
            assert(self.buffers() =~= old(self).buffers().push(
                Seq::new(size as nat, |i: int| 0u8),
            ));
        }
        id
    }

    /// Overwrite buffer `id` with `bytes`, which must have the buffer's
    /// exact length. Used by the host to publish a stage's output into the
    /// memory it allocated for it. Leaves every other buffer and the total
    /// size unchanged.
    pub fn fill(&mut self, id: usize, bytes: &Vec<u8>)
        requires
            old(self).wf(),
            id < old(self).buffers().len(),
            bytes@.len() == old(self).buffers()[id as int].len(),
        ensures
            final(self).wf(),
            final(self).buffers() =~= old(self).buffers().update(id as int, bytes@),
            final(self).spec_total_size() == old(self).spec_total_size(),
            final(self).spec_allocation_type() == old(self).spec_allocation_type(),
    {
        let mut buf: Vec<u8> = Vec::new();
        let mut i: usize = 0;
        while i < bytes.len()
            invariant
                0 <= i <= bytes@.len(),
                buf@.len() == i,
                forall|j: int| 0 <= j < i ==> buf@[j] == bytes@[j],
            decreases bytes@.len() - i,
        {
            buf.push(bytes[i]);
            i = i + 1;
        }
        proof {
            assert(buf.deep_view() =~= bytes@);
        }
        self.mmaps.set(id, buf);
        proof {
            assert(self.buffers() =~= old(self).buffers().update(id as int, bytes@));
            lemma_size_sum_update_same_len(old(self).buffers(), id as int, bytes@);
        }
    }

    /// Read access to buffer `id`.
    pub fn buffer(&self, id: usize) -> (r: &Vec<u8>)
        requires
            id < self.buffers().len(),
        ensures
            r@ == self.buffers()[id as int],
    {
        &self.mmaps[id]
    }

    /// Number of buffers allocated so far.
    pub fn buffer_count(&self) -> (r: usize)
        ensures
            r == self.buffers().len(),
    {
        self.mmaps.len()
    }
}

/// The sum over a prefix is bounded by the sum over the whole sequence.
pub proof fn lemma_size_sum_prefix_le(buffers: Seq<Seq<u8>>, n: int)
    requires
        0 <= n <= buffers.len(),
    ensures
        spec_size_sum(buffers.take(n)) <= spec_size_sum(buffers),
    decreases buffers.len() - n,
{
    if n == buffers.len() {
        assert(buffers.take(n) =~= buffers);
    } else {
        lemma_size_sum_prefix_le(buffers, n + 1);
        assert(buffers.take(n + 1).drop_last() =~= buffers.take(n));
    }
}

/// Replacing a buffer with one of equal length keeps the sum.
proof fn lemma_size_sum_update_same_len(buffers: Seq<Seq<u8>>, i: int, b: Seq<u8>)
    requires
        0 <= i < buffers.len(),
        b.len() == buffers[i].len(),
    ensures
        spec_size_sum(buffers.update(i, b)) == spec_size_sum(buffers),
    decreases buffers.len(),
{
    let u = buffers.update(i, b);
    if i == buffers.len() - 1 {
        assert(u.drop_last() =~= buffers.drop_last());
        assert(u.last() =~= b);
    } else {
        assert(u.drop_last() =~= buffers.drop_last().update(i, b));
        assert(u.last() =~= buffers.last());
        lemma_size_sum_update_same_len(buffers.drop_last(), i, b);
    }
}

} // verus!
