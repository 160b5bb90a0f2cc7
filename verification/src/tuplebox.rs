//! The paging slot allocator.
//!
//! A [`TupleBox`] owns the backing storage of every tuple: a table of slots,
//! each holding one tuple's byte buffer together with its indirection record
//! ([`TuplePtr`]) — the stable address through which every outstanding
//! reference resolves, and the live-reference count that decides when the
//! slot's space may be reclaimed. Slot indices stay stable for a tuple's
//! logical lifetime; a freed slot is reused only once its count reached zero.

use vstd::bytes::spec_u64_to_le_bytes;
use vstd::bytes::u64_to_le_bytes;
use vstd::prelude::*;

use crate::layout::HEADER_SIZE;
use crate::RelationId;
use crate::TupleBoxError;

verus! {

/// Opaque locator of a tuple: the index of its slot in the allocator's table.
/// Stable for the tuple's logical lifetime even if the physical bytes are
/// rewritten in place.
#[derive(Clone, Copy, PartialEq, Eq, Structural, Debug)]
pub struct TupleId(pub usize);

/// The indirection record of one slot: the tuple's current physical bytes,
/// the relation it was allocated for, and the count of outstanding owning
/// references. Exactly one exists per live slot; it never moves, only the
/// buffer it holds may be rewritten.
pub struct TuplePtr {
    /// Whether the slot is live (allocated and not yet reclaimed).
    used: bool,
    /// Count of outstanding owning references; zero exactly when the slot is
    /// free.
    refcount: u64,
    /// The relation the slot was allocated for.
    relation_id: usize,
    /// The tuple's bytes: header, domain, codomain.
    buffer: Vec<u8>,
}

/// The slot allocator: a bounded table of slots. Allocation fails only when
/// every slot is live and the table cannot grow further.
pub struct TupleBox {
    slots: Vec<TuplePtr>,
    max_slots: usize,
}

impl TupleBox {
    /// Number of slots the table currently holds, live or free.
    pub closed spec fn num_slots(self) -> nat {
        self.slots@.len()
    }

    /// The capacity bound the allocator was created with.
    pub closed spec fn capacity(self) -> nat {
        self.max_slots as nat
    }

    /// Whether the slot at index `i` is marked live in the table.
    pub closed spec fn used_flag(self, i: int) -> bool {
        self.slots@[i].used
    }

    /// Whether slot `i` is live.
    pub open spec fn is_live(self, i: int) -> bool {
        0 <= i < self.num_slots() && self.used_flag(i)
    }

    /// The live-reference count of slot `i`.
    pub closed spec fn refcount_of(self, i: int) -> u64 {
        self.slots@[i].refcount
    }

    /// The byte buffer of slot `i`.
    pub closed spec fn buffer_of(self, i: int) -> Seq<u8> {
        self.slots@[i].buffer@
    }

    /// The relation slot `i` was allocated for.
    pub closed spec fn relation_of(self, i: int) -> usize {
        self.slots@[i].relation_id
    }

    /// Everything an observer can see of slot `i` is unchanged between `self`
    /// and `other`.
    pub open spec fn slot_unchanged(self, other: TupleBox, i: int) -> bool {
        &&& other.is_live(i) == self.is_live(i)
        &&& other.refcount_of(i) == self.refcount_of(i)
        &&& other.buffer_of(i) == self.buffer_of(i)
        &&& other.relation_of(i) == self.relation_of(i)
    }

    /// A slot is live exactly while its reference count is positive.
    pub closed spec fn wf(self) -> bool {
        &&& self.num_slots() <= self.capacity()
        &&& forall|i: int|
            0 <= i < self.num_slots() ==> (#[trigger] self.slots@[i].used <==> self.slots@[i].refcount
                >= 1)
    }

    /// Whether some free slot or room for a new one exists.
    pub open spec fn can_allocate(self) -> bool {
        self.num_slots() < self.capacity() || exists|i: int|
            0 <= i < self.num_slots() && !self.is_live(i)
    }

    /// A live slot of a well-formed allocator holds at least one outstanding
    /// reference: its space cannot be reclaimed under any holder.
    pub proof fn lemma_live_refcount(self, i: int)
        requires
            self.wf(),
            self.is_live(i),
        ensures
            self.refcount_of(i) >= 1,
    {
    }

    /// Create an allocator whose backing store can grow to `max_slots` slots.
    pub fn new(max_slots: usize) -> (r: TupleBox)
        ensures
            r.wf(),
            r.num_slots() == 0,
            r.capacity() == max_slots,
    {
        TupleBox { slots: Vec::new(), max_slots }
    }

    /// Reserve a slot holding `size` zeroed bytes for relation `relation_id`,
    /// with a reference count of one. Reuses a free slot when one exists,
    /// grows the table otherwise, and fails exactly when the backing store
    /// cannot grow: every slot live and the table at capacity.
    pub fn allocate(&mut self, size: usize, relation_id: RelationId) -> (r: Result<
        TupleId,
        TupleBoxError,
    >)
        requires
            old(self).wf(),
        ensures
            final(self).wf(),
            final(self).capacity() == old(self).capacity(),
            r is Ok <==> old(self).can_allocate(),
            r is Err ==> *final(self) == *old(self),
            r matches Ok(id) ==> {
                &&& id.0 < final(self).num_slots()
                &&& !old(self).is_live(id.0 as int)
                &&& final(self).is_live(id.0 as int)
                &&& final(self).refcount_of(id.0 as int) == 1
                &&& final(self).buffer_of(id.0 as int) == Seq::<u8>::new(
                    size as nat,
                    |j: int| 0u8,
                )
                &&& final(self).relation_of(id.0 as int) == relation_id.0
                &&& final(self).num_slots() >= old(self).num_slots()
                &&& forall|j: int|
                    0 <= j < old(self).num_slots() && j != id.0 ==> old(self).slot_unchanged(
                        *final(self),
                        j,
                    )
            },
    {
        let n = self.slots.len();
        let mut i: usize = 0;
        while i < n
            invariant
                *self == *old(self),
                self.wf(),
                n == self.slots@.len(),
                forall|j: int| 0 <= j < i ==> self.is_live(j),
            decreases n - i,
        {
            if !self.slots[i].used {
                assert(!old(self).is_live(i as int));
                assert(old(self).can_allocate());
                let buffer = vec_zeroed(size);
                let slot = &mut self.slots[i];
                slot.used = true;
                slot.refcount = 1;
                slot.relation_id = relation_id.0;
                slot.buffer = buffer;
                return Ok(TupleId(i));
            }
            i += 1;
        }
        if n < self.max_slots {
            let buffer = vec_zeroed(size);
            self.slots.push(
                TuplePtr { used: true, refcount: 1, relation_id: relation_id.0, buffer },
            );
            Ok(TupleId(n))
        } else {
            assert(!self.can_allocate());
            Err(TupleBoxError::BoxFull)
        }
    }

    /// Rewrite the whole byte buffer of a live slot in place.
    pub fn update_buffer(&mut self, id: TupleId, buffer: Vec<u8>)
        requires
            old(self).wf(),
            old(self).is_live(id.0 as int),
        ensures
            final(self).wf(),
            final(self).capacity() == old(self).capacity(),
            final(self).num_slots() == old(self).num_slots(),
            final(self).is_live(id.0 as int),
            final(self).refcount_of(id.0 as int) == old(self).refcount_of(id.0 as int),
            final(self).relation_of(id.0 as int) == old(self).relation_of(id.0 as int),
            final(self).buffer_of(id.0 as int) == buffer@,
            forall|j: int|
                0 <= j < old(self).num_slots() && j != id.0 ==> old(self).slot_unchanged(
                    *final(self),
                    j,
                ),
    {
        let slot = &mut self.slots[id.0];
        slot.buffer = buffer;
    }

    /// Rewrite the timestamp region of a live slot's buffer in place, leaving
    /// the rest of the buffer untouched.
    pub fn update_ts(&mut self, id: TupleId, ts: u64)
        requires
            old(self).wf(),
            old(self).is_live(id.0 as int),
            old(self).buffer_of(id.0 as int).len() >= HEADER_SIZE,
        ensures
            final(self).wf(),
            final(self).capacity() == old(self).capacity(),
            final(self).num_slots() == old(self).num_slots(),
            final(self).is_live(id.0 as int),
            final(self).refcount_of(id.0 as int) == old(self).refcount_of(id.0 as int),
            final(self).relation_of(id.0 as int) == old(self).relation_of(id.0 as int),
            final(self).buffer_of(id.0 as int) == spec_u64_to_le_bytes(ts) + old(self).buffer_of(
                id.0 as int,
            ).skip(8),
            forall|j: int|
                0 <= j < old(self).num_slots() && j != id.0 ==> old(self).slot_unchanged(
                    *final(self),
                    j,
                ),
    {
        let ts_bytes = u64_to_le_bytes(ts);
        let slot = &mut self.slots[id.0];
        let ghost old_slot = *slot;
        let ghost old_buf = slot.buffer@;
        let mut k: usize = 0;
        while k < 8
            invariant
                0 <= k <= 8,
                ts_bytes@ == spec_u64_to_le_bytes(ts),
                ts_bytes@.len() == 8,
                old_buf.len() >= HEADER_SIZE,
                slot.used == old_slot.used,
                slot.refcount == old_slot.refcount,
                slot.relation_id == old_slot.relation_id,
                slot.buffer@.len() == old_buf.len(),
                forall|j: int| 0 <= j < k ==> slot.buffer@[j] == ts_bytes@[j],
                forall|j: int| k <= j < old_buf.len() ==> slot.buffer@[j] == old_buf[j],
            decreases 8 - k,
        {
            let b = ts_bytes[k];
            slot.buffer[k] = b;
            k += 1;
        }
        assert(slot.buffer@ =~= spec_u64_to_le_bytes(ts) + old_buf.skip(8));
    }

    /// Read access to a live slot's bytes.
    pub fn buffer(&self, id: TupleId) -> (r: &Vec<u8>)
        requires
            self.wf(),
            self.is_live(id.0 as int),
        ensures
            r@ == self.buffer_of(id.0 as int),
    {
        &self.slots[id.0].buffer
    }

    /// Increment the live-reference count of a live slot.
    pub fn upcount(&mut self, id: TupleId)
        requires
            old(self).wf(),
            old(self).is_live(id.0 as int),
            old(self).refcount_of(id.0 as int) < u64::MAX,
        ensures
            final(self).wf(),
            final(self).capacity() == old(self).capacity(),
            final(self).num_slots() == old(self).num_slots(),
            final(self).is_live(id.0 as int),
            final(self).refcount_of(id.0 as int) == old(self).refcount_of(id.0 as int) + 1,
            final(self).buffer_of(id.0 as int) == old(self).buffer_of(id.0 as int),
            final(self).relation_of(id.0 as int) == old(self).relation_of(id.0 as int),
            forall|j: int|
                0 <= j < old(self).num_slots() && j != id.0 ==> old(self).slot_unchanged(
                    *final(self),
                    j,
                ),
    {
        let slot = &mut self.slots[id.0];
        slot.refcount = slot.refcount + 1;
    }

    /// Decrement the live-reference count of a live slot. When the count
    /// reaches zero the slot is freed: its space is reclaimable and the index
    /// may be reused by a later allocation.
    pub fn dncount(&mut self, id: TupleId)
        requires
            old(self).wf(),
            old(self).is_live(id.0 as int),
        ensures
            final(self).wf(),
            final(self).capacity() == old(self).capacity(),
            final(self).num_slots() == old(self).num_slots(),
            final(self).refcount_of(id.0 as int) == old(self).refcount_of(id.0 as int) - 1,
            final(self).is_live(id.0 as int) <==> old(self).refcount_of(id.0 as int) > 1,
            final(self).is_live(id.0 as int) ==> final(self).buffer_of(id.0 as int) == old(
                self,
            ).buffer_of(id.0 as int) && final(self).relation_of(id.0 as int) == old(
                self,
            ).relation_of(id.0 as int),
            forall|j: int|
                0 <= j < old(self).num_slots() && j != id.0 ==> old(self).slot_unchanged(
                    *final(self),
                    j,
                ),
    {
        let slot = &mut self.slots[id.0];
        slot.refcount = slot.refcount - 1;
        if slot.refcount == 0 {
            slot.used = false;
        }
    }
}

/// A vector of `n` zero bytes.
fn vec_zeroed(n: usize) -> (r: Vec<u8>)
    ensures
        r@ == Seq::<u8>::new(n as nat, |j: int| 0u8),
{
    let mut r: Vec<u8> = Vec::new();
    let mut i: usize = 0;
    while i < n
        invariant
            0 <= i <= n,
            r@ =~= Seq::<u8>::new(i as nat, |j: int| 0u8),
        decreases n - i,
    {
        r.push(0u8);
        i += 1;
    }
    assert(r@ =~= Seq::<u8>::new(n as nat, |j: int| 0u8));
    r
}

} // verus!
