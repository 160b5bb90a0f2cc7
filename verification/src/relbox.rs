//! Relations, transactions and the top-level store handle.
//!
//! A [`RelBox`] owns the shared paging allocator and the canonical state of
//! every logical relation: a mapping from domain bytes to one committed tuple,
//! unique by domain, each entry stamped with the timestamp of the commit that
//! published it. A [`Transaction`] holds a start snapshot (entries committed
//! before it are visible, later ones are not), a per-relation working set of
//! pending inserts and recorded reads, and at commit validates those records
//! against the canonical state: if any touched domain — or any relation it
//! scanned — was committed to at or after its snapshot, the transaction
//! aborts with a serialization conflict; otherwise every pending insert is
//! published atomically at one fresh commit timestamp.

use vstd::bytes::spec_u64_to_le_bytes;
use vstd::prelude::*;
use vstd::slice::slice_to_vec;

use crate::layout::spec_codomain_of;
use crate::layout::spec_domain_of;
use crate::layout::spec_ts_of;
use crate::layout::wf_tuple;
use crate::layout::HEADER_SIZE;
use crate::tuple_ref::TupleRef;
use crate::tuplebox::TupleBox;
use crate::CommitError;
use crate::RelationError;
use crate::RelationId;

verus! {

/// One committed entry of a relation: the unique domain key, the owning
/// reference that keeps the tuple's slot alive, and the timestamp of the
/// commit that published it.
struct RelationEntry {
    domain: Vec<u8>,
    tref: TupleRef,
    write_ts: u64,
}

/// A logical table: the canonical committed tuples of one relation id, unique
/// by domain.
pub struct Relation {
    entries: Vec<RelationEntry>,
}

/// The top-level store handle: the shared paging allocator, the canonical
/// relations, and the next commit timestamp to hand out.
pub struct RelBox {
    tuplebox: TupleBox,
    relations: Vec<Relation>,
    next_ts: u64,
}

impl RelBox {
    /// The state of the paging allocator this store owns.
    pub closed spec fn tb(self) -> TupleBox {
        self.tuplebox
    }

    /// The next commit timestamp to be handed out; every committed entry is
    /// stamped strictly below it.
    pub closed spec fn next_ts(self) -> u64 {
        self.next_ts
    }

    /// Number of logical relations the store holds.
    pub closed spec fn num_relations(self) -> nat {
        self.relations@.len()
    }

    /// Number of committed entries of relation `r`.
    pub closed spec fn num_entries(self, r: int) -> nat {
        self.relations@[r].entries@.len()
    }

    /// The domain key of entry `k` of relation `r`.
    pub closed spec fn entry_domain(self, r: int, k: int) -> Seq<u8> {
        self.relations@[r].entries@[k].domain@
    }

    /// The slot of entry `k` of relation `r`.
    pub closed spec fn entry_slot(self, r: int, k: int) -> int {
        self.relations@[r].entries@[k].tref.ptr()
    }

    /// The commit timestamp of entry `k` of relation `r`.
    pub closed spec fn entry_ts(self, r: int, k: int) -> u64 {
        self.relations@[r].entries@[k].write_ts
    }

    /// The codomain bytes of entry `k` of relation `r`, read through its slot.
    pub open spec fn entry_codomain(self, r: int, k: int) -> Seq<u8> {
        spec_codomain_of(self.tb().buffer_of(self.entry_slot(r, k)))
    }

    /// Entry `k` of relation `r` is internally consistent: its slot is live
    /// and holds a well-formed tuple whose domain and timestamp agree with
    /// the entry, stamped strictly below the next commit timestamp.
    pub open spec fn entry_ok(self, r: int, k: int) -> bool {
        &&& self.tb().is_live(self.entry_slot(r, k))
        &&& wf_tuple(self.tb().buffer_of(self.entry_slot(r, k)))
        &&& spec_domain_of(self.tb().buffer_of(self.entry_slot(r, k))) == self.entry_domain(r, k)
        &&& spec_ts_of(self.tb().buffer_of(self.entry_slot(r, k))) == self.entry_ts(r, k)
        &&& self.entry_ts(r, k) < self.next_ts()
    }

    /// The store's invariant: a well-formed allocator, every entry consistent,
    /// and domains unique within each relation.
    pub open spec fn wf(self) -> bool {
        &&& self.tb().wf()
        &&& self.next_ts() >= 1
        &&& forall|r: int, k: int|
            0 <= r < self.num_relations() && 0 <= k < self.num_entries(r)
                ==> #[trigger] self.entry_ok(r, k)
        &&& forall|r: int, k1: int, k2: int|
            0 <= r < self.num_relations() && 0 <= k1 < self.num_entries(r) && 0 <= k2
                < self.num_entries(r) && k1 != k2 ==> #[trigger] self.entry_domain(r, k1)
                != #[trigger] self.entry_domain(r, k2)
    }

    /// Some committed entry of relation `r` has domain `d`.
    pub open spec fn has_committed(self, r: int, d: Seq<u8>) -> bool {
        exists|k: int| 0 <= k < self.num_entries(r) && #[trigger] self.entry_domain(r, k) == d
    }

    /// The index of the committed entry of relation `r` with domain `d`.
    pub open spec fn committed_index(self, r: int, d: Seq<u8>) -> int {
        choose|k: int| 0 <= k < self.num_entries(r) && #[trigger] self.entry_domain(r, k) == d
    }

    /// The commit timestamp of the entry of relation `r` with domain `d`.
    pub open spec fn committed_ts(self, r: int, d: Seq<u8>) -> u64 {
        self.entry_ts(r, self.committed_index(r, d))
    }

    /// The codomain of the entry of relation `r` with domain `d`.
    pub open spec fn committed_codomain(self, r: int, d: Seq<u8>) -> Seq<u8> {
        self.entry_codomain(r, self.committed_index(r, d))
    }

    /// Domain `d` of relation `r` carries a commit visible to a snapshot
    /// taken at `snap`: one stamped strictly before it.
    pub open spec fn visible_at(self, r: int, d: Seq<u8>, snap: u64) -> bool {
        self.has_committed(r, d) && self.committed_ts(r, d) < snap
    }

    /// Domain `d` of relation `r` was committed to at or after `snap`: the
    /// conflict test for a transaction whose snapshot is `snap`.
    pub open spec fn committed_after(self, r: int, d: Seq<u8>, snap: u64) -> bool {
        self.has_committed(r, d) && self.committed_ts(r, d) >= snap
    }

    /// Some entry of relation `r` was committed at or after `snap`.
    pub open spec fn any_committed_after(self, r: int, snap: u64) -> bool {
        exists|k: int| 0 <= k < self.num_entries(r) && #[trigger] self.entry_ts(r, k) >= snap
    }

    /// Some committed entry of the store resolves through slot `s`.
    pub open spec fn canonical_uses(self, s: int) -> bool {
        exists|r: int, k: int|
            0 <= r < self.num_relations() && 0 <= k < self.num_entries(r)
                && #[trigger] self.entry_slot(r, k) == s
    }

    /// The canonical relation state of `self` and `other` coincide: same
    /// relations, same entries, entry for entry.
    pub open spec fn rels_unchanged(self, other: RelBox) -> bool {
        &&& other.num_relations() == self.num_relations()
        &&& forall|r: int|
            0 <= r < self.num_relations() ==> #[trigger] other.num_entries(r)
                == self.num_entries(r)
        &&& forall|r: int, k: int|
            #![trigger other.entry_domain(r, k)]
            #![trigger other.entry_slot(r, k)]
            #![trigger other.entry_ts(r, k)]
            0 <= r < self.num_relations() && 0 <= k < self.num_entries(r) ==> {
                &&& other.entry_domain(r, k) == self.entry_domain(r, k)
                &&& other.entry_slot(r, k) == self.entry_slot(r, k)
                &&& other.entry_ts(r, k) == self.entry_ts(r, k)
            }
    }

    /// Create a store with `num_relations` empty relations over a fresh
    /// allocator that can grow to `max_slots` slots.
    pub fn new(num_relations: usize, max_slots: usize) -> (r: RelBox)
        ensures
            r.wf(),
            r.num_relations() == num_relations,
            r.next_ts() == 1,
            r.tb().capacity() == max_slots,
            r.tb().num_slots() == 0,
            forall|i: int| 0 <= i < num_relations ==> #[trigger] r.num_entries(i) == 0,
    {
        let mut relations: Vec<Relation> = Vec::new();
        let mut i: usize = 0;
        while i < num_relations
            invariant
                0 <= i <= num_relations,
                relations@.len() == i,
                forall|j: int| 0 <= j < i ==> #[trigger] relations@[j].entries@.len() == 0,
            decreases num_relations - i,
        {
            let empty_rel = Relation { entries: Vec::new() };
            let ghost rels_prev = relations@;
            let ghost er = empty_rel;
            relations.push(empty_rel);
            proof {
                assert forall|j: int|
                    0 <= j < i + 1 implies #[trigger] relations@[j].entries@.len() == 0 by {
                    if j < i {
                        assert(relations@[j] == rels_prev[j]);
                        assert(rels_prev[j].entries@.len() == 0);
                    } else {
                        assert(relations@[j] == er);
                    }
                }
            }
            i += 1;
        }
        RelBox { tuplebox: TupleBox::new(max_slots), relations, next_ts: 1 }
    }

    /// Read access to the paging allocator, for resolving tuple references.
    pub fn tuplebox(&self) -> (r: &TupleBox)
        ensures
            *r == self.tb(),
    {
        &self.tuplebox
    }

    /// Give up one ownership share of a tuple through the store. The caller
    /// vouches that the share is its own: beyond any share a committed entry
    /// of the store holds.
    pub fn release(&mut self, t: &TupleRef)
        requires
            old(self).wf(),
            old(self).tb().is_live(t.ptr()),
            old(self).canonical_uses(t.ptr()) ==> old(self).tb().refcount_of(t.ptr()) >= 2,
        ensures
            final(self).wf(),
            final(self).rels_unchanged(*old(self)),
            final(self).next_ts() == old(self).next_ts(),
            final(self).tb().num_slots() == old(self).tb().num_slots(),
            final(self).tb().capacity() == old(self).tb().capacity(),
            final(self).tb().refcount_of(t.ptr()) == old(self).tb().refcount_of(t.ptr()) - 1,
            final(self).tb().is_live(t.ptr()) <==> old(self).tb().refcount_of(t.ptr()) > 1,
            forall|j: int|
                0 <= j < old(self).tb().num_slots() && j != t.ptr() ==> old(
                    self,
                ).tb().slot_unchanged(final(self).tb(), j),
    {
        t.dncount(&mut self.tuplebox);
        assert forall|r: int, k: int|
            0 <= r < self.num_relations() && 0 <= k < self.num_entries(r) implies #[trigger] self.entry_ok(
            r,
            k,
        ) by {
            assert(old(self).entry_ok(r, k));
            if self.entry_slot(r, k) == t.ptr() {
                assert(old(self).canonical_uses(t.ptr()));
            } else {
                assert(old(self).tb().slot_unchanged(self.tb(), self.entry_slot(r, k)));
            }
        }
        assert forall|r: int, k1: int, k2: int|
            0 <= r < self.num_relations() && 0 <= k1 < self.num_entries(r) && 0 <= k2
                < self.num_entries(r) && k1 != k2 implies #[trigger] self.entry_domain(r, k1)
            != #[trigger] self.entry_domain(r, k2) by {
            assert(old(self).entry_domain(r, k1) != old(self).entry_domain(r, k2));
        }
    }

    /// Begin a transaction whose snapshot boundary is the store's current
    /// commit timestamp: every commit already published is visible to it,
    /// every later one is not.
    pub fn start_tx(&self) -> (tx: Transaction)
        requires
            self.wf(),
        ensures
            tx.wf(*self),
            tx.is_active(),
            tx.start_ts() == self.next_ts(),
            tx.fresh(),
    {
        let mut working: Vec<WorkingSet> = Vec::new();
        let n = self.relations.len();
        let mut i: usize = 0;
        while i < n
            invariant
                0 <= i <= n,
                working@.len() == i,
                forall|j: int| 0 <= j < i ==> #[trigger] working@[j].inserts@.len() == 0,
                forall|j: int| 0 <= j < i ==> #[trigger] working@[j].reads@.len() == 0,
                forall|j: int| 0 <= j < i ==> !(#[trigger] working@[j].scanned),
            decreases n - i,
        {
            working.push(WorkingSet { inserts: Vec::new(), reads: Vec::new(), scanned: false });
            i += 1;
        }
        Transaction { start_ts: self.next_ts, state: TxState::Active, working }
    }
}

/// One pending insert of a transaction's working set: the domain key and the
/// owning reference to the not-yet-published tuple.
struct PendingInsert {
    domain: Vec<u8>,
    tref: TupleRef,
}

/// The working set a transaction keeps for one relation: pending inserts,
/// the domains it read or sought, and whether it scanned the whole relation.
struct WorkingSet {
    inserts: Vec<PendingInsert>,
    reads: Vec<Vec<u8>>,
    scanned: bool,
}

/// The lifecycle of a transaction: active until it commits or aborts; both
/// end states are terminal.
#[derive(Clone, Copy, PartialEq, Eq, Structural, Debug)]
pub enum TxState {
    Active,
    Committed,
    Aborted,
}

/// A unit of isolation over one store: a snapshot boundary, a working set of
/// buffered writes not yet visible to others, and a record of every domain
/// read, validated against concurrent commits when the transaction ends.
pub struct Transaction {
    start_ts: u64,
    state: TxState,
    working: Vec<WorkingSet>,
}

impl Transaction {
    /// The snapshot boundary: commits stamped strictly before it are visible.
    pub closed spec fn start_ts(self) -> u64 {
        self.start_ts
    }

    /// The lifecycle state.
    pub closed spec fn state(self) -> TxState {
        self.state
    }

    /// The transaction can still read, write, commit or roll back.
    pub open spec fn is_active(self) -> bool {
        self.state() is Active
    }

    /// Number of per-relation working sets (one per relation of the store).
    pub closed spec fn num_ws(self) -> nat {
        self.working@.len()
    }

    /// Number of pending inserts for relation `r`.
    pub closed spec fn num_pending(self, r: int) -> nat {
        self.working@[r].inserts@.len()
    }

    /// The domain of pending insert `k` for relation `r`.
    pub closed spec fn pending_domain(self, r: int, k: int) -> Seq<u8> {
        self.working@[r].inserts@[k].domain@
    }

    /// The slot of pending insert `k` for relation `r`.
    pub closed spec fn pending_slot(self, r: int, k: int) -> int {
        self.working@[r].inserts@[k].tref.ptr()
    }

    /// Number of recorded reads for relation `r`.
    pub closed spec fn num_reads(self, r: int) -> nat {
        self.working@[r].reads@.len()
    }

    /// The domain of recorded read `k` for relation `r`.
    pub closed spec fn read_domain(self, r: int, k: int) -> Seq<u8> {
        self.working@[r].reads@[k]@
    }

    /// Whether the transaction scanned the whole of relation `r`.
    pub closed spec fn scanned(self, r: int) -> bool {
        self.working@[r].scanned
    }

    /// The transaction has recorded nothing yet.
    pub open spec fn fresh(self) -> bool {
        forall|r: int|
            0 <= r < self.num_ws() ==> #[trigger] self.num_pending(r) == 0 && self.num_reads(r)
                == 0 && !self.scanned(r)
    }

    /// The transaction holds a pending insert for domain `d` of relation `r`.
    pub open spec fn pending_has(self, r: int, d: Seq<u8>) -> bool {
        exists|k: int| 0 <= k < self.num_pending(r) && #[trigger] self.pending_domain(r, k) == d
    }

    /// The index of the pending insert for domain `d` of relation `r`.
    pub open spec fn pending_index(self, r: int, d: Seq<u8>) -> int {
        choose|k: int| 0 <= k < self.num_pending(r) && #[trigger] self.pending_domain(r, k) == d
    }

    /// The codomain the transaction's own pending insert for domain `d` of
    /// relation `r` carries, read through its slot.
    pub open spec fn pending_codomain(self, rb: RelBox, r: int, d: Seq<u8>) -> Seq<u8> {
        spec_codomain_of(rb.tb().buffer_of(self.pending_slot(r, self.pending_index(r, d))))
    }

    /// The transaction recorded a read of domain `d` of relation `r`.
    pub open spec fn read_has(self, r: int, d: Seq<u8>) -> bool {
        exists|k: int| 0 <= k < self.num_reads(r) && #[trigger] self.read_domain(r, k) == d
    }

    /// The transaction touched domain `d` of relation `r`: it read it, or it
    /// holds a pending insert for it.
    pub open spec fn touched(self, r: int, d: Seq<u8>) -> bool {
        self.pending_has(r, d) || self.read_has(r, d)
    }

    /// Validation of relation `r` against the store: no domain this
    /// transaction touched was committed to at or after its snapshot, and if
    /// it scanned the relation, nothing at all was.
    pub open spec fn validation_ok_at(self, rb: RelBox, r: int) -> bool {
        &&& forall|d: Seq<u8>| #[trigger] self.touched(r, d) ==> !rb.committed_after(
            r,
            d,
            self.start_ts(),
        )
        &&& self.scanned(r) ==> !rb.any_committed_after(r, self.start_ts())
    }

    /// Commit-time validation: every relation the transaction touched or
    /// scanned is free of conflicting commits since its snapshot.
    pub open spec fn validation_ok(self, rb: RelBox) -> bool {
        forall|r: int| 0 <= r < self.num_ws() ==> #[trigger] self.validation_ok_at(rb, r)
    }

    /// Some pending insert of a relation before `r` holds slot `j`.
    pub open spec fn pending_slot_in_prefix(self, j: int, r: int) -> bool {
        exists|r2: int, k: int|
            0 <= r2 < r && 0 <= k < self.num_pending(r2) && #[trigger] self.pending_slot(r2, k)
                == j
    }

    /// Some pending insert of the transaction holds slot `j`.
    pub open spec fn is_pending_slot(self, j: int) -> bool {
        self.pending_slot_in_prefix(j, self.num_ws() as int)
    }

    /// Pending insert `k` for relation `r` is internally consistent against
    /// the store: a live, well-formed, not-yet-stamped tuple whose domain
    /// agrees with the record, absent from the transaction's snapshot, in a
    /// slot no committed entry and no other pending insert resolves through.
    pub open spec fn pending_ok(self, rb: RelBox, r: int, k: int) -> bool {
        &&& rb.tb().is_live(self.pending_slot(r, k))
        &&& wf_tuple(rb.tb().buffer_of(self.pending_slot(r, k)))
        &&& spec_domain_of(rb.tb().buffer_of(self.pending_slot(r, k))) == self.pending_domain(r, k)
        &&& spec_ts_of(rb.tb().buffer_of(self.pending_slot(r, k))) == 0
        &&& !rb.visible_at(r, self.pending_domain(r, k), self.start_ts())
        &&& !rb.canonical_uses(self.pending_slot(r, k))
    }

    /// The transaction's invariant against the store it runs over.
    pub open spec fn wf(self, rb: RelBox) -> bool {
        &&& self.num_ws() == rb.num_relations()
        &&& 1 <= self.start_ts() <= rb.next_ts()
        &&& forall|r: int, k: int|
            0 <= r < self.num_ws() && 0 <= k < self.num_pending(r) ==> #[trigger] self.pending_ok(
                rb,
                r,
                k,
            )
        &&& forall|r: int, k1: int, k2: int|
            0 <= r < self.num_ws() && 0 <= k1 < self.num_pending(r) && 0 <= k2 < self.num_pending(
                r,
            ) && k1 != k2 ==> #[trigger] self.pending_domain(r, k1)
                != #[trigger] self.pending_domain(r, k2)
        &&& forall|r1: int, k1: int, r2: int, k2: int|
            0 <= r1 < self.num_ws() && 0 <= k1 < self.num_pending(r1) && 0 <= r2 < self.num_ws()
                && 0 <= k2 < self.num_pending(r2) && (r1 != r2 || k1 != k2)
                ==> #[trigger] self.pending_slot(r1, k1) != #[trigger] self.pending_slot(r2, k2)
    }

    /// What the transaction sees for domain `d` of relation `r`: its own
    /// pending write first, else the committed entry visible to its snapshot,
    /// else nothing.
    pub open spec fn sees(self, rb: RelBox, r: int, d: Seq<u8>) -> Option<Seq<u8>> {
        if self.pending_has(r, d) {
            Some(self.pending_codomain(rb, r, d))
        } else if rb.visible_at(r, d, self.start_ts()) {
            Some(rb.committed_codomain(r, d))
        } else {
            None
        }
    }

    /// The pending inserts recorded for relation `r` coincide in `self` and
    /// `other`.
    pub open spec fn pending_same_at(self, other: Transaction, r: int) -> bool {
        &&& other.num_pending(r) == self.num_pending(r)
        &&& forall|k: int|
            #![trigger other.pending_domain(r, k)]
            #![trigger other.pending_slot(r, k)]
            0 <= k < self.num_pending(r) ==> other.pending_domain(r, k) == self.pending_domain(
                r,
                k,
            ) && other.pending_slot(r, k) == self.pending_slot(r, k)
    }

    /// The recorded reads for relation `r` coincide in `self` and `other`.
    pub open spec fn reads_same_at(self, other: Transaction, r: int) -> bool {
        &&& other.num_reads(r) == self.num_reads(r)
        &&& forall|k: int|
            0 <= k < self.num_reads(r) ==> #[trigger] other.read_domain(r, k) == self.read_domain(
                r,
                k,
            )
    }

    /// The whole working set for relation `r` coincides in `self` and `other`.
    pub open spec fn ws_same_at(self, other: Transaction, r: int) -> bool {
        &&& self.pending_same_at(other, r)
        &&& self.reads_same_at(other, r)
        &&& other.scanned(r) == self.scanned(r)
    }

    /// Find the pending insert for domain `d` of relation `r`, if any.
    fn find_pending(&self, r: usize, d: &[u8]) -> (res: Option<usize>)
        requires
            r < self.num_ws(),
        ensures
            res matches Some(k) ==> 0 <= k < self.num_pending(r as int) && self.pending_domain(
                r as int,
                k as int,
            ) == d@,
            res is None ==> !self.pending_has(r as int, d@),
    {
        let inserts = &self.working[r].inserts;
        let n = inserts.len();
        let mut i: usize = 0;
        while i < n
            invariant
                r < self.num_ws(),
                n == self.num_pending(r as int),
                inserts@ == self.working@[r as int].inserts@,
                0 <= i <= n,
                forall|k: int| 0 <= k < i ==> #[trigger] self.pending_domain(r as int, k) != d@,
            decreases n - i,
        {
            if crate::tuple_ref::bytes_eq(inserts[i].domain.as_slice(), d) {
                return Some(i);
            }
            i += 1;
        }
        None
    }

    /// Record that this transaction read domain `d` of relation `r`.
    fn record_read(&mut self, r: usize, d: &[u8])
        requires
            r < old(self).num_ws(),
        ensures
            final(self).num_ws() == old(self).num_ws(),
            final(self).start_ts() == old(self).start_ts(),
            final(self).state() == old(self).state(),
            final(self).read_has(r as int, d@),
            final(self).num_reads(r as int) == old(self).num_reads(r as int) + 1,
            forall|k: int|
                0 <= k < old(self).num_reads(r as int) ==> #[trigger] final(self).read_domain(
                    r as int,
                    k,
                ) == old(self).read_domain(r as int, k),
            final(self).read_domain(r as int, old(self).num_reads(r as int) as int) == d@,
            forall|r2: int|
                0 <= r2 < old(self).num_ws() ==> #[trigger] old(self).pending_same_at(
                    *final(self),
                    r2,
                ),
            forall|r2: int|
                0 <= r2 < old(self).num_ws() ==> #[trigger] final(self).scanned(r2) == old(
                    self,
                ).scanned(r2),
            forall|r2: int|
                0 <= r2 < old(self).num_ws() && r2 != r ==> #[trigger] old(self).reads_same_at(
                    *final(self),
                    r2,
                ),
    {
        let dvec = slice_to_vec(d);
        let ws = &mut self.working[r];
        ws.reads.push(dvec);
        assert(self.read_domain(r as int, old(self).num_reads(r as int) as int) == d@);
        assert(self.read_has(r as int, d@));
    }
}

impl RelBox {
    /// Find the committed entry of relation `r` with domain `d` visible at
    /// snapshot `snap`, if any.
    fn find_visible(&self, r: usize, d: &[u8], snap: u64) -> (res: Option<usize>)
        requires
            self.wf(),
            r < self.num_relations(),
        ensures
            res matches Some(k) ==> 0 <= k < self.num_entries(r as int) && self.entry_domain(
                r as int,
                k as int,
            ) == d@ && self.entry_ts(r as int, k as int) < snap && self.visible_at(
                r as int,
                d@,
                snap,
            ) && self.committed_index(r as int, d@) == k,
            res is None ==> !self.visible_at(r as int, d@, snap),
    {
        let entries = &self.relations[r].entries;
        let n = entries.len();
        let mut i: usize = 0;
        while i < n
            invariant
                self.wf(),
                r < self.num_relations(),
                n == self.num_entries(r as int),
                entries@ == self.relations@[r as int].entries@,
                0 <= i <= n,
                forall|k: int|
                    0 <= k < i ==> !(#[trigger] self.entry_domain(r as int, k) == d@
                        && self.entry_ts(r as int, k) < snap),
            decreases n - i,
        {
            if crate::tuple_ref::bytes_eq(entries[i].domain.as_slice(), d) && entries[i].write_ts
                < snap {
                assert(self.entry_domain(r as int, i as int) == d@);
                assert(self.has_committed(r as int, d@));
                proof {
                    let ci = self.committed_index(r as int, d@);
                    assert(self.entry_domain(r as int, ci) == d@);
                    assert(ci == i as int);
                }
                return Some(i);
            }
            i += 1;
        }
        proof {
            if self.visible_at(r as int, d@, snap) {
                let ci = self.committed_index(r as int, d@);
                assert(self.entry_domain(r as int, ci) == d@ && self.entry_ts(r as int, ci)
                    < snap);
            }
        }
        None
    }

    /// Whether any commit at or after snapshot `snap` touched domain `d` of
    /// relation `r`: the per-domain conflict test.
    fn find_conflict(&self, r: usize, d: &[u8], snap: u64) -> (res: bool)
        requires
            self.wf(),
            r < self.num_relations(),
        ensures
            res <==> self.committed_after(r as int, d@, snap),
    {
        let entries = &self.relations[r].entries;
        let n = entries.len();
        let mut i: usize = 0;
        while i < n
            invariant
                self.wf(),
                r < self.num_relations(),
                n == self.num_entries(r as int),
                entries@ == self.relations@[r as int].entries@,
                0 <= i <= n,
                forall|k: int|
                    0 <= k < i ==> !(#[trigger] self.entry_domain(r as int, k) == d@
                        && self.entry_ts(r as int, k) >= snap),
            decreases n - i,
        {
            if crate::tuple_ref::bytes_eq(entries[i].domain.as_slice(), d) && entries[i].write_ts
                >= snap {
                assert(self.entry_domain(r as int, i as int) == d@);
                assert(self.has_committed(r as int, d@));
                proof {
                    let ci = self.committed_index(r as int, d@);
                    assert(self.entry_domain(r as int, ci) == d@);
                    assert(ci == i as int);
                }
                return true;
            }
            i += 1;
        }
        proof {
            if self.committed_after(r as int, d@, snap) {
                let ci = self.committed_index(r as int, d@);
                assert(self.entry_domain(r as int, ci) == d@ && self.entry_ts(r as int, ci)
                    >= snap);
            }
        }
        false
    }
}

impl Transaction {
    /// Buffer an insert of `(domain, codomain)` into relation `rid`: visible
    /// to this transaction's own reads at once, to nobody else before commit.
    /// Fails with a duplicate-key error when an entry for `domain` is already
    /// visible in this transaction's view, and with an out-of-space error when
    /// the backing store cannot grow. On success the returned reference is a
    /// second ownership share of the pending tuple, beside the one the working
    /// set holds.
    pub fn insert_tuple(
        &mut self,
        rb: &mut RelBox,
        rid: RelationId,
        domain: &[u8],
        codomain: &[u8],
    ) -> (res: Result<TupleRef, RelationError>)
        requires
            old(rb).wf(),
            old(self).wf(*old(rb)),
            old(self).is_active(),
            rid.0 < old(rb).num_relations(),
            domain@.len() <= u32::MAX,
            codomain@.len() <= u32::MAX,
            HEADER_SIZE + domain@.len() + codomain@.len() <= usize::MAX,
        ensures
            final(rb).wf(),
            final(self).wf(*final(rb)),
            final(self).is_active(),
            final(self).start_ts() == old(self).start_ts(),
            final(rb).next_ts() == old(rb).next_ts(),
            old(rb).rels_unchanged(*final(rb)),
            old(self).sees(*old(rb), rid.0 as int, domain@) is Some ==> res == Err::<
                TupleRef,
                RelationError,
            >(RelationError::DuplicateKey) && *final(rb) == *old(rb) && *final(self) == *old(self),
            old(self).sees(*old(rb), rid.0 as int, domain@) is None && !old(
                rb,
            ).tb().can_allocate() ==> res == Err::<TupleRef, RelationError>(
                RelationError::OutOfSpace,
            ) && *final(rb) == *old(rb) && *final(self) == *old(self),
            old(self).sees(*old(rb), rid.0 as int, domain@) is None && old(rb).tb().can_allocate()
                ==> res is Ok,
            res matches Ok(t) ==> {
                &&& t.valid(final(rb).tb())
                &&& !old(rb).tb().is_live(t.ptr())
                &&& final(rb).tb().refcount_of(t.ptr()) == 2
                &&& t.spec_domain(final(rb).tb()) == domain@
                &&& t.spec_codomain(final(rb).tb()) == codomain@
                &&& t.spec_ts(final(rb).tb()) == 0
                &&& final(self).pending_has(rid.0 as int, domain@)
                &&& final(self).sees(*final(rb), rid.0 as int, domain@) == Some(codomain@)
                &&& final(self).num_pending(rid.0 as int) == old(self).num_pending(rid.0 as int)
                    + 1
                &&& final(self).pending_domain(
                    rid.0 as int,
                    old(self).num_pending(rid.0 as int) as int,
                ) == domain@
                &&& final(self).pending_slot(
                    rid.0 as int,
                    old(self).num_pending(rid.0 as int) as int,
                ) == t.ptr()
                &&& forall|k: int|
                    0 <= k < old(self).num_pending(rid.0 as int)
                        ==> #[trigger] final(self).pending_domain(rid.0 as int, k) == old(
                        self,
                    ).pending_domain(rid.0 as int, k) && final(self).pending_slot(rid.0 as int, k)
                        == old(self).pending_slot(rid.0 as int, k)
                &&& forall|r2: int|
                    0 <= r2 < old(self).num_ws() && r2 != rid.0 ==> old(self).ws_same_at(
                        *final(self),
                        r2,
                    )
                &&& old(self).reads_same_at(*final(self), rid.0 as int)
                &&& final(self).scanned(rid.0 as int) == old(self).scanned(rid.0 as int)
                &&& forall|j: int|
                    0 <= j < old(rb).tb().num_slots() && j != t.ptr() ==> old(
                        rb,
                    ).tb().slot_unchanged(final(rb).tb(), j)
            },
    {
        let r = rid.0;
        if let Some(_) = self.find_pending(r, domain) {
            return Err(RelationError::DuplicateKey);
        }
        if let Some(_) = rb.find_visible(r, domain, self.start_ts) {
            return Err(RelationError::DuplicateKey);
        }
        let t = match TupleRef::allocate(rid, &mut rb.tuplebox, 0, domain, codomain) {
            Ok(t) => t,
            Err(_) => {
                return Err(RelationError::OutOfSpace);
            },
        };
        let ghost mid_tb = rb.tuplebox;
        t.upcount(&mut rb.tuplebox);
        proof {
            assert forall|j: int|
                0 <= j < old(rb).tb().num_slots() && j != t.ptr() implies #[trigger] old(
                rb,
            ).tb().slot_unchanged(rb.tb(), j) by {
                assert(old(rb).tb().slot_unchanged(mid_tb, j));
                assert(mid_tb.slot_unchanged(rb.tb(), j));
            }
            old(self).lemma_frame_preserves(*old(rb), *rb, t.ptr());
        }
        let ghost rbx = *rb;
        let dvec = slice_to_vec(domain);
        let kept = TupleRef::at_tptr(t.id());
        let ws = &mut self.working[r];
        ws.inserts.push(PendingInsert { domain: dvec, tref: kept });
        proof {
            let ri = r as int;
            let n_old = old(self).num_pending(ri) as int;
            assert(self.pending_domain(ri, n_old) == domain@);
            assert(self.pending_slot(ri, n_old) == t.ptr());
            assert(self.pending_has(ri, domain@));
            // every pending insert, old and new, is consistent against the store
            assert forall|r2: int, k: int|
                0 <= r2 < self.num_ws() && 0 <= k < self.num_pending(r2) implies #[trigger] self.pending_ok(
                rbx,
                r2,
                k,
            ) by {
                if r2 == ri && k == n_old {
                    Transaction::lemma_visibility_transfer(*old(rb), rbx, ri, domain@);
                    assert(!rbx.visible_at(ri, domain@, self.start_ts()));
                    assert(!rbx.canonical_uses(t.ptr())) by {
                        if rbx.canonical_uses(t.ptr()) {
                            let (cr, ck) = choose|cr: int, ck: int|
                                0 <= cr < rbx.num_relations() && 0 <= ck < rbx.num_entries(cr)
                                    && #[trigger] rbx.entry_slot(cr, ck) == t.ptr();
                            assert(rbx.entry_domain(cr, ck) == old(rb).entry_domain(cr, ck));
                            assert(old(rb).entry_slot(cr, ck) == t.ptr());
                            assert(old(rb).entry_ok(cr, ck));
                        }
                    }
                } else {
                    assert(self.pending_domain(r2, k) == old(self).pending_domain(r2, k));
                    assert(self.pending_slot(r2, k) == old(self).pending_slot(r2, k));
                    assert(old(self).pending_ok(rbx, r2, k));
                }
            }
            // domains stay unique within each relation's pending set
            assert forall|r2: int, k1: int, k2: int|
                0 <= r2 < self.num_ws() && 0 <= k1 < self.num_pending(r2) && 0 <= k2
                    < self.num_pending(r2) && k1 != k2 implies #[trigger] self.pending_domain(
                r2,
                k1,
            ) != #[trigger] self.pending_domain(r2, k2) by {
                if r2 == ri && k1 == n_old {
                    assert(self.pending_domain(r2, k2) == old(self).pending_domain(r2, k2));
                    if old(self).pending_domain(r2, k2) == domain@ {
                        assert(old(self).pending_has(ri, domain@));
                    }
                } else if r2 == ri && k2 == n_old {
                    assert(self.pending_domain(r2, k1) == old(self).pending_domain(r2, k1));
                    if old(self).pending_domain(r2, k1) == domain@ {
                        assert(old(self).pending_has(ri, domain@));
                    }
                } else {
                    assert(self.pending_domain(r2, k1) == old(self).pending_domain(r2, k1));
                    assert(self.pending_domain(r2, k2) == old(self).pending_domain(r2, k2));
                    assert(old(self).pending_domain(r2, k1) != old(self).pending_domain(r2, k2));
                }
            }
            // and pending slots stay pairwise distinct
            assert forall|r1: int, k1: int, r2: int, k2: int|
                0 <= r1 < self.num_ws() && 0 <= k1 < self.num_pending(r1) && 0 <= r2
                    < self.num_ws() && 0 <= k2 < self.num_pending(r2) && (r1 != r2 || k1 != k2)
                implies #[trigger] self.pending_slot(r1, k1) != #[trigger] self.pending_slot(
                r2,
                k2,
            ) by {
                if r1 == ri && k1 == n_old {
                    assert(self.pending_slot(r2, k2) == old(self).pending_slot(r2, k2));
                    assert(old(self).pending_ok(*old(rb), r2, k2));
                } else if r2 == ri && k2 == n_old {
                    assert(self.pending_slot(r1, k1) == old(self).pending_slot(r1, k1));
                    assert(old(self).pending_ok(*old(rb), r1, k1));
                } else {
                    assert(self.pending_slot(r1, k1) == old(self).pending_slot(r1, k1));
                    assert(self.pending_slot(r2, k2) == old(self).pending_slot(r2, k2));
                    assert(old(self).pending_slot(r1, k1) != old(self).pending_slot(r2, k2));
                }
            }
            assert(self.sees(*rb, ri, domain@) == Some(codomain@)) by {
                let pi = self.pending_index(ri, domain@);
                assert(self.pending_domain(ri, pi) == domain@);
                assert(pi == n_old);
            }
        }
        Ok(t)
    }

    /// Look up the unique entry for `domain` in relation `rid` as this
    /// transaction sees it: its own pending insert first, else the committed
    /// entry visible to its snapshot. The read is recorded for commit-time
    /// conflict validation whether or not it finds anything. On success the
    /// returned reference is a fresh ownership share of the found tuple.
    pub fn seek_unique_by_domain(&mut self, rb: &mut RelBox, rid: RelationId, domain: &[u8]) -> (res:
        Result<TupleRef, RelationError>)
        requires
            old(rb).wf(),
            old(self).wf(*old(rb)),
            old(self).is_active(),
            rid.0 < old(rb).num_relations(),
            forall|j: int|
                old(rb).tb().is_live(j) ==> #[trigger] old(rb).tb().refcount_of(j) < u64::MAX,
        ensures
            final(rb).wf(),
            final(self).wf(*final(rb)),
            final(self).is_active(),
            final(self).start_ts() == old(self).start_ts(),
            final(rb).next_ts() == old(rb).next_ts(),
            old(rb).rels_unchanged(*final(rb)),
            res is Ok <==> old(self).sees(*old(rb), rid.0 as int, domain@) is Some,
            res is Err ==> res == Err::<TupleRef, RelationError>(RelationError::NotFound)
                && final(rb).tb() == old(rb).tb(),
            res matches Ok(t) ==> {
                &&& t.valid(final(rb).tb())
                &&& t.spec_domain(final(rb).tb()) == domain@
                &&& Some(t.spec_codomain(final(rb).tb())) == old(self).sees(
                    *old(rb),
                    rid.0 as int,
                    domain@,
                )
                &&& final(rb).tb().refcount_of(t.ptr()) == old(rb).tb().refcount_of(t.ptr()) + 1
                &&& final(rb).tb().num_slots() == old(rb).tb().num_slots()
                &&& forall|j: int|
                    0 <= j < old(rb).tb().num_slots() && j != t.ptr() ==> old(
                        rb,
                    ).tb().slot_unchanged(final(rb).tb(), j)
            },
            final(self).read_has(rid.0 as int, domain@),
            forall|r2: int|
                0 <= r2 < old(self).num_ws() ==> old(self).pending_same_at(*final(self), r2)
                    && final(self).scanned(r2) == old(self).scanned(r2),
            forall|r2: int|
                0 <= r2 < old(self).num_ws() && r2 != rid.0 ==> old(self).reads_same_at(
                    *final(self),
                    r2,
                ),
    {
        let r = rid.0;
        self.record_read(r, domain);
        proof {
            assert forall|r2: int| 0 <= r2 < old(self).num_ws() implies #[trigger] old(
                self,
            ).pending_same_at(*self, r2) by {}
            old(self).lemma_ws_eq_wf(*self, *old(rb));
        }
        let found_pending = self.find_pending(r, domain);
        if let Some(k) = found_pending {
            let ghost ri = r as int;
            proof {
                assert(self.pending_ok(*rb, ri, k as int));
                let pi = self.pending_index(ri, domain@);
                assert(self.pending_domain(ri, pi) == domain@ && self.pending_domain(ri, k as int)
                    == domain@);
                assert(pi == k as int);
                assert(old(self).pending_same_at(*self, ri));
                assert(old(self).pending_domain(ri, k as int) == domain@);
                assert(old(self).pending_has(ri, domain@));
                let pi0 = old(self).pending_index(ri, domain@);
                assert(old(self).pending_domain(ri, pi0) == domain@);
                assert(pi0 == k as int);
            }
            let ghost mid_self = *self;
            let t2 = self.working[r].inserts[k].tref.clone_ref(&mut rb.tuplebox);
            proof {
                mid_self.lemma_frame_preserves(*old(rb), *rb, t2.ptr());
            }
            return Ok(t2);
        }
        let found = rb.find_visible(r, domain, self.start_ts);
        match found {
            Some(k) => {
                assert(rb.entry_ok(r as int, k as int));
                assert(old(rb).committed_index(r as int, domain@) == k as int);
                let ghost mid_self = *self;
                let t2 = self.clone_entry_ref(rb, r, k);
                proof {
                    if old(self).pending_has(r as int, domain@) {
                        let pi0 = old(self).pending_index(r as int, domain@);
                        assert(old(self).pending_domain(r as int, pi0) == domain@);
                        assert(old(self).pending_same_at(mid_self, r as int));
                        assert(mid_self.pending_domain(r as int, pi0) == domain@);
                        assert(mid_self.pending_has(r as int, domain@));
                    }
                    assert(!old(self).pending_has(r as int, domain@));
                    mid_self.lemma_frame_preserves(*old(rb), *rb, t2.ptr());
                    assert(rb.tb().buffer_of(t2.ptr()) == old(rb).tb().buffer_of(t2.ptr()));
                    assert(t2.spec_codomain(rb.tb()) == spec_codomain_of(
                        old(rb).tb().buffer_of(old(rb).entry_slot(r as int, k as int)),
                    ));
                    assert(t2.spec_codomain(rb.tb()) == old(rb).committed_codomain(
                        r as int,
                        domain@,
                    ));
                }
                Ok(t2)
            },
            None => {
                proof {
                    if old(self).pending_has(r as int, domain@) {
                        let pi0 = old(self).pending_index(r as int, domain@);
                        assert(old(self).pending_domain(r as int, pi0) == domain@);
                        assert(old(self).pending_same_at(*self, r as int));
                        assert(self.pending_domain(r as int, pi0) == domain@);
                        assert(self.pending_has(r as int, domain@));
                    }
                    assert(old(self).sees(*old(rb), r as int, domain@) is None);
                }
                Err(RelationError::NotFound)
            },
        }
    }

    /// Clone the owning reference of committed entry `k` of relation `r`.
    fn clone_entry_ref(&self, rb: &mut RelBox, r: usize, k: usize) -> (t: TupleRef)
        requires
            old(rb).wf(),
            r < old(rb).num_relations(),
            k < old(rb).num_entries(r as int),
            old(rb).tb().refcount_of(old(rb).entry_slot(r as int, k as int)) < u64::MAX,
        ensures
            t.ptr() == old(rb).entry_slot(r as int, k as int),
            t.valid(final(rb).tb()),
            final(rb).tb().wf(),
            final(rb).next_ts() == old(rb).next_ts(),
            old(rb).rels_unchanged(*final(rb)),
            final(rb).tb().refcount_of(t.ptr()) == old(rb).tb().refcount_of(t.ptr()) + 1,
            final(rb).tb().num_slots() == old(rb).tb().num_slots(),
            final(rb).tb().buffer_of(t.ptr()) == old(rb).tb().buffer_of(t.ptr()),
            forall|j: int|
                0 <= j < old(rb).tb().num_slots() && j != t.ptr() ==> old(rb).tb().slot_unchanged(
                    final(rb).tb(),
                    j,
                ),
    {
        assert(rb.entry_ok(r as int, k as int));
        let t = rb.relations[r].entries[k].tref.clone_ref(&mut rb.tuplebox);
        t
    }

    /// With the canonical entries unchanged, what a snapshot sees of any
    /// domain is unchanged.
    proof fn lemma_visibility_transfer(rb0: RelBox, rb1: RelBox, r: int, d: Seq<u8>)
        requires
            rb0.wf(),
            rb0.rels_unchanged(rb1),
            0 <= r < rb0.num_relations(),
        ensures
            rb1.has_committed(r, d) == rb0.has_committed(r, d),
            rb0.has_committed(r, d) ==> rb1.committed_index(r, d) == rb0.committed_index(r, d)
                && rb1.committed_ts(r, d) == rb0.committed_ts(r, d),
    {
        if rb0.has_committed(r, d) {
            let k0 = rb0.committed_index(r, d);
            assert(rb1.entry_domain(r, k0) == d);
            assert(rb1.has_committed(r, d));
            let k1 = rb1.committed_index(r, d);
            assert(rb1.entry_domain(r, k1) == d);
            assert(rb0.entry_domain(r, k1) == d);
            assert(k1 == k0);
            assert(rb1.entry_ts(r, k1) == rb0.entry_ts(r, k0));
        }
        if rb1.has_committed(r, d) {
            let k1 = rb1.committed_index(r, d);
            assert(rb1.entry_domain(r, k1) == d);
            assert(rb0.entry_domain(r, k1) == d);
            assert(rb0.has_committed(r, d));
        }
    }

    /// Transactions whose pending inserts coincide satisfy the same
    /// invariant: recorded reads and scans play no part in it.
    proof fn lemma_ws_eq_wf(self, other: Transaction, rb: RelBox)
        requires
            self.wf(rb),
            other.num_ws() == self.num_ws(),
            other.start_ts() == self.start_ts(),
            forall|r: int| 0 <= r < self.num_ws() ==> #[trigger] self.pending_same_at(other, r),
        ensures
            other.wf(rb),
    {
        assert forall|r: int, k: int|
            0 <= r < other.num_ws() && 0 <= k < other.num_pending(r) implies #[trigger] other.pending_ok(
            rb,
            r,
            k,
        ) by {
            assert(self.pending_same_at(other, r));
            assert(other.pending_domain(r, k) == self.pending_domain(r, k));
            assert(other.pending_slot(r, k) == self.pending_slot(r, k));
            assert(self.pending_ok(rb, r, k));
        }
        assert forall|r: int, k1: int, k2: int|
            0 <= r < other.num_ws() && 0 <= k1 < other.num_pending(r) && 0 <= k2
                < other.num_pending(r) && k1 != k2 implies #[trigger] other.pending_domain(r, k1)
            != #[trigger] other.pending_domain(r, k2) by {
            assert(self.pending_same_at(other, r));
            assert(other.pending_domain(r, k1) == self.pending_domain(r, k1));
            assert(other.pending_domain(r, k2) == self.pending_domain(r, k2));
            assert(self.pending_domain(r, k1) != self.pending_domain(r, k2));
        }
        assert forall|r1: int, k1: int, r2: int, k2: int|
            0 <= r1 < other.num_ws() && 0 <= k1 < other.num_pending(r1) && 0 <= r2 < other.num_ws()
                && 0 <= k2 < other.num_pending(r2) && (r1 != r2 || k1 != k2)
            implies #[trigger] other.pending_slot(r1, k1) != #[trigger] other.pending_slot(
            r2,
            k2,
        ) by {
            assert(self.pending_same_at(other, r1));
            assert(self.pending_same_at(other, r2));
            assert(other.pending_slot(r1, k1) == self.pending_slot(r1, k1));
            assert(other.pending_slot(r2, k2) == self.pending_slot(r2, k2));
            assert(self.pending_slot(r1, k1) != self.pending_slot(r2, k2));
        }
    }

    /// A change of the allocator that leaves every slot but `s` untouched —
    /// and the bytes of `s` too, if it was live — preserves the store's and
    /// this transaction's invariants.
    proof fn lemma_frame_preserves(self, rb0: RelBox, rb1: RelBox, s: int)
        requires
            rb0.wf(),
            self.wf(rb0),
            rb1.tb().wf(),
            rb1.next_ts() == rb0.next_ts(),
            rb0.rels_unchanged(rb1),
            rb1.tb().num_slots() >= rb0.tb().num_slots(),
            rb0.tb().is_live(s) ==> rb1.tb().is_live(s) && rb1.tb().buffer_of(s) == rb0.tb().buffer_of(s),
            forall|j: int|
                0 <= j < rb0.tb().num_slots() && j != s ==> #[trigger] rb0.tb().slot_unchanged(
                    rb1.tb(),
                    j,
                ),
        ensures
            rb1.wf(),
            self.wf(rb1),
    {
        assert forall|r2: int, k: int|
            0 <= r2 < rb1.num_relations() && 0 <= k < rb1.num_entries(r2) implies #[trigger] rb1.entry_ok(
            r2,
            k,
        ) by {
            assert(rb0.entry_ok(r2, k));
            assert(rb1.entry_domain(r2, k) == rb0.entry_domain(r2, k));
            assert(rb1.entry_slot(r2, k) == rb0.entry_slot(r2, k));
            assert(rb1.entry_ts(r2, k) == rb0.entry_ts(r2, k));
            if rb0.entry_slot(r2, k) != s {
                assert(rb0.tb().slot_unchanged(rb1.tb(), rb0.entry_slot(r2, k)));
            }
        }
        assert forall|r2: int, k1: int, k2: int|
            0 <= r2 < rb1.num_relations() && 0 <= k1 < rb1.num_entries(r2) && 0 <= k2
                < rb1.num_entries(r2) && k1 != k2 implies #[trigger] rb1.entry_domain(r2, k1)
            != #[trigger] rb1.entry_domain(r2, k2) by {
            assert(rb1.entry_domain(r2, k1) == rb0.entry_domain(r2, k1));
            assert(rb1.entry_domain(r2, k2) == rb0.entry_domain(r2, k2));
            assert(rb0.entry_domain(r2, k1) != rb0.entry_domain(r2, k2));
        }
        assert forall|r2: int, k: int|
            0 <= r2 < self.num_ws() && 0 <= k < self.num_pending(r2) implies #[trigger] self.pending_ok(
            rb1,
            r2,
            k,
        ) by {
            assert(self.pending_ok(rb0, r2, k));
            if self.pending_slot(r2, k) != s {
                assert(rb0.tb().slot_unchanged(rb1.tb(), self.pending_slot(r2, k)));
            }
            Transaction::lemma_visibility_transfer(rb0, rb1, r2, self.pending_domain(r2, k));
            assert(!rb1.visible_at(r2, self.pending_domain(r2, k), self.start_ts()));
            assert(!rb1.canonical_uses(self.pending_slot(r2, k))) by {
                if rb1.canonical_uses(self.pending_slot(r2, k)) {
                    let (cr, ck) = choose|cr: int, ck: int|
                        0 <= cr < rb1.num_relations() && 0 <= ck < rb1.num_entries(cr)
                            && #[trigger] rb1.entry_slot(cr, ck) == self.pending_slot(r2, k);
                    assert(rb1.entry_slot(cr, ck) == rb0.entry_slot(cr, ck));
                    assert(rb0.canonical_uses(self.pending_slot(r2, k)));
                }
            }
        }
    }
}

} // verus!

verus! {

/// Pending insert `(r2, k)` of `tx0` is among those already released when the
/// release sweep stands at relation `r` with `len` inserts of it still held.
pub open spec fn released_idx(tx0: Transaction, r: int, len: int, r2: int, k: int) -> bool {
    (0 <= r2 < r && 0 <= k < tx0.num_pending(r2)) || (r2 == r && len <= k < tx0.num_pending(r2)
        && 0 <= k)
}

/// Slot `j` belongs to a pending insert of `tx0` already released when the
/// release sweep stands at relation `r` with `len` inserts of it still held.
pub open spec fn released_slot(tx0: Transaction, r: int, len: int, j: int) -> bool {
    exists|r2: int, k: int|
        released_idx(tx0, r, len, r2, k) && #[trigger] tx0.pending_slot(r2, k) == j
}

impl Transaction {
    /// Give up every ownership share the working set holds: each pending
    /// tuple's count drops by one, and those nobody else holds are freed for
    /// reclamation.
    fn release_pending(&mut self, rb: &mut RelBox)
        requires
            old(rb).wf(),
            old(self).wf(*old(rb)),
        ensures
            final(rb).wf(),
            final(self).num_ws() == old(self).num_ws(),
            final(self).start_ts() == old(self).start_ts(),
            final(self).state() == old(self).state(),
            forall|r2: int|
                0 <= r2 < old(self).num_ws() ==> #[trigger] final(self).num_pending(r2) == 0,
            forall|r2: int|
                0 <= r2 < old(self).num_ws() ==> #[trigger] old(self).reads_same_at(
                    *final(self),
                    r2,
                ),
            forall|r2: int|
                0 <= r2 < old(self).num_ws() ==> #[trigger] final(self).scanned(r2) == old(
                    self,
                ).scanned(r2),
            old(rb).rels_unchanged(*final(rb)),
            final(rb).next_ts() == old(rb).next_ts(),
            final(rb).tb().num_slots() == old(rb).tb().num_slots(),
            forall|r2: int, k: int|
                0 <= r2 < old(self).num_ws() && 0 <= k < old(self).num_pending(r2) ==> {
                    &&& #[trigger] final(rb).tb().refcount_of(old(self).pending_slot(r2, k)) == old(
                        rb,
                    ).tb().refcount_of(old(self).pending_slot(r2, k)) - 1
                    &&& (final(rb).tb().is_live(old(self).pending_slot(r2, k)) <==> old(
                        rb,
                    ).tb().refcount_of(old(self).pending_slot(r2, k)) > 1)
                },
            forall|j: int|
                0 <= j < old(rb).tb().num_slots() && !old(self).is_pending_slot(j) ==> #[trigger] old(
                    rb,
                ).tb().slot_unchanged(final(rb).tb(), j),
    {
        let ghost tx0 = *old(self);
        let ghost rb0 = *old(rb);
        let n = self.working.len();
        let mut r: usize = 0;
        while r < n
            invariant
                tx0.wf(rb0),
                rb0.wf(),
                n == tx0.num_ws(),
                self.num_ws() == tx0.num_ws(),
                self.start_ts() == tx0.start_ts(),
                self.state() == tx0.state(),
                0 <= r <= n,
                rb.wf(),
                rb.relations == rb0.relations,
                rb.next_ts() == rb0.next_ts(),
                rb.tb().num_slots() == rb0.tb().num_slots(),
                forall|r2: int| 0 <= r2 < r ==> #[trigger] self.num_pending(r2) == 0,
                forall|r2: int|
                    r <= r2 < n ==> #[trigger] tx0.pending_same_at(*self, r2),
                forall|r2: int| 0 <= r2 < n ==> #[trigger] tx0.reads_same_at(*self, r2),
                forall|r2: int| 0 <= r2 < n ==> #[trigger] self.scanned(r2) == tx0.scanned(r2),
                forall|r2: int, k: int|
                    released_idx(tx0, r as int, tx0.num_pending(r as int) as int, r2, k)
                        ==> #[trigger] rb.tb().refcount_of(tx0.pending_slot(r2, k))
                        == rb0.tb().refcount_of(tx0.pending_slot(r2, k)) - 1 && (rb.tb().is_live(
                        tx0.pending_slot(r2, k),
                    ) <==> rb0.tb().refcount_of(tx0.pending_slot(r2, k)) > 1),
                forall|j: int|
                    0 <= j < rb0.tb().num_slots() && !released_slot(
                        tx0,
                        r as int,
                        tx0.num_pending(r as int) as int,
                        j,
                    ) ==> #[trigger] rb0.tb().slot_unchanged(rb.tb(), j),
            decreases n - r,
        {
            let ghost ri = r as int;
            let mut len = self.working[r].inserts.len();
            proof {
                assert(tx0.pending_same_at(*self, ri));
                assert(len == tx0.num_pending(ri));
                assert forall|r2: int, k: int|
                    released_idx(tx0, ri, len as int, r2, k) implies #[trigger] rb.tb().refcount_of(
                    tx0.pending_slot(r2, k),
                ) == rb0.tb().refcount_of(tx0.pending_slot(r2, k)) - 1 && (rb.tb().is_live(
                    tx0.pending_slot(r2, k),
                ) <==> rb0.tb().refcount_of(tx0.pending_slot(r2, k)) > 1) by {
                    assert(released_idx(tx0, r as int, tx0.num_pending(r as int) as int, r2, k));
                    assert(rb.tb().refcount_of(tx0.pending_slot(r2, k)) == rb0.tb().refcount_of(
                        tx0.pending_slot(r2, k),
                    ) - 1);
                    assert(rb.tb().is_live(tx0.pending_slot(r2, k)) <==> rb0.tb().refcount_of(
                        tx0.pending_slot(r2, k),
                    ) > 1);
                }
            }
            while len > 0
                invariant
                    tx0.wf(rb0),
                    rb0.wf(),
                    n == tx0.num_ws(),
                    ri == r as int,
                    0 <= r < n,
                    self.num_ws() == tx0.num_ws(),
                    self.start_ts() == tx0.start_ts(),
                    self.state() == tx0.state(),
                    rb.wf(),
                    rb.relations == rb0.relations,
                    rb.next_ts() == rb0.next_ts(),
                    rb.tb().num_slots() == rb0.tb().num_slots(),
                    len == self.num_pending(ri),
                    len <= tx0.num_pending(ri),
                    forall|k: int|
                        #![trigger self.pending_domain(ri, k)]
                        #![trigger self.pending_slot(ri, k)]
                        0 <= k < len ==> self.pending_domain(ri, k) == tx0.pending_domain(ri, k)
                            && self.pending_slot(ri, k) == tx0.pending_slot(ri, k),
                    forall|r2: int| 0 <= r2 < ri ==> #[trigger] self.num_pending(r2) == 0,
                    forall|r2: int|
                        ri < r2 < n ==> #[trigger] tx0.pending_same_at(*self, r2),
                    forall|r2: int| 0 <= r2 < n ==> #[trigger] tx0.reads_same_at(*self, r2),
                    forall|r2: int|
                        0 <= r2 < n ==> #[trigger] self.scanned(r2) == tx0.scanned(r2),
                    forall|r2: int, k: int|
                        released_idx(tx0, ri, len as int, r2, k) ==> #[trigger] rb.tb().refcount_of(
                            tx0.pending_slot(r2, k),
                        ) == rb0.tb().refcount_of(tx0.pending_slot(r2, k)) - 1 && (rb.tb().is_live(
                            tx0.pending_slot(r2, k),
                        ) <==> rb0.tb().refcount_of(tx0.pending_slot(r2, k)) > 1),
                    forall|j: int|
                        0 <= j < rb0.tb().num_slots() && !released_slot(tx0, ri, len as int, j)
                            ==> #[trigger] rb0.tb().slot_unchanged(rb.tb(), j),
                decreases len,
            {
                let ghost s = tx0.pending_slot(ri, len - 1);
                let ghost self_prev = *self;
                proof {
                    assert(tx0.pending_ok(rb0, ri, len - 1));
                    assert(!released_slot(tx0, ri, len as int, s)) by {
                        if released_slot(tx0, ri, len as int, s) {
                            let (r2, k) = choose|r2: int, k: int|
                                released_idx(tx0, ri, len as int, r2, k)
                                    && #[trigger] tx0.pending_slot(r2, k) == s;
                            assert(tx0.pending_slot(r2, k) == tx0.pending_slot(ri, len - 1));
                            assert(r2 == ri && k == len - 1);
                        }
                    }
                    assert(rb0.tb().slot_unchanged(rb.tb(), s));
                    assert(self.pending_slot(ri, len - 1) == s);
                }
                let t_last = &self.working[r].inserts[len - 1].tref;
                let ghost rb_mid = *rb;
                t_last.dncount(&mut rb.tuplebox);
                proof {
                    assert(t_last.ptr() == s);
                }
                let ws = &mut self.working[r];
                let _ = ws.inserts.pop();
                proof {
                    // the freed or decremented slot belongs to nobody else
                    assert forall|j: int|
                        0 <= j < rb0.tb().num_slots() && !released_slot(
                            tx0,
                            ri,
                            (len - 1) as int,
                            j,
                        ) implies #[trigger] rb0.tb().slot_unchanged(rb.tb(), j) by {
                        assert(!released_slot(tx0, ri, len as int, j));
                        assert(j != s);
                        assert(rb0.tb().slot_unchanged(rb_mid.tb(), j));
                        assert(rb_mid.tb().slot_unchanged(rb.tb(), j));
                    }
                    assert forall|r2: int, k: int|
                        released_idx(tx0, ri, (len - 1) as int, r2, k) implies #[trigger] rb.tb().refcount_of(
                        tx0.pending_slot(r2, k),
                    ) == rb0.tb().refcount_of(tx0.pending_slot(r2, k)) - 1 && (rb.tb().is_live(
                        tx0.pending_slot(r2, k),
                    ) <==> rb0.tb().refcount_of(tx0.pending_slot(r2, k)) > 1) by {
                        if r2 == ri && k == len - 1 {
                        } else {
                            assert(released_idx(tx0, ri, len as int, r2, k));
                            assert(tx0.pending_ok(rb0, r2, k));
                            assert(tx0.pending_slot(r2, k) != s);
                            assert(rb_mid.tb().slot_unchanged(rb.tb(), tx0.pending_slot(r2, k)));
                        }
                    }
                    // canonical entries resolve through other slots
                    assert forall|r2: int, k: int|
                        0 <= r2 < rb.num_relations() && 0 <= k < rb.num_entries(r2) implies #[trigger] rb.entry_ok(
                        r2,
                        k,
                    ) by {
                        assert(rb.entry_domain(r2, k) == rb0.entry_domain(r2, k));
                        assert(rb.entry_slot(r2, k) == rb0.entry_slot(r2, k));
                        assert(rb.entry_ts(r2, k) == rb0.entry_ts(r2, k));
                        assert(rb0.entry_ok(r2, k));
                        assert(!rb0.canonical_uses(s) ==> rb0.entry_slot(r2, k) != s);
                        assert(!released_slot(tx0, ri, (len - 1) as int, rb0.entry_slot(r2, k)))
                            by {
                            if released_slot(tx0, ri, (len - 1) as int, rb0.entry_slot(r2, k)) {
                                let (pr, pk) = choose|pr: int, pk: int|
                                    released_idx(tx0, ri, (len - 1) as int, pr, pk)
                                        && #[trigger] tx0.pending_slot(pr, pk) == rb0.entry_slot(
                                        r2,
                                        k,
                                    );
                                assert(tx0.pending_ok(rb0, pr, pk));
                                assert(rb0.canonical_uses(tx0.pending_slot(pr, pk)));
                            }
                        }
                        assert(rb0.tb().slot_unchanged(rb.tb(), rb0.entry_slot(r2, k)));
                    }
                    assert forall|r2: int, k1: int, k2: int|
                        0 <= r2 < rb.num_relations() && 0 <= k1 < rb.num_entries(r2) && 0 <= k2
                            < rb.num_entries(r2) && k1 != k2 implies #[trigger] rb.entry_domain(
                        r2,
                        k1,
                    ) != #[trigger] rb.entry_domain(r2, k2) by {
                        assert(rb.entry_domain(r2, k1) == rb0.entry_domain(r2, k1));
                        assert(rb.entry_domain(r2, k2) == rb0.entry_domain(r2, k2));
                        assert(rb0.entry_domain(r2, k1) != rb0.entry_domain(r2, k2));
                    }
                    assert(self.working@[ri].inserts@ == self_prev.working@[ri].inserts@.subrange(
                        0,
                        len - 1,
                    ));
                    assert forall|k: int|
                        #![trigger self.pending_domain(ri, k)]
                        #![trigger self.pending_slot(ri, k)]
                        0 <= k < len - 1 implies self.pending_domain(ri, k) == tx0.pending_domain(
                        ri,
                        k,
                    ) && self.pending_slot(ri, k) == tx0.pending_slot(ri, k) by {
                        assert(self.working@[ri].inserts@[k] == self_prev.working@[ri].inserts@[k]);
                        assert(self_prev.pending_domain(ri, k) == tx0.pending_domain(ri, k));
                        assert(self_prev.pending_slot(ri, k) == tx0.pending_slot(ri, k));
                    }
                    assert forall|r2: int| 0 <= r2 < ri implies #[trigger] self.num_pending(r2)
                        == 0 by {
                        assert(self.working@[r2] == self_prev.working@[r2]);
                        assert(self_prev.num_pending(r2) == 0);
                    }
                    assert forall|r2: int|
                        0 <= r2 < n implies #[trigger] self.scanned(r2) == tx0.scanned(r2) by {
                        if r2 != ri {
                            assert(self.working@[r2] == self_prev.working@[r2]);
                        }
                        assert(self_prev.scanned(r2) == tx0.scanned(r2));
                    }
                    assert forall|r2: int| 0 <= r2 < n implies #[trigger] tx0.reads_same_at(
                        *self,
                        r2,
                    ) by {
                        assert(tx0.reads_same_at(self_prev, r2));
                        assert(self.num_reads(r2) == self_prev.num_reads(r2));
                        assert(forall|k: int|
                            0 <= k < self_prev.num_reads(r2) ==> #[trigger] self.read_domain(r2, k)
                                == self_prev.read_domain(r2, k));
                    }
                    assert forall|r2: int|
                        ri < r2 < n implies #[trigger] tx0.pending_same_at(*self, r2) by {
                        assert(tx0.pending_same_at(self_prev, r2));
                        assert(self.num_pending(r2) == self_prev.num_pending(r2));
                        assert(forall|k: int|
                            #![trigger self.pending_domain(r2, k)]
                            #![trigger self.pending_slot(r2, k)]
                            0 <= k < self_prev.num_pending(r2) ==> self.pending_domain(r2, k)
                                == self_prev.pending_domain(r2, k) && self.pending_slot(r2, k)
                                == self_prev.pending_slot(r2, k));
                    }
                }
                len = len - 1;
            }
            proof {
                assert forall|r2: int, k: int|
                    released_idx(tx0, ri + 1, tx0.num_pending(ri + 1) as int, r2, k)
                        implies released_idx(tx0, ri, 0, r2, k) by {}
                assert forall|j: int|
                    0 <= j < rb0.tb().num_slots() && !released_slot(
                        tx0,
                        ri + 1,
                        tx0.num_pending(ri + 1) as int,
                        j,
                    ) implies #[trigger] rb0.tb().slot_unchanged(rb.tb(), j) by {
                    assert(!released_slot(tx0, ri, 0, j)) by {
                        if released_slot(tx0, ri, 0, j) {
                            let (r2, k) = choose|r2: int, k: int|
                                released_idx(tx0, ri, 0, r2, k) && #[trigger] tx0.pending_slot(
                                    r2,
                                    k,
                                ) == j;
                            assert(released_idx(tx0, ri + 1, tx0.num_pending(ri + 1) as int, r2, k));
                            assert(released_slot(tx0, ri + 1, tx0.num_pending(ri + 1) as int, j));
                        }
                    }
                }
            }
            r += 1;
        }
        proof {
            assert(old(rb).rels_unchanged(*rb)) by {
                assert(rb.relations == rb0.relations);
            }
            assert forall|r2: int, k: int|
                0 <= r2 < tx0.num_ws() && 0 <= k < tx0.num_pending(r2) implies released_idx(
                tx0,
                n as int,
                tx0.num_pending(n as int) as int,
                r2,
                k,
            ) by {}
            assert forall|j: int|
                0 <= j < rb0.tb().num_slots() && !tx0.is_pending_slot(j) implies !released_slot(
                tx0,
                n as int,
                tx0.num_pending(n as int) as int,
                j,
            ) by {
                if released_slot(tx0, n as int, tx0.num_pending(n as int) as int, j) {
                    let (r2, k) = choose|r2: int, k: int|
                        released_idx(tx0, n as int, tx0.num_pending(n as int) as int, r2, k)
                            && #[trigger] tx0.pending_slot(r2, k) == j;
                    assert(tx0.pending_slot_in_prefix(j, tx0.num_ws() as int));
                }
            }
        }
    }

    /// Discard the working set and end the transaction: every pending tuple's
    /// ownership share is given up (freeing those nobody else holds), no
    /// relation's visible state changes, and the transaction is aborted.
    /// Always succeeds.
    pub fn rollback(&mut self, rb: &mut RelBox) -> (res: Result<(), CommitError>)
        requires
            old(rb).wf(),
            old(self).wf(*old(rb)),
            old(self).is_active(),
        ensures
            res is Ok,
            final(rb).wf(),
            final(self).state() is Aborted,
            old(rb).rels_unchanged(*final(rb)),
            final(rb).next_ts() == old(rb).next_ts(),
            final(rb).tb().num_slots() == old(rb).tb().num_slots(),
            forall|r2: int, k: int|
                0 <= r2 < old(self).num_ws() && 0 <= k < old(self).num_pending(r2) ==> {
                    &&& #[trigger] final(rb).tb().refcount_of(old(self).pending_slot(r2, k)) == old(
                        rb,
                    ).tb().refcount_of(old(self).pending_slot(r2, k)) - 1
                    &&& (final(rb).tb().is_live(old(self).pending_slot(r2, k)) <==> old(
                        rb,
                    ).tb().refcount_of(old(self).pending_slot(r2, k)) > 1)
                },
            forall|j: int|
                0 <= j < old(rb).tb().num_slots() && !old(self).is_pending_slot(j) ==> #[trigger] old(
                    rb,
                ).tb().slot_unchanged(final(rb).tb(), j),
    {
        self.release_pending(rb);
        self.state = TxState::Aborted;
        Ok(())
    }
}

} // verus!

verus! {

/// Pending insert `(r2, k)` of `tx0` is among those already published when
/// the publish sweep stands at relation `r` having published `i` of its
/// inserts.
pub open spec fn published_idx(tx0: Transaction, r: int, i: int, r2: int, k: int) -> bool {
    (0 <= r2 < r && 0 <= k < tx0.num_pending(r2)) || (r2 == r && 0 <= k < i)
}

/// Slot `j` belongs to a pending insert of `tx0` already published when the
/// publish sweep stands at relation `r` having published `i` of its inserts.
pub open spec fn published_slot(tx0: Transaction, r: int, i: int, j: int) -> bool {
    exists|r2: int, k: int|
        published_idx(tx0, r, i, r2, k) && #[trigger] tx0.pending_slot(r2, k) == j
}

/// Every reference collected by a scan is valid, shows exactly what the
/// transaction sees for its domain, and was accepted by the predicate.
pub open spec fn scan_keeps<F: Fn(Vec<u8>, Vec<u8>) -> bool>(
    tx: Transaction,
    rb0: RelBox,
    rbx: RelBox,
    r: int,
    res: Seq<TupleRef>,
    p: F,
) -> bool {
    forall|i: int|
        0 <= i < res.len() ==> ((#[trigger] res[i]).valid(rbx.tb()) && tx.sees(
            rb0,
            r,
            res[i].spec_domain(rbx.tb()),
        ) == Some(res[i].spec_codomain(rbx.tb())) && exists|dv: Vec<u8>, cv: Vec<u8>|
            dv@ == res[i].spec_domain(rbx.tb()) && cv@ == res[i].spec_codomain(rbx.tb())
                && #[trigger] call_ensures(p, (dv, cv), true))
}

/// Each of the first `upto` pending inserts of relation `r` either has a
/// representative in the scan's result or was rejected by the predicate.
pub open spec fn pending_covered<F: Fn(Vec<u8>, Vec<u8>) -> bool>(
    tx: Transaction,
    rbx: RelBox,
    r: int,
    upto: int,
    res: Seq<TupleRef>,
    p: F,
) -> bool {
    forall|kp: int|
        0 <= kp < upto ==> (exists|i: int|
            0 <= i < res.len() && (#[trigger] res[i]).spec_domain(rbx.tb()) == tx.pending_domain(
                r,
                kp,
            )) || (exists|dv: Vec<u8>, cv: Vec<u8>|
            dv@ == #[trigger] tx.pending_domain(r, kp) && cv@ == spec_codomain_of(
                rbx.tb().buffer_of(tx.pending_slot(r, kp)),
            ) && call_ensures(p, (dv, cv), false))
}

/// Each of the first `upto` committed entries of relation `r` that is visible
/// to the snapshot either has a representative in the scan's result or was
/// rejected by the predicate.
pub open spec fn entries_covered<F: Fn(Vec<u8>, Vec<u8>) -> bool>(
    tx: Transaction,
    rb0: RelBox,
    rbx: RelBox,
    r: int,
    upto: int,
    res: Seq<TupleRef>,
    p: F,
) -> bool {
    forall|e: int|
        0 <= e < upto && #[trigger] rb0.entry_ts(r, e) < tx.start_ts() ==> (exists|i: int|
            0 <= i < res.len() && (#[trigger] res[i]).spec_domain(rbx.tb()) == rb0.entry_domain(
                r,
                e,
            )) || (exists|dv: Vec<u8>, cv: Vec<u8>|
            dv@ == rb0.entry_domain(r, e) && cv@ == spec_codomain_of(
                rb0.tb().buffer_of(rb0.entry_slot(r, e)),
            ) && call_ensures(p, (dv, cv), false))
}

/// Between two allocator states of a scan: liveness, bytes and relation tags
/// of every slot are unchanged, and each count grew by at most `extra`.
pub open spec fn scan_frame(rb0: RelBox, rb1: RelBox, extra: int) -> bool {
    forall|j: int|
        0 <= j < rb0.tb().num_slots() ==> ((#[trigger] rb1.tb().is_live(j)
            <==> rb0.tb().is_live(j)) && (rb0.tb().is_live(j) ==> rb1.tb().buffer_of(j)
            == rb0.tb().buffer_of(j) && rb0.tb().refcount_of(j) <= rb1.tb().refcount_of(j)
            <= rb0.tb().refcount_of(j) + extra && rb1.tb().relation_of(j)
            == rb0.tb().relation_of(j)))
}

impl RelBox {
    /// Whether any entry of relation `r` was committed at or after `snap`:
    /// the whole-relation conflict test for a transaction that scanned it.
    fn find_any_conflict(&self, r: usize, snap: u64) -> (res: bool)
        requires
            self.wf(),
            r < self.num_relations(),
        ensures
            res <==> self.any_committed_after(r as int, snap),
    {
        let entries = &self.relations[r].entries;
        let n = entries.len();
        let mut i: usize = 0;
        while i < n
            invariant
                self.wf(),
                r < self.num_relations(),
                n == self.num_entries(r as int),
                entries@ == self.relations@[r as int].entries@,
                0 <= i <= n,
                forall|k: int| 0 <= k < i ==> !(#[trigger] self.entry_ts(r as int, k) >= snap),
            decreases n - i,
        {
            if entries[i].write_ts >= snap {
                assert(self.entry_ts(r as int, i as int) >= snap);
                return true;
            }
            i += 1;
        }
        false
    }
}

impl Transaction {
    /// Run commit-time validation against the store: true exactly when no
    /// domain this transaction touched — and no relation it scanned — was
    /// committed to at or after its snapshot.
    fn validate(&self, rb: &RelBox) -> (ok: bool)
        requires
            rb.wf(),
            self.wf(*rb),
        ensures
            ok <==> self.validation_ok(*rb),
    {
        let n = self.working.len();
        let mut r: usize = 0;
        while r < n
            invariant
                rb.wf(),
                self.wf(*rb),
                n == self.num_ws(),
                0 <= r <= n,
                forall|r2: int| 0 <= r2 < r ==> #[trigger] self.validation_ok_at(*rb, r2),
            decreases n - r,
        {
            let ghost ri = r as int;
            let num_ins = self.working[r].inserts.len();
            let mut k: usize = 0;
            while k < num_ins
                invariant
                    rb.wf(),
                    self.wf(*rb),
                    n == self.num_ws(),
                    ri == r as int,
                    0 <= r < n,
                    num_ins == self.num_pending(ri),
                    0 <= k <= num_ins,
                    forall|k2: int|
                        0 <= k2 < k ==> !rb.committed_after(
                            ri,
                            #[trigger] self.pending_domain(ri, k2),
                            self.start_ts(),
                        ),
                decreases num_ins - k,
            {
                if rb.find_conflict(r, self.working[r].inserts[k].domain.as_slice(), self.start_ts)
                {
                    proof {
                        assert(self.pending_has(ri, self.pending_domain(ri, k as int)));
                        assert(self.touched(ri, self.pending_domain(ri, k as int)));
                        assert(!self.validation_ok_at(*rb, ri));
                    }
                    return false;
                }
                k += 1;
            }
            let num_reads = self.working[r].reads.len();
            let mut k2: usize = 0;
            while k2 < num_reads
                invariant
                    rb.wf(),
                    self.wf(*rb),
                    n == self.num_ws(),
                    ri == r as int,
                    0 <= r < n,
                    num_reads == self.num_reads(ri),
                    0 <= k2 <= num_reads,
                    forall|j: int|
                        0 <= j < k2 ==> !rb.committed_after(
                            ri,
                            #[trigger] self.read_domain(ri, j),
                            self.start_ts(),
                        ),
                decreases num_reads - k2,
            {
                if rb.find_conflict(r, self.working[r].reads[k2].as_slice(), self.start_ts) {
                    proof {
                        assert(self.read_has(ri, self.read_domain(ri, k2 as int)));
                        assert(self.touched(ri, self.read_domain(ri, k2 as int)));
                        assert(!self.validation_ok_at(*rb, ri));
                    }
                    return false;
                }
                k2 += 1;
            }
            if self.working[r].scanned {
                if rb.find_any_conflict(r, self.start_ts) {
                    proof {
                        assert(!self.validation_ok_at(*rb, ri));
                    }
                    return false;
                }
            }
            proof {
                assert forall|d: Seq<u8>| #[trigger] self.touched(ri, d) implies !rb.committed_after(
                    ri,
                    d,
                    self.start_ts(),
                ) by {
                    if self.pending_has(ri, d) {
                        let pk = choose|pk: int|
                            0 <= pk < self.num_pending(ri) && #[trigger] self.pending_domain(
                                ri,
                                pk,
                            ) == d;
                        assert(!rb.committed_after(ri, self.pending_domain(ri, pk), self.start_ts()));
                    } else {
                        let rk = choose|rk: int|
                            0 <= rk < self.num_reads(ri) && #[trigger] self.read_domain(ri, rk)
                                == d;
                        assert(!rb.committed_after(ri, self.read_domain(ri, rk), self.start_ts()));
                    }
                }
                assert(self.validation_ok_at(*rb, ri));
            }
            r += 1;
        }
        true
    }
}

} // verus!

verus! {

impl Transaction {
    /// Publish every pending insert into the canonical relations at commit
    /// timestamp `cts`: each tuple's header is stamped in place and its
    /// ownership share moves from the working set into the relation's entry.
    #[verifier::rlimit(100)]
    #[verifier::spinoff_prover]
    fn publish_pending(&mut self, rb: &mut RelBox, cts: u64)
        requires
            old(rb).wf(),
            old(self).wf(*old(rb)),
            old(self).validation_ok(*old(rb)),
            old(rb).next_ts() == cts + 1,
            cts >= old(self).start_ts(),
        ensures
            final(rb).wf(),
            final(self).num_ws() == old(self).num_ws(),
            final(self).start_ts() == old(self).start_ts(),
            final(self).state() == old(self).state(),
            forall|r2: int|
                0 <= r2 < old(self).num_ws() ==> #[trigger] final(self).num_pending(r2) == 0,
            final(rb).next_ts() == old(rb).next_ts(),
            final(rb).num_relations() == old(rb).num_relations(),
            final(rb).tb().num_slots() == old(rb).tb().num_slots(),
            // old entries stand untouched at their old indices
            forall|r2: int|
                0 <= r2 < old(rb).num_relations() ==> #[trigger] final(rb).num_entries(r2) == old(
                    rb,
                ).num_entries(r2) + old(self).num_pending(r2),
            forall|r2: int, k: int|
                0 <= r2 < old(rb).num_relations() && 0 <= k < old(rb).num_entries(r2) ==> {
                    &&& #[trigger] final(rb).entry_domain(r2, k) == old(rb).entry_domain(r2, k)
                    &&& final(rb).entry_slot(r2, k) == old(rb).entry_slot(r2, k)
                    &&& final(rb).entry_ts(r2, k) == old(rb).entry_ts(r2, k)
                },
            // every pending insert stands published at timestamp cts
            forall|r2: int, k: int|
                0 <= r2 < old(self).num_ws() && 0 <= k < old(self).num_pending(r2) ==> {
                    &&& #[trigger] final(rb).entry_domain(
                        r2,
                        old(rb).num_entries(r2) + k,
                    ) == old(self).pending_domain(r2, k)
                    &&& final(rb).entry_slot(r2, old(rb).num_entries(r2) + k) == old(
                        self,
                    ).pending_slot(r2, k)
                    &&& final(rb).entry_ts(r2, old(rb).num_entries(r2) + k) == cts
                },
            // published slots keep their count, domain and codomain; only the
            // header timestamp was rewritten
            forall|r2: int, k: int|
                0 <= r2 < old(self).num_ws() && 0 <= k < old(self).num_pending(r2) ==> {
                    &&& #[trigger] final(rb).tb().is_live(old(self).pending_slot(r2, k))
                    &&& final(rb).tb().refcount_of(old(self).pending_slot(r2, k)) == old(
                        rb,
                    ).tb().refcount_of(old(self).pending_slot(r2, k))
                    &&& spec_domain_of(final(rb).tb().buffer_of(old(self).pending_slot(r2, k)))
                        == old(self).pending_domain(r2, k)
                    &&& spec_codomain_of(final(rb).tb().buffer_of(old(self).pending_slot(r2, k)))
                        == spec_codomain_of(old(rb).tb().buffer_of(old(self).pending_slot(r2, k)))
                    &&& spec_ts_of(final(rb).tb().buffer_of(old(self).pending_slot(r2, k))) == cts
                },
            forall|j: int|
                0 <= j < old(rb).tb().num_slots() && !old(self).is_pending_slot(j) ==> #[trigger] old(
                    rb,
                ).tb().slot_unchanged(final(rb).tb(), j),
    {
        let ghost tx0 = *old(self);
        let ghost rb0 = *old(rb);
        let n = self.working.len();
        let mut r: usize = 0;
        while r < n
            invariant
                tx0.wf(rb0),
                rb0.wf(),
                tx0.validation_ok(rb0),
                rb0.next_ts() == cts + 1,
                cts >= tx0.start_ts(),
                n == tx0.num_ws(),
                self.num_ws() == tx0.num_ws(),
                self.start_ts() == tx0.start_ts(),
                self.state() == tx0.state(),
                0 <= r <= n,
                rb.wf(),
                rb.next_ts() == rb0.next_ts(),
                rb.num_relations() == rb0.num_relations(),
                rb.tb().num_slots() == rb0.tb().num_slots(),
                forall|r2: int| 0 <= r2 < r ==> #[trigger] self.num_pending(r2) == 0,
                forall|r2: int| r <= r2 < n ==> #[trigger] tx0.pending_same_at(*self, r2),
                forall|r2: int|
                    0 <= r2 < rb0.num_relations() ==> #[trigger] rb.num_entries(r2)
                        == rb0.num_entries(r2) + (if r2 < r {
                        tx0.num_pending(r2)
                    } else {
                        0
                    }),
                forall|r2: int, k: int|
                    0 <= r2 < rb0.num_relations() && 0 <= k < rb0.num_entries(r2) ==> {
                        &&& #[trigger] rb.entry_domain(r2, k) == rb0.entry_domain(r2, k)
                        &&& rb.entry_slot(r2, k) == rb0.entry_slot(r2, k)
                        &&& rb.entry_ts(r2, k) == rb0.entry_ts(r2, k)
                    },
                forall|r2: int, k: int|
                    published_idx(tx0, r as int, 0, r2, k) ==> {
                        &&& #[trigger] rb.entry_domain(
                            r2,
                            rb0.num_entries(r2) + k,
                        ) == tx0.pending_domain(r2, k)
                        &&& rb.entry_slot(r2, rb0.num_entries(r2) + k) == tx0.pending_slot(r2, k)
                        &&& rb.entry_ts(r2, rb0.num_entries(r2) + k) == cts
                    },
                forall|r2: int, k: int|
                    published_idx(tx0, r as int, 0, r2, k) ==> {
                        &&& #[trigger] rb.tb().is_live(tx0.pending_slot(r2, k))
                        &&& rb.tb().refcount_of(tx0.pending_slot(r2, k)) == rb0.tb().refcount_of(
                            tx0.pending_slot(r2, k),
                        )
                        &&& wf_tuple(rb.tb().buffer_of(tx0.pending_slot(r2, k)))
                        &&& spec_domain_of(rb.tb().buffer_of(tx0.pending_slot(r2, k)))
                            == tx0.pending_domain(r2, k)
                        &&& spec_codomain_of(rb.tb().buffer_of(tx0.pending_slot(r2, k)))
                            == spec_codomain_of(rb0.tb().buffer_of(tx0.pending_slot(r2, k)))
                        &&& spec_ts_of(rb.tb().buffer_of(tx0.pending_slot(r2, k))) == cts
                    },
                forall|j: int|
                    0 <= j < rb0.tb().num_slots() && !published_slot(tx0, r as int, 0, j)
                        ==> #[trigger] rb0.tb().slot_unchanged(rb.tb(), j),
            decreases n - r,
        {
            let ghost ri = r as int;
            let m = self.working[r].inserts.len();
            let mut i: usize = 0;
            proof {
                assert(tx0.pending_same_at(*self, ri));
            }
            while i < m
                invariant
                    tx0.wf(rb0),
                    rb0.wf(),
                    tx0.validation_ok(rb0),
                    rb0.next_ts() == cts + 1,
                    cts >= tx0.start_ts(),
                    n == tx0.num_ws(),
                    ri == r as int,
                    0 <= r < n,
                    m == tx0.num_pending(ri),
                    0 <= i <= m,
                    self.num_ws() == tx0.num_ws(),
                    self.start_ts() == tx0.start_ts(),
                    self.state() == tx0.state(),
                    rb.wf(),
                    rb.next_ts() == rb0.next_ts(),
                    rb.num_relations() == rb0.num_relations(),
                    rb.tb().num_slots() == rb0.tb().num_slots(),
                    self.num_pending(ri) == m - i,
                    forall|k: int|
                        #![trigger self.pending_domain(ri, k)]
                        #![trigger self.pending_slot(ri, k)]
                        0 <= k < m - i ==> self.pending_domain(ri, k) == tx0.pending_domain(
                            ri,
                            k + i,
                        ) && self.pending_slot(ri, k) == tx0.pending_slot(ri, k + i),
                    forall|r2: int| 0 <= r2 < ri ==> #[trigger] self.num_pending(r2) == 0,
                    forall|r2: int| ri < r2 < n ==> #[trigger] tx0.pending_same_at(*self, r2),
                    forall|r2: int|
                        0 <= r2 < rb0.num_relations() ==> #[trigger] rb.num_entries(r2)
                            == rb0.num_entries(r2) + (if r2 < ri {
                            tx0.num_pending(r2)
                        } else if r2 == ri {
                            i as nat
                        } else {
                            0
                        }),
                    forall|r2: int, k: int|
                        0 <= r2 < rb0.num_relations() && 0 <= k < rb0.num_entries(r2) ==> {
                            &&& #[trigger] rb.entry_domain(r2, k) == rb0.entry_domain(r2, k)
                            &&& rb.entry_slot(r2, k) == rb0.entry_slot(r2, k)
                            &&& rb.entry_ts(r2, k) == rb0.entry_ts(r2, k)
                        },
                    forall|r2: int, k: int|
                        published_idx(tx0, ri, i as int, r2, k) ==> {
                            &&& #[trigger] rb.entry_domain(
                                r2,
                                rb0.num_entries(r2) + k,
                            ) == tx0.pending_domain(r2, k)
                            &&& rb.entry_slot(r2, rb0.num_entries(r2) + k) == tx0.pending_slot(
                                r2,
                                k,
                            )
                            &&& rb.entry_ts(r2, rb0.num_entries(r2) + k) == cts
                        },
                    forall|r2: int, k: int|
                        published_idx(tx0, ri, i as int, r2, k) ==> {
                            &&& #[trigger] rb.tb().is_live(tx0.pending_slot(r2, k))
                            &&& rb.tb().refcount_of(tx0.pending_slot(r2, k))
                                == rb0.tb().refcount_of(tx0.pending_slot(r2, k))
                            &&& wf_tuple(rb.tb().buffer_of(tx0.pending_slot(r2, k)))
                            &&& spec_domain_of(rb.tb().buffer_of(tx0.pending_slot(r2, k)))
                                == tx0.pending_domain(r2, k)
                            &&& spec_codomain_of(rb.tb().buffer_of(tx0.pending_slot(r2, k)))
                                == spec_codomain_of(rb0.tb().buffer_of(tx0.pending_slot(r2, k)))
                            &&& spec_ts_of(rb.tb().buffer_of(tx0.pending_slot(r2, k))) == cts
                        },
                    forall|j: int|
                        0 <= j < rb0.tb().num_slots() && !published_slot(tx0, ri, i as int, j)
                            ==> #[trigger] rb0.tb().slot_unchanged(rb.tb(), j),
                decreases m - i,
            {
                let ghost s = tx0.pending_slot(ri, i as int);
                let ghost self_prev = *self;
                proof {
                    assert(tx0.pending_ok(rb0, ri, i as int));
                    assert(!published_slot(tx0, ri, i as int, s)) by {
                        if published_slot(tx0, ri, i as int, s) {
                            let (r2, k) = choose|r2: int, k: int|
                                published_idx(tx0, ri, i as int, r2, k)
                                    && #[trigger] tx0.pending_slot(r2, k) == s;
                            assert(tx0.pending_slot(r2, k) == tx0.pending_slot(ri, i as int));
                            assert(r2 == ri && k == i as int);
                        }
                    }
                    assert(rb0.tb().slot_unchanged(rb.tb(), s));
                    assert(self.pending_slot(ri, 0) == s);
                    assert(self.pending_ok(rb0, ri, 0) == tx0.pending_ok(rb0, ri, i as int));
                }
                let ws = &mut self.working[r];
                let mut p = ws.inserts.remove(0);
                proof {
                    assert(p.tref.ptr() == s);
                    assert(p.domain@ == tx0.pending_domain(ri, i as int));
                    assert(p.tref.valid(rb.tb()));
                }
                let ghost rb_mid = *rb;
                p.tref.update_timestamp(&mut rb.tuplebox, cts);
                let ghost rb_mid2 = *rb;
                let new_entry = RelationEntry { domain: p.domain, tref: p.tref, write_ts: cts };
                let ghost ne = new_entry;
                let rel = &mut rb.relations[r];
                rel.entries.push(new_entry);
                proof {
                    assert(rb.tb() == rb_mid2.tb());
                    assert(rb.relations@[ri].entries@ == rb_mid2.relations@[ri].entries@.push(ne));
                    assert(ne.tref.ptr() == s);
                    assert(ne.domain@ == tx0.pending_domain(ri, i as int));
                    assert(rb_mid2.relations == rb_mid.relations);
                    assert(rb_mid.num_entries(ri) == rb0.num_entries(ri) + i);
                    assert(rb.entry_slot(ri, rb0.num_entries(ri) + i) == s);
                    assert(rb.entry_domain(ri, rb0.num_entries(ri) + i) == tx0.pending_domain(
                        ri,
                        i as int,
                    ));
                    assert(rb.entry_ts(ri, rb0.num_entries(ri) + i) == cts);
                    assert forall|r2: int|
                        0 <= r2 < rb0.num_relations() implies #[trigger] rb.num_entries(r2)
                        == rb0.num_entries(r2) + (if r2 < ri {
                        tx0.num_pending(r2)
                    } else if r2 == ri {
                        (i + 1) as nat
                    } else {
                        0
                    }) by {
                        assert(rb_mid.num_entries(r2) == rb0.num_entries(r2) + (if r2 < ri {
                            tx0.num_pending(r2)
                        } else if r2 == ri {
                            i as nat
                        } else {
                            0
                        }));
                        if r2 != ri {
                            assert(rb.relations@[r2] == rb_mid2.relations@[r2]);
                        }
                    }
                    // frame over slots
                    assert forall|j: int|
                        0 <= j < rb0.tb().num_slots() && !published_slot(tx0, ri, i + 1, j)
                            implies #[trigger] rb0.tb().slot_unchanged(rb.tb(), j) by {
                        assert(!published_slot(tx0, ri, i as int, j));
                        assert(j != s);
                        assert(rb0.tb().slot_unchanged(rb_mid.tb(), j));
                        assert(rb_mid.tb().slot_unchanged(rb.tb(), j));
                    }
                    assert forall|r2: int, k: int|
                        published_idx(tx0, ri, i + 1, r2, k) implies {
                        &&& #[trigger] rb.tb().is_live(tx0.pending_slot(r2, k))
                        &&& rb.tb().refcount_of(tx0.pending_slot(r2, k)) == rb0.tb().refcount_of(
                            tx0.pending_slot(r2, k),
                        )
                        &&& wf_tuple(rb.tb().buffer_of(tx0.pending_slot(r2, k)))
                        &&& spec_domain_of(rb.tb().buffer_of(tx0.pending_slot(r2, k)))
                            == tx0.pending_domain(r2, k)
                        &&& spec_codomain_of(rb.tb().buffer_of(tx0.pending_slot(r2, k)))
                            == spec_codomain_of(rb0.tb().buffer_of(tx0.pending_slot(r2, k)))
                        &&& spec_ts_of(rb.tb().buffer_of(tx0.pending_slot(r2, k))) == cts
                    } by {
                        if r2 == ri && k == i as int {
                            assert(rb_mid.tb().buffer_of(s) == rb0.tb().buffer_of(s));
                            assert(tx0.pending_ok(rb0, ri, i as int));
                            lemma_ts_update_parse(rb0.tb().buffer_of(s), cts);
                            assert(rb.tb().buffer_of(s) == spec_u64_to_le_bytes(cts)
                                + rb_mid.tb().buffer_of(s).skip(8));
                        } else {
                            assert(published_idx(tx0, ri, i as int, r2, k));
                            assert(tx0.pending_ok(rb0, r2, k));
                            assert(tx0.pending_slot(r2, k) != s);
                            assert(rb_mid.tb().slot_unchanged(rb.tb(), tx0.pending_slot(r2, k)));
                        }
                    }
                    // prior entries of every relation unchanged
                    assert forall|r2: int, k: int|
                        0 <= r2 < rb0.num_relations() && 0 <= k < rb0.num_entries(r2) implies {
                        &&& #[trigger] rb.entry_domain(r2, k) == rb0.entry_domain(r2, k)
                        &&& rb.entry_slot(r2, k) == rb0.entry_slot(r2, k)
                        &&& rb.entry_ts(r2, k) == rb0.entry_ts(r2, k)
                    } by {
                        assert(rb_mid2.relations == rb_mid.relations);
                        assert(rb_mid.entry_domain(r2, k) == rb0.entry_domain(r2, k));
                        assert(rb_mid.entry_slot(r2, k) == rb0.entry_slot(r2, k));
                        assert(rb_mid.entry_ts(r2, k) == rb0.entry_ts(r2, k));
                        assert(rb_mid.num_entries(r2) == rb0.num_entries(r2) + (if r2 < ri {
                            tx0.num_pending(r2)
                        } else if r2 == ri {
                            i as nat
                        } else {
                            0
                        }));
                        if r2 == ri {
                            assert(rb.relations@[r2].entries@[k]
                                == rb_mid2.relations@[r2].entries@[k]);
                        } else {
                            assert(rb.relations@[r2] == rb_mid2.relations@[r2]);
                        }
                    }
                    assert forall|r2: int, k: int|
                        published_idx(tx0, ri, i + 1, r2, k) implies {
                        &&& #[trigger] rb.entry_domain(
                            r2,
                            rb0.num_entries(r2) + k,
                        ) == tx0.pending_domain(r2, k)
                        &&& rb.entry_slot(r2, rb0.num_entries(r2) + k) == tx0.pending_slot(r2, k)
                        &&& rb.entry_ts(r2, rb0.num_entries(r2) + k) == cts
                    } by {
                        if r2 == ri && k == i as int {
                        } else {
                            assert(published_idx(tx0, ri, i as int, r2, k));
                            assert(rb_mid.entry_domain(r2, rb0.num_entries(r2) + k)
                                == tx0.pending_domain(r2, k));
                            assert(rb_mid.entry_slot(r2, rb0.num_entries(r2) + k)
                                == tx0.pending_slot(r2, k));
                            assert(rb_mid.entry_ts(r2, rb0.num_entries(r2) + k) == cts);
                            if r2 == ri {
                                assert(rb.relations@[r2].entries@[rb0.num_entries(r2) + k]
                                    == rb_mid2.relations@[r2].entries@[rb0.num_entries(r2) + k]);
                            } else {
                                assert(rb.relations@[r2] == rb_mid2.relations@[r2]);
                            }
                        }
                    }
                    // the tuple now parses at the commit timestamp
                    lemma_ts_update_parse(rb0.tb().buffer_of(s), cts);
                    // the store invariant: new entry consistent, domains unique
                    assert forall|r2: int, k: int|
                        0 <= r2 < rb.num_relations() && 0 <= k < rb.num_entries(r2)
                            implies #[trigger] rb.entry_ok(r2, k) by {
                        if r2 == ri && k == rb0.num_entries(ri) + i {
                            assert(published_idx(tx0, ri, i + 1, ri, i as int));
                            assert(rb.tb().is_live(tx0.pending_slot(ri, i as int)));
                            assert(rb.entry_slot(r2, k) == s);
                            assert(rb.entry_domain(r2, k) == tx0.pending_domain(ri, i as int));
                            assert(rb.entry_ts(r2, k) == cts);
                            assert(rb.tb().is_live(rb.entry_slot(r2, k)));
                            assert(wf_tuple(rb.tb().buffer_of(rb.entry_slot(r2, k))));
                            assert(spec_domain_of(rb.tb().buffer_of(rb.entry_slot(r2, k)))
                                == rb.entry_domain(r2, k));
                            assert(spec_ts_of(rb.tb().buffer_of(rb.entry_slot(r2, k)))
                                == rb.entry_ts(r2, k));
                            assert(rb.next_ts() == cts + 1);
                            assert(rb.entry_ts(r2, k) < rb.next_ts());
                        } else if 0 <= k < rb0.num_entries(r2) {
                            assert(rb0.entry_ok(r2, k));
                            assert(rb.entry_domain(r2, k) == rb0.entry_domain(r2, k));
                            assert(rb.entry_slot(r2, k) == rb0.entry_slot(r2, k));
                            assert(rb.entry_ts(r2, k) == rb0.entry_ts(r2, k));
                            assert(rb.entry_ts(r2, k) < rb.next_ts());
                            assert(!published_slot(tx0, ri, i + 1, rb0.entry_slot(r2, k))) by {
                                if published_slot(tx0, ri, i + 1, rb0.entry_slot(r2, k)) {
                                    let (pr, pk) = choose|pr: int, pk: int|
                                        published_idx(tx0, ri, i + 1, pr, pk)
                                            && #[trigger] tx0.pending_slot(pr, pk)
                                            == rb0.entry_slot(r2, k);
                                    assert(tx0.pending_ok(rb0, pr, pk));
                                    assert(rb0.canonical_uses(tx0.pending_slot(pr, pk)));
                                }
                            }
                            assert(rb0.tb().slot_unchanged(rb.tb(), rb0.entry_slot(r2, k)));
                        } else {
                            let pk = k - rb0.num_entries(r2);
                            assert(published_idx(tx0, ri, i + 1, r2, pk));
                            assert(rb.entry_domain(r2, rb0.num_entries(r2) + pk)
                                == tx0.pending_domain(r2, pk));
                            assert(rb.entry_slot(r2, rb0.num_entries(r2) + pk) == tx0.pending_slot(
                                r2,
                                pk,
                            ));
                            assert(rb.entry_ts(r2, rb0.num_entries(r2) + pk) == cts);
                            assert(tx0.pending_ok(rb0, r2, pk));
                            assert(rb.tb().is_live(tx0.pending_slot(r2, pk)));
                            assert(k == rb0.num_entries(r2) + pk);
                            assert(rb.entry_slot(r2, k) == tx0.pending_slot(r2, pk));
                            assert(rb.tb().is_live(rb.entry_slot(r2, k)));
                            assert(wf_tuple(rb.tb().buffer_of(rb.entry_slot(r2, k))));
                            assert(spec_domain_of(rb.tb().buffer_of(rb.entry_slot(r2, k)))
                                == rb.entry_domain(r2, k));
                            assert(spec_ts_of(rb.tb().buffer_of(rb.entry_slot(r2, k)))
                                == rb.entry_ts(r2, k));
                            assert(rb.entry_ts(r2, k) < rb.next_ts());
                        }
                    }
                    assert forall|r2: int, k1: int, k2: int|
                        0 <= r2 < rb.num_relations() && 0 <= k1 < rb.num_entries(r2) && 0 <= k2
                            < rb.num_entries(r2) && k1 != k2 implies #[trigger] rb.entry_domain(
                        r2,
                        k1,
                    ) != #[trigger] rb.entry_domain(r2, k2) by {
                        lemma_published_domains_distinct(tx0, rb0, *rb, ri, i + 1, cts, r2, k1, k2);
                    }
                    // the working set lost its first pending insert
                    assert(self.working@[ri].inserts@ == self_prev.working@[ri].inserts@.subrange(
                        1,
                        m - i,
                    ));
                    assert forall|k: int|
                        #![trigger self.pending_domain(ri, k)]
                        #![trigger self.pending_slot(ri, k)]
                        0 <= k < m - i - 1 implies self.pending_domain(ri, k) == tx0.pending_domain(
                        ri,
                        k + i + 1,
                    ) && self.pending_slot(ri, k) == tx0.pending_slot(ri, k + i + 1) by {
                        assert(self.working@[ri].inserts@[k]
                            == self_prev.working@[ri].inserts@[k + 1]);
                        assert(self_prev.pending_domain(ri, k + 1) == tx0.pending_domain(
                            ri,
                            k + 1 + i,
                        ));
                        assert(self_prev.pending_slot(ri, k + 1) == tx0.pending_slot(ri, k + 1 + i));
                    }
                    assert forall|r2: int| 0 <= r2 < ri implies #[trigger] self.num_pending(r2)
                        == 0 by {
                        assert(self.working@[r2] == self_prev.working@[r2]);
                        assert(self_prev.num_pending(r2) == 0);
                    }
                    assert forall|r2: int|
                        ri < r2 < n implies #[trigger] tx0.pending_same_at(*self, r2) by {
                        assert(tx0.pending_same_at(self_prev, r2));
                        assert(self.working@[r2] == self_prev.working@[r2]);
                        assert(self.num_pending(r2) == self_prev.num_pending(r2));
                        assert(forall|k: int|
                            #![trigger self.pending_domain(r2, k)]
                            #![trigger self.pending_slot(r2, k)]
                            0 <= k < self_prev.num_pending(r2) ==> self.pending_domain(r2, k)
                                == self_prev.pending_domain(r2, k) && self.pending_slot(r2, k)
                                == self_prev.pending_slot(r2, k));
                    }
                }
                i += 1;
            }
            proof {
                assert forall|r2: int, k: int|
                    published_idx(tx0, ri + 1, 0, r2, k) implies published_idx(
                    tx0,
                    ri,
                    m as int,
                    r2,
                    k,
                ) by {}
                assert forall|j: int|
                    0 <= j < rb0.tb().num_slots() && !published_slot(tx0, ri + 1, 0, j)
                        implies #[trigger] rb0.tb().slot_unchanged(rb.tb(), j) by {
                    assert(!published_slot(tx0, ri, m as int, j)) by {
                        if published_slot(tx0, ri, m as int, j) {
                            let (r2, k) = choose|r2: int, k: int|
                                published_idx(tx0, ri, m as int, r2, k)
                                    && #[trigger] tx0.pending_slot(r2, k) == j;
                            assert(published_idx(tx0, ri + 1, 0, r2, k));
                            assert(published_slot(tx0, ri + 1, 0, j));
                        }
                    }
                }
            }
            r += 1;
        }
        proof {
            assert forall|r2: int, k: int|
                0 <= r2 < tx0.num_ws() && 0 <= k < tx0.num_pending(r2) implies published_idx(
                tx0,
                n as int,
                0,
                r2,
                k,
            ) by {}
            assert forall|j: int|
                0 <= j < rb0.tb().num_slots() && !tx0.is_pending_slot(j) implies !published_slot(
                tx0,
                n as int,
                0,
                j,
            ) by {
                if published_slot(tx0, n as int, 0, j) {
                    let (r2, k) = choose|r2: int, k: int|
                        published_idx(tx0, n as int, 0, r2, k) && #[trigger] tx0.pending_slot(
                            r2,
                            k,
                        ) == j;
                    assert(tx0.pending_slot_in_prefix(j, tx0.num_ws() as int));
                }
            }
            assert forall|r2: int, k: int|
                0 <= r2 < tx0.num_ws() && 0 <= k < tx0.num_pending(r2) implies {
                &&& #[trigger] final(rb).tb().is_live(tx0.pending_slot(r2, k))
                &&& spec_domain_of(rb.tb().buffer_of(tx0.pending_slot(r2, k)))
                    == tx0.pending_domain(r2, k)
                &&& spec_codomain_of(rb.tb().buffer_of(tx0.pending_slot(r2, k)))
                    == spec_codomain_of(rb0.tb().buffer_of(tx0.pending_slot(r2, k)))
                &&& spec_ts_of(rb.tb().buffer_of(tx0.pending_slot(r2, k))) == cts
            } by {
                assert(published_idx(tx0, n as int, 0, r2, k));
                assert(tx0.pending_ok(rb0, r2, k));
            }
        }
    }
}

/// Stamping a new timestamp into a well-formed tuple buffer keeps it well
/// formed, sets its timestamp, and leaves domain and codomain as they were.
proof fn lemma_ts_update_parse(b: Seq<u8>, ts: u64)
    requires
        wf_tuple(b),
    ensures
        wf_tuple(spec_u64_to_le_bytes(ts) + b.skip(8)),
        spec_ts_of(spec_u64_to_le_bytes(ts) + b.skip(8)) == ts,
        spec_domain_of(spec_u64_to_le_bytes(ts) + b.skip(8)) == spec_domain_of(b),
        spec_codomain_of(spec_u64_to_le_bytes(ts) + b.skip(8)) == spec_codomain_of(b),
{
    crate::layout::lemma_ts_update(b, ts);
}

/// With `i` inserts of relation `r` published, domains in every relation stay
/// pairwise distinct: old entries were distinct, published ones are pending
/// domains absent from the snapshot and unconflicted, and pending domains are
/// pairwise distinct themselves.
proof fn lemma_published_domains_distinct(
    tx0: Transaction,
    rb0: RelBox,
    rb1: RelBox,
    r: int,
    i: int,
    cts: u64,
    r2: int,
    k1: int,
    k2: int,
)
    requires
        tx0.wf(rb0),
        rb0.wf(),
        tx0.validation_ok(rb0),
        cts >= tx0.start_ts(),
        0 <= r2 < rb0.num_relations(),
        rb0.num_relations() == tx0.num_ws(),
        rb1.num_entries(r2) == rb0.num_entries(r2) + (if r2 < r {
            tx0.num_pending(r2)
        } else if r2 == r {
            i as nat
        } else {
            0
        }),
        r2 == r ==> 0 <= i <= tx0.num_pending(r),
        forall|k: int|
            0 <= k < rb0.num_entries(r2) ==> #[trigger] rb1.entry_domain(r2, k)
                == rb0.entry_domain(r2, k),
        forall|k: int|
            published_idx(tx0, r, i, r2, k) ==> #[trigger] rb1.entry_domain(
                r2,
                rb0.num_entries(r2) + k,
            ) == tx0.pending_domain(r2, k),
        0 <= k1 < rb1.num_entries(r2),
        0 <= k2 < rb1.num_entries(r2),
        k1 != k2,
    ensures
        rb1.entry_domain(r2, k1) != rb1.entry_domain(r2, k2),
{
    let n0 = rb0.num_entries(r2) as int;
    if k1 < n0 && k2 < n0 {
        assert(rb0.entry_domain(r2, k1) != rb0.entry_domain(r2, k2));
    } else if k1 >= n0 && k2 >= n0 {
        assert(published_idx(tx0, r, i, r2, k1 - n0));
        assert(published_idx(tx0, r, i, r2, k2 - n0));
        assert(rb1.entry_domain(r2, rb0.num_entries(r2) + (k1 - n0)) == tx0.pending_domain(
            r2,
            k1 - n0,
        ));
        assert(rb1.entry_domain(r2, rb0.num_entries(r2) + (k2 - n0)) == tx0.pending_domain(
            r2,
            k2 - n0,
        ));
        assert(tx0.pending_domain(r2, k1 - n0) != tx0.pending_domain(r2, k2 - n0));
    } else {
        let ko = if k1 < n0 {
            k1
        } else {
            k2
        };
        let kp = if k1 < n0 {
            k2
        } else {
            k1
        } - n0;
        assert(published_idx(tx0, r, i, r2, kp));
        assert(tx0.pending_ok(rb0, r2, kp));
        let d = tx0.pending_domain(r2, kp);
        assert(rb1.entry_domain(r2, rb0.num_entries(r2) + kp) == d);
        assert(rb1.entry_domain(r2, ko) == rb0.entry_domain(r2, ko));
        if rb0.entry_domain(r2, ko) == d {
            assert(rb0.has_committed(r2, d));
            let ci = rb0.committed_index(r2, d);
            assert(rb0.entry_domain(r2, ci) == d);
            assert(ci == ko);
            assert(tx0.pending_has(r2, d));
            assert(tx0.touched(r2, d));
            assert(tx0.validation_ok_at(rb0, r2));
            assert(!rb0.committed_after(r2, d, tx0.start_ts()));
            assert(!rb0.visible_at(r2, d, tx0.start_ts()));
            assert(rb0.committed_ts(r2, d) < tx0.start_ts() || rb0.committed_ts(r2, d)
                >= tx0.start_ts());
            assert(false);
        }
    }
}

} // verus!

verus! {

/// Stores holding the same relation vectors show the same canonical entries.
proof fn lemma_same_relations(a: RelBox, b: RelBox)
    requires
        a.relations == b.relations,
    ensures
        a.rels_unchanged(b),
        b.rels_unchanged(a),
{
    assert forall|r: int|
        0 <= r < a.num_relations() implies #[trigger] b.num_entries(r) == a.num_entries(r) by {}
    assert forall|r: int, k: int|
        #![trigger b.entry_domain(r, k)]
        #![trigger b.entry_slot(r, k)]
        #![trigger b.entry_ts(r, k)]
        0 <= r < a.num_relations() && 0 <= k < a.num_entries(r) implies b.entry_domain(r, k)
        == a.entry_domain(r, k) && b.entry_slot(r, k) == a.entry_slot(r, k) && b.entry_ts(r, k)
        == a.entry_ts(r, k) by {}
    assert forall|r: int|
        0 <= r < b.num_relations() implies #[trigger] a.num_entries(r) == b.num_entries(r) by {}
    assert forall|r: int, k: int|
        #![trigger a.entry_domain(r, k)]
        #![trigger a.entry_slot(r, k)]
        #![trigger a.entry_ts(r, k)]
        0 <= r < b.num_relations() && 0 <= k < b.num_entries(r) implies a.entry_domain(r, k)
        == b.entry_domain(r, k) && a.entry_slot(r, k) == b.entry_slot(r, k) && a.entry_ts(r, k)
        == b.entry_ts(r, k) by {}
}

impl Transaction {
    /// Validate this transaction's reads and writes against the current
    /// canonical state and end it. When no touched domain — and no scanned
    /// relation — was committed to at or after the snapshot, every pending
    /// insert is published atomically at one fresh commit timestamp and the
    /// transaction commits; otherwise nothing is published, the working set is
    /// released, and the transaction aborts with a serialization conflict.
    #[verifier::rlimit(100)]
    #[verifier::spinoff_prover]
    pub fn commit(&mut self, rb: &mut RelBox) -> (res: Result<(), CommitError>)
        requires
            old(rb).wf(),
            old(self).wf(*old(rb)),
            old(self).is_active(),
            old(rb).next_ts() < u64::MAX,
        ensures
            final(rb).wf(),
            final(rb).num_relations() == old(rb).num_relations(),
            final(rb).tb().num_slots() == old(rb).tb().num_slots(),
            res is Ok <==> old(self).validation_ok(*old(rb)),
            res is Err ==> res == Err::<(), CommitError>(CommitError::Conflict),
            res is Ok ==> {
                &&& final(self).state() is Committed
                &&& final(rb).next_ts() == old(rb).next_ts() + 1
                &&& forall|r2: int|
                    0 <= r2 < old(rb).num_relations() ==> #[trigger] final(rb).num_entries(r2)
                        == old(rb).num_entries(r2) + old(self).num_pending(r2)
                &&& forall|r2: int, k: int|
                    0 <= r2 < old(rb).num_relations() && 0 <= k < old(rb).num_entries(r2) ==> {
                        &&& #[trigger] final(rb).entry_domain(r2, k) == old(rb).entry_domain(r2, k)
                        &&& final(rb).entry_slot(r2, k) == old(rb).entry_slot(r2, k)
                        &&& final(rb).entry_ts(r2, k) == old(rb).entry_ts(r2, k)
                    }
                &&& forall|r2: int, k: int|
                    0 <= r2 < old(self).num_ws() && 0 <= k < old(self).num_pending(r2) ==> {
                        &&& #[trigger] final(rb).entry_domain(
                            r2,
                            old(rb).num_entries(r2) + k,
                        ) == old(self).pending_domain(r2, k)
                        &&& final(rb).entry_slot(r2, old(rb).num_entries(r2) + k) == old(
                            self,
                        ).pending_slot(r2, k)
                        &&& final(rb).entry_ts(r2, old(rb).num_entries(r2) + k) == old(
                            rb,
                        ).next_ts()
                    }
                &&& forall|r2: int, k: int|
                    0 <= r2 < old(self).num_ws() && 0 <= k < old(self).num_pending(r2) ==> {
                        &&& #[trigger] final(rb).tb().is_live(old(self).pending_slot(r2, k))
                        &&& final(rb).tb().refcount_of(old(self).pending_slot(r2, k)) == old(
                            rb,
                        ).tb().refcount_of(old(self).pending_slot(r2, k))
                        &&& spec_domain_of(
                            final(rb).tb().buffer_of(old(self).pending_slot(r2, k)),
                        ) == old(self).pending_domain(r2, k)
                        &&& spec_codomain_of(
                            final(rb).tb().buffer_of(old(self).pending_slot(r2, k)),
                        ) == spec_codomain_of(
                            old(rb).tb().buffer_of(old(self).pending_slot(r2, k)),
                        )
                        &&& spec_ts_of(final(rb).tb().buffer_of(old(self).pending_slot(r2, k)))
                            == old(rb).next_ts()
                    }
            },
            res is Err ==> {
                &&& final(self).state() is Aborted
                &&& old(rb).rels_unchanged(*final(rb))
                &&& final(rb).next_ts() == old(rb).next_ts()
                &&& forall|r2: int, k: int|
                    0 <= r2 < old(self).num_ws() && 0 <= k < old(self).num_pending(r2) ==> {
                        &&& #[trigger] final(rb).tb().refcount_of(old(self).pending_slot(r2, k))
                            == old(rb).tb().refcount_of(old(self).pending_slot(r2, k)) - 1
                        &&& (final(rb).tb().is_live(old(self).pending_slot(r2, k)) <==> old(
                            rb,
                        ).tb().refcount_of(old(self).pending_slot(r2, k)) > 1)
                    }
            },
            forall|j: int|
                0 <= j < old(rb).tb().num_slots() && !old(self).is_pending_slot(j) ==> #[trigger] old(
                    rb,
                ).tb().slot_unchanged(final(rb).tb(), j),
    {
        if self.validate(rb) {
            self.commit_publish(rb);
            Ok(())
        } else {
            self.release_pending(rb);
            self.state = TxState::Aborted;
            Err(CommitError::Conflict)
        }
    }

    /// Publish the working set at a fresh commit timestamp and mark the
    /// transaction committed. The caller has already validated it.
    #[verifier::rlimit(100)]
    #[verifier::spinoff_prover]
    fn commit_publish(&mut self, rb: &mut RelBox)
        requires
            old(rb).wf(),
            old(self).wf(*old(rb)),
            old(self).is_active(),
            old(self).validation_ok(*old(rb)),
            old(rb).next_ts() < u64::MAX,
        ensures
            final(rb).wf(),
            final(rb).num_relations() == old(rb).num_relations(),
            final(rb).tb().num_slots() == old(rb).tb().num_slots(),
            final(self).state() is Committed,
            final(rb).next_ts() == old(rb).next_ts() + 1,
            forall|r2: int|
                0 <= r2 < old(rb).num_relations() ==> #[trigger] final(rb).num_entries(r2) == old(
                    rb,
                ).num_entries(r2) + old(self).num_pending(r2),
            forall|r2: int, k: int|
                0 <= r2 < old(rb).num_relations() && 0 <= k < old(rb).num_entries(r2) ==> {
                    &&& #[trigger] final(rb).entry_domain(r2, k) == old(rb).entry_domain(r2, k)
                    &&& final(rb).entry_slot(r2, k) == old(rb).entry_slot(r2, k)
                    &&& final(rb).entry_ts(r2, k) == old(rb).entry_ts(r2, k)
                },
            forall|r2: int, k: int|
                0 <= r2 < old(self).num_ws() && 0 <= k < old(self).num_pending(r2) ==> {
                    &&& #[trigger] final(rb).entry_domain(
                        r2,
                        old(rb).num_entries(r2) + k,
                    ) == old(self).pending_domain(r2, k)
                    &&& final(rb).entry_slot(r2, old(rb).num_entries(r2) + k) == old(
                        self,
                    ).pending_slot(r2, k)
                    &&& final(rb).entry_ts(r2, old(rb).num_entries(r2) + k) == old(rb).next_ts()
                },
            forall|r2: int, k: int|
                0 <= r2 < old(self).num_ws() && 0 <= k < old(self).num_pending(r2) ==> {
                    &&& #[trigger] final(rb).tb().is_live(old(self).pending_slot(r2, k))
                    &&& final(rb).tb().refcount_of(old(self).pending_slot(r2, k)) == old(
                        rb,
                    ).tb().refcount_of(old(self).pending_slot(r2, k))
                    &&& spec_domain_of(final(rb).tb().buffer_of(old(self).pending_slot(r2, k)))
                        == old(self).pending_domain(r2, k)
                    &&& spec_codomain_of(final(rb).tb().buffer_of(old(self).pending_slot(r2, k)))
                        == spec_codomain_of(old(rb).tb().buffer_of(old(self).pending_slot(r2, k)))
                    &&& spec_ts_of(final(rb).tb().buffer_of(old(self).pending_slot(r2, k))) == old(
                        rb,
                    ).next_ts()
                },
            forall|j: int|
                0 <= j < old(rb).tb().num_slots() && !old(self).is_pending_slot(j) ==> #[trigger] old(
                    rb,
                ).tb().slot_unchanged(final(rb).tb(), j),
    {
            let cts = rb.next_ts;
            rb.next_ts = cts + 1;
            proof {
                let rb1 = *rb;
                lemma_same_relations(*old(rb), rb1);
                assert(rb1.tb() == old(rb).tb());
                assert forall|r2: int, k: int|
                    0 <= r2 < rb1.num_relations() && 0 <= k < rb1.num_entries(r2)
                        implies #[trigger] rb1.entry_ok(r2, k) by {
                    assert(old(rb).entry_ok(r2, k));
                    assert(rb1.entry_domain(r2, k) == old(rb).entry_domain(r2, k));
                    assert(rb1.entry_slot(r2, k) == old(rb).entry_slot(r2, k));
                    assert(rb1.entry_ts(r2, k) == old(rb).entry_ts(r2, k));
                }
                assert forall|r2: int, k1: int, k2: int|
                    0 <= r2 < rb1.num_relations() && 0 <= k1 < rb1.num_entries(r2) && 0 <= k2
                        < rb1.num_entries(r2) && k1 != k2 implies #[trigger] rb1.entry_domain(
                    r2,
                    k1,
                ) != #[trigger] rb1.entry_domain(r2, k2) by {
                    assert(rb1.entry_domain(r2, k1) == old(rb).entry_domain(r2, k1));
                    assert(rb1.entry_domain(r2, k2) == old(rb).entry_domain(r2, k2));
                    assert(old(rb).entry_domain(r2, k1) != old(rb).entry_domain(r2, k2));
                }
                assert(rb1.wf());
                assert forall|r2: int, k: int|
                    0 <= r2 < self.num_ws() && 0 <= k < self.num_pending(r2)
                        implies #[trigger] self.pending_ok(rb1, r2, k) by {
                    assert(self.pending_ok(*old(rb), r2, k));
                    Transaction::lemma_visibility_transfer(
                        *old(rb),
                        rb1,
                        r2,
                        self.pending_domain(r2, k),
                    );
                    assert(!rb1.canonical_uses(self.pending_slot(r2, k))) by {
                        if rb1.canonical_uses(self.pending_slot(r2, k)) {
                            let (cr, ck) = choose|cr: int, ck: int|
                                0 <= cr < rb1.num_relations() && 0 <= ck < rb1.num_entries(cr)
                                    && #[trigger] rb1.entry_slot(cr, ck) == self.pending_slot(
                                    r2,
                                    k,
                                );
                            assert(old(rb).entry_slot(cr, ck) == self.pending_slot(r2, k));
                            assert(old(rb).canonical_uses(self.pending_slot(r2, k)));
                        }
                    }
                }
                assert(self.wf(rb1));
                assert forall|r2: int|
                    0 <= r2 < self.num_ws() implies #[trigger] self.validation_ok_at(rb1, r2) by {
                    assert(self.validation_ok_at(*old(rb), r2));
                    assert forall|d: Seq<u8>| #[trigger] self.touched(r2, d) implies !rb1.committed_after(
                        r2,
                        d,
                        self.start_ts(),
                    ) by {
                        assert(!old(rb).committed_after(r2, d, self.start_ts()));
                        Transaction::lemma_visibility_transfer(*old(rb), rb1, r2, d);
                    }
                    assert(self.scanned(r2) ==> !rb1.any_committed_after(r2, self.start_ts()))
                        by {
                        if rb1.any_committed_after(r2, self.start_ts()) {
                            let ck = choose|ck: int|
                                0 <= ck < rb1.num_entries(r2) && #[trigger] rb1.entry_ts(r2, ck)
                                    >= self.start_ts();
                            assert(old(rb).entry_ts(r2, ck) >= self.start_ts());
                            assert(old(rb).any_committed_after(r2, self.start_ts()));
                        }
                    }
                }
                assert(self.validation_ok(rb1));
            }
            let ghost rb_bump = *rb;
            let ghost tx_pre = *self;
            self.publish_pending(rb, cts);
            proof {
                assert forall|r2: int|
                    0 <= r2 < old(rb).num_relations() implies #[trigger] rb.num_entries(r2) == old(
                    rb,
                ).num_entries(r2) + old(self).num_pending(r2) by {
                    assert(rb.num_entries(r2) == rb_bump.num_entries(r2) + tx_pre.num_pending(r2));
                    assert(rb_bump.num_entries(r2) == old(rb).num_entries(r2));
                }
                assert forall|r2: int, k: int|
                    0 <= r2 < old(rb).num_relations() && 0 <= k < old(rb).num_entries(r2) implies {
                    &&& #[trigger] rb.entry_domain(r2, k) == old(rb).entry_domain(r2, k)
                    &&& rb.entry_slot(r2, k) == old(rb).entry_slot(r2, k)
                    &&& rb.entry_ts(r2, k) == old(rb).entry_ts(r2, k)
                } by {
                    assert(rb.entry_domain(r2, k) == rb_bump.entry_domain(r2, k));
                    assert(rb.entry_slot(r2, k) == rb_bump.entry_slot(r2, k));
                    assert(rb.entry_ts(r2, k) == rb_bump.entry_ts(r2, k));
                    assert(rb_bump.entry_domain(r2, k) == old(rb).entry_domain(r2, k));
                    assert(rb_bump.entry_slot(r2, k) == old(rb).entry_slot(r2, k));
                    assert(rb_bump.entry_ts(r2, k) == old(rb).entry_ts(r2, k));
                }
                assert forall|r2: int, k: int|
                    0 <= r2 < old(self).num_ws() && 0 <= k < old(self).num_pending(r2) implies {
                    &&& #[trigger] rb.entry_domain(
                        r2,
                        old(rb).num_entries(r2) + k,
                    ) == old(self).pending_domain(r2, k)
                    &&& rb.entry_slot(r2, old(rb).num_entries(r2) + k) == old(self).pending_slot(
                        r2,
                        k,
                    )
                    &&& rb.entry_ts(r2, old(rb).num_entries(r2) + k) == cts
                } by {
                    assert(rb.entry_domain(r2, rb_bump.num_entries(r2) + k)
                        == tx_pre.pending_domain(r2, k));
                    assert(rb.entry_slot(r2, rb_bump.num_entries(r2) + k) == tx_pre.pending_slot(
                        r2,
                        k,
                    ));
                    assert(rb.entry_ts(r2, rb_bump.num_entries(r2) + k) == cts);
                    assert(rb_bump.num_entries(r2) == old(rb).num_entries(r2));
                }
                assert forall|r2: int, k: int|
                    0 <= r2 < old(self).num_ws() && 0 <= k < old(self).num_pending(r2) implies {
                    &&& #[trigger] rb.tb().is_live(old(self).pending_slot(r2, k))
                    &&& rb.tb().refcount_of(old(self).pending_slot(r2, k)) == old(
                        rb,
                    ).tb().refcount_of(old(self).pending_slot(r2, k))
                    &&& spec_domain_of(rb.tb().buffer_of(old(self).pending_slot(r2, k))) == old(
                        self,
                    ).pending_domain(r2, k)
                    &&& spec_codomain_of(rb.tb().buffer_of(old(self).pending_slot(r2, k)))
                        == spec_codomain_of(old(rb).tb().buffer_of(old(self).pending_slot(r2, k)))
                    &&& spec_ts_of(rb.tb().buffer_of(old(self).pending_slot(r2, k))) == cts
                } by {
                    assert(rb.tb().is_live(tx_pre.pending_slot(r2, k)));
                    assert(rb.tb().refcount_of(tx_pre.pending_slot(r2, k))
                        == rb_bump.tb().refcount_of(tx_pre.pending_slot(r2, k)));
                    assert(spec_domain_of(rb.tb().buffer_of(tx_pre.pending_slot(r2, k)))
                        == tx_pre.pending_domain(r2, k));
                    assert(spec_codomain_of(rb.tb().buffer_of(tx_pre.pending_slot(r2, k)))
                        == spec_codomain_of(rb_bump.tb().buffer_of(tx_pre.pending_slot(r2, k))));
                    assert(spec_ts_of(rb.tb().buffer_of(tx_pre.pending_slot(r2, k))) == cts);
                    assert(rb_bump.tb() == old(rb).tb());
                }
                assert forall|j: int|
                    0 <= j < old(rb).tb().num_slots() && !old(self).is_pending_slot(j)
                        implies #[trigger] old(rb).tb().slot_unchanged(rb.tb(), j) by {
                    assert(!tx_pre.is_pending_slot(j)) by {
                        if tx_pre.pending_slot_in_prefix(j, tx_pre.num_ws() as int) {
                            let (r2, k) = choose|r2: int, k: int|
                                0 <= r2 < tx_pre.num_ws() && 0 <= k < tx_pre.num_pending(r2)
                                    && #[trigger] tx_pre.pending_slot(r2, k) == j;
                            assert(old(self).pending_slot_in_prefix(
                                j,
                                old(self).num_ws() as int,
                            ));
                        }
                    }
                    assert(rb_bump.tb().slot_unchanged(rb.tb(), j));
                    assert(rb_bump.tb() == old(rb).tb());
                }
            }
        self.state = TxState::Committed;
    }
}

} // verus!

verus! {

impl Transaction {
    /// Mark relation `r` as scanned whole: any later commit into it conflicts.
    fn record_scan(&mut self, r: usize)
        requires
            r < old(self).num_ws(),
        ensures
            final(self).num_ws() == old(self).num_ws(),
            final(self).start_ts() == old(self).start_ts(),
            final(self).state() == old(self).state(),
            final(self).scanned(r as int),
            forall|r2: int|
                0 <= r2 < old(self).num_ws() ==> #[trigger] old(self).pending_same_at(
                    *final(self),
                    r2,
                ),
            forall|r2: int|
                0 <= r2 < old(self).num_ws() ==> #[trigger] old(self).reads_same_at(
                    *final(self),
                    r2,
                ),
            forall|r2: int|
                0 <= r2 < old(self).num_ws() && r2 != r ==> #[trigger] final(self).scanned(r2)
                    == old(self).scanned(r2),
    {
        let ws = &mut self.working[r];
        ws.scanned = true;
    }

    /// Scan relation `rid` through an arbitrary predicate over (domain,
    /// codomain) byte pairs: every tuple this transaction sees — its own
    /// pending inserts first, then the committed entries visible to its
    /// snapshot — is offered to the predicate, and those it accepts are
    /// returned as fresh ownership shares. The whole-relation read is
    /// recorded for commit-time conflict validation.
    /// Offer every pending insert of relation `r` to the predicate and clone
    /// an ownership share of each accepted one into `res`.
    #[verifier::rlimit(100)]
    #[verifier::spinoff_prover]
    #[verifier::loop_isolation(false)]
    fn scan_pending_into<F: Fn(Vec<u8>, Vec<u8>) -> bool>(
        &self,
        rb: &mut RelBox,
        r: usize,
        predicate: &F,
        res: &mut Vec<TupleRef>,
    )
        requires
            old(rb).wf(),
            self.wf(*old(rb)),
            r < self.num_ws(),
            r < old(rb).num_relations(),
            forall|d: Vec<u8>, c: Vec<u8>| #[trigger] call_requires(*predicate, (d, c)),
            forall|j: int|
                old(rb).tb().is_live(j) ==> #[trigger] old(rb).tb().refcount_of(j)
                    + self.num_pending(r as int) <= u64::MAX,
            old(res)@.len() == 0,
        ensures
            final(rb).wf(),
            self.wf(*final(rb)),
            final(rb).relations == old(rb).relations,
            final(rb).next_ts() == old(rb).next_ts(),
            final(rb).tb().num_slots() == old(rb).tb().num_slots(),
            scan_frame(*old(rb), *final(rb), self.num_pending(r as int) as int),
            scan_keeps(*self, *old(rb), *final(rb), r as int, final(res)@, *predicate),
            pending_covered(
                *self,
                *final(rb),
                r as int,
                self.num_pending(r as int) as int,
                final(res)@,
                *predicate,
            ),
    {
        let ghost rb0 = *rb;
        let ghost ri = r as int;
        let num_ins = self.working[r].inserts.len();
        let mut k: usize = 0;
        while k < num_ins
            invariant
                num_ins == self.num_pending(ri),
                0 <= k <= num_ins,
                rb.wf(),
                self.wf(*rb),
                rb.relations == rb0.relations,
                rb.next_ts() == rb0.next_ts(),
                rb.tb().num_slots() == rb0.tb().num_slots(),
                scan_frame(rb0, *rb, k as int),
                scan_keeps(*self, rb0, *rb, ri, res@, *predicate),
                pending_covered(*self, *rb, ri, k as int, res@, *predicate),
            decreases num_ins - k,
        {
            proof {
                assert(self.pending_ok(*rb, ri, k as int));
            }
            let entry_ref = &self.working[r].inserts[k];
            let dv = slice_to_vec(entry_ref.domain.as_slice());
            let buffer = rb.tuplebox.buffer(entry_ref.tref.id());
            let cv = crate::layout::decode_codomain(buffer.as_slice());
            let ghost dv_g = dv;
            let ghost cv_g = cv;
            let ghost res_snap = res@;
            let keep = predicate(dv, cv);
            if keep {
                let ghost rb_prev = *rb;
                proof {
                    let sl = self.pending_slot(ri, k as int);
                    assert(rb0.tb().is_live(sl));
                    assert(rb.tb().is_live(sl));
                    assert(rb.tb().refcount_of(sl) <= rb0.tb().refcount_of(sl) + k);
                    assert(rb0.tb().refcount_of(sl) + self.num_pending(ri) <= u64::MAX);
                }
                let t2 = self.working[r].inserts[k].tref.clone_ref(&mut rb.tuplebox);
                proof {
                    let d = self.pending_domain(ri, k as int);
                    let pi = self.pending_index(ri, d);
                    assert(self.pending_domain(ri, pi) == d);
                    assert(pi == k as int);
                    assert(self.pending_has(ri, d));
                    self.lemma_frame_preserves(rb_prev, *rb, t2.ptr());
                    assert(scan_frame(rb0, *rb, k + 1)) by {
                        assert(scan_frame(rb0, rb_prev, k as int));
                        assert forall|j: int|
                            0 <= j < rb0.tb().num_slots() implies ((#[trigger] rb.tb().is_live(j)
                            <==> rb0.tb().is_live(j)) && (rb0.tb().is_live(j)
                            ==> rb.tb().buffer_of(j) == rb0.tb().buffer_of(j)
                            && rb0.tb().refcount_of(j) <= rb.tb().refcount_of(j)
                            <= rb0.tb().refcount_of(j) + (k + 1) && rb.tb().relation_of(j)
                            == rb0.tb().relation_of(j))) by {
                            assert(rb_prev.tb().is_live(j) <==> rb0.tb().is_live(j));
                            if rb0.tb().is_live(j) {
                                assert(rb_prev.tb().refcount_of(j) <= rb0.tb().refcount_of(j) + k);
                                assert(rb_prev.tb().buffer_of(j) == rb0.tb().buffer_of(j));
                            }
                            if j != t2.ptr() {
                                assert(rb_prev.tb().slot_unchanged(rb.tb(), j));
                            }
                        }
                    }
                }
                let ghost res_prev = res_snap;
                res.push(t2);
                proof {
                    assert(t2.spec_codomain(rb.tb()) == cv_g@);
                    assert(t2.spec_domain(rb.tb()) == dv_g@);
                    assert(call_ensures(*predicate, (dv_g, cv_g), true));
                    assert(scan_keeps(*self, rb0, *rb, ri, res@, *predicate)) by {
                        assert(scan_keeps(*self, rb0, rb_prev, ri, res_prev, *predicate));
                        assert forall|i: int|
                            0 <= i < res@.len() implies ((#[trigger] res@[i]).valid(rb.tb())
                            && self.sees(rb0, ri, res@[i].spec_domain(rb.tb())) == Some(
                            res@[i].spec_codomain(rb.tb()),
                        ) && exists|dv: Vec<u8>, cv: Vec<u8>|
                            dv@ == res@[i].spec_domain(rb.tb()) && cv@ == res@[i].spec_codomain(
                                rb.tb(),
                            ) && #[trigger] call_ensures(*predicate, (dv, cv), true)) by {
                            if i < res_prev.len() {
                                assert(res@[i] == res_prev[i]);
                                assert(res_prev[i].valid(rb_prev.tb()));
                                if res_prev[i].ptr() != t2.ptr() {
                                    assert(rb_prev.tb().slot_unchanged(
                                        rb.tb(),
                                        res_prev[i].ptr(),
                                    ));
                                }
                                assert(rb.tb().buffer_of(res_prev[i].ptr())
                                    == rb_prev.tb().buffer_of(res_prev[i].ptr()));
                            } else {
                                assert(res@[i] == t2);
                            }
                        }
                    }
                    assert(pending_covered(*self, *rb, ri, k + 1, res@, *predicate)) by {
                        assert(pending_covered(*self, rb_prev, ri, k as int, res_prev, *predicate));
                        assert forall|kp: int|
                            0 <= kp < k + 1 implies (exists|i: int|
                            0 <= i < res@.len() && (#[trigger] res@[i]).spec_domain(rb.tb())
                                == self.pending_domain(ri, kp)) || (exists|dv: Vec<u8>, cv: Vec<u8>|
                            dv@ == #[trigger] self.pending_domain(ri, kp) && cv@
                                == spec_codomain_of(
                                rb.tb().buffer_of(self.pending_slot(ri, kp)),
                            ) && call_ensures(*predicate, (dv, cv), false)) by {
                            assert(self.pending_ok(rb0, ri, kp));
                            assert(rb0.tb().is_live(self.pending_slot(ri, kp)));
                            assert(rb_prev.tb().is_live(self.pending_slot(ri, kp)));
                            if self.pending_slot(ri, kp) != t2.ptr() {
                                assert(rb_prev.tb().slot_unchanged(
                                    rb.tb(),
                                    self.pending_slot(ri, kp),
                                ));
                            }
                            assert(rb.tb().buffer_of(self.pending_slot(ri, kp))
                                == rb_prev.tb().buffer_of(self.pending_slot(ri, kp)));
                            if kp == k as int {
                                let i = res@.len() - 1;
                                assert(res@[i] == t2);
                                assert(res@[i].spec_domain(rb.tb()) == self.pending_domain(
                                    ri,
                                    kp,
                                ));
                            } else {
                                if (exists|i: int|
                                    0 <= i < res_prev.len() && (#[trigger] res_prev[i]).spec_domain(
                                        rb_prev.tb(),
                                    ) == self.pending_domain(ri, kp)) {
                                    let i = choose|i: int|
                                        0 <= i < res_prev.len() && (
                                        #[trigger] res_prev[i]).spec_domain(rb_prev.tb())
                                            == self.pending_domain(ri, kp);
                                    assert(res@[i] == res_prev[i]);
                                    assert(res_prev[i].valid(rb_prev.tb()));
                                    assert(rb.tb().buffer_of(res_prev[i].ptr())
                                        == rb_prev.tb().buffer_of(res_prev[i].ptr()));
                                    assert(res@[i].spec_domain(rb.tb()) == self.pending_domain(
                                        ri,
                                        kp,
                                    ));
                                }
                            }
                        }
                    }
                }
            }
            proof {
                assert(call_ensures(*predicate, (dv_g, cv_g), keep));
                assert(scan_frame(rb0, *rb, k + 1));
                if !keep {
                    assert(scan_keeps(*self, rb0, *rb, ri, res@, *predicate));
                    assert(pending_covered(*self, *rb, ri, k + 1, res@, *predicate)) by {
                        assert forall|kp: int|
                            0 <= kp < k + 1 implies (exists|i: int|
                            0 <= i < res@.len() && (#[trigger] res@[i]).spec_domain(rb.tb())
                                == self.pending_domain(ri, kp)) || (exists|dv: Vec<u8>, cv: Vec<u8>|
                            dv@ == #[trigger] self.pending_domain(ri, kp) && cv@
                                == spec_codomain_of(
                                rb.tb().buffer_of(self.pending_slot(ri, kp)),
                            ) && call_ensures(*predicate, (dv, cv), false)) by {
                            if kp == k as int {
                                assert(dv_g@ == self.pending_domain(ri, kp));
                                assert(cv_g@ == spec_codomain_of(
                                    rb.tb().buffer_of(self.pending_slot(ri, kp)),
                                ));
                                assert(call_ensures(*predicate, (dv_g, cv_g), false));
                            }
                        }
                    }
                }
            }
            k += 1;
        }
    }

    /// Offer every committed entry of relation `r` visible to this
    /// transaction's snapshot to the predicate and clone an ownership share
    /// of each accepted one into `res`.
    #[verifier::rlimit(100)]
    #[verifier::spinoff_prover]
    #[verifier::loop_isolation(false)]
    fn scan_visible_into<F: Fn(Vec<u8>, Vec<u8>) -> bool>(
        &self,
        rb: &mut RelBox,
        r: usize,
        predicate: &F,
        res: &mut Vec<TupleRef>,
    )
        requires
            old(rb).wf(),
            self.wf(*old(rb)),
            r < self.num_ws(),
            r < old(rb).num_relations(),
            forall|d: Vec<u8>, c: Vec<u8>| #[trigger] call_requires(*predicate, (d, c)),
            forall|j: int|
                old(rb).tb().is_live(j) ==> #[trigger] old(rb).tb().refcount_of(j) + old(
                    rb,
                ).num_entries(r as int) <= u64::MAX,
            scan_keeps(*self, *old(rb), *old(rb), r as int, old(res)@, *predicate),
        ensures
            final(rb).wf(),
            self.wf(*final(rb)),
            final(rb).relations == old(rb).relations,
            final(rb).next_ts() == old(rb).next_ts(),
            final(rb).tb().num_slots() == old(rb).tb().num_slots(),
            forall|j: int|
                0 <= j < old(rb).tb().num_slots() ==> {
                    &&& (#[trigger] final(rb).tb().is_live(j) <==> old(rb).tb().is_live(j))
                    &&& (old(rb).tb().is_live(j) ==> final(rb).tb().buffer_of(j) == old(
                        rb,
                    ).tb().buffer_of(j) && old(rb).tb().refcount_of(j) <= final(rb).tb().refcount_of(j) && final(rb).tb().relation_of(j) == old(
                        rb,
                    ).tb().relation_of(j))
                },
            final(res)@.len() >= old(res)@.len(),
            scan_keeps(*self, *old(rb), *final(rb), r as int, final(res)@, *predicate),
            forall|i: int|
                0 <= i < old(res)@.len() ==> #[trigger] final(res)@[i] == old(res)@[i],
            entries_covered(
                *self,
                *old(rb),
                *final(rb),
                r as int,
                old(rb).num_entries(r as int) as int,
                final(res)@,
                *predicate,
            ),
    {
        let ghost rb0 = *rb;
        let ghost ri = r as int;
        let num_entries = rb.relations[r].entries.len();
        let mut k2: usize = 0;
        while k2 < num_entries
            invariant
                num_entries == rb0.num_entries(ri),
                0 <= k2 <= num_entries,
                rb.wf(),
                self.wf(*rb),
                rb.relations == rb0.relations,
                rb.next_ts() == rb0.next_ts(),
                rb.tb().num_slots() == rb0.tb().num_slots(),
                res@.len() >= old(res)@.len(),
                forall|i: int|
                    0 <= i < old(res)@.len() ==> #[trigger] res@[i] == old(res)@[i],
                scan_frame(rb0, *rb, k2 as int),
                scan_keeps(*self, rb0, *rb, ri, res@, *predicate),
                entries_covered(*self, rb0, *rb, ri, k2 as int, res@, *predicate),
            decreases num_entries - k2,
        {
            proof {
                assert(rb.entry_ok(ri, k2 as int));
            }
            let write_ts = rb.relations[r].entries[k2].write_ts;
            if write_ts < self.start_ts {
                let dv = slice_to_vec(rb.relations[r].entries[k2].domain.as_slice());
                let buffer = rb.tuplebox.buffer(rb.relations[r].entries[k2].tref.id());
                let cv = crate::layout::decode_codomain(buffer.as_slice());
                let ghost dv_g = dv;
                let ghost cv_g = cv;
                let keep = predicate(dv, cv);
                if keep {
                    let ghost rb_prev = *rb;
                    proof {
                        let sl = rb.entry_slot(ri, k2 as int);
                        assert(rb.tb().is_live(sl));
                        assert(rb0.tb().is_live(sl));
                        assert(rb.tb().refcount_of(sl) <= rb0.tb().refcount_of(sl) + k2);
                        assert(rb0.tb().refcount_of(sl) + rb0.num_entries(ri) <= u64::MAX);
                    }
                    let t2 = rb.relations[r].entries[k2].tref.clone_ref(&mut rb.tuplebox);
                    proof {
                        assert(t2.ptr() == rb_prev.entry_slot(ri, k2 as int));
                        self.lemma_frame_preserves(rb_prev, *rb, t2.ptr());
                        assert(scan_frame(rb0, *rb, k2 + 1)) by {
                            assert(scan_frame(rb0, rb_prev, k2 as int));
                            assert forall|j: int|
                                0 <= j < rb0.tb().num_slots() implies ((
                            #[trigger] rb.tb().is_live(j) <==> rb0.tb().is_live(j)) && (
                            rb0.tb().is_live(j) ==> rb.tb().buffer_of(j) == rb0.tb().buffer_of(j)
                                && rb0.tb().refcount_of(j) <= rb.tb().refcount_of(j)
                                <= rb0.tb().refcount_of(j) + (k2 + 1) && rb.tb().relation_of(j)
                                == rb0.tb().relation_of(j))) by {
                                assert(rb_prev.tb().is_live(j) <==> rb0.tb().is_live(j));
                                if rb0.tb().is_live(j) {
                                    assert(rb_prev.tb().refcount_of(j) <= rb0.tb().refcount_of(j)
                                        + k2);
                                    assert(rb_prev.tb().buffer_of(j) == rb0.tb().buffer_of(j));
                                }
                                if j != t2.ptr() {
                                    assert(rb_prev.tb().slot_unchanged(rb.tb(), j));
                                }
                            }
                        }
                        // this entry is exactly what the transaction sees for
                        // its domain
                        let d = rb_prev.entry_domain(ri, k2 as int);
                        assert(rb_prev.has_committed(ri, d));
                        let ci = rb_prev.committed_index(ri, d);
                        assert(rb_prev.entry_domain(ri, ci) == d);
                        assert(ci == k2 as int);
                        assert(rb_prev.visible_at(ri, d, self.start_ts()));
                        assert(!self.pending_has(ri, d)) by {
                            if self.pending_has(ri, d) {
                                let pk = self.pending_index(ri, d);
                                assert(self.pending_domain(ri, pk) == d);
                                assert(self.pending_ok(rb_prev, ri, pk));
                            }
                        }
                        Transaction::lemma_visibility_transfer(rb0, rb_prev, ri, d);
                        assert(rb0.committed_index(ri, d) == k2 as int);
                        assert(self.sees(rb0, ri, d) == Some(rb0.committed_codomain(ri, d)));
                    }
                    let ghost res_prev = res@;
                    res.push(t2);
                    proof {
                        assert(t2.spec_codomain(rb.tb()) == cv_g@);
                        assert(t2.spec_domain(rb.tb()) == dv_g@);
                        assert(call_ensures(*predicate, (dv_g, cv_g), true));
                        assert(scan_keeps(*self, rb0, *rb, ri, res@, *predicate)) by {
                            assert(scan_keeps(*self, rb0, rb_prev, ri, res_prev, *predicate));
                            assert forall|i: int|
                                0 <= i < res@.len() implies ((#[trigger] res@[i]).valid(rb.tb())
                                && self.sees(rb0, ri, res@[i].spec_domain(rb.tb())) == Some(
                                res@[i].spec_codomain(rb.tb()),
                            ) && exists|dv: Vec<u8>, cv: Vec<u8>|
                                dv@ == res@[i].spec_domain(rb.tb()) && cv@
                                    == res@[i].spec_codomain(rb.tb()) && #[trigger] call_ensures(
                                    *predicate,
                                    (dv, cv),
                                    true,
                                )) by {
                                if i < res_prev.len() {
                                    assert(res@[i] == res_prev[i]);
                                    assert(res_prev[i].valid(rb_prev.tb()));
                                    if res_prev[i].ptr() != t2.ptr() {
                                        assert(rb_prev.tb().slot_unchanged(
                                            rb.tb(),
                                            res_prev[i].ptr(),
                                        ));
                                    }
                                    assert(rb.tb().buffer_of(res_prev[i].ptr())
                                        == rb_prev.tb().buffer_of(res_prev[i].ptr()));
                                } else {
                                    assert(res@[i] == t2);
                                }
                            }
                        }
                        assert(entries_covered(*self, rb0, *rb, ri, k2 + 1, res@, *predicate))
                            by {
                            assert(entries_covered(
                                *self,
                                rb0,
                                rb_prev,
                                ri,
                                k2 as int,
                                res_prev,
                                *predicate,
                            ));
                            assert forall|e: int|
                                0 <= e < k2 + 1 && #[trigger] rb0.entry_ts(ri, e)
                                    < self.start_ts() implies (exists|i: int|
                                0 <= i < res@.len() && (#[trigger] res@[i]).spec_domain(rb.tb())
                                    == rb0.entry_domain(ri, e)) || (exists|
                                dv: Vec<u8>,
                                cv: Vec<u8>,
                            |
                                dv@ == rb0.entry_domain(ri, e) && cv@ == spec_codomain_of(
                                    rb0.tb().buffer_of(rb0.entry_slot(ri, e)),
                                ) && call_ensures(*predicate, (dv, cv), false)) by {
                                if e == k2 as int {
                                    let i = res@.len() - 1;
                                    assert(res@[i] == t2);
                                    assert(res@[i].spec_domain(rb.tb()) == rb0.entry_domain(
                                        ri,
                                        e,
                                    ));
                                } else {
                                    if (exists|i: int|
                                        0 <= i < res_prev.len() && (
                                        #[trigger] res_prev[i]).spec_domain(rb_prev.tb())
                                            == rb0.entry_domain(ri, e)) {
                                        let i = choose|i: int|
                                            0 <= i < res_prev.len() && (
                                            #[trigger] res_prev[i]).spec_domain(rb_prev.tb())
                                                == rb0.entry_domain(ri, e);
                                        assert(res@[i] == res_prev[i]);
                                        assert(res_prev[i].valid(rb_prev.tb()));
                                        assert(rb.tb().buffer_of(res_prev[i].ptr())
                                            == rb_prev.tb().buffer_of(res_prev[i].ptr()));
                                        assert(res@[i].spec_domain(rb.tb()) == rb0.entry_domain(
                                            ri,
                                            e,
                                        ));
                                    }
                                }
                            }
                        }
                    }
                }
                proof {
                    assert(call_ensures(*predicate, (dv_g, cv_g), keep));
                    assert(scan_frame(rb0, *rb, k2 + 1));
                    if !keep {
                        assert(entries_covered(*self, rb0, *rb, ri, k2 + 1, res@, *predicate))
                            by {
                            assert forall|e: int|
                                0 <= e < k2 + 1 && #[trigger] rb0.entry_ts(ri, e)
                                    < self.start_ts() implies (exists|i: int|
                                0 <= i < res@.len() && (#[trigger] res@[i]).spec_domain(rb.tb())
                                    == rb0.entry_domain(ri, e)) || (exists|
                                dv: Vec<u8>,
                                cv: Vec<u8>,
                            |
                                dv@ == rb0.entry_domain(ri, e) && cv@ == spec_codomain_of(
                                    rb0.tb().buffer_of(rb0.entry_slot(ri, e)),
                                ) && call_ensures(*predicate, (dv, cv), false)) by {
                                if e == k2 as int {
                                    assert(rb0.entry_ok(ri, e));
                                    assert(dv_g@ == rb0.entry_domain(ri, e));
                                    assert(cv_g@ == spec_codomain_of(
                                        rb0.tb().buffer_of(rb0.entry_slot(ri, e)),
                                    ));
                                    assert(call_ensures(*predicate, (dv_g, cv_g), false));
                                }
                            }
                        }
                    }
                }
            } else {
                proof {
                    assert(scan_frame(rb0, *rb, k2 + 1));
                    assert(entries_covered(*self, rb0, *rb, ri, k2 + 1, res@, *predicate)) by {
                        assert(rb0.entry_ok(ri, k2 as int));
                        assert(!(rb0.entry_ts(ri, k2 as int) < self.start_ts()));
                    }
                }
            }
            k2 += 1;
        }
    }

    /// Scan relation `rid` through an arbitrary predicate over (domain,
    /// codomain) byte pairs: every tuple this transaction sees — its own
    /// pending inserts first, then the committed entries visible to its
    /// snapshot — is offered to the predicate, and those it accepts are
    /// returned as fresh ownership shares. The whole-relation read is
    /// recorded for commit-time conflict validation.
    #[verifier::rlimit(100)]
    #[verifier::spinoff_prover]
    pub fn predicate_scan<F: Fn(Vec<u8>, Vec<u8>) -> bool>(
        &mut self,
        rb: &mut RelBox,
        rid: RelationId,
        predicate: &F,
    ) -> (res: Result<Vec<TupleRef>, RelationError>)
        requires
            old(rb).wf(),
            old(self).wf(*old(rb)),
            old(self).is_active(),
            rid.0 < old(rb).num_relations(),
            forall|d: Vec<u8>, c: Vec<u8>| #[trigger] call_requires(*predicate, (d, c)),
            forall|j: int|
                old(rb).tb().is_live(j) ==> #[trigger] old(rb).tb().refcount_of(j) + old(
                    self,
                ).num_pending(rid.0 as int) + old(rb).num_entries(rid.0 as int) < u64::MAX,
        ensures
            final(rb).wf(),
            final(self).wf(*final(rb)),
            final(self).is_active(),
            final(self).start_ts() == old(self).start_ts(),
            final(rb).next_ts() == old(rb).next_ts(),
            old(rb).rels_unchanged(*final(rb)),
            final(rb).tb().num_slots() == old(rb).tb().num_slots(),
            final(self).scanned(rid.0 as int),
            res is Ok,
            res matches Ok(v) ==> {
                &&& forall|i: int|
                    0 <= i < v@.len() ==> {
                        &&& (#[trigger] v@[i]).valid(final(rb).tb())
                        &&& old(self).sees(
                            *old(rb),
                            rid.0 as int,
                            v@[i].spec_domain(final(rb).tb()),
                        ) == Some(v@[i].spec_codomain(final(rb).tb()))
                        &&& exists|dv: Vec<u8>, cv: Vec<u8>|
                            dv@ == v@[i].spec_domain(final(rb).tb()) && cv@ == v@[i].spec_codomain(
                                final(rb).tb(),
                            ) && #[trigger] call_ensures(*predicate, (dv, cv), true)
                    }
                &&& forall|d: Seq<u8>|
                    (#[trigger] old(self).sees(*old(rb), rid.0 as int, d)) is Some ==> (exists|
                        i: int,
                    |
                        0 <= i < v@.len() && (#[trigger] v@[i]).spec_domain(final(rb).tb()) == d)
                        || (exists|dv: Vec<u8>, cv: Vec<u8>|
                        dv@ == d && Some(cv@) == old(self).sees(*old(rb), rid.0 as int, d)
                            && #[trigger] call_ensures(*predicate, (dv, cv), false))
            },
            // the allocator only gained ownership shares: no slot moved,
            // changed content, or was freed
            forall|j: int|
                0 <= j < old(rb).tb().num_slots() ==> {
                    &&& (#[trigger] final(rb).tb().is_live(j) <==> old(rb).tb().is_live(j))
                    &&& (old(rb).tb().is_live(j) ==> final(rb).tb().buffer_of(j) == old(
                        rb,
                    ).tb().buffer_of(j) && final(rb).tb().refcount_of(j) >= old(
                        rb,
                    ).tb().refcount_of(j))
                },
    {
        let ghost tx0 = *self;
        let ghost rb0 = *rb;
        let r = rid.0;
        let ghost ri = r as int;
        self.record_scan(r);
        proof {
            assert forall|r2: int| 0 <= r2 < tx0.num_ws() implies #[trigger] tx0.pending_same_at(
                *self,
                r2,
            ) by {}
            tx0.lemma_ws_eq_wf(*self, rb0);
            assert(tx0.pending_same_at(*self, ri));
        }
        let mut res: Vec<TupleRef> = Vec::new();
        let this: &Transaction = &*self;
        this.scan_pending_into(rb, r, predicate, &mut res);
        let ghost rb_mid = *rb;
        let ghost res_mid = res@;
        proof {
            assert forall|i: int|
                0 <= i < res@.len() implies ((#[trigger] res@[i]).valid(rb_mid.tb()) && self.sees(
                rb_mid,
                ri,
                res@[i].spec_domain(rb_mid.tb()),
            ) == Some(res@[i].spec_codomain(rb_mid.tb())) && exists|dv: Vec<u8>, cv: Vec<u8>|
                dv@ == res@[i].spec_domain(rb_mid.tb()) && cv@ == res@[i].spec_codomain(
                    rb_mid.tb(),
                ) && #[trigger] call_ensures(*predicate, (dv, cv), true)) by {
                lemma_sees_stable(*self, rb0, rb_mid, ri, res@[i].spec_domain(rb_mid.tb()));
            }
        }
        this.scan_visible_into(rb, r, predicate, &mut res);
        proof {
            // stitch the two sweeps: what this transaction sees is either its
            // own pending insert or a visible committed entry
            lemma_same_relations(rb0, *rb);
            assert forall|i: int|
                0 <= i < res@.len() implies ((#[trigger] res@[i]).valid(rb.tb()) && self.sees(
                rb0,
                ri,
                res@[i].spec_domain(rb.tb()),
            ) == Some(res@[i].spec_codomain(rb.tb())) && exists|dv: Vec<u8>, cv: Vec<u8>|
                dv@ == res@[i].spec_domain(rb.tb()) && cv@ == res@[i].spec_codomain(rb.tb())
                    && #[trigger] call_ensures(*predicate, (dv, cv), true)) by {
                assert(scan_keeps(*self, rb_mid, *rb, ri, res@, *predicate));
                assert(res@[i].valid(rb.tb()));
                assert(self.sees(rb_mid, ri, res@[i].spec_domain(rb.tb())) == Some(
                    res@[i].spec_codomain(rb.tb()),
                ));
                lemma_sees_stable(*self, rb0, rb_mid, ri, res@[i].spec_domain(rb.tb()));
            }
            assert forall|d: Seq<u8>|
                (#[trigger] self.sees(rb0, ri, d)) is Some implies (exists|i: int|
                0 <= i < res@.len() && (#[trigger] res@[i]).spec_domain(rb.tb()) == d) || (exists|
                dv: Vec<u8>,
                cv: Vec<u8>,
            |
                dv@ == d && Some(cv@) == self.sees(rb0, ri, d) && #[trigger] call_ensures(
                    *predicate,
                    (dv, cv),
                    false,
                )) by {
                if self.pending_has(ri, d) {
                    let pk = self.pending_index(ri, d);
                    assert(self.pending_domain(ri, pk) == d);
                    assert(self.pending_ok(rb0, ri, pk));
                    lemma_sees_stable(*self, rb0, rb_mid, ri, d);
                    assert(rb0.tb().is_live(self.pending_slot(ri, pk)));
                    assert(rb_mid.tb().is_live(self.pending_slot(ri, pk)));
                    assert(rb.tb().is_live(self.pending_slot(ri, pk)));
                    assert(rb_mid.tb().buffer_of(self.pending_slot(ri, pk)) == rb0.tb().buffer_of(
                        self.pending_slot(ri, pk),
                    ));
                    assert(rb.tb().buffer_of(self.pending_slot(ri, pk)) == rb_mid.tb().buffer_of(
                        self.pending_slot(ri, pk),
                    ));
                    assert(rb.tb().buffer_of(self.pending_slot(ri, pk)) == rb0.tb().buffer_of(
                        self.pending_slot(ri, pk),
                    ));
                    assert(self.sees(rb0, ri, d) == Some(
                        spec_codomain_of(rb0.tb().buffer_of(self.pending_slot(ri, pk))),
                    ));
                    assert(pending_covered(
                        *self,
                        rb_mid,
                        ri,
                        self.num_pending(ri) as int,
                        res_mid,
                        *predicate,
                    ));
                    assert(0 <= pk < self.num_pending(ri));
                    assert(spec_codomain_of(rb_mid.tb().buffer_of(self.pending_slot(ri, pk)))
                        == spec_codomain_of(rb0.tb().buffer_of(self.pending_slot(ri, pk))));
                    if (exists|i: int|
                        0 <= i < res_mid.len() && (#[trigger] res_mid[i]).spec_domain(rb_mid.tb())
                            == d) {
                        let i = choose|i: int|
                            0 <= i < res_mid.len() && (#[trigger] res_mid[i]).spec_domain(
                                rb_mid.tb(),
                            ) == d;
                        assert(res@[i] == res_mid[i]);
                        assert(rb.tb().buffer_of(res_mid[i].ptr()) == rb_mid.tb().buffer_of(
                            res_mid[i].ptr(),
                        ));
                        assert(res@[i].spec_domain(rb.tb()) == d);
                    }
                } else {
                    assert(rb0.visible_at(ri, d, self.start_ts()));
                    let ci = rb0.committed_index(ri, d);
                    assert(rb0.entry_domain(ri, ci) == d);
                    assert(rb0.entry_ts(ri, ci) < self.start_ts());
                    assert(rb0.entry_ok(ri, ci));
                    assert(self.sees(rb0, ri, d) == Some(rb0.committed_codomain(ri, d)));
                    assert(rb_mid.relations == rb0.relations);
                    assert(rb_mid.entry_ts(ri, ci) == rb0.entry_ts(ri, ci));
                    assert(rb_mid.entry_domain(ri, ci) == rb0.entry_domain(ri, ci));
                    assert(rb_mid.entry_slot(ri, ci) == rb0.entry_slot(ri, ci));
                    assert(rb_mid.num_entries(ri) == rb0.num_entries(ri));
                    assert(entries_covered(
                        *self,
                        rb_mid,
                        *rb,
                        ri,
                        rb_mid.num_entries(ri) as int,
                        res@,
                        *predicate,
                    ));
                    assert(rb_mid.entry_ts(ri, ci) < self.start_ts());
                    assert(rb0.tb().is_live(rb0.entry_slot(ri, ci)));
                    assert(rb_mid.tb().is_live(rb0.entry_slot(ri, ci)));
                    assert(rb_mid.tb().buffer_of(rb0.entry_slot(ri, ci)) == rb0.tb().buffer_of(
                        rb0.entry_slot(ri, ci),
                    ));
                    assert(rb0.committed_codomain(ri, d) == spec_codomain_of(
                        rb0.tb().buffer_of(rb0.entry_slot(ri, ci)),
                    ));
                }
            }
            assert forall|d: Seq<u8>|
                (#[trigger] tx0.sees(rb0, ri, d)) == self.sees(rb0, ri, d) by {
                lemma_sees_ws_eq(tx0, *self, rb0, ri, d);
            }
        }
        Ok(res)
    }

}

} // verus!

verus! {

/// What a transaction sees is unchanged by allocator operations that leave
/// the canonical relations and every live slot's bytes in place.
proof fn lemma_sees_stable(tx: Transaction, rb0: RelBox, rb1: RelBox, r: int, d: Seq<u8>)
    requires
        rb0.wf(),
        tx.wf(rb0),
        0 <= r < rb0.num_relations(),
        rb1.relations == rb0.relations,
        forall|j: int|
            0 <= j < rb0.tb().num_slots() ==> ((#[trigger] rb1.tb().is_live(j)
                <==> rb0.tb().is_live(j)) && (rb0.tb().is_live(j) ==> rb1.tb().buffer_of(j)
                == rb0.tb().buffer_of(j))),
    ensures
        tx.sees(rb1, r, d) == tx.sees(rb0, r, d),
{
    lemma_same_relations(rb0, rb1);
    if tx.pending_has(r, d) {
        let pk = tx.pending_index(r, d);
        assert(tx.pending_domain(r, pk) == d);
        assert(tx.pending_ok(rb0, r, pk));
        assert(rb0.tb().is_live(tx.pending_slot(r, pk)));
        assert(rb1.tb().is_live(tx.pending_slot(r, pk)));
        assert(rb1.tb().buffer_of(tx.pending_slot(r, pk)) == rb0.tb().buffer_of(
            tx.pending_slot(r, pk),
        ));
    } else {
        Transaction::lemma_visibility_transfer(rb0, rb1, r, d);
        if rb0.visible_at(r, d, tx.start_ts()) {
            let ci = rb0.committed_index(r, d);
            assert(rb0.entry_ok(r, ci));
            assert(rb1.committed_index(r, d) == ci);
            assert(rb1.entry_slot(r, ci) == rb0.entry_slot(r, ci));
            assert(rb0.tb().is_live(rb0.entry_slot(r, ci)));
            assert(rb1.tb().is_live(rb0.entry_slot(r, ci)));
            assert(rb1.tb().buffer_of(rb0.entry_slot(r, ci)) == rb0.tb().buffer_of(
                rb0.entry_slot(r, ci),
            ));
        }
    }
}

/// Transactions with the same snapshot and the same pending inserts see the
/// same values: recorded reads and scans play no part in visibility.
proof fn lemma_sees_ws_eq(tx0: Transaction, tx1: Transaction, rb: RelBox, r: int, d: Seq<u8>)
    requires
        tx0.wf(rb),
        tx1.start_ts() == tx0.start_ts(),
        0 <= r < tx0.num_ws(),
        tx0.pending_same_at(tx1, r),
    ensures
        tx1.sees(rb, r, d) == tx0.sees(rb, r, d),
{
    if tx0.pending_has(r, d) {
        let p0 = tx0.pending_index(r, d);
        assert(tx0.pending_domain(r, p0) == d);
        assert(tx1.pending_domain(r, p0) == d);
        assert(tx1.pending_has(r, d));
    }
    if tx1.pending_has(r, d) {
        let p1 = tx1.pending_index(r, d);
        assert(tx1.pending_domain(r, p1) == d);
        assert(tx0.pending_domain(r, p1) == d);
        assert(tx0.pending_has(r, d));
    }
    if tx0.pending_has(r, d) {
        let p0 = tx0.pending_index(r, d);
        let p1 = tx1.pending_index(r, d);
        assert(tx1.pending_domain(r, p1) == d);
        assert(tx0.pending_domain(r, p1) == d);
        assert(tx0.pending_domain(r, p0) == d);
        assert(p0 == p1);
        assert(tx1.pending_slot(r, p1) == tx0.pending_slot(r, p0));
    }
}

} // verus!

verus! {

impl Transaction {
    /// Isolation law: a transaction that touched a domain to which another
    /// transaction's commit published at or after this one's snapshot — as
    /// every commit by a transaction whose active interval overlaps this
    /// one's does — cannot pass validation, so of two overlapping
    /// transactions writing the same domain at most one commits.
    pub proof fn lemma_isolation(self, rb: RelBox, r: int, d: Seq<u8>)
        requires
            0 <= r < self.num_ws(),
            self.touched(r, d),
            rb.committed_after(r, d, self.start_ts()),
        ensures
            !self.validation_ok(rb),
    {
        assert(!self.validation_ok_at(rb, r));
    }

    /// Read-your-own-writes law: a transaction that holds a pending insert
    /// for a domain sees that pending value, not any snapshot value.
    pub proof fn lemma_read_your_own_writes(self, rb: RelBox, r: int, d: Seq<u8>)
        requires
            self.pending_has(r, d),
        ensures
            self.sees(rb, r, d) == Some(self.pending_codomain(rb, r, d)),
    {
    }
}

} // verus!
