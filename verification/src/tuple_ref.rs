//! Owning references to tuples.
//!
//! A [`TupleRef`] is one observer's ownership share of a tuple: it names the
//! tuple's indirection record inside the paging allocator, and every read of
//! the tuple's content resolves through that record. Copying a reference
//! increments the record's live-reference count; releasing it decrements the
//! count, and the last release frees the slot for reclamation.
//!
//! Equality and ordering of tuples are defined over (domain, codomain)
//! content alone: two references to physically different slots with identical
//! bytes compare equal, whatever their timestamps.

use core::cmp::Ordering;
use vstd::prelude::*;
use vstd::slice::slice_to_vec;

use crate::layout::decode_codomain;
use crate::layout::decode_domain;
use crate::layout::decode_ts;
use crate::layout::encode_tuple;
use crate::layout::lemma_tuple_bytes_parse;
use crate::layout::lemma_ts_update;
use crate::layout::spec_codomain_of;
use crate::layout::spec_domain_of;
use crate::layout::spec_ts_of;
use crate::layout::spec_tuple_bytes;
use crate::layout::wf_tuple;
use crate::layout::HEADER_SIZE;
use crate::tuplebox::TupleBox;
use crate::tuplebox::TupleId;
use crate::RelationId;
use crate::TupleBoxError;

verus! {

/// Strict lexicographic order on byte strings: a proper prefix comes first,
/// otherwise the first differing byte decides.
pub open spec fn lex_lt(a: Seq<u8>, b: Seq<u8>) -> bool
    decreases a.len(),
{
    if b.len() == 0 {
        false
    } else if a.len() == 0 {
        true
    } else if a[0] < b[0] {
        true
    } else if a[0] > b[0] {
        false
    } else {
        lex_lt(a.skip(1), b.skip(1))
    }
}

/// An owning reference to one tuple, resolving through the indirection record
/// at `sp` inside the paging allocator.
#[derive(Debug)]
pub struct TupleRef {
    sp: TupleId,
}

impl TupleRef {
    /// The indirection record this reference points to.
    pub closed spec fn ptr(self) -> int {
        self.sp.0 as int
    }

    /// A reference is valid against an allocator while its slot is live and
    /// holds a well-formed tuple buffer.
    pub open spec fn valid(self, sb: TupleBox) -> bool {
        &&& sb.is_live(self.ptr())
        &&& wf_tuple(sb.buffer_of(self.ptr()))
    }

    /// The tuple's commit timestamp, as stored in its slot.
    pub open spec fn spec_ts(self, sb: TupleBox) -> u64 {
        spec_ts_of(sb.buffer_of(self.ptr()))
    }

    /// The tuple's domain bytes, as stored in its slot.
    pub open spec fn spec_domain(self, sb: TupleBox) -> Seq<u8> {
        spec_domain_of(sb.buffer_of(self.ptr()))
    }

    /// The tuple's codomain bytes, as stored in its slot.
    pub open spec fn spec_codomain(self, sb: TupleBox) -> Seq<u8> {
        spec_codomain_of(sb.buffer_of(self.ptr()))
    }

    /// Wrap an existing indirection record. The caller vouches that the
    /// record is already counted on its behalf: wrapping adds no reference.
    pub fn at_tptr(sp: TupleId) -> (r: TupleRef)
        ensures
            r.ptr() == sp.0,
    {
        TupleRef { sp }
    }

    /// Allocate a fresh tuple in the allocator: reserve a slot sized for
    /// header, domain and codomain, write all three, and return a reference
    /// owning the slot's single outstanding reference. Fails exactly when the
    /// backing store cannot grow.
    pub fn allocate(
        relation_id: RelationId,
        sb: &mut TupleBox,
        ts: u64,
        domain: &[u8],
        codomain: &[u8],
    ) -> (r: Result<TupleRef, TupleBoxError>)
        requires
            old(sb).wf(),
            domain@.len() <= u32::MAX,
            codomain@.len() <= u32::MAX,
            HEADER_SIZE + domain@.len() + codomain@.len() <= usize::MAX,
        ensures
            final(sb).wf(),
            final(sb).capacity() == old(sb).capacity(),
            r is Ok <==> old(sb).can_allocate(),
            r is Err ==> *final(sb) == *old(sb),
            r matches Ok(t) ==> {
                &&& t.valid(*final(sb))
                &&& !old(sb).is_live(t.ptr())
                &&& final(sb).refcount_of(t.ptr()) == 1
                &&& final(sb).relation_of(t.ptr()) == relation_id.0
                &&& final(sb).buffer_of(t.ptr()) == spec_tuple_bytes(ts, domain@, codomain@)
                &&& t.spec_ts(*final(sb)) == ts
                &&& t.spec_domain(*final(sb)) == domain@
                &&& t.spec_codomain(*final(sb)) == codomain@
                &&& t.ptr() < final(sb).num_slots()
                &&& final(sb).num_slots() >= old(sb).num_slots()
                &&& forall|j: int|
                    0 <= j < old(sb).num_slots() && j != t.ptr() ==> old(sb).slot_unchanged(
                        *final(sb),
                        j,
                    )
            },
    {
        let total_size = HEADER_SIZE + domain.len() + codomain.len();
        let id = match sb.allocate(total_size, relation_id) {
            Ok(id) => id,
            Err(e) => {
                return Err(e);
            },
        };
        let ghost mid = *sb;
        let buffer = encode_tuple(ts, domain, codomain);
        sb.update_buffer(id, buffer);
        proof {
            lemma_tuple_bytes_parse(ts, domain@, codomain@);
            assert forall|j: int|
                0 <= j < old(sb).num_slots() && j != id.0 implies old(sb).slot_unchanged(
                *sb,
                j,
            ) by {
                assert(old(sb).slot_unchanged(mid, j));
                assert(mid.slot_unchanged(*sb, j));
            }
        }
        Ok(TupleRef { sp: id })
    }

    /// The id of the tuple: its stable locator within the allocator.
    pub fn id(&self) -> (r: TupleId)
        ensures
            r.0 == self.ptr(),
    {
        self.sp
    }

    /// Update the timestamp of the tuple in place; domain and codomain stay
    /// untouched.
    pub fn update_timestamp(&mut self, sb: &mut TupleBox, ts: u64)
        requires
            old(sb).wf(),
            old(self).valid(*old(sb)),
        ensures
            *final(self) == *old(self),
            final(sb).wf(),
            final(sb).capacity() == old(sb).capacity(),
            final(sb).num_slots() == old(sb).num_slots(),
            final(self).valid(*final(sb)),
            final(sb).refcount_of(old(self).ptr()) == old(sb).refcount_of(old(self).ptr()),
            final(sb).relation_of(old(self).ptr()) == old(sb).relation_of(old(self).ptr()),
            final(self).spec_ts(*final(sb)) == ts,
            final(self).spec_domain(*final(sb)) == old(self).spec_domain(*old(sb)),
            final(self).spec_codomain(*final(sb)) == old(self).spec_codomain(*old(sb)),
            final(sb).buffer_of(old(self).ptr()) == vstd::bytes::spec_u64_to_le_bytes(ts) + old(
                sb,
            ).buffer_of(old(self).ptr()).skip(8),
            forall|j: int|
                0 <= j < old(sb).num_slots() && j != old(self).ptr() ==> old(sb).slot_unchanged(
                    *final(sb),
                    j,
                ),
    {
        proof {
            lemma_ts_update(sb.buffer_of(self.ptr()), ts);
        }
        sb.update_ts(self.sp, ts);
    }

    /// The timestamp of the tuple.
    pub fn ts(&self, sb: &TupleBox) -> (r: u64)
        requires
            sb.wf(),
            self.valid(*sb),
        ensures
            r == self.spec_ts(*sb),
    {
        let buffer = sb.buffer(self.sp);
        decode_ts(buffer.as_slice())
    }

    /// The domain of the tuple: its key bytes, immutable once allocated.
    pub fn domain(&self, sb: &TupleBox) -> (r: Vec<u8>)
        requires
            sb.wf(),
            self.valid(*sb),
        ensures
            r@ == self.spec_domain(*sb),
    {
        let buffer = sb.buffer(self.sp);
        decode_domain(buffer.as_slice())
    }

    /// The codomain of the tuple: its value bytes.
    pub fn codomain(&self, sb: &TupleBox) -> (r: Vec<u8>)
        requires
            sb.wf(),
            self.valid(*sb),
        ensures
            r@ == self.spec_codomain(*sb),
    {
        let buffer = sb.buffer(self.sp);
        decode_codomain(buffer.as_slice())
    }

    /// The raw buffer of the tuple, including the header, not dividing up the
    /// domain and codomain.
    pub fn slot_buffer(&self, sb: &TupleBox) -> (r: Vec<u8>)
        requires
            sb.wf(),
            self.valid(*sb),
        ensures
            r@ == sb.buffer_of(self.ptr()),
    {
        let buffer = sb.buffer(self.sp);
        slice_to_vec(buffer.as_slice())
    }

    /// Take one more ownership share of the tuple: the copy hook of an owning
    /// reference.
    pub fn upcount(&self, sb: &mut TupleBox)
        requires
            old(sb).wf(),
            self.valid(*old(sb)),
            old(sb).refcount_of(self.ptr()) < u64::MAX,
        ensures
            final(sb).wf(),
            final(sb).capacity() == old(sb).capacity(),
            final(sb).num_slots() == old(sb).num_slots(),
            self.valid(*final(sb)),
            final(sb).refcount_of(self.ptr()) == old(sb).refcount_of(self.ptr()) + 1,
            final(sb).buffer_of(self.ptr()) == old(sb).buffer_of(self.ptr()),
            final(sb).relation_of(self.ptr()) == old(sb).relation_of(self.ptr()),
            forall|j: int|
                0 <= j < old(sb).num_slots() && j != self.ptr() ==> old(sb).slot_unchanged(
                    *final(sb),
                    j,
                ),
    {
        sb.upcount(self.sp);
    }

    /// Give up one ownership share of the tuple: the drop hook of an owning
    /// reference. When the last share is given up the slot is freed and its
    /// space becomes reclaimable.
    pub fn dncount(&self, sb: &mut TupleBox)
        requires
            old(sb).wf(),
            old(sb).is_live(self.ptr()),
        ensures
            final(sb).wf(),
            final(sb).capacity() == old(sb).capacity(),
            final(sb).num_slots() == old(sb).num_slots(),
            final(sb).refcount_of(self.ptr()) == old(sb).refcount_of(self.ptr()) - 1,
            final(sb).is_live(self.ptr()) <==> old(sb).refcount_of(self.ptr()) > 1,
            final(sb).is_live(self.ptr()) ==> final(sb).buffer_of(self.ptr()) == old(
                sb,
            ).buffer_of(self.ptr()) && final(sb).relation_of(self.ptr()) == old(sb).relation_of(
                self.ptr(),
            ),
            forall|j: int|
                0 <= j < old(sb).num_slots() && j != self.ptr() ==> old(sb).slot_unchanged(
                    *final(sb),
                    j,
                ),
    {
        sb.dncount(self.sp);
    }

    /// Copy this reference, taking one more ownership share of the tuple.
    pub fn clone_ref(&self, sb: &mut TupleBox) -> (r: TupleRef)
        requires
            old(sb).wf(),
            self.valid(*old(sb)),
            old(sb).refcount_of(self.ptr()) < u64::MAX,
        ensures
            r.ptr() == self.ptr(),
            final(sb).wf(),
            final(sb).capacity() == old(sb).capacity(),
            final(sb).num_slots() == old(sb).num_slots(),
            self.valid(*final(sb)),
            final(sb).refcount_of(self.ptr()) == old(sb).refcount_of(self.ptr()) + 1,
            final(sb).buffer_of(self.ptr()) == old(sb).buffer_of(self.ptr()),
            final(sb).relation_of(self.ptr()) == old(sb).relation_of(self.ptr()),
            forall|j: int|
                0 <= j < old(sb).num_slots() && j != self.ptr() ==> old(sb).slot_unchanged(
                    *final(sb),
                    j,
                ),
    {
        self.upcount(sb);
        TupleRef { sp: self.sp }
    }

    /// Whether two tuples are equal by content: equal domain bytes and equal
    /// codomain bytes, independent of timestamp or physical slot.
    pub fn content_eq(&self, other: &TupleRef, sb: &TupleBox) -> (r: bool)
        requires
            sb.wf(),
            self.valid(*sb),
            other.valid(*sb),
        ensures
            r <==> (self.spec_domain(*sb) == other.spec_domain(*sb) && self.spec_codomain(*sb)
                == other.spec_codomain(*sb)),
    {
        let d1 = self.domain(sb);
        let d2 = other.domain(sb);
        let c1 = self.codomain(sb);
        let c2 = other.codomain(sb);
        bytes_eq(d1.as_slice(), d2.as_slice()) && bytes_eq(c1.as_slice(), c2.as_slice())
    }

    /// Order two tuples by content: by domain bytes lexicographically, then
    /// by codomain bytes on a domain tie.
    pub fn content_cmp(&self, other: &TupleRef, sb: &TupleBox) -> (r: Ordering)
        requires
            sb.wf(),
            self.valid(*sb),
            other.valid(*sb),
        ensures
            r is Less <==> (lex_lt(self.spec_domain(*sb), other.spec_domain(*sb)) || (
            self.spec_domain(*sb) == other.spec_domain(*sb) && lex_lt(
                self.spec_codomain(*sb),
                other.spec_codomain(*sb),
            ))),
            r is Equal <==> (self.spec_domain(*sb) == other.spec_domain(*sb)
                && self.spec_codomain(*sb) == other.spec_codomain(*sb)),
            r is Greater <==> (lex_lt(other.spec_domain(*sb), self.spec_domain(*sb)) || (
            self.spec_domain(*sb) == other.spec_domain(*sb) && lex_lt(
                other.spec_codomain(*sb),
                self.spec_codomain(*sb),
            ))),
    {
        let d1 = self.domain(sb);
        let d2 = other.domain(sb);
        let domain_cmp = bytes_cmp(d1.as_slice(), d2.as_slice());
        match domain_cmp {
            Ordering::Equal => {
                let c1 = self.codomain(sb);
                let c2 = other.codomain(sb);
                bytes_cmp(c1.as_slice(), c2.as_slice())
            },
            _ => domain_cmp,
        }
    }
}

/// Exactly one of `a == b`, `a` before `b`, `b` before `a` holds of any two
/// byte strings under the lexicographic order.
pub proof fn lemma_lex_trichotomy(a: Seq<u8>, b: Seq<u8>)
    ensures
        lex_lt(a, b) ==> a != b && !lex_lt(b, a),
        lex_lt(b, a) ==> a != b && !lex_lt(a, b),
        a == b ==> !lex_lt(a, b) && !lex_lt(b, a),
        lex_lt(a, b) || lex_lt(b, a) || a == b,
    decreases a.len(),
{
    if a.len() == 0 || b.len() == 0 {
        if a.len() == b.len() {
            assert(a =~= b);
        }
    } else {
        lemma_lex_trichotomy(a.skip(1), b.skip(1));
        if a[0] == b[0] && a.skip(1) == b.skip(1) {
            assert forall|k: int| 0 <= k < a.len() implies a[k] == b[k] by {
                if k > 0 {
                    assert(a[k] == a.skip(1)[k - 1]);
                    assert(b[k] == b.skip(1)[k - 1]);
                }
            }
            assert(a =~= b);
        }
        if a == b {
            assert(a.skip(1) =~= b.skip(1));
        }
    }
}

/// Whether two byte strings hold the same bytes.
pub fn bytes_eq(a: &[u8], b: &[u8]) -> (r: bool)
    ensures
        r <==> a@ == b@,
{
    if a.len() != b.len() {
        return false;
    }
    let n = a.len();
    let mut i: usize = 0;
    while i < n
        invariant
            n == a@.len(),
            n == b@.len(),
            0 <= i <= n,
            forall|j: int| 0 <= j < i ==> a@[j] == b@[j],
        decreases n - i,
    {
        if a[i] != b[i] {
            return false;
        }
        i += 1;
    }
    assert(a@ =~= b@);
    true
}

/// Lexicographic comparison step: byte strings that agree on their first `i`
/// bytes compare as their tails from `i` do.
proof fn lemma_lex_skip(a: Seq<u8>, b: Seq<u8>, i: int)
    requires
        0 <= i <= a.len(),
        0 <= i <= b.len(),
        forall|j: int| 0 <= j < i ==> a[j] == b[j],
    ensures
        lex_lt(a, b) <==> lex_lt(a.skip(i), b.skip(i)),
    decreases i,
{
    if i == 0 {
        assert(a.skip(0) =~= a);
        assert(b.skip(0) =~= b);
    } else {
        assert(a.skip(1).skip(i - 1) =~= a.skip(i));
        assert(b.skip(1).skip(i - 1) =~= b.skip(i));
        lemma_lex_skip(a.skip(1), b.skip(1), i - 1);
    }
}

/// Compare two byte strings in the lexicographic order.
pub fn bytes_cmp(a: &[u8], b: &[u8]) -> (r: Ordering)
    ensures
        r is Less <==> lex_lt(a@, b@),
        r is Equal <==> a@ == b@,
        r is Greater <==> lex_lt(b@, a@),
{
    proof {
        lemma_lex_trichotomy(a@, b@);
    }
    let an = a.len();
    let bn = b.len();
    let n = if an < bn {
        an
    } else {
        bn
    };
    let mut i: usize = 0;
    while i < n
        invariant
            an == a@.len(),
            bn == b@.len(),
            n == if an < bn {
                an
            } else {
                bn
            },
            0 <= i <= n,
            forall|j: int| 0 <= j < i ==> a@[j] == b@[j],
        decreases n - i,
    {
        let x = a[i];
        let y = b[i];
        if x < y {
            proof {
                lemma_lex_trichotomy(a@, b@);
                lemma_lex_skip(a@, b@, i as int);
                assert(a@.skip(i as int)[0] == a@[i as int]);
                assert(b@.skip(i as int)[0] == b@[i as int]);
                assert(lex_lt(a@.skip(i as int), b@.skip(i as int)));
            }
            return Ordering::Less;
        }
        if x > y {
            proof {
                lemma_lex_trichotomy(a@, b@);
                lemma_lex_skip(a@, b@, i as int);
                lemma_lex_skip(b@, a@, i as int);
                assert(a@.skip(i as int)[0] == a@[i as int]);
                assert(b@.skip(i as int)[0] == b@[i as int]);
                assert(lex_lt(b@.skip(i as int), a@.skip(i as int)));
            }
            return Ordering::Greater;
        }
        i += 1;
    }
    proof {
        lemma_lex_skip(a@, b@, n as int);
        lemma_lex_skip(b@, a@, n as int);
    }
    if an < bn {
        assert(a@.skip(n as int).len() == 0);
        assert(lex_lt(a@.skip(n as int), b@.skip(n as int)));
        Ordering::Less
    } else if an > bn {
        assert(b@.skip(n as int).len() == 0);
        assert(lex_lt(b@.skip(n as int), a@.skip(n as int)));
        Ordering::Greater
    } else {
        assert(a@ =~= b@);
        Ordering::Equal
    }
}

} // verus!

verus! {

/// Content-equality law: two tuples allocated independently with the same
/// domain and codomain bytes compare equal by content, whatever their
/// timestamps or physical slots.
pub proof fn lemma_content_equality(
    sb: TupleBox,
    t1: TupleRef,
    t2: TupleRef,
    ts1: u64,
    ts2: u64,
    d: Seq<u8>,
    c: Seq<u8>,
)
    requires
        d.len() <= u32::MAX,
        c.len() <= u32::MAX,
        sb.buffer_of(t1.ptr()) == spec_tuple_bytes(ts1, d, c),
        sb.buffer_of(t2.ptr()) == spec_tuple_bytes(ts2, d, c),
    ensures
        t1.spec_domain(sb) == t2.spec_domain(sb),
        t1.spec_codomain(sb) == t2.spec_codomain(sb),
{
    lemma_tuple_bytes_parse(ts1, d, c);
    lemma_tuple_bytes_parse(ts2, d, c);
}

/// Refcount law: while any owning reference to a tuple is valid against a
/// well-formed allocator, its indirection record counts at least one
/// outstanding reference; the count reaches zero only once the last reference
/// was given up, whereupon the slot is freed for reuse.
pub proof fn lemma_refcount_invariant(sb: TupleBox, t: TupleRef)
    requires
        sb.wf(),
        t.valid(sb),
    ensures
        sb.refcount_of(t.ptr()) >= 1,
{
    sb.lemma_live_refcount(t.ptr());
}

} // verus!
