use relbox::layout::{decode_codomain, decode_domain, decode_ts, encode_tuple, HEADER_SIZE};
use relbox::relbox::RelBox;
use relbox::tuple_ref::{bytes_cmp, TupleRef};
use relbox::tuplebox::TupleBox;
use relbox::{CommitError, RelationError, RelationId};

use std::cmp::Ordering;

fn from_val(value: i64) -> Vec<u8> {
    value.to_le_bytes().to_vec()
}

fn to_val(value: &[u8]) -> i64 {
    let mut bytes = [0; 8];
    bytes.copy_from_slice(value);
    i64::from_le_bytes(bytes)
}

#[test]
fn layout_exact_bytes() {
    let buf = encode_tuple(0x0102030405060708, &[0xAA, 0xBB], &[0xCC]);
    assert_eq!(HEADER_SIZE, 16);
    assert_eq!(
        buf,
        vec![
            0x08, 0x07, 0x06, 0x05, 0x04, 0x03, 0x02, 0x01, // timestamp, little endian
            2, 0, 0, 0, // domain length
            1, 0, 0, 0, // codomain length
            0xAA, 0xBB, // domain
            0xCC, // codomain
        ]
    );
    assert_eq!(decode_ts(&buf), 0x0102030405060708);
    assert_eq!(decode_domain(&buf), vec![0xAA, 0xBB]);
    assert_eq!(decode_codomain(&buf), vec![0xCC]);
}

#[test]
fn round_trip_payload_sizes() {
    // empty, single-byte and multi-kilobyte domains and codomains survive
    // allocation bit for bit
    let mut tb = TupleBox::new(16);
    let big: Vec<u8> = (0..4096u32).map(|i| (i % 251) as u8).collect();
    let cases: Vec<(Vec<u8>, Vec<u8>)> = vec![
        (vec![], vec![]),
        (vec![7], vec![]),
        (vec![], vec![9]),
        (vec![1, 2, 3], vec![4, 5]),
        (big.clone(), big.clone()),
    ];
    for (d, c) in cases {
        let t = TupleRef::allocate(RelationId(0), &mut tb, 77, &d, &c).unwrap();
        assert_eq!(t.domain(&tb), d);
        assert_eq!(t.codomain(&tb), c);
        assert_eq!(t.ts(&tb), 77);
        assert_eq!(t.slot_buffer(&tb), encode_tuple(77, &d, &c));
    }
}

#[test]
fn update_timestamp_keeps_content() {
    let mut tb = TupleBox::new(4);
    let mut t = TupleRef::allocate(RelationId(0), &mut tb, 1, &[1, 2], &[3]).unwrap();
    t.update_timestamp(&mut tb, 99);
    assert_eq!(t.ts(&tb), 99);
    assert_eq!(t.domain(&tb), vec![1, 2]);
    assert_eq!(t.codomain(&tb), vec![3]);
}

#[test]
fn content_equality_ignores_timestamp_and_slot() {
    let mut tb = TupleBox::new(4);
    let t1 = TupleRef::allocate(RelationId(0), &mut tb, 1, &[1, 2], &[3]).unwrap();
    let t2 = TupleRef::allocate(RelationId(0), &mut tb, 2, &[1, 2], &[3]).unwrap();
    let t3 = TupleRef::allocate(RelationId(0), &mut tb, 1, &[1, 2], &[4]).unwrap();
    assert_ne!(t1.id(), t2.id());
    assert!(t1.content_eq(&t2, &tb));
    assert_eq!(t1.content_cmp(&t2, &tb), Ordering::Equal);
    assert!(!t1.content_eq(&t3, &tb));
}

#[test]
fn ordering_is_lexicographic_domain_then_codomain() {
    let mut tb = TupleBox::new(8);
    let t_a = TupleRef::allocate(RelationId(0), &mut tb, 0, &[1], &[9]).unwrap();
    let t_b = TupleRef::allocate(RelationId(0), &mut tb, 0, &[2], &[0]).unwrap();
    let t_c = TupleRef::allocate(RelationId(0), &mut tb, 0, &[1], &[10]).unwrap();
    let t_d = TupleRef::allocate(RelationId(0), &mut tb, 0, &[1, 0], &[9]).unwrap();
    // domain decides first
    assert_eq!(t_a.content_cmp(&t_b, &tb), Ordering::Less);
    assert_eq!(t_b.content_cmp(&t_a, &tb), Ordering::Greater);
    // equal domains fall back to the codomain
    assert_eq!(t_a.content_cmp(&t_c, &tb), Ordering::Less);
    // a proper prefix of a domain comes first
    assert_eq!(t_a.content_cmp(&t_d, &tb), Ordering::Less);
    assert_eq!(bytes_cmp(&[1, 2], &[1, 2]), Ordering::Equal);
    assert_eq!(bytes_cmp(&[], &[0]), Ordering::Less);
    assert_eq!(bytes_cmp(&[3], &[2, 9]), Ordering::Greater);
}

#[test]
fn allocation_exhaustion_reports_box_full() {
    let mut tb = TupleBox::new(1);
    let _t = TupleRef::allocate(RelationId(0), &mut tb, 0, &[1], &[1]).unwrap();
    let r = TupleRef::allocate(RelationId(0), &mut tb, 0, &[2], &[2]);
    assert!(r.is_err());

    let mut rb = RelBox::new(1, 1);
    let mut tx = rb.start_tx();
    let _k = tx
        .insert_tuple(&mut rb, RelationId(0), &from_val(1), &from_val(1))
        .unwrap();
    let r2 = tx.insert_tuple(&mut rb, RelationId(0), &from_val(2), &from_val(2));
    assert_eq!(r2.unwrap_err(), RelationError::OutOfSpace);
}

#[test]
fn commit_publishes_to_later_snapshot() {
    // T1 inserts (42, 42) and commits; T2 starting afterwards reads it back
    let mut rb = RelBox::new(2, 64);
    let mut t1 = rb.start_tx();
    let t = t1
        .insert_tuple(&mut rb, RelationId(1), &from_val(42), &from_val(42))
        .unwrap();
    rb.release(&t);
    t1.commit(&mut rb).unwrap();

    let mut t2 = rb.start_tx();
    let found = t2
        .seek_unique_by_domain(&mut rb, RelationId(1), &from_val(42))
        .unwrap();
    assert_eq!(to_val(&found.codomain(rb.tuplebox())), 42);
    assert_eq!(to_val(&found.domain(rb.tuplebox())), 42);
    rb.release(&found);
}

#[test]
fn snapshot_isolation_hides_later_commits() {
    let mut rb = RelBox::new(1, 64);
    let mut t2 = rb.start_tx();
    let mut t1 = rb.start_tx();
    let t = t1
        .insert_tuple(&mut rb, RelationId(0), &from_val(5), &from_val(5))
        .unwrap();
    rb.release(&t);
    t1.commit(&mut rb).unwrap();
    // T2 started before T1 committed: the insert is invisible to it
    let miss = t2.seek_unique_by_domain(&mut rb, RelationId(0), &from_val(5));
    assert_eq!(miss.unwrap_err(), RelationError::NotFound);
    t2.rollback(&mut rb).unwrap();
}

#[test]
fn overlapping_writers_conflict() {
    // T1 and T2 both start; T1 commits domain 7; T2, which read 7 as absent
    // and also inserted it, fails at commit with a serialization conflict
    let mut rb = RelBox::new(1, 64);
    let mut t1 = rb.start_tx();
    let mut t2 = rb.start_tx();

    let miss = t2.seek_unique_by_domain(&mut rb, RelationId(0), &from_val(7));
    assert_eq!(miss.unwrap_err(), RelationError::NotFound);

    let a = t1
        .insert_tuple(&mut rb, RelationId(0), &from_val(7), &from_val(7))
        .unwrap();
    rb.release(&a);
    t1.commit(&mut rb).unwrap();

    let b = t2
        .insert_tuple(&mut rb, RelationId(0), &from_val(7), &from_val(70))
        .unwrap();
    rb.release(&b);
    assert_eq!(t2.commit(&mut rb).unwrap_err(), CommitError::Conflict);

    // the committed value is T1's
    let mut t3 = rb.start_tx();
    let found = t3
        .seek_unique_by_domain(&mut rb, RelationId(0), &from_val(7))
        .unwrap();
    assert_eq!(to_val(&found.codomain(rb.tuplebox())), 7);
    rb.release(&found);
}

#[test]
fn disjoint_writers_both_commit() {
    let mut rb = RelBox::new(1, 64);
    let mut t1 = rb.start_tx();
    let mut t2 = rb.start_tx();
    let a = t1
        .insert_tuple(&mut rb, RelationId(0), &from_val(1), &from_val(10))
        .unwrap();
    rb.release(&a);
    let b = t2
        .insert_tuple(&mut rb, RelationId(0), &from_val(2), &from_val(20))
        .unwrap();
    rb.release(&b);
    assert!(t1.commit(&mut rb).is_ok());
    assert!(t2.commit(&mut rb).is_ok());
}

#[test]
fn read_your_own_writes() {
    let mut rb = RelBox::new(1, 64);
    let mut tx = rb.start_tx();
    let t = tx
        .insert_tuple(&mut rb, RelationId(0), &from_val(3), &from_val(33))
        .unwrap();
    rb.release(&t);
    let seen = tx
        .seek_unique_by_domain(&mut rb, RelationId(0), &from_val(3))
        .unwrap();
    assert_eq!(to_val(&seen.codomain(rb.tuplebox())), 33);
    rb.release(&seen);
    // nobody else sees it before commit
    let mut other = rb.start_tx();
    let miss = other.seek_unique_by_domain(&mut rb, RelationId(0), &from_val(3));
    assert_eq!(miss.unwrap_err(), RelationError::NotFound);
}

#[test]
fn duplicate_key_rejected_within_view() {
    let mut rb = RelBox::new(1, 64);
    let mut tx = rb.start_tx();
    let t = tx
        .insert_tuple(&mut rb, RelationId(0), &from_val(8), &from_val(8))
        .unwrap();
    rb.release(&t);
    let dup = tx.insert_tuple(&mut rb, RelationId(0), &from_val(8), &from_val(9));
    assert_eq!(dup.unwrap_err(), RelationError::DuplicateKey);
    t_commit_then_duplicate(rb, tx);
}

fn t_commit_then_duplicate(mut rb: RelBox, mut tx: relbox::relbox::Transaction) {
    tx.commit(&mut rb).unwrap();
    let mut tx2 = rb.start_tx();
    let dup = tx2.insert_tuple(&mut rb, RelationId(0), &from_val(8), &from_val(9));
    assert_eq!(dup.unwrap_err(), RelationError::DuplicateKey);
}

#[test]
fn rollback_discards_and_reclaims() {
    // T1 inserts, releases its handle and rolls back: a later scan does not
    // contain the tuple, and the backing slot is reused by the next allocation
    let mut rb = RelBox::new(1, 64);
    let mut t1 = rb.start_tx();
    let t = t1
        .insert_tuple(&mut rb, RelationId(0), &from_val(13), &from_val(13))
        .unwrap();
    let slot = t.id();
    rb.release(&t);
    t1.rollback(&mut rb).unwrap();

    let mut t2 = rb.start_tx();
    let all = t2
        .predicate_scan(&mut rb, RelationId(0), &|_d: Vec<u8>, _c: Vec<u8>| true)
        .unwrap();
    assert_eq!(all.len(), 0);
    // the freed slot is reclaimable: the next insert reuses its index
    let t_new = t2
        .insert_tuple(&mut rb, RelationId(0), &from_val(14), &from_val(14))
        .unwrap();
    assert_eq!(t_new.id(), slot);
    rb.release(&t_new);
}

#[test]
fn predicate_scan_sees_pending_and_committed() {
    let mut rb = RelBox::new(1, 64);
    let mut t1 = rb.start_tx();
    let a = t1
        .insert_tuple(&mut rb, RelationId(0), &from_val(1), &from_val(10))
        .unwrap();
    rb.release(&a);
    t1.commit(&mut rb).unwrap();

    let mut t2 = rb.start_tx();
    let b = t2
        .insert_tuple(&mut rb, RelationId(0), &from_val(2), &from_val(20))
        .unwrap();
    rb.release(&b);

    let mut got: Vec<i64> = t2
        .predicate_scan(&mut rb, RelationId(0), &|_d: Vec<u8>, _c: Vec<u8>| true)
        .unwrap()
        .iter()
        .map(|t| to_val(&t.domain(rb.tuplebox())))
        .collect();
    got.sort();
    assert_eq!(got, vec![1, 2]);

    let none = t2
        .predicate_scan(&mut rb, RelationId(0), &|_d: Vec<u8>, _c: Vec<u8>| false)
        .unwrap();
    assert_eq!(none.len(), 0);

    let odd: Vec<i64> = t2
        .predicate_scan(&mut rb, RelationId(0), &|d: Vec<u8>, _c: Vec<u8>| {
            to_val(&d) % 2 == 1
        })
        .unwrap()
        .iter()
        .map(|t| to_val(&t.domain(rb.tuplebox())))
        .collect();
    assert_eq!(odd, vec![1]);
}

#[test]
fn scan_then_concurrent_commit_conflicts() {
    // a transaction that scanned a whole relation conflicts with any commit
    // into it after its snapshot
    let mut rb = RelBox::new(1, 64);
    let mut t2 = rb.start_tx();
    let _ = t2
        .predicate_scan(&mut rb, RelationId(0), &|_d: Vec<u8>, _c: Vec<u8>| true)
        .unwrap();
    let x = t2
        .insert_tuple(&mut rb, RelationId(0), &from_val(100), &from_val(100))
        .unwrap();
    rb.release(&x);

    let mut t1 = rb.start_tx();
    let y = t1
        .insert_tuple(&mut rb, RelationId(0), &from_val(200), &from_val(200))
        .unwrap();
    rb.release(&y);
    t1.commit(&mut rb).unwrap();

    assert_eq!(t2.commit(&mut rb).unwrap_err(), CommitError::Conflict);
}

#[test]
fn refcount_clone_and_release() {
    let mut tb = TupleBox::new(4);
    let t = TupleRef::allocate(RelationId(0), &mut tb, 0, &[1], &[1]).unwrap();
    let t2 = t.clone_ref(&mut tb);
    // both shares read the same content
    assert!(t.content_eq(&t2, &tb));
    // dropping one share keeps the tuple alive; dropping the last frees the
    // slot, whose index is then reused
    t2.dncount(&mut tb);
    assert_eq!(t.domain(&tb), vec![1]);
    let slot = t.id();
    t.dncount(&mut tb);
    let t3 = TupleRef::allocate(RelationId(0), &mut tb, 0, &[2], &[2]).unwrap();
    assert_eq!(t3.id(), slot);
}
