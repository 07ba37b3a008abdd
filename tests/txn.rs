use tinychain::error::ErrorType;
use tinychain::txn::{Txn, TxnId, TxnLock};

#[test]
fn later_writer_blocks_earlier_writer() {
    let t1 = TxnId::new(100, 0);
    let t2 = TxnId::new(200, 0);
    assert!(t1.lt(&t2));
    let mut lock = TxnLock::new(0u64);
    assert!(lock.write(t2, 5).is_ok());
    let e = lock.write(t1, 7).unwrap_err();
    assert_eq!(e.code(), ErrorType::Conflict);
}

#[test]
fn committed_write_hides_from_earlier_and_shows_to_later() {
    let t1 = TxnId::new(100, 0);
    let t2 = TxnId::new(200, 0);
    let t3 = TxnId::new(300, 1);
    let mut lock = TxnLock::new(1u64);
    assert!(lock.write(t2, 2).is_ok());
    assert_eq!(lock.read(t2).unwrap(), 2);
    lock.release(t2);
    lock.commit(t2);
    assert_eq!(lock.read(t1).unwrap(), 1);
    assert_eq!(lock.read(t3).unwrap(), 2);
    // a write before a committed version is refused
    assert_eq!(lock.write(t1, 9).unwrap_err().code(), ErrorType::Conflict);
}

#[test]
fn second_writer_at_same_txn_conflicts() {
    let t = TxnId::new(5, 5);
    let mut lock = TxnLock::new(0u64);
    assert!(lock.write(t, 1).is_ok());
    assert_eq!(lock.write(t, 2).unwrap_err().code(), ErrorType::Conflict);
    lock.release(t);
    assert!(lock.write(t, 3).is_ok());
    assert_eq!(lock.read(t).unwrap(), 3);
}

#[test]
fn read_waits_on_earlier_pending_writer() {
    let t1 = TxnId::new(1, 0);
    let t2 = TxnId::new(2, 0);
    let mut lock = TxnLock::new(0u64);
    assert!(lock.write(t1, 1).is_ok());
    assert_eq!(lock.read(t2).unwrap_err().code(), ErrorType::Conflict);
    lock.commit(t1);
    assert_eq!(lock.read(t2).unwrap(), 1);
    // t2 has read, so an earlier writer can no longer slip in
    assert!(lock.write(TxnId::new(1, 5), 4).is_err());
}

#[test]
fn finalize_reclaims_old_versions() {
    let mut lock = TxnLock::new(0u64);
    for (n, v) in [(10u64, 1u64), (20, 2), (30, 3)] {
        let t = TxnId::new(n, 0);
        assert!(lock.write(t, v).is_ok());
        lock.commit(t);
    }
    lock.finalize(TxnId::new(25, 0));
    assert_eq!(lock.read(TxnId::new(25, 0)).unwrap(), 2);
    assert_eq!(lock.read(TxnId::new(35, 0)).unwrap(), 3);
    assert_eq!(lock.read(TxnId::new(15, 0)).unwrap_err().code(), ErrorType::Conflict);
}

#[test]
fn rollback_discards_pending() {
    let t = TxnId::new(7, 0);
    let mut lock = TxnLock::new(4u64);
    assert!(lock.write(t, 8).is_ok());
    lock.rollback(t);
    assert_eq!(lock.read(t).unwrap(), 4);
}

#[test]
fn txn_ids_order_by_time_then_nonce() {
    let a = TxnId::new(1, 9);
    let b = TxnId::new(2, 0);
    let c = TxnId::new(2, 1);
    assert!(a.lt(&b) && b.lt(&c) && !c.lt(&a));
    assert!(b.le(&b));
    assert_eq!(c.nanos(), 2);
    assert_eq!(c.nonce(), 1);
}

#[test]
fn first_claim_owns_the_transaction() {
    let cluster = vec!["app".to_string()];
    let other = vec!["other".to_string()];
    let mut txn = Txn::new(TxnId::new(3, 1));
    assert!(!txn.is_owner(&cluster));
    txn.claim(&cluster);
    txn.claim(&other);
    assert!(txn.is_owner(&cluster));
    assert!(!txn.is_owner(&other));
    txn.mutate("http://a/app".to_string());
    txn.mutate("http://b/app".to_string());
    txn.mutate("http://a/app".to_string());
    assert_eq!(txn.participants(), &vec!["http://a/app".to_string(), "http://b/app".to_string()]);
    assert_eq!(txn.id(), TxnId::new(3, 1));
}

#[test]
fn can_write_matches_write() {
    let mut lock = TxnLock::new(0u64);
    let t1 = TxnId::new(1, 0);
    let t2 = TxnId::new(2, 0);
    assert!(lock.can_write(t2));
    lock.write(t2, 1).unwrap();
    assert!(!lock.can_write(t1));
    assert!(!lock.can_write(t2));
    lock.release(t2);
    assert!(lock.can_write(t2));
}
