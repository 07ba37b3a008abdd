use tinychain::error::ErrorType;
use tinychain::replication::{replicate_write, Arrival, FanOut, ReplicaSet, Step, WriteOutcome};

fn ok(replica: usize) -> Arrival {
    Arrival { replica, error: None }
}

fn err(replica: usize, code: ErrorType) -> Arrival {
    Arrival { replica, error: Some(code) }
}

#[test]
fn quarantine_after_partial_failure() {
    let arrivals = vec![
        ok(0),
        err(1, ErrorType::Internal),
        ok(2),
        err(3, ErrorType::Internal),
        ok(4),
    ];
    match replicate_write(5, &arrivals) {
        WriteOutcome::Replicated { succeeded, failed } => {
            assert_eq!(succeeded, vec![0, 2, 4]);
            assert_eq!(failed, vec![1, 3]);
        }
        other => panic!("unexpected outcome {:?}", other),
    }
}

#[test]
fn conflict_short_circuits() {
    let arrivals = vec![ok(2), err(0, ErrorType::Conflict), ok(1), ok(3), ok(4)];
    match replicate_write(5, &arrivals) {
        WriteOutcome::Conflict(p) => assert_eq!(p, 1),
        other => panic!("unexpected outcome {:?}", other),
    }
}

#[test]
fn quorum_lost_returns_latest_error() {
    let arrivals = vec![
        err(0, ErrorType::Timeout),
        ok(1),
        err(2, ErrorType::Internal),
        err(3, ErrorType::Timeout),
        ok(4),
    ];
    match replicate_write(5, &arrivals) {
        WriteOutcome::QuorumLost(p) => assert_eq!(p, 3),
        other => panic!("unexpected outcome {:?}", other),
    }
}

#[test]
fn half_success_is_enough() {
    let arrivals = vec![ok(0), err(1, ErrorType::Internal)];
    match replicate_write(2, &arrivals) {
        WriteOutcome::Replicated { succeeded, failed } => {
            assert_eq!(succeeded, vec![0]);
            assert_eq!(failed, vec![1]);
        }
        other => panic!("unexpected outcome {:?}", other),
    }
}

#[test]
fn step_by_step_fan_out() {
    let mut fan = FanOut::new(3);
    assert_eq!(fan.observe(ok(0)), Step::Continue);
    assert_eq!(fan.observe(err(1, ErrorType::Timeout)), Step::Continue);
    assert_eq!(fan.observe(err(2, ErrorType::Internal)), Step::QuorumLost);
    let mut fan = FanOut::new(3);
    assert_eq!(fan.observe(err(1, ErrorType::Conflict)), Step::Conflict);
    let mut fan = FanOut::new(1);
    assert_eq!(fan.observe(ok(0)), Step::Continue);
    assert_eq!(fan.succeeded(), &vec![0]);
    assert!(fan.failed().is_empty());
}

#[test]
fn replica_set_keeps_own_link() {
    let own = "http://host-a/app".to_string();
    let mut set = ReplicaSet::new(own.clone());
    set.add("http://host-b/app".to_string());
    set.add("http://host-c/app".to_string());
    set.add("http://host-b/app".to_string());
    assert_eq!(set.links().len(), 3);
    assert!(set.remove(&"http://host-b/app".to_string()).is_ok());
    assert_eq!(set.links(), &vec![own.clone(), "http://host-c/app".to_string()]);
    assert_eq!(set.remove(&own).unwrap_err().code(), ErrorType::BadRequest);
    assert!(set.remove(&"http://host-z/app".to_string()).is_ok());
    assert_eq!(set.links().len(), 2);
}
