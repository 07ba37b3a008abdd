use tinychain::dir::Dir;
use tinychain::error::ErrorType;
use tinychain::txn::TxnId;

fn path(segments: &[&str]) -> Vec<String> {
    segments.iter().map(|s| s.to_string()).collect()
}

#[test]
fn create_dir_makes_parents_visible_to_its_transaction() {
    let mut dir = Dir::new();
    let t1 = TxnId::new(1, 0);
    let t2 = TxnId::new(2, 0);
    dir.create_dir(t1, &path(&["a", "b"])).unwrap();
    assert!(dir.get_dir(t1, &path(&["a"])).is_ok());
    assert!(dir.get_dir(t1, &path(&["a", "b"])).is_ok());
    assert_eq!(dir.get_dir(t2, &path(&["a"])).unwrap_err().code(), ErrorType::NotFound);
    dir.commit(t1);
    assert!(dir.get_dir(t2, &path(&["a", "b"])).is_ok());
}

#[test]
fn create_dir_twice_is_a_bad_request() {
    let mut dir = Dir::new();
    let t = TxnId::new(1, 0);
    dir.create_dir(t, &path(&["x"])).unwrap();
    assert_eq!(dir.create_dir(t, &path(&["x"])).unwrap_err().code(), ErrorType::BadRequest);
    assert_eq!(dir.create_dir(t, &path(&[])).unwrap_err().code(), ErrorType::BadRequest);
    assert!(dir.get_or_create_dir(t, &path(&["x", "y", "z"])).is_ok());
    assert!(dir.get_dir(t, &path(&["x", "y", "z"])).is_ok());
}

#[test]
fn files_are_idempotent_and_not_directories() {
    let mut dir = Dir::new();
    let t = TxnId::new(1, 0);
    dir.create_file(t, &path(&["data", ".chain"])).unwrap();
    assert!(dir.create_file(t, &path(&["data", ".chain"])).is_ok());
    assert_eq!(dir.get_dir(t, &path(&["data", ".chain"])).unwrap_err().code(), ErrorType::BadRequest);
    assert_eq!(
        dir.create_dir(t, &path(&["data", ".chain", "x"])).unwrap_err().code(),
        ErrorType::BadRequest
    );
    assert_eq!(dir.create_file(t, &path(&["data"])).unwrap_err().code(), ErrorType::BadRequest);
    assert_eq!(dir.get_dir(t, &path(&["nothing"])).unwrap_err().code(), ErrorType::NotFound);
}
