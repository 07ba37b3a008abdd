use tinychain::error::ErrorType;
use tinychain::tensor::{broadcast, SparseTensor};

#[test]
fn sparse_upsert_zero_stores_nothing() {
    let mut t = SparseTensor::new(vec![3, 4]);
    assert!(t.write_value_at(vec![1, 2], 0).is_ok());
    assert_eq!(t.filled_count(), 0);
    assert_eq!(t.read_value_at(&vec![1, 2]).unwrap(), 0);
}

#[test]
fn sparse_write_read_and_clear() {
    let mut t = SparseTensor::new(vec![3, 4]);
    assert!(t.write_value_at(vec![1, 2], 5).is_ok());
    assert!(t.write_value_at(vec![0, 0], 1).is_ok());
    assert_eq!(t.filled_count(), 2);
    assert_eq!(t.read_value_at(&vec![1, 2]).unwrap(), 5);
    assert!(t.write_value_at(vec![1, 2], 6).is_ok());
    assert_eq!(t.filled_count(), 2);
    assert_eq!(t.read_value_at(&vec![1, 2]).unwrap(), 6);
    assert!(t.write_value_at(vec![1, 2], 0).is_ok());
    assert_eq!(t.filled_count(), 1);
    assert_eq!(t.read_value_at(&vec![1, 2]).unwrap(), 0);
    assert_eq!(t.read_value_at(&vec![0, 0]).unwrap(), 1);
    assert_eq!(t.read_value_at(&vec![2, 3]).unwrap(), 0);
    assert_eq!(t.filled(), vec![(vec![0, 0], 1)]);
}

#[test]
fn sparse_rejects_coordinates_outside_shape() {
    let mut t = SparseTensor::new(vec![3, 4]);
    assert_eq!(t.write_value_at(vec![3, 0], 1).unwrap_err().code(), ErrorType::BadRequest);
    assert_eq!(t.read_value_at(&vec![0]).unwrap_err().code(), ErrorType::BadRequest);
    assert_eq!(t.shape(), &vec![3, 4]);
    assert_eq!(t.ndim(), 2);
}

#[test]
fn broadcast_takes_larger_axes() {
    assert_eq!(broadcast(&vec![1, 5, 3], &vec![4, 1, 3]), vec![4, 5, 3]);
    assert_eq!(broadcast(&vec![2, 2], &vec![2, 2]), vec![2, 2]);
}

#[test]
fn sum_and_slice_over_filled_values() {
    let mut t = SparseTensor::new(vec![4, 4]);
    t.write_value_at(vec![0, 1], u64::MAX).unwrap();
    t.write_value_at(vec![2, 2], 3).unwrap();
    t.write_value_at(vec![3, 0], 4).unwrap();
    assert_eq!(t.sum_all(), u64::MAX as u128 + 7);
    let inside = t.slice(&vec![(1, 4), (0, 3)]).unwrap();
    assert_eq!(inside, vec![(vec![2, 2], 3), (vec![3, 0], 4)]);
    assert_eq!(t.slice(&vec![(0, 4)]).unwrap_err().code(), ErrorType::BadRequest);
    assert_eq!(SparseTensor::new(vec![2]).sum_all(), 0);
}

#[test]
fn filled_entries_come_in_coordinate_order() {
    let mut t = SparseTensor::new(vec![3, 3]);
    t.write_value_at(vec![2, 0], 7).unwrap();
    t.write_value_at(vec![0, 2], 5).unwrap();
    t.write_value_at(vec![0, 1], 4).unwrap();
    assert_eq!(t.filled_in_order(), vec![vec![0, 1, 4], vec![0, 2, 5], vec![2, 0, 7]]);
}
