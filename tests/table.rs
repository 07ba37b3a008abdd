use tinychain::error::ErrorType;
use tinychain::table::{ColumnBound, ReadOnly, TableIndex, TableSchema};

fn names(v: &[&str]) -> Vec<String> {
    v.iter().map(|s| s.to_string()).collect()
}

fn schema() -> TableSchema {
    TableSchema {
        key: names(&["a", "b"]),
        values: names(&["c"]),
        indices: vec![("by_c".to_string(), names(&["c"]))],
    }
}

fn bound(name: &str, b: ColumnBound) -> (String, ColumnBound) {
    (name.to_string(), b)
}

fn filled() -> TableIndex {
    let mut t = TableIndex::create(&schema()).unwrap();
    for (a, b, c) in [(1u64, 1u64, 2u64), (1, 2, 3), (2, 1, 2), (1, 3, 2)] {
        t.insert(&vec![a, b], &vec![c]).unwrap();
    }
    t
}

#[test]
fn planner_uses_primary_then_auxiliary() {
    let t = filled();
    let bounds = vec![bound("c", ColumnBound::Is(2)), bound("a", ColumnBound::Is(1))];
    let slice = t.slice(&bounds).unwrap();
    assert_eq!(slice.plan, vec![(0, 1), (1, 1)]);
    assert_eq!(slice.bounds[0].0, "a");
    assert_eq!(slice.bounds[1].0, "c");
    let rows = t.stream(&bounds).unwrap();
    assert_eq!(rows, vec![vec![1, 1, 2], vec![1, 3, 2]]);
}

#[test]
fn planner_prefers_longest_prefix() {
    let t = filled();
    let bounds = vec![bound("a", ColumnBound::Is(1)), bound("b", ColumnBound::In(1, 3))];
    let slice = t.slice(&bounds).unwrap();
    assert_eq!(slice.plan, vec![(0, 2)]);
    assert_eq!(t.stream(&bounds).unwrap(), vec![vec![1, 1, 2], vec![1, 2, 3]]);
    assert!(t.validate_bounds(&bounds).is_ok());
}

#[test]
fn planner_rejects_unsupported_bounds() {
    let t = filled();
    let bounds = vec![bound("b", ColumnBound::Is(1))];
    assert_eq!(t.slice(&bounds).unwrap_err().code(), ErrorType::BadRequest);
    assert_eq!(t.validate_bounds(&bounds).unwrap_err().code(), ErrorType::BadRequest);
    assert!(t.stream(&bounds).is_err());
    let unknown = vec![bound("z", ColumnBound::Is(1))];
    assert_eq!(t.validate_bounds(&unknown).unwrap_err().code(), ErrorType::BadRequest);
}

#[test]
fn order_planning() {
    let t = filled();
    let o = t.order_by(&names(&["a", "b"]), true).unwrap();
    assert_eq!(o.plan, vec![(0, 2)]);
    assert!(o.reverse);
    let o = t.order_by(&names(&["c", "a", "b"]), false).unwrap();
    assert_eq!(o.plan, vec![(1, 3)]);
    assert!(t.validate_order(&names(&["b"])).is_err());
    assert!(t.validate_order(&names(&["a", "c"])).is_ok());
}

#[test]
fn supporting_index_picks_first() {
    let t = filled();
    assert_eq!(t.supporting_index(&vec![bound("a", ColumnBound::Is(1))]).unwrap(), 0);
    assert_eq!(t.supporting_index(&vec![bound("c", ColumnBound::Is(1))]).unwrap(), 1);
    assert!(t.supporting_index(&vec![bound("b", ColumnBound::Is(1))]).is_err());
}

#[test]
fn auxiliary_index_follows_primary() {
    let mut t = filled();
    assert_eq!(t.index_rows(1), vec![vec![2, 1, 1], vec![3, 1, 2], vec![2, 2, 1], vec![2, 1, 3]]);
    t.upsert(&vec![1, 2, 9]).unwrap();
    assert_eq!(t.get(&vec![1, 2]).unwrap(), Some(vec![1, 2, 9]));
    assert_eq!(t.index_rows(1), vec![vec![2, 1, 1], vec![2, 2, 1], vec![2, 1, 3], vec![9, 1, 2]]);
    t.delete_row(&vec![2, 1, 0]).unwrap();
    assert_eq!(t.count(), 3);
    assert_eq!(t.index_rows(1), vec![vec![2, 1, 1], vec![2, 1, 3], vec![9, 1, 2]]);
    assert_eq!(t.index_rows(0), vec![vec![1, 1, 2], vec![1, 3, 2], vec![1, 2, 9]]);
}

#[test]
fn insert_rejects_existing_key_and_bad_widths() {
    let mut t = filled();
    assert_eq!(t.insert(&vec![1, 1], &vec![5]).unwrap_err().code(), ErrorType::BadRequest);
    assert_eq!(t.insert(&vec![1], &vec![5, 6]).unwrap_err().code(), ErrorType::BadRequest);
    assert_eq!(t.insert(&vec![7, 7], &vec![]).unwrap_err().code(), ErrorType::BadRequest);
    assert_eq!(t.upsert(&vec![1, 1]).unwrap_err().code(), ErrorType::BadRequest);
    assert_eq!(t.get(&vec![9, 9]).unwrap(), None);
    assert_eq!(t.count(), 4);
    assert!(!t.is_empty());
}

#[test]
fn create_validates_schema() {
    let mut s = schema();
    s.indices.push(("primary".to_string(), names(&["c"])));
    assert_eq!(TableIndex::create(&s).unwrap_err().code(), ErrorType::BadRequest);
    let mut s = schema();
    s.indices.push(("dup".to_string(), names(&["c", "c"])));
    assert_eq!(TableIndex::create(&s).unwrap_err().code(), ErrorType::BadRequest);
    let mut s = schema();
    s.indices.push(("missing".to_string(), names(&["d"])));
    assert_eq!(TableIndex::create(&s).unwrap_err().code(), ErrorType::NotFound);
    let s = TableSchema { key: vec![], values: names(&["c"]), indices: vec![] };
    assert_eq!(TableIndex::create(&s).unwrap_err().code(), ErrorType::BadRequest);
    let s = TableSchema { key: names(&["a"]), values: names(&["a"]), indices: vec![] };
    assert_eq!(TableIndex::create(&s).unwrap_err().code(), ErrorType::BadRequest);
    let t = TableIndex::create(&schema()).unwrap();
    assert!(t.is_empty());
    assert_eq!(t.index_count(), 2);
    assert_eq!(t.primary().columns(), &names(&["a", "b", "c"]));
}

#[test]
fn index_slices_and_containment() {
    let t = filled();
    let primary = t.primary();
    let rows = primary.index_slice(&vec![bound("a", ColumnBound::Is(1))]).unwrap();
    assert_eq!(rows, vec![vec![1, 1, 2], vec![1, 2, 3], vec![1, 3, 2]]);
    assert!(primary.index_slice(&vec![bound("b", ColumnBound::Is(1))]).is_err());
    let outer = vec![bound("a", ColumnBound::In(0, 5))];
    let inner = vec![bound("a", ColumnBound::Is(3)), bound("b", ColumnBound::Is(1))];
    assert!(primary.validate_slice_bounds(&outer, &inner).is_ok());
    assert!(primary.validate_slice_bounds(&inner, &outer).is_err());
    let wide = vec![bound("a", ColumnBound::In(0, 9))];
    assert!(primary.validate_slice_bounds(&outer, &wide).is_err());
    assert_eq!(primary.len(), 4);
    assert!(!primary.is_empty());
    assert!(primary.validate_order(&names(&["a"])).is_ok());
    let (key, columns) = primary.schema();
    assert_eq!(key, &names(&["a", "b"]));
    assert_eq!(columns.len(), 3);
}

#[test]
fn read_only_copy_reverses() {
    let t = filled();
    let ro = ReadOnly::copy_from(&t, 1);
    assert!(!ro.is_empty());
    let ro = ro.into_reversed();
    assert!(!ro.is_empty());
}

#[test]
fn copy_upserts_rows_in_turn() {
    let rows = vec![vec![1, 1, 2], vec![2, 2, 2], vec![1, 1, 5]];
    let t = TableIndex::copy(&schema(), &rows).unwrap();
    assert_eq!(t.index_rows(0), vec![vec![2, 2, 2], vec![1, 1, 5]]);
    assert_eq!(t.index_rows(1), vec![vec![2, 2, 2], vec![5, 1, 1]]);
    let bad = vec![vec![1, 1, 2], vec![1, 2]];
    assert_eq!(TableIndex::copy(&schema(), &bad).unwrap_err().code(), ErrorType::BadRequest);
    let mut t = filled();
    assert!(t.upsert_all(&bad).is_err());
    assert_eq!(t.count(), 4);
    t.upsert_all(&vec![vec![9, 9, 9]]).unwrap();
    assert_eq!(t.count(), 5);
}

#[test]
fn ordered_stream_sorts_by_the_order_columns() {
    let t = filled();
    let rows = t.stream_ordered(&names(&["c", "a", "b"]), false).unwrap();
    assert_eq!(rows, vec![vec![1, 1, 2], vec![1, 3, 2], vec![2, 1, 2], vec![1, 2, 3]]);
    let rows = t.stream_ordered(&names(&["c", "a", "b"]), true).unwrap();
    assert_eq!(rows, vec![vec![1, 2, 3], vec![2, 1, 2], vec![1, 3, 2], vec![1, 1, 2]]);
    let rows = t.stream_ordered(&names(&["a"]), false).unwrap();
    assert_eq!(rows, vec![vec![1, 1, 2], vec![1, 2, 3], vec![1, 3, 2], vec![2, 1, 2]]);
    assert_eq!(t.stream_ordered(&names(&["b"]), false).unwrap_err().code(), ErrorType::BadRequest);
}

#[test]
fn slices_come_in_key_order() {
    let mut t = TableIndex::create(&schema()).unwrap();
    for (a, b, c) in [(2u64, 5u64, 1u64), (1, 9, 1), (1, 4, 1), (1, 6, 7)] {
        t.insert(&vec![a, b], &vec![c]).unwrap();
    }
    let rows = t.primary().index_slice(&vec![bound("a", ColumnBound::Is(1))]).unwrap();
    assert_eq!(rows, vec![vec![1, 4, 1], vec![1, 6, 7], vec![1, 9, 1]]);
    let rows = t.stream(&vec![bound("c", ColumnBound::Is(1))]).unwrap();
    assert_eq!(rows, vec![vec![1, 4, 1], vec![1, 9, 1], vec![2, 5, 1]]);
}

#[test]
fn empty_inner_slice_is_contained() {
    let t = filled();
    let primary = t.primary();
    let outer = vec![bound("a", ColumnBound::Is(1))];
    let inner = vec![bound("a", ColumnBound::Is(2)), bound("b", ColumnBound::In(5, 5))];
    assert!(primary.validate_slice_bounds(&outer, &inner).is_ok());
    let inner = vec![bound("a", ColumnBound::Is(2)), bound("b", ColumnBound::In(5, 6))];
    assert!(primary.validate_slice_bounds(&outer, &inner).is_err());
}
