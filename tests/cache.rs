use tinychain::cache::{Deque, KeyValueMap, Queue, Value};

#[test]
fn map_insert_get() {
    let mut m: KeyValueMap<u64, String> = KeyValueMap::new();
    assert!(!m.contains_key(&1));
    assert_eq!(m.insert(1, "one".to_string()), None);
    assert!(m.contains_key(&1));
    assert_eq!(m.get(&1), Some("one".to_string()));
    assert_eq!(m.insert(1, "uno".to_string()), Some("one".to_string()));
    assert_eq!(m.get(&2), None);
}

#[test]
fn queue_is_last_in_first_out() {
    let mut q: Queue<u32> = Queue::new();
    q.push(1);
    q.push(2);
    q.push(3);
    assert_eq!(q.to_vec(), vec![1, 2, 3]);
    q.reverse();
    assert_eq!(q.to_vec(), vec![3, 2, 1]);
    assert_eq!(q.pop(), Some(1));
    assert_eq!(q.pop(), Some(2));
    assert_eq!(q.pop(), Some(3));
    assert_eq!(q.pop(), None);
}

#[test]
fn deque_is_first_in_first_out() {
    let mut d: Deque<&str> = Deque::new();
    assert!(d.is_empty());
    d.push_back("a");
    d.push_back("b");
    assert_eq!(d.pop_front(), Some("a"));
    assert!(!d.is_empty());
    assert_eq!(d.pop_front(), Some("b"));
    assert_eq!(d.pop_front(), None);
}

#[test]
fn value_read_write() {
    let mut v = Value::of(3u8);
    assert_eq!(v.read(), 3);
    v.write(9);
    assert_eq!(v.read(), 9);
}
