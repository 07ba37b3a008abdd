use tinychain::error::ErrorType;
use tinychain::graph::Graph;
use tinychain::txn::TxnId;

#[test]
fn nodes_get_consecutive_ids() {
    let mut g = Graph::create(&vec!["weight".to_string()]).unwrap();
    let t = TxnId::new(10, 0);
    g.add_node(t, &vec![5]).unwrap();
    g.add_node(t, &vec![6]).unwrap();
    assert_eq!(g.len(), 2);
    g.commit(t);
    let later = TxnId::new(20, 0);
    g.add_node(later, &vec![7]).unwrap();
    assert_eq!(g.len(), 3);
}

#[test]
fn node_of_wrong_width_is_rejected() {
    let mut g = Graph::create(&vec!["weight".to_string()]).unwrap();
    let t = TxnId::new(10, 0);
    assert_eq!(g.add_node(t, &vec![5, 6]).unwrap_err().code(), ErrorType::BadRequest);
    assert_eq!(g.len(), 0);
}

#[test]
fn earlier_transaction_cannot_add_after_later_one() {
    let mut g = Graph::create(&vec![]).unwrap();
    g.add_node(TxnId::new(20, 0), &vec![]).unwrap();
    assert_eq!(g.add_node(TxnId::new(10, 0), &vec![]).unwrap_err().code(), ErrorType::Conflict);
}

#[test]
fn graph_rejects_id_column() {
    assert!(Graph::create(&vec!["id".to_string()]).is_err());
}

#[test]
fn serial_additions_compose() {
    let mut g = Graph::create(&vec!["w".to_string()]).unwrap();
    let t1 = TxnId::new(1, 0);
    let t2 = TxnId::new(2, 0);
    g.add_node(t1, &vec![10]).unwrap();
    g.commit(t1);
    g.add_node(t2, &vec![20]).unwrap();
    g.commit(t2);
    let t3 = TxnId::new(3, 0);
    g.add_node(t3, &vec![30]).unwrap();
    assert_eq!(g.len(), 3);
    // the earlier transaction is refused with a conflict, and adds nothing
    assert_eq!(g.add_node(t1, &vec![11]).unwrap_err().code(), ErrorType::Conflict);
    assert_eq!(g.len(), 3);
}
