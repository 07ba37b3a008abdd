use tinychain::chain::latest_of;
use tinychain::decimal::parse_u64;
use tinychain::error::ErrorType;
use tinychain::replication::{route_cluster, route_read, ClusterRoute, ReadRoute};
use tinychain::request::bearer_token;
use tinychain::txn::TxnId;

#[test]
fn txn_id_parses_canonical_form() {
    let t = TxnId::parse(b"1600000000000000000-42").unwrap();
    assert_eq!(t.nanos(), 1600000000000000000);
    assert_eq!(t.nonce(), 42);
    assert_eq!(TxnId::parse(b"12").unwrap_err().code(), ErrorType::BadRequest);
    assert!(TxnId::parse(b"-1").is_err());
    assert!(TxnId::parse(b"1-").is_err());
    assert!(TxnId::parse(b"1-70000").is_err());
    assert!(TxnId::parse(b"1-2-3").is_err());
    assert!(TxnId::parse(b"18446744073709551616-0").is_err());
    assert_eq!(TxnId::parse(b"18446744073709551615-65535").unwrap().nanos(), u64::MAX);
}

#[test]
fn decimal_parsing() {
    assert_eq!(parse_u64(b"0042", 0, 4), Some(42));
    assert_eq!(parse_u64(b"x123", 1, 4), Some(123));
    assert_eq!(parse_u64(b"", 0, 0), None);
    assert_eq!(parse_u64(b"12a", 0, 3), None);
    assert_eq!(parse_u64(b"18446744073709551615", 0, 20), Some(u64::MAX));
    assert_eq!(parse_u64(b"18446744073709551616", 0, 20), None);
}

#[test]
fn latest_block_from_ids() {
    assert_eq!(latest_of(&vec![]).unwrap(), 0);
    let ids = vec![b"0".to_vec(), b"7".to_vec(), b"3".to_vec()];
    assert_eq!(latest_of(&ids).unwrap(), 7);
    let bad = vec![b"0".to_vec(), b"x".to_vec()];
    assert_eq!(latest_of(&bad).unwrap_err().code(), ErrorType::BadRequest);
}

#[test]
fn bearer_tokens() {
    assert_eq!(bearer_token(b"Bearer  abc.def ").unwrap(), b"abc.def".to_vec());
    assert_eq!(bearer_token(b"Bearer").unwrap(), Vec::<u8>::new());
    assert_eq!(bearer_token(b"Basic abc").unwrap_err().code(), ErrorType::Unauthorized);
    assert!(bearer_token(b"Bear").is_err());
}

#[test]
fn reads_route_to_owner() {
    let cluster = vec!["app".to_string(), "users".to_string()];
    let other = vec!["app".to_string()];
    assert_eq!(route_read(true, Some(&cluster), &cluster), ReadRoute::Local);
    assert_eq!(route_read(false, Some(&cluster), &cluster), ReadRoute::Owner);
    assert_eq!(route_read(false, Some(&other), &cluster), ReadRoute::Local);
    assert_eq!(route_read(false, None, &cluster), ReadRoute::Local);
}

#[test]
fn cluster_paths_route_to_handlers() {
    let chains = vec!["users".to_string(), "orders".to_string()];
    let classes = vec!["User".to_string()];
    let p = |v: &[&str]| v.iter().map(|s| s.to_string()).collect::<Vec<String>>();
    assert_eq!(route_cluster(&p(&[]), &chains, &classes), ClusterRoute::Cluster);
    assert_eq!(route_cluster(&p(&["orders", "x"]), &chains, &classes), ClusterRoute::Chain(1));
    assert_eq!(route_cluster(&p(&["User"]), &chains, &classes), ClusterRoute::Class(0));
    assert_eq!(route_cluster(&p(&["replicas"]), &chains, &classes), ClusterRoute::Replicas);
    assert_eq!(route_cluster(&p(&["authorize"]), &chains, &classes), ClusterRoute::Authorize);
    assert_eq!(route_cluster(&p(&["grant"]), &chains, &classes), ClusterRoute::Grant);
    assert_eq!(route_cluster(&p(&["install"]), &chains, &classes), ClusterRoute::Install);
    assert_eq!(route_cluster(&p(&["replicas", "x"]), &chains, &classes), ClusterRoute::NotFound);
    assert_eq!(route_cluster(&p(&["nothing"]), &chains, &classes), ClusterRoute::NotFound);
}
