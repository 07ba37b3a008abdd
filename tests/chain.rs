use sha2::Digest;
use tinychain::chain::{BlockChain, ChainBlock, Mutation, BLOCK_SIZE};
use tinychain::txn::TxnId;

fn mutation(nanos: u64, value_len: usize) -> Mutation {
    Mutation {
        txn_id: TxnId::new(nanos, 0),
        path: b"/state/table".to_vec(),
        key: vec![1, 2, 3],
        value: vec![7u8; value_len],
    }
}

// The encoded size of a mutation: 34 bytes of framing plus its path, key and value.
fn record_len(m: &Mutation) -> usize {
    34 + m.path.len() + m.key.len() + m.value.len()
}

#[test]
fn blockchain_seals_full_block() {
    let mut chain = BlockChain::new();
    assert_eq!(chain.latest(), 0);
    let first = mutation(1, 0);
    let fill = 999_000 - 32 - record_len(&first);
    let first = mutation(1, fill);
    chain.append(first);
    assert_eq!(chain.block(0).size(), 999_000);
    chain.commit();
    assert_eq!(chain.latest(), 0);

    let more = mutation(2, 5_000 - 34 - 12 - 3);
    assert_eq!(record_len(&more), 5_000);
    chain.append(more);
    assert_eq!(chain.block(0).size(), 1_004_000);
    assert!(chain.block(0).size() >= BLOCK_SIZE);
    chain.commit();
    assert_eq!(chain.latest(), 1);

    let sealed = chain.block(0).encode();
    let expected = sha2::Sha256::digest(&sealed).to_vec();
    assert_eq!(chain.block(1).last_hash(), &expected);
    assert_eq!(chain.block(1).size(), 32);
}

#[test]
fn first_block_follows_null_hash() {
    let chain = BlockChain::new();
    assert_eq!(chain.block(0).last_hash(), &vec![0u8; 32]);
    assert!(chain.block(0).mutations().is_empty());
}

#[test]
fn replay_returns_mutations_in_append_order() {
    let mut chain = BlockChain::new();
    for i in 0..5u64 {
        chain.append(mutation(i, 400_000));
        chain.commit();
    }
    assert_eq!(chain.latest(), 1);
    let replayed = chain.replay();
    assert_eq!(replayed.len(), 5);
    for (i, m) in replayed.iter().enumerate() {
        assert_eq!(m.txn_id.nanos(), i as u64);
    }
    for i in 1..=chain.latest() as usize {
        let prev = chain.block(i - 1).encode();
        assert_eq!(chain.block(i).last_hash(), &sha2::Sha256::digest(&prev).to_vec());
    }
}

#[test]
fn block_encoding_is_framed() {
    let mut block = ChainBlock::new(vec![9u8; 32]);
    block.append(Mutation {
        txn_id: TxnId::new(0x0102030405060708, 0x0a0b),
        path: vec![b'p'],
        key: vec![],
        value: vec![0xff, 0xee],
    });
    let bytes = block.encode();
    let mut expected = vec![9u8; 32];
    expected.extend_from_slice(&[1, 2, 3, 4, 5, 6, 7, 8, 0x0a, 0x0b]);
    expected.extend_from_slice(&[0, 0, 0, 0, 0, 0, 0, 1, b'p']);
    expected.extend_from_slice(&[0, 0, 0, 0, 0, 0, 0, 0]);
    expected.extend_from_slice(&[0, 0, 0, 0, 0, 0, 0, 2, 0xff, 0xee]);
    assert_eq!(bytes, expected);
    assert_eq!(block.size() as usize, expected.len());
    let hash = block.hash();
    assert_eq!(hash.len(), 32);
    assert_ne!(hash, bytes[..32].to_vec());
    assert_eq!(hash, sha2::Sha256::digest(&expected).to_vec());
}

#[test]
fn sealed_replay_holds_only_sealed_blocks() {
    let mut chain = BlockChain::new();
    for i in 0..3u64 {
        chain.append(mutation(i, 600_000));
        chain.commit();
    }
    assert_eq!(chain.latest(), 1);
    let sealed = chain.replay_sealed();
    assert_eq!(sealed.len(), 2);
    assert_eq!(chain.replay().len(), 3);
}
