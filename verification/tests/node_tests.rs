use toychain::block::Block;
use toychain::errors::ChainError;
use toychain::node::{miner_address, Node, PeerStatus};
use toychain::payload::{decode_payload, encode_payload, BlockPayload, Transaction};
use toychain::pow::proof_of_work;

fn tx(from: &str, to: &str, amount: i32) -> Transaction {
    Transaction { from: from.to_string(), to: to.to_string(), amount }
}

#[test]
fn genesis_invariant() {
    let node = Node::new(1234);
    let chain = node.chain_snapshot();
    assert_eq!(chain.len(), 1);
    assert_eq!(chain[0].index, 0);
    assert_eq!(chain[0].previous_hash, "0");
    assert_eq!(chain[0].timestamp, 1234);
    let genesis = decode_payload(&chain[0].data).unwrap();
    assert_eq!(genesis.proof_of_work, 9);
    assert!(genesis.transactions.is_empty());
}

#[test]
fn puzzle_validity() {
    assert_eq!(proof_of_work(9).unwrap(), 18);
    assert_eq!(proof_of_work(1).unwrap(), 9);
    for last in [2u64, 5, 7, 9, 18, 1000] {
        let v = proof_of_work(last).unwrap();
        assert!(v > last);
        assert_eq!(v % 9, 0);
        assert_eq!(v % last, 0);
        for w in last + 1..v {
            assert!(!(w % 9 == 0 && w % last == 0));
        }
    }
}

#[test]
fn puzzle_precondition() {
    assert_eq!(proof_of_work(0).unwrap_err(), ChainError::InvalidProof);
}

#[test]
fn mining_monotonicity() {
    let mut node = Node::new(10);
    for k in 1..=3u64 {
        let b = node.mine(10 + k).unwrap();
        assert_eq!(b.index as u64, k);
        assert_eq!(b.timestamp, 10 + k);
    }
    let chain = node.chain_snapshot();
    assert_eq!(chain.len(), 4);
    for i in 0..chain.len() {
        assert_eq!(chain[i].index, i as i32);
        if i > 0 {
            assert_eq!(chain[i].previous_hash, chain[i - 1].hash);
        }
    }
}

#[test]
fn reward_inclusion() {
    let mut node = Node::new(0);
    node.submit_transaction(tx("alice", "bob", 5));
    node.submit_transaction(tx("bob", "carol", 2));
    let b = node.mine(99).unwrap();
    let payload = decode_payload(&b.data).unwrap();
    assert_eq!(payload.proof_of_work, 18);
    assert_eq!(payload.transactions.len(), 3);
    assert_eq!(payload.transactions[0].from, "alice");
    assert_eq!(payload.transactions[0].to, "bob");
    assert_eq!(payload.transactions[0].amount, 5);
    assert_eq!(payload.transactions[1].from, "bob");
    assert_eq!(payload.transactions[2].from, "network");
    assert_eq!(payload.transactions[2].to, miner_address());
    assert_eq!(payload.transactions[2].amount, 1);
    assert!(node.pending_snapshot().is_empty());
    // the next sealed block confirms only its own reward
    let b2 = node.mine(100).unwrap();
    let payload2 = decode_payload(&b2.data).unwrap();
    assert_eq!(payload2.proof_of_work, 36);
    assert_eq!(payload2.transactions.len(), 1);
    assert_eq!(payload2.transactions[0].from, "network");
}

#[test]
fn pool_drain_accounts_for_every_submission() {
    let mut node = Node::new(0);
    for k in 0..10 {
        node.submit_transaction(tx("s", "r", k));
    }
    assert_eq!(node.pending_snapshot().len(), 10);
    let b = node.mine(1).unwrap();
    let payload = decode_payload(&b.data).unwrap();
    assert_eq!(payload.transactions.len(), 11);
    for k in 0..10 {
        assert_eq!(payload.transactions[k].amount, k as i32);
    }
    assert!(node.pending_snapshot().is_empty());
}

#[test]
fn mine_rejects_corrupt_chain_state() {
    let mut node = Node::new(0);
    node.chain = vec![Block::new(0, 0, "not a payload", "0")];
    assert_eq!(node.mine(1).unwrap_err(), ChainError::CorruptChainState);
    assert_eq!(node.chain_snapshot().len(), 1);
}

#[test]
fn mine_rejects_undefined_puzzle() {
    let mut node = Node::new(0);
    let data = encode_payload(&BlockPayload { proof_of_work: 0, transactions: Vec::new() });
    node.chain = vec![Block::new(0, 0, &data, "0")];
    assert_eq!(node.mine(1).unwrap_err(), ChainError::InvalidProof);
    let too_big = encode_payload(&BlockPayload {
        proof_of_work: u64::MAX / 9 + 1,
        transactions: Vec::new(),
    });
    node.chain = vec![Block::new(0, 0, &too_big, "0")];
    assert_eq!(node.mine(1).unwrap_err(), ChainError::InvalidProof);
}

#[test]
fn peer_idempotence() {
    let mut node = Node::new(0);
    assert_eq!(node.add_peer(Some("h"), Some("1")).unwrap(), PeerStatus::Added);
    assert_eq!(node.add_peer(Some("h"), Some("1")).unwrap(), PeerStatus::AlreadyExists);
    let peers = node.peers_snapshot();
    assert_eq!(peers.len(), 1);
    assert_eq!(peers[0], "h:1");
}

#[test]
fn peer_host_defaults_to_localhost() {
    let mut node = Node::new(0);
    assert_eq!(node.add_peer(None, Some("7000")).unwrap(), PeerStatus::Added);
    assert_eq!(node.peers_snapshot()[0], "localhost:7000");
}

#[test]
fn peer_port_is_mandatory() {
    let mut node = Node::new(0);
    assert_eq!(node.add_peer(Some("h"), None).unwrap_err(), ChainError::MissingParameter);
    assert!(node.peers_snapshot().is_empty());
}

#[test]
fn submissions_keep_arrival_order() {
    let mut node = Node::new(0);
    node.submit_transaction(tx("a", "b", 1));
    node.submit_transaction(tx("a", "b", 2));
    let pending = node.pending_snapshot();
    assert_eq!(pending.len(), 2);
    assert_eq!(pending[0].amount, 1);
    assert_eq!(pending[1].amount, 2);
}
