use openssl::hash::MessageDigest;
use openssl::pkey::{PKey, Private};
use openssl::sign::Signer;
use std::time::Instant;
use streamlet::encoding::to_hex;
use streamlet::node::{epoch_at, leader_of_epoch, quorum};
use streamlet::{Block, Blockchain, ChainIndex, Node, NodeError, Vote};

const NODES: u64 = 3;

fn genesis() -> Block {
    let mut genesis_block = Block::new(String::from("⊥"), 0, vec![]);
    genesis_block.metadata.notarized = true;
    genesis_block.metadata.finalized = true;
    genesis_block
}

fn make_nodes() -> Vec<Node> {
    let genesis_time = Instant::now();
    (0..NODES).map(|id| Node::new(id, genesis_time, genesis()).unwrap()).collect()
}

fn keys(nodes: &[Node]) -> Vec<Vec<u8>> {
    nodes.iter().map(|n| n.public_key().unwrap()).collect()
}

fn sign_with(key: &PKey<Private>, msg: &[u8]) -> Vec<u8> {
    let mut signer = Signer::new(MessageDigest::sha256(), key).unwrap();
    signer.update(msg).unwrap();
    signer.sign_to_vec().unwrap()
}

fn broadcast(nodes: &mut Vec<Node>, from: usize, tx: &str) {
    let tx = String::from(tx);
    nodes[from].receive_transaction(tx.clone());
    let mut others: Vec<&mut Node> = Vec::new();
    let mut sender: Option<&mut Node> = None;
    for (i, n) in nodes.iter_mut().enumerate() {
        if i == from {
            sender = Some(n);
        } else {
            others.push(n);
        }
    }
    sender.unwrap().broadcast_transaction(others, tx);
}

fn leader(epoch: u64) -> usize {
    leader_of_epoch(epoch, NODES) as usize
}

/// One epoch: each node receives one of `txs`, the leader proposes, every node
/// votes and every vote reaches every node. Returns the proposal.
fn run_round(nodes: &mut Vec<Node>, epoch: u64, txs: [&str; 3]) -> Vote {
    for (i, tx) in txs.iter().enumerate() {
        broadcast(nodes, i, tx);
    }
    let keys = keys(nodes);
    let l = leader(epoch);
    assert!(nodes[l].is_leader_at(NODES, epoch));
    let (leader_key, proposal) = nodes[l].propose_block_at(epoch).unwrap();
    let mut votes = Vec::new();
    for n in nodes.iter_mut() {
        let v = n.receive_proposed_block_at(&leader_key, &proposal, NODES, epoch).unwrap().unwrap();
        votes.push(v);
    }
    for n in nodes.iter_mut() {
        for (i, v) in votes.iter().enumerate() {
            n.receive_vote(&keys[i], v, NODES as usize).unwrap();
        }
    }
    proposal
}

fn verify_outputs(nodes: &[Node]) {
    assert!(nodes[0].output() == nodes[1].output());
    assert!(nodes[1].output() == nodes[2].output());
}

fn txs_of(b: &Block) -> Vec<String> {
    b.txs.clone()
}

#[test]
fn single_clean_round() {
    let mut nodes = make_nodes();
    let proposal = run_round(&mut nodes, 1, ["tx0", "tx1", "tx2"]);
    let g = genesis();
    assert_eq!(proposal.block.h, g.digest());
    assert_eq!(proposal.block.e, 1);
    let mut txs = txs_of(&proposal.block);
    txs.sort();
    assert_eq!(txs, vec!["tx0", "tx1", "tx2"]);
    for n in &nodes {
        assert_eq!(n.node_blockchains.len(), 1);
        let b1 = &n.node_blockchains[0].blocks[0];
        assert!(b1 == &proposal.block);
        assert!(b1.metadata.notarized);
        assert!(!b1.metadata.finalized);
        assert_eq!(b1.metadata.votes.len(), 3);
        assert_eq!(n.output().blocks.len(), 1);
        assert!(n.output().blocks[0] == g);
    }
    verify_outputs(&nodes);
}

#[test]
fn protocol_execution() {
    let mut nodes = make_nodes();
    let b1 = run_round(&mut nodes, 1, ["tx0", "tx1", "tx2"]);
    verify_outputs(&nodes);
    let b2 = run_round(&mut nodes, 2, ["tx4", "tx5", "tx6"]);
    verify_outputs(&nodes);
    assert_eq!(b2.block.h, b1.block.digest());
    let mut t2 = txs_of(&b2.block);
    t2.sort();
    assert_eq!(t2, vec!["tx4", "tx5", "tx6"]);
    for n in &nodes {
        assert_eq!(n.output().blocks.len(), 1);
    }
    let b3 = run_round(&mut nodes, 3, ["tx7", "tx8", "tx9"]);
    verify_outputs(&nodes);
    for n in &nodes {
        let canon = &n.output().blocks;
        assert_eq!(canon.len(), 3);
        assert!(canon[0] == genesis());
        assert!(canon[1] == b1.block);
        assert!(canon[2] == b2.block);
        for (i, b) in canon.iter().enumerate() {
            assert!(b.metadata.finalized);
            assert!(b.metadata.notarized);
            if i > 0 {
                assert_eq!(b.h, canon[i - 1].digest());
                assert!(b.e > canon[i - 1].e);
            }
        }
        assert_eq!(n.node_blockchains.len(), 1);
        let fork = &n.node_blockchains[0].blocks;
        assert_eq!(fork.len(), 1);
        assert!(fork[0] == b3.block);
        assert_eq!(fork[0].h, canon[2].digest());
        assert!(fork[0].metadata.notarized);
        assert!(!fork[0].metadata.finalized);
        let mut pool = n.unconfirmed_transactions.clone();
        pool.sort();
        assert_eq!(pool, vec!["tx7", "tx8", "tx9"]);
    }
}

#[test]
fn duplicate_vote_is_kept_once() {
    let mut nodes = make_nodes();
    let keys = keys(&nodes);
    let l = leader(1);
    let (leader_key, proposal) = nodes[l].propose_block_at(1).unwrap();
    let v0 = nodes[0].receive_proposed_block_at(&leader_key, &proposal, NODES, 1).unwrap().unwrap();
    nodes[1].receive_proposed_block_at(&leader_key, &proposal, NODES, 1).unwrap().unwrap();
    nodes[1].receive_vote(&keys[0], &v0, 3).unwrap();
    nodes[1].receive_vote(&keys[0], &v0, 3).unwrap();
    let votes = &nodes[1].node_blockchains[0].blocks[0].metadata.votes;
    assert_eq!(votes.len(), 1);
    assert_eq!(votes[0].id, 0);
    assert!(votes[0] == v0);
}

#[test]
fn redelivered_vote_changes_nothing() {
    let mut nodes = make_nodes();
    let proposal = run_round(&mut nodes, 1, ["tx0", "tx1", "tx2"]);
    let keys = keys(&nodes);
    let v = nodes[2].vote_block(&proposal.block).unwrap();
    assert!(v.is_none());
    let before_votes = nodes[0].node_blockchains[0].blocks[0].metadata.votes.len();
    let again = Vote::new(
        nodes[0].node_blockchains[0].blocks[0].metadata.votes[1].vote.clone(),
        proposal.block.copy_identity(),
        nodes[0].node_blockchains[0].blocks[0].metadata.votes[1].id,
    );
    let signer = again.id as usize;
    nodes[0].receive_vote(&keys[signer], &again, 3).unwrap();
    assert_eq!(nodes[0].node_blockchains[0].blocks[0].metadata.votes.len(), before_votes);
    assert!(nodes[0].node_blockchains[0].blocks[0].metadata.notarized);
    assert_eq!(nodes[0].node_blockchains.len(), 1);
    assert_eq!(nodes[0].output().blocks.len(), 1);
}

#[test]
fn redelivered_proposal_abstains() {
    let mut nodes = make_nodes();
    let l = leader(1);
    let (leader_key, proposal) = nodes[l].propose_block_at(1).unwrap();
    let first = nodes[0].receive_proposed_block_at(&leader_key, &proposal, NODES, 1).unwrap();
    assert!(first.is_some());
    let second = nodes[0].receive_proposed_block_at(&leader_key, &proposal, NODES, 1).unwrap();
    assert!(second.is_none());
    assert_eq!(nodes[0].node_blockchains.len(), 1);
    assert_eq!(nodes[0].node_blockchains[0].blocks.len(), 1);
}

#[test]
fn wrong_leader_is_refused() {
    let mut nodes = make_nodes();
    let l = leader(1);
    let forger = (l + 1) % 3;
    let (key, proposal) = nodes[forger].propose_block_at(1).unwrap();
    let r = nodes[0].receive_proposed_block_at(&key, &proposal, NODES, 1);
    assert_eq!(r.unwrap_err(), NodeError::WrongLeader);
    assert_eq!(nodes[0].node_blockchains.len(), 0);
}

#[test]
fn bad_signature_is_refused() {
    let mut nodes = make_nodes();
    let l = leader(1);
    let other = (l + 1) % 3;
    let (_, proposal) = nodes[l].propose_block_at(1).unwrap();
    let wrong_key = nodes[other].public_key().unwrap();
    let r = nodes[0].receive_proposed_block_at(&wrong_key, &proposal, NODES, 1);
    assert_eq!(r.unwrap_err(), NodeError::BadSignature);
    assert_eq!(nodes[0].node_blockchains.len(), 0);
}

#[test]
fn bad_vote_signature_is_refused() {
    let mut nodes = make_nodes();
    let l = leader(1);
    let (leader_key, proposal) = nodes[l].propose_block_at(1).unwrap();
    let v0 = nodes[0].receive_proposed_block_at(&leader_key, &proposal, NODES, 1).unwrap().unwrap();
    let wrong_key = nodes[1].public_key().unwrap();
    assert_eq!(nodes[0].receive_vote(&wrong_key, &v0, 3).unwrap_err(), NodeError::BadSignature);
    assert_eq!(nodes[0].node_blockchains[0].blocks[0].metadata.votes.len(), 0);
}

#[test]
fn unknown_parent_is_refused() {
    let mut nodes = make_nodes();
    let block = Block::new(String::from("no-such-parent"), 1, vec![String::from("tx0")]);
    assert_eq!(nodes[0].find_extended_blockchain_index(&block).unwrap_err(), NodeError::UnknownParent);
    let l = leader(1);
    let sig = sign_with(&nodes[l].keypair, &block.signature_encode());
    let key = nodes[l].public_key().unwrap();
    let proposal = Vote::new(sig, block, l as u64);
    let r = nodes[0].receive_proposed_block_at(&key, &proposal, NODES, 1);
    assert_eq!(r.unwrap_err(), NodeError::UnknownParent);
    assert_eq!(nodes[0].node_blockchains.len(), 0);
}

#[test]
fn stale_epoch_is_refused() {
    let mut nodes = make_nodes();
    let block = Block::new(genesis().digest(), 0, vec![]);
    assert_eq!(nodes[0].find_extended_blockchain_index(&block).unwrap_err(), NodeError::UnknownParent);
}

#[test]
fn vote_for_unknown_block_is_refused() {
    let mut nodes = make_nodes();
    let block = Block::new(String::from("elsewhere"), 4, vec![]);
    let sig = sign_with(&nodes[1].keypair, &block.signature_encode());
    let key = nodes[1].public_key().unwrap();
    let v = Vote::new(sig, block, 1);
    assert!(nodes[0].find_block(&v.block).is_none());
    assert_eq!(nodes[0].receive_vote(&key, &v, 3).unwrap_err(), NodeError::UnknownBlock);
    assert_eq!(nodes[0].node_blockchains.len(), 0);
}

#[test]
fn three_nodes_need_three_votes() {
    assert_eq!(quorum(3), 2);
    let mut nodes = make_nodes();
    let keys = keys(&nodes);
    let l = leader(1);
    let (leader_key, proposal) = nodes[l].propose_block_at(1).unwrap();
    let mut votes = Vec::new();
    for n in nodes.iter_mut() {
        votes.push(n.receive_proposed_block_at(&leader_key, &proposal, NODES, 1).unwrap().unwrap());
    }
    nodes[0].receive_vote(&keys[0], &votes[0], 3).unwrap();
    nodes[0].receive_vote(&keys[1], &votes[1], 3).unwrap();
    assert!(!nodes[0].node_blockchains[0].blocks[0].metadata.notarized);
    nodes[0].receive_vote(&keys[2], &votes[2], 3).unwrap();
    assert!(nodes[0].node_blockchains[0].blocks[0].metadata.notarized);
}

#[test]
fn quorum_values() {
    assert_eq!(quorum(0), 0);
    assert_eq!(quorum(1), 0);
    assert_eq!(quorum(4), 2);
    assert_eq!(quorum(6), 4);
    assert_eq!(quorum(7), 4);
    assert_eq!(quorum(usize::MAX), (2 * (usize::MAX as u128) / 3) as usize);
}

#[test]
fn empty_proposal_is_legal() {
    let nodes = make_nodes();
    let l = leader(1);
    let (_, proposal) = nodes[l].propose_block_at(1).unwrap();
    assert!(proposal.block.txs.is_empty());
    assert_eq!(proposal.id, l as u64);
}

#[test]
fn first_block_names_genesis() {
    let mut nodes = make_nodes();
    broadcast(&mut nodes, 0, "tx0");
    let l = leader(1);
    let (_, proposal) = nodes[l].propose_block_at(1).unwrap();
    assert_eq!(proposal.block.h, genesis().digest());
    assert!(proposal.block.e > 0);
    assert_eq!(proposal.block.txs, vec!["tx0"]);
}

#[test]
fn proposals_skip_transactions_already_proposed() {
    let mut nodes = make_nodes();
    broadcast(&mut nodes, 0, "tx0");
    broadcast(&mut nodes, 1, "tx1");
    let l = leader(1);
    let (key, proposal) = nodes[l].propose_block_at(1).unwrap();
    nodes[0].receive_proposed_block_at(&key, &proposal, NODES, 1).unwrap();
    broadcast(&mut nodes, 2, "tx2");
    assert_eq!(nodes[0].get_unproposed_transactions(), vec!["tx2"]);
}

#[test]
fn vote_without_notarized_prefix_abstains() {
    let mut nodes = make_nodes();
    let l1 = leader(1);
    let (k1, p1) = nodes[l1].propose_block_at(1).unwrap();
    nodes[0].receive_proposed_block_at(&k1, &p1, NODES, 1).unwrap();
    let b2 = Block::new(p1.block.digest(), 2, vec![String::from("tx9")]);
    assert_eq!(nodes[0].find_extended_blockchain_index(&b2).unwrap(), ChainIndex::Fork(0));
    assert!(nodes[0].vote_block(&b2).unwrap().is_none());
    assert_eq!(nodes[0].node_blockchains[0].blocks.len(), 2);
    assert!(!nodes[0].extends_notarized_blockchain(&nodes[0].node_blockchains[0]));
}

#[test]
fn longest_notarized_chain_defaults_to_canonical() {
    let nodes = make_nodes();
    let c = nodes[0].find_longest_notarized_chain();
    assert!(*c == *nodes[0].output());
}

#[test]
fn blockchain_basics() {
    let g = genesis();
    let mut chain = Blockchain::new(g);
    assert!(chain.is_notarized());
    let b = Block::new(genesis().digest(), 1, vec![]);
    chain.add_block(b);
    assert_eq!(chain.blocks.len(), 2);
    assert!(!chain.is_notarized());
    assert_eq!(chain.tip().e, 1);
    assert_eq!(chain.root().e, 0);
}

#[test]
fn block_equality_ignores_metadata() {
    let a = genesis();
    let b = Block::new(String::from("⊥"), 0, vec![]);
    assert!(a == b);
    let c = Block::new(String::from("⊥"), 1, vec![]);
    assert!(a != c);
    let d = Block::new(String::from("⊥"), 0, vec![String::from("t")]);
    assert!(a != d);
}

#[test]
fn signature_encoding_is_length_delimited() {
    let b = Block::new(String::from("ab"), 1, vec![String::from("x")]);
    let expected: Vec<u8> = vec![
        0, 0, 0, 0, 0, 0, 0, 2, b'a', b'b', 0, 0, 0, 0, 0, 0, 0, 1, 0, 0, 0, 0, 0, 0, 0, 1, 0, 0, 0,
        0, 0, 0, 0, 1, b'x',
    ];
    assert_eq!(b.signature_encode(), expected);
}

#[test]
fn digest_is_hex_sha256_of_encoding() {
    let b = Block::new(String::from("ab"), 7, vec![String::from("x"), String::from("yz")]);
    let d = openssl::sha::sha256(&b.signature_encode());
    let expected: String = d.iter().map(|x| format!("{:02x}", x)).collect();
    assert_eq!(b.digest(), expected);
    assert_eq!(b.digest().len(), 64);
}

#[test]
fn hex_rendering() {
    assert_eq!(to_hex(&vec![0x0f, 0xa0, 0x00, 0xff]), "0fa000ff");
    assert_eq!(to_hex(&vec![]), "");
}

#[test]
fn leader_is_sha256_of_epoch_modulo_count() {
    for epoch in [0u64, 1, 2, 3, 1000] {
        let d = openssl::sha::sha256(&epoch.to_be_bytes());
        let mut first = [0u8; 8];
        first.copy_from_slice(&d[..8]);
        assert_eq!(leader_of_epoch(epoch, 3), u64::from_be_bytes(first) % 3);
        assert_eq!(leader_of_epoch(epoch, 7), u64::from_be_bytes(first) % 7);
    }
}

#[test]
fn epochs_last_ten_seconds() {
    assert_eq!(epoch_at(0), 0);
    assert_eq!(epoch_at(9), 0);
    assert_eq!(epoch_at(10), 1);
    assert_eq!(epoch_at(25), 2);
}

#[test]
fn metadata_starts_fresh() {
    let m = streamlet::Metadata::new();
    assert!(m.votes.is_empty());
    assert!(!m.notarized);
    assert!(!m.finalized);
}

#[test]
fn vote_fields() {
    let b = Block::new(String::from("p"), 3, vec![]);
    let v = Vote::new(vec![9, 8], b, 4);
    assert_eq!(v.vote, vec![9, 8]);
    assert_eq!(v.id, 4);
    assert_eq!(v.block.e, 3);
    let w = v.copy();
    assert!(w == v);
    let other = Vote::new(vec![9, 7], Block::new(String::from("p"), 3, vec![]), 4);
    assert!(other != v);
}
