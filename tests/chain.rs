use powchain::block::{create_genesis_block, hashes_equal, meets_difficulty};
use powchain::{Block, Blockchain, Transaction};

fn tx(from: &str, to: &str, amount: u32) -> Transaction {
    Transaction::new(String::from(from), String::from(to), amount)
}

#[test]
fn one_commit_at_difficulty_one() {
    let mut chain = Blockchain::with_difficulty(1);
    chain.add_transaction(tx("a", "b", 5));
    assert!(chain.mine_pending_transactions());
    assert_eq!(chain.blocks.len(), 2);
    assert_eq!(chain.blocks[1].hash.unwrap()[0], 0);
    assert!(chain.pending_transactions.is_empty());
    assert!(chain.is_valid());
}

#[test]
fn tampered_amount_is_detected() {
    let mut chain = Blockchain::with_difficulty(1);
    chain.add_transaction(tx("a", "b", 5));
    assert!(chain.mine_pending_transactions());
    assert!(chain.is_valid());
    chain.blocks[1].transactions[0].data.amount = 6;
    assert!(!chain.is_valid());
}

#[test]
fn mined_block_meets_default_difficulty() {
    let mut chain = Blockchain::new();
    assert_eq!(chain.get_difficulty(), 2);
    chain.add_transaction(tx("rens", "betty", 10));
    assert!(chain.mine_pending_transactions());
    let block = &chain.blocks[1];
    let hash = block.hash.unwrap();
    assert_eq!(hash[0], 0);
    assert_eq!(hash[1], 0);
    assert_eq!(block.calculate_hash(), hash);
    assert!(block.nonce.is_some());
    assert_eq!(block.prev_hash, chain.blocks[0].hash);
    assert_eq!(block.transactions.len(), 1);
    assert_eq!(block.transactions[0].data.from, "rens");
}

#[test]
fn successive_commits_stay_linked() {
    let mut chain = Blockchain::with_difficulty(1);
    for k in 0..3u32 {
        chain.add_transaction(tx("a", "b", k));
        chain.add_transaction(tx("b", "c", k + 1));
        assert!(chain.mine_pending_transactions());
        assert!(chain.is_valid());
    }
    assert_eq!(chain.blocks.len(), 4);
    for i in 1..4 {
        assert_eq!(chain.blocks[i].prev_hash, chain.blocks[i - 1].hash);
    }
    chain.blocks[2].prev_hash = Some([7u8; 32]);
    assert!(!chain.is_valid());
}

#[test]
fn empty_commit_is_valid() {
    let mut chain = Blockchain::with_difficulty(1);
    assert!(chain.mine_pending_transactions());
    assert_eq!(chain.blocks.len(), 2);
    assert!(chain.blocks[1].transactions.is_empty());
    assert!(chain.is_valid());
}

#[test]
fn genesis_only_chain_is_valid() {
    let chain = Blockchain::new();
    assert_eq!(chain.blocks.len(), 1);
    assert!(chain.pending_transactions.is_empty());
    assert!(chain.is_valid());
    let mut chain = Blockchain::new();
    chain.blocks[0].hash = None;
    chain.blocks[0].nonce = Some(99);
    chain.blocks[0].prev_hash = Some([3u8; 32]);
    assert!(chain.is_valid());
}

#[test]
fn genesis_block_is_fixed() {
    let g = create_genesis_block();
    assert_eq!(g.hash, Some([0u8; 32]));
    assert_eq!(g.prev_hash, None);
    assert_eq!(g.nonce, None);
    assert!(g.transactions.is_empty());
}

#[test]
fn validation_is_idempotent() {
    let mut chain = Blockchain::with_difficulty(1);
    chain.add_transaction(tx("x", "y", 1));
    assert!(chain.mine_pending_transactions());
    let before = chain.blocks[1].hash;
    let first = chain.is_valid();
    let second = chain.is_valid();
    assert_eq!(first, second);
    assert_eq!(chain.blocks.len(), 2);
    assert_eq!(chain.blocks[1].hash, before);
    chain.blocks[1].hash = Some([1u8; 32]);
    assert!(!chain.is_valid());
    assert!(!chain.is_valid());
}

#[test]
fn missing_digest_is_invalid() {
    let mut chain = Blockchain::with_difficulty(1);
    assert!(chain.mine_pending_transactions());
    chain.blocks[1].hash = None;
    assert!(!chain.is_valid());
    let mut chain = Blockchain::with_difficulty(1);
    assert!(chain.mine_pending_transactions());
    chain.blocks[1].prev_hash = None;
    assert!(!chain.is_valid());
}

#[test]
fn failed_mining_keeps_pending() {
    let mut chain = Blockchain::with_difficulty(32);
    chain.add_transaction(tx("a", "b", 5));
    chain.add_transaction(tx("c", "d", 6));
    assert!(!chain.try_mine_pending_transactions(3));
    assert_eq!(chain.blocks.len(), 1);
    assert_eq!(chain.pending_transactions.len(), 2);
    assert_eq!(chain.pending_transactions[0].data.from, "a");
    assert_eq!(chain.pending_transactions[1].data.from, "c");
}

#[test]
fn difficulty_zero_mines_at_once() {
    let mut chain = Blockchain::with_difficulty(0);
    chain.add_transaction(tx("a", "b", 5));
    assert!(chain.try_mine_pending_transactions(1));
    assert_eq!(chain.blocks.len(), 2);
    assert!(chain.is_valid());
}

#[test]
fn add_transaction_appends_in_order() {
    let mut chain = Blockchain::new();
    chain.add_transaction(tx("a", "b", 1));
    chain.add_transaction(tx("b", "c", 2));
    assert_eq!(chain.pending_transactions.len(), 2);
    assert_eq!(chain.pending_transactions[1].data.amount, 2);
    assert_eq!(chain.blocks.len(), 1);
}

#[test]
fn difficulty_predicate() {
    let mut h = [0u8; 32];
    assert!(meets_difficulty(&h, 0));
    assert!(meets_difficulty(&h, 32));
    assert!(!meets_difficulty(&h, 33));
    h[2] = 1;
    assert!(meets_difficulty(&h, 2));
    assert!(!meets_difficulty(&h, 3));
}

#[test]
fn digest_equality() {
    let a = [5u8; 32];
    let mut b = [5u8; 32];
    assert!(hashes_equal(&a, &b));
    b[31] = 6;
    assert!(!hashes_equal(&a, &b));
}

#[test]
fn apply_nonce_sets_matching_digest() {
    let mut b = Block { hash: None, prev_hash: None, nonce: None, transactions: vec![tx("a", "b", 5)] };
    b.apply_nonce(42);
    assert_eq!(b.nonce, Some(42));
    assert_eq!(b.hash, Some(b.calculate_hash()));
    b.calculate_nonce_hash();
    assert!(b.nonce.is_some());
    assert_eq!(b.hash, Some(b.calculate_hash()));
}

#[test]
fn mine_at_difficulty_one() {
    let mut b = Block { hash: None, prev_hash: Some([9u8; 32]), nonce: None, transactions: vec![] };
    assert!(b.mine(1, u64::MAX));
    assert_eq!(b.hash.unwrap()[0], 0);
    assert_eq!(b.hash, Some(b.calculate_hash()));
    assert_eq!(b.prev_hash, Some([9u8; 32]));
}
