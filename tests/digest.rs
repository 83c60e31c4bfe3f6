use powchain::{Block, Transaction};
use sha2::Digest;

fn tx(from: &str, to: &str, amount: u32) -> Transaction {
    Transaction::new(String::from(from), String::from(to), amount)
}

fn sample() -> Block {
    Block {
        hash: None,
        prev_hash: Some([4u8; 32]),
        nonce: Some(77),
        transactions: vec![tx("alice", "bob", 300), tx("bob", "carol", 70000)],
    }
}

#[test]
fn encoding_layout() {
    let b = Block { hash: None, prev_hash: None, nonce: Some(1), transactions: vec![tx("a", "b", 5)] };
    let expected: Vec<u8> = vec![
        0, 1, 1, 0, 0, 0, 1, 0, 0, 0, 0, 0, 0, 0, 1, 0, 0, 0, 0, 0, 0, 0, b'a', 1, 0, 0, 0, 0, 0, 0,
        0, b'b', 5, 0, 0, 0,
    ];
    assert_eq!(b.encode(), expected);
    let g = Block { hash: Some([1u8; 32]), prev_hash: None, nonce: None, transactions: vec![] };
    assert_eq!(g.encode(), vec![0, 0, 0, 0, 0, 0, 0, 0, 0, 0]);
}

#[test]
fn encoding_matches_bincode() {
    let b = sample();
    let fields: Vec<((String, String, u32),)> = b
        .transactions
        .iter()
        .map(|t| ((t.data.from.clone(), t.data.to.clone(), t.data.amount),))
        .collect();
    let expected = bincode::serialize(&(b.prev_hash, b.nonce, fields)).unwrap();
    assert_eq!(b.encode(), expected);
}

#[test]
fn digest_is_sha256_of_encoding() {
    let b = sample();
    let expected: [u8; 32] = sha2::Sha256::digest(b.encode()).into();
    assert_eq!(b.calculate_hash(), expected);
    assert_ne!(b.calculate_hash().to_vec(), b.encode());
    let empty = Block { hash: None, prev_hash: None, nonce: None, transactions: vec![] };
    assert_eq!(empty.calculate_hash(), <[u8; 32]>::from(sha2::Sha256::digest([0u8; 10])));
}

#[test]
fn digest_is_deterministic() {
    let a = sample();
    let b = sample();
    assert_eq!(a.calculate_hash(), a.calculate_hash());
    assert_eq!(a.calculate_hash(), b.calculate_hash());
}

#[test]
fn digest_ignores_stored_digest() {
    let mut b = sample();
    let d = b.calculate_hash();
    b.hash = Some([0xAB; 32]);
    assert_eq!(b.calculate_hash(), d);
    b.hash = Some(d);
    assert_eq!(b.calculate_hash(), d);
}

#[test]
fn digest_changes_on_any_field() {
    let base = sample().calculate_hash();
    for bit in 0..8u32 {
        let mut b = sample();
        b.transactions[1].data.amount ^= 1 << bit;
        assert_ne!(b.calculate_hash(), base);
        let mut b = sample();
        b.transactions[0].data.amount ^= 1 << (bit + 8);
        assert_ne!(b.calculate_hash(), base);
    }
    for i in 0..5 {
        let mut b = sample();
        let mut bytes = b.transactions[0].data.from.clone().into_bytes();
        bytes[i] ^= 0x01;
        b.transactions[0].data.from = String::from_utf8(bytes).unwrap();
        assert_ne!(b.calculate_hash(), base);
    }
    for i in 0..5 {
        let mut b = sample();
        let mut bytes = b.transactions[1].data.to.clone().into_bytes();
        bytes[i] ^= 0x02;
        b.transactions[1].data.to = String::from_utf8(bytes).unwrap();
        assert_ne!(b.calculate_hash(), base);
    }
    for n in [0u32, 76, 78, u32::MAX] {
        let mut b = sample();
        b.nonce = Some(n);
        assert_ne!(b.calculate_hash(), base);
    }
    let mut b = sample();
    b.nonce = None;
    assert_ne!(b.calculate_hash(), base);
    for i in 0..32 {
        let mut b = sample();
        let mut p = b.prev_hash.unwrap();
        p[i] ^= 0x80;
        b.prev_hash = Some(p);
        assert_ne!(b.calculate_hash(), base);
    }
    let mut b = sample();
    b.prev_hash = None;
    assert_ne!(b.calculate_hash(), base);
    let mut b = sample();
    b.transactions.swap(0, 1);
    assert_ne!(b.calculate_hash(), base);
}
