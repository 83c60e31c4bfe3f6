use vstd::prelude::*;
use crate::encoding::encode_block;

verus! {

/// What a transaction carries: two account identifiers and an amount.
#[derive(Clone, Debug)]
pub struct TransactionData {
    pub from: String,
    pub to: String,
    pub amount: u32,
}

/// One transaction, copied by value into the block that includes it.
#[derive(Clone, Debug)]
pub struct Transaction {
    pub data: TransactionData,
}

/// The mathematical value of a transaction.
pub ghost struct TxView {
    pub from: Seq<char>,
    pub to: Seq<char>,
    pub amount: u32,
}

impl View for Transaction {
    type V = TxView;

    open spec fn view(&self) -> TxView {
        TxView { from: self.data.from@, to: self.data.to@, amount: self.data.amount }
    }
}

impl Transaction {
    pub fn new(from: String, to: String, amount: u32) -> (r: Transaction)
        ensures
            r@ == (TxView { from: from@, to: to@, amount }),
    {
        Transaction { data: TransactionData { from, to, amount } }
    }
}

/// One unit of the chain. `hash` and `nonce` stay absent until the block is mined.
#[derive(Debug)]
pub struct Block {
    pub hash: Option<[u8; 32]>,
    pub prev_hash: Option<[u8; 32]>,
    pub nonce: Option<u32>,
    pub transactions: Vec<Transaction>,
}

/// The mathematical value of a block.
pub ghost struct BlockView {
    pub hash: Option<Seq<u8>>,
    pub prev_hash: Option<Seq<u8>>,
    pub nonce: Option<u32>,
    pub transactions: Seq<TxView>,
}

pub open spec fn digest_view(d: Option<[u8; 32]>) -> Option<Seq<u8>> {
    match d {
        Some(h) => Some(h@),
        None => None,
    }
}

pub open spec fn txs_view(txs: Seq<Transaction>) -> Seq<TxView> {
    txs.map_values(|t: Transaction| t@)
}

impl View for Block {
    type V = BlockView;

    open spec fn view(&self) -> BlockView {
        BlockView {
            hash: digest_view(self.hash),
            prev_hash: digest_view(self.prev_hash),
            nonce: self.nonce,
            transactions: txs_view(self.transactions@),
        }
    }
}


/// The SHA-256 digest of a byte sequence.
pub uninterp spec fn sha256_of(bytes: Seq<u8>) -> Seq<u8>;

/// Relies on sha2::Sha256::digest: the SHA-256 digest of `bytes`, 32 bytes that
/// depend on the bytes alone.
#[verifier::external_body]
fn sha256(bytes: &Vec<u8>) -> (r: [u8; 32])
    ensures
        r@ == sha256_of(bytes@),
{
    <sha2::Sha256 as sha2::Digest>::digest(bytes.as_slice()).into()
}

/// Relies on rand::random: a nonce drawn from the thread-local generator over
/// the whole `u32` range; nothing is known of which one.
#[verifier::external_body]
fn random_nonce() -> (r: u32) {
    rand::random::<u32>()
}

/// The digest of a block: SHA-256 over its canonical encoding.
pub open spec fn block_digest(b: BlockView) -> Seq<u8> {
    sha256_of(encode_block(b))
}

/// The first `d` bytes of `h` are all zero.
pub open spec fn has_leading_zeros(h: Seq<u8>, d: nat) -> bool {
    d <= h.len() && forall|i: int| 0 <= i < d ==> h[i] == 0
}

/// A block is solved at difficulty `d` when it has a nonce, its stored digest is
/// the one computed from its own fields, and that digest starts with `d` zero bytes.
pub open spec fn is_solved(b: BlockView, d: nat) -> bool {
    &&& b.nonce is Some
    &&& b.hash == Some(block_digest(b))
    &&& has_leading_zeros(block_digest(b), d)
}

/// The digest of the genesis block: 32 zero bytes.
pub open spec fn genesis_hash() -> Seq<u8> {
    Seq::new(32, |i: int| 0u8)
}

/// The fixed genesis block: no predecessor, no nonce, no transactions.
pub open spec fn genesis_view() -> BlockView {
    BlockView { hash: Some(genesis_hash()), prev_hash: None, nonce: None, transactions: seq![] }
}

/// Whether the first `difficulty` bytes of `hash` are zero.
pub fn meets_difficulty(hash: &[u8; 32], difficulty: usize) -> (r: bool)
    ensures
        r == has_leading_zeros(hash@, difficulty as nat),
{
    if difficulty > 32 {
        return false;
    }
    let mut i: usize = 0;
    while i < difficulty
        invariant
            difficulty <= 32,
            hash@.len() == 32,
            i <= difficulty,
            forall|j: int| 0 <= j < i ==> hash@[j] == 0,
        decreases difficulty - i,
    {
        if hash[i] != 0 {
            return false;
        }
        i = i + 1;
    }
    true
}

/// Whether two digests are equal, byte for byte.
pub fn hashes_equal(a: &[u8; 32], b: &[u8; 32]) -> (r: bool)
    ensures
        r == (a@ == b@),
{
    let mut i: usize = 0;
    while i < 32
        invariant
            a@.len() == 32,
            b@.len() == 32,
            i <= 32,
            forall|j: int| 0 <= j < i ==> a@[j] == b@[j],
        decreases 32 - i,
    {
        if a[i] != b[i] {
            return false;
        }
        i = i + 1;
    }
    assert(a@ =~= b@);
    true
}

/// The genesis block that every chain starts from.
pub fn create_genesis_block() -> (r: Block)
    ensures
        r@ == genesis_view(),
{
    let r = Block { hash: Some([0u8; 32]), prev_hash: None, nonce: None, transactions: Vec::new() };
    assert(r@.hash->0 =~= genesis_hash());
    assert(r@.transactions =~= seq![]);
    r
}

impl Block {
    /// The digest computed from this block's own fields; the stored `hash` takes no part.
    pub fn calculate_hash(&self) -> (r: [u8; 32])
        ensures
            r@ == block_digest(self@),
    {
        let bytes = self.encode();
        sha256(&bytes)
    }

    /// Sets the nonce to `nonce` and the stored digest to the one that the block
    /// then has.
    pub fn apply_nonce(&mut self, nonce: u32)
        ensures
            final(self).nonce == Some(nonce),
            final(self).prev_hash == old(self).prev_hash,
            final(self).transactions@ == old(self).transactions@,
            final(self)@.hash == Some(block_digest(final(self)@)),
    {
        self.nonce = Some(nonce);
        let h = self.calculate_hash();
        self.hash = Some(h);
    }

    /// Draws a random nonce and sets the stored digest to match it.
    pub fn calculate_nonce_hash(&mut self)
        ensures
            final(self).nonce is Some,
            final(self).prev_hash == old(self).prev_hash,
            final(self).transactions@ == old(self).transactions@,
            final(self)@.hash == Some(block_digest(final(self)@)),
    {
        let nonce = random_nonce();
        self.apply_nonce(nonce);
    }

    /// Draws nonces until the digest starts with `difficulty` zero bytes, at most
    /// `max_attempts` times. Returns whether it succeeded; the block is then solved.
    pub fn mine(&mut self, difficulty: usize, max_attempts: u64) -> (solved: bool)
        ensures
            final(self).prev_hash == old(self).prev_hash,
            final(self).transactions@ == old(self).transactions@,
            solved ==> is_solved(final(self)@, difficulty as nat),
            difficulty == 0 && max_attempts > 0 ==> solved,
    {
        let mut attempts: u64 = 0;
        while attempts < max_attempts
            invariant
                self.prev_hash == old(self).prev_hash,
                self.transactions@ == old(self).transactions@,
                attempts <= max_attempts,
                difficulty == 0 && attempts > 0 ==> false,
            decreases max_attempts - attempts,
        {
            self.calculate_nonce_hash();
            attempts = attempts + 1;
            match self.hash {
                Some(h) => {
                    if meets_difficulty(&h, difficulty) {
                        return true;
                    }
                },
                None => {},
            }
        }
        false
    }
}


/// The digest is a function of `prev_hash`, `nonce` and the transactions alone:
/// blocks that agree on those get the same digest, each time it is computed.
pub proof fn lemma_digest_deterministic(a: BlockView, b: BlockView)
    requires
        a.prev_hash == b.prev_hash,
        a.nonce == b.nonce,
        a.transactions == b.transactions,
    ensures
        block_digest(a) == block_digest(b),
{
    assert(encode_block(a) == encode_block(b));
}

/// Replacing a block's stored digest leaves the digest computed from it unchanged.
pub proof fn lemma_digest_excludes_own_hash(b: BlockView, h: Option<Seq<u8>>)
    ensures
        block_digest(BlockView { hash: h, ..b }) == block_digest(b),
{
    lemma_digest_deterministic(BlockView { hash: h, ..b }, b);
}

} // verus!
