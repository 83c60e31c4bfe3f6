use vstd::prelude::*;
use crate::block::{
    block_digest, create_genesis_block, genesis_view, hashes_equal, is_solved, txs_view, Block,
    BlockView, Transaction, TxView,
};

verus! {

/// The difficulty that a chain made by `new` mines at, in leading zero bytes.
pub const DEFAULT_DIFFICULTY: usize = 2;

/// An ordered sequence of blocks anchored by the genesis block, with the pool of
/// transactions that wait for the next commit.
#[derive(Debug)]
pub struct Blockchain {
    pub pending_transactions: Vec<Transaction>,
    pub blocks: Vec<Block>,
    pub difficulty: usize,
}

/// The mathematical value of a chain.
pub ghost struct ChainView {
    pub pending: Seq<TxView>,
    pub blocks: Seq<BlockView>,
    pub difficulty: nat,
}

pub open spec fn blocks_view(blocks: Seq<Block>) -> Seq<BlockView> {
    blocks.map_values(|b: Block| b@)
}

impl View for Blockchain {
    type V = ChainView;

    open spec fn view(&self) -> ChainView {
        ChainView {
            pending: txs_view(self.pending_transactions@),
            blocks: blocks_view(self.blocks@),
            difficulty: self.difficulty as nat,
        }
    }
}

/// Block `i` carries both digests, its stored digest is the one computed from its
/// own fields, and its `prev_hash` is the digest of block `i - 1`.
pub open spec fn linked_at(blocks: Seq<BlockView>, i: int) -> bool {
    &&& blocks[i].hash is Some
    &&& blocks[i].prev_hash is Some
    &&& blocks[i].hash == Some(block_digest(blocks[i]))
    &&& blocks[i].prev_hash == blocks[i - 1].hash
}

/// Every block but the genesis block is linked; the genesis block is valid whatever
/// it holds.
pub open spec fn chain_valid(blocks: Seq<BlockView>) -> bool {
    forall|i: int| 0 < i < blocks.len() ==> #[trigger] linked_at(blocks, i)
}

impl Blockchain {
    /// A chain can commit once it holds at least its genesis block.
    pub open spec fn wf(&self) -> bool {
        self.blocks@.len() > 0
    }

    /// A chain with only the genesis block, no pending transactions, mining at
    /// the default difficulty.
    pub fn new() -> (r: Blockchain)
        ensures
            r@.blocks == seq![genesis_view()],
            r@.pending == Seq::<TxView>::empty(),
            r@.difficulty == DEFAULT_DIFFICULTY,
            r.wf(),
            chain_valid(r@.blocks),
    {
        Blockchain::with_difficulty(DEFAULT_DIFFICULTY)
    }

    /// A chain with only the genesis block, no pending transactions, mining at
    /// `difficulty` leading zero bytes.
    pub fn with_difficulty(difficulty: usize) -> (r: Blockchain)
        ensures
            r@.blocks == seq![genesis_view()],
            r@.pending == Seq::<TxView>::empty(),
            r@.difficulty == difficulty,
            r.wf(),
            chain_valid(r@.blocks),
    {
        let mut blocks: Vec<Block> = Vec::new();
        blocks.push(create_genesis_block());
        let r = Blockchain { pending_transactions: Vec::new(), blocks, difficulty };
        assert(r@.blocks =~= seq![genesis_view()]);
        assert(r@.pending =~= Seq::<TxView>::empty());
        r
    }

    /// Appends `transaction` to the pending pool.
    pub fn add_transaction(&mut self, transaction: Transaction)
        ensures
            final(self)@.pending == old(self)@.pending.push(transaction@),
            final(self)@.blocks == old(self)@.blocks,
            final(self).difficulty == old(self).difficulty,
    {
        self.pending_transactions.push(transaction);
        assert(final(self)@.pending =~= old(self)@.pending.push(transaction@));
    }

    /// The number of leading zero bytes a mined block's digest must have.
    pub fn get_difficulty(&self) -> (r: usize)
        ensures
            r == self.difficulty,
    {
        self.difficulty
    }

    /// Moves every pending transaction into a new block linked to the tip, and
    /// mines it with at most `max_attempts` nonces. On success the solved block is
    /// appended and the pool is left empty; otherwise the chain is left as it was,
    /// pending transactions included.
    pub fn try_mine_pending_transactions(&mut self, max_attempts: u64) -> (r: bool)
        requires
            old(self).wf(),
        ensures
            final(self).wf(),
            final(self).difficulty == old(self).difficulty,
            r ==> final(self)@.pending == Seq::<TxView>::empty(),
            r ==> final(self)@.blocks == old(self)@.blocks.push(final(self)@.blocks.last()),
            r ==> final(self)@.blocks.last().prev_hash == old(self)@.blocks.last().hash,
            r ==> final(self)@.blocks.last().transactions == old(self)@.pending,
            r ==> is_solved(final(self)@.blocks.last(), old(self).difficulty as nat),
            !r ==> final(self)@ == old(self)@,
            old(self).difficulty == 0 && max_attempts > 0 ==> r,
            r && chain_valid(old(self)@.blocks) && old(self)@.blocks.last().hash is Some
                ==> chain_valid(final(self)@.blocks),
    {
        let tip = self.blocks.len() - 1;
        let prev_hash = self.blocks[tip].hash;
        let mut transactions: Vec<Transaction> = Vec::new();
        std::mem::swap(&mut self.pending_transactions, &mut transactions);
        let mut block = Block { hash: None, prev_hash, nonce: None, transactions };
        if block.mine(self.difficulty, max_attempts) {
            self.blocks.push(block);
            assert(self@.blocks =~= old(self)@.blocks.push(block@));
            assert(self@.pending =~= Seq::<TxView>::empty());
            proof {
                if chain_valid(old(self)@.blocks) && old(self)@.blocks.last().hash is Some {
                    lemma_append_solved_keeps_valid(
                        old(self)@.blocks,
                        block@,
                        self.difficulty as nat,
                    );
                }
            }
            true
        } else {
            std::mem::swap(&mut self.pending_transactions, &mut block.transactions);
            assert(self@.pending =~= old(self)@.pending);
            false
        }
    }

    /// Commits the pending transactions: builds a block linked to the tip, mines
    /// it and appends it. Returns false only if `u64::MAX` nonces all fail, and
    /// then leaves the chain as it was.
    pub fn mine_pending_transactions(&mut self) -> (r: bool)
        requires
            old(self).wf(),
        ensures
            final(self).wf(),
            final(self).difficulty == old(self).difficulty,
            r ==> final(self)@.pending == Seq::<TxView>::empty(),
            r ==> final(self)@.blocks == old(self)@.blocks.push(final(self)@.blocks.last()),
            r ==> final(self)@.blocks.last().prev_hash == old(self)@.blocks.last().hash,
            r ==> final(self)@.blocks.last().transactions == old(self)@.pending,
            r ==> is_solved(final(self)@.blocks.last(), old(self).difficulty as nat),
            !r ==> final(self)@ == old(self)@,
            old(self).difficulty == 0 ==> r,
            r && chain_valid(old(self)@.blocks) && old(self)@.blocks.last().hash is Some
                ==> chain_valid(final(self)@.blocks),
    {
        self.try_mine_pending_transactions(u64::MAX)
    }

    /// Whether every block after the genesis block carries both digests, matches
    /// the digest computed from its own fields, and points at its predecessor's
    /// digest. Reads the chain only.
    pub fn is_valid(&self) -> (r: bool)
        ensures
            r == chain_valid(self@.blocks),
    {
        let mut i: usize = 1;
        while i < self.blocks.len()
            invariant
                1 <= i,
                i <= self.blocks@.len() || i == 1,
                forall|j: int| 0 < j < i && j < self@.blocks.len() ==> #[trigger] linked_at(self@.blocks, j),
            decreases self.blocks@.len() - i,
        {
            let block = &self.blocks[i];
            match (block.hash, block.prev_hash) {
                (Some(h), Some(p)) => {
                    let computed = block.calculate_hash();
                    if !hashes_equal(&h, &computed) {
                        assert(!linked_at(self@.blocks, i as int));
                        return false;
                    }
                    match self.blocks[i - 1].hash {
                        Some(q) => {
                            if !hashes_equal(&p, &q) {
                                assert(!linked_at(self@.blocks, i as int));
                                return false;
                            }
                        },
                        None => {
                            assert(!linked_at(self@.blocks, i as int));
                            return false;
                        },
                    }
                },
                _ => {
                    assert(!linked_at(self@.blocks, i as int));
                    return false;
                },
            }
            assert(linked_at(self@.blocks, i as int));
            i = i + 1;
        }
        true
    }
}


/// Appending a block that points at the tip's digest and is solved keeps a valid
/// chain valid, so a chain built by successive commits stays valid.
pub proof fn lemma_append_solved_keeps_valid(blocks: Seq<BlockView>, b: BlockView, d: nat)
    requires
        chain_valid(blocks),
        blocks.len() > 0,
        blocks.last().hash is Some,
        b.prev_hash == blocks.last().hash,
        is_solved(b, d),
    ensures
        chain_valid(blocks.push(b)),
{
    let c = blocks.push(b);
    assert forall|i: int| 0 < i < c.len() implies #[trigger] linked_at(c, i) by {
        if i < blocks.len() {
            assert(linked_at(blocks, i));
            assert(c[i] == blocks[i] && c[i - 1] == blocks[i - 1]);
        } else {
            assert(c[i] == b && c[i - 1] == blocks.last());
        }
    }
}

/// Pointing a block after the genesis block at anything but its predecessor's
/// digest makes the chain invalid.
pub proof fn lemma_relinked_block_breaks_chain(blocks: Seq<BlockView>, i: int, v: Seq<u8>)
    requires
        0 < i < blocks.len(),
        Some(v) != blocks[i - 1].hash,
    ensures
        !chain_valid(blocks.update(i, BlockView { prev_hash: Some(v), ..blocks[i] })),
{
    let c = blocks.update(i, BlockView { prev_hash: Some(v), ..blocks[i] });
    assert(!linked_at(c, i));
}

/// A chain that holds only its first block is valid, whatever that block holds.
pub proof fn lemma_genesis_only_valid(g: BlockView)
    ensures
        chain_valid(seq![g]),
{
}

} // verus!
