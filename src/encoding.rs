use vstd::prelude::*;
use vstd::utf8::{decode_utf8, encode_utf8, encode_utf8_decode_utf8};
use crate::block::{Block, Transaction, TxView, BlockView};

verus! {

/// The four bytes of `n`, least significant first.
pub open spec fn u32_le(n: u32) -> Seq<u8> {
    seq![
        (n & 0xff) as u8,
        ((n >> 8u32) & 0xff) as u8,
        ((n >> 16u32) & 0xff) as u8,
        ((n >> 24u32) & 0xff) as u8,
    ]
}

/// The eight bytes of `n`, least significant first.
pub open spec fn u64_le(n: u64) -> Seq<u8> {
    seq![
        (n & 0xff) as u8,
        ((n >> 8u64) & 0xff) as u8,
        ((n >> 16u64) & 0xff) as u8,
        ((n >> 24u64) & 0xff) as u8,
        ((n >> 32u64) & 0xff) as u8,
        ((n >> 40u64) & 0xff) as u8,
        ((n >> 48u64) & 0xff) as u8,
        ((n >> 56u64) & 0xff) as u8,
    ]
}

/// A string: its UTF-8 length as eight bytes, then its UTF-8 bytes.
pub open spec fn encode_str(s: Seq<char>) -> Seq<u8> {
    u64_le(encode_utf8(s).len() as u64) + encode_utf8(s)
}

/// A transaction: `from`, `to`, then `amount`.
pub open spec fn encode_tx(t: TxView) -> Seq<u8> {
    encode_str(t.from) + encode_str(t.to) + u32_le(t.amount)
}

/// The transactions one after another, in order.
pub open spec fn encode_txs(ts: Seq<TxView>) -> Seq<u8>
    decreases ts.len(),
{
    if ts.len() == 0 {
        seq![]
    } else {
        encode_txs(ts.drop_last()) + encode_tx(ts.last())
    }
}

/// An optional digest: a zero byte when absent, else a one byte and the digest.
pub open spec fn encode_opt_digest(d: Option<Seq<u8>>) -> Seq<u8> {
    match d {
        None => seq![0u8],
        Some(h) => seq![1u8] + h,
    }
}

/// An optional nonce: a zero byte when absent, else a one byte and its four bytes.
pub open spec fn encode_opt_u32(n: Option<u32>) -> Seq<u8> {
    match n {
        None => seq![0u8],
        Some(v) => seq![1u8] + u32_le(v),
    }
}

/// The canonical encoding of a block: `prev_hash`, `nonce`, then the count of
/// transactions and the transactions. The block's own `hash` takes no part.
pub open spec fn encode_block(b: BlockView) -> Seq<u8> {
    encode_opt_digest(b.prev_hash) + encode_opt_u32(b.nonce) + u64_le(b.transactions.len() as u64)
        + encode_txs(b.transactions)
}

fn push_u32_le(out: &mut Vec<u8>, n: u32)
    ensures
        final(out)@ == old(out)@ + u32_le(n),
{
    out.push((n & 0xff) as u8);
    out.push(((n >> 8u32) & 0xff) as u8);
    out.push(((n >> 16u32) & 0xff) as u8);
    out.push(((n >> 24u32) & 0xff) as u8);
    assert(final(out)@ =~= old(out)@ + u32_le(n));
}

fn push_u64_le(out: &mut Vec<u8>, n: u64)
    ensures
        final(out)@ == old(out)@ + u64_le(n),
{
    out.push((n & 0xff) as u8);
    out.push(((n >> 8u64) & 0xff) as u8);
    out.push(((n >> 16u64) & 0xff) as u8);
    out.push(((n >> 24u64) & 0xff) as u8);
    out.push(((n >> 32u64) & 0xff) as u8);
    out.push(((n >> 40u64) & 0xff) as u8);
    out.push(((n >> 48u64) & 0xff) as u8);
    out.push(((n >> 56u64) & 0xff) as u8);
    assert(final(out)@ =~= old(out)@ + u64_le(n));
}

fn push_bytes(out: &mut Vec<u8>, bytes: &[u8])
    ensures
        final(out)@ == old(out)@ + bytes@,
{
    let mut i: usize = 0;
    while i < bytes.len()
        invariant
            i <= bytes@.len(),
            out@ == old(out)@ + bytes@.subrange(0, i as int),
        decreases bytes@.len() - i,
    {
        out.push(bytes[i]);
        i = i + 1;
        assert(out@ =~= old(out)@ + bytes@.subrange(0, i as int));
    }
    assert(bytes@.subrange(0, i as int) =~= bytes@);
}

fn push_str(out: &mut Vec<u8>, s: &String)
    ensures
        final(out)@ == old(out)@ + encode_str(s@),
{
    let bytes = s.as_str().as_bytes();
    push_u64_le(out, bytes.len() as u64);
    push_bytes(out, bytes);
    assert(final(out)@ =~= old(out)@ + encode_str(s@));
}

fn push_tx(out: &mut Vec<u8>, t: &Transaction)
    ensures
        final(out)@ == old(out)@ + encode_tx(t@),
{
    push_str(out, &t.data.from);
    push_str(out, &t.data.to);
    push_u32_le(out, t.data.amount);
    assert(final(out)@ =~= old(out)@ + encode_tx(t@));
}

fn push_opt_digest(out: &mut Vec<u8>, d: &Option<[u8; 32]>)
    ensures
        final(out)@ == old(out)@ + encode_opt_digest(crate::block::digest_view(*d)),
{
    match d {
        None => {
            out.push(0u8);
            assert(final(out)@ =~= old(out)@ + encode_opt_digest(crate::block::digest_view(*d)));
        },
        Some(h) => {
            out.push(1u8);
            push_bytes(out, h.as_slice());
            assert(final(out)@ =~= old(out)@ + encode_opt_digest(crate::block::digest_view(*d)));
        },
    }
}

fn push_opt_u32(out: &mut Vec<u8>, n: Option<u32>)
    ensures
        final(out)@ == old(out)@ + encode_opt_u32(n),
{
    match n {
        None => {
            out.push(0u8);
        },
        Some(v) => {
            out.push(1u8);
            push_u32_le(out, v);
        },
    }
    assert(final(out)@ =~= old(out)@ + encode_opt_u32(n));
}

impl Block {
    /// The canonical encoding of this block, which leaves out its own `hash`.
    pub fn encode(&self) -> (r: Vec<u8>)
        ensures
            r@ == encode_block(self@),
    {
        let mut out: Vec<u8> = Vec::new();
        push_opt_digest(&mut out, &self.prev_hash);
        push_opt_u32(&mut out, self.nonce);
        push_u64_le(&mut out, self.transactions.len() as u64);
        let mut i: usize = 0;
        while i < self.transactions.len()
            invariant
                i <= self.transactions@.len(),
                out@ == encode_opt_digest(self@.prev_hash) + encode_opt_u32(self.nonce) + u64_le(
                    self.transactions@.len() as u64,
                ) + encode_txs(self@.transactions.subrange(0, i as int)),
            decreases self.transactions@.len() - i,
        {
            let ghost before = out@;
            push_tx(&mut out, &self.transactions[i]);
            let ghost ts = self@.transactions.subrange(0, i + 1);
            assert(ts.drop_last() =~= self@.transactions.subrange(0, i as int));
            i = i + 1;
            assert(out@ =~= before + encode_tx(ts.last()));
        }
        assert(self@.transactions.subrange(0, i as int) =~= self@.transactions);
        out
    }
}


/// A transaction whose strings' lengths fit the eight-byte length fields.
pub open spec fn tx_encodable(t: TxView) -> bool {
    encode_utf8(t.from).len() < 0x1_0000_0000_0000_0000 && encode_utf8(t.to).len()
        < 0x1_0000_0000_0000_0000
}

/// A block whose field sizes fit the encoding: a digest has 32 bytes, and each
/// length fits in eight bytes.
pub open spec fn block_encodable(b: BlockView) -> bool {
    &&& (b.prev_hash matches Some(h) ==> h.len() == 32)
    &&& b.transactions.len() < 0x1_0000_0000_0000_0000
    &&& forall|i: int| 0 <= i < b.transactions.len() ==> tx_encodable(#[trigger] b.transactions[i])
}

proof fn lemma_split_equal(a1: Seq<u8>, r1: Seq<u8>, a2: Seq<u8>, r2: Seq<u8>)
    requires
        a1 + r1 == a2 + r2,
        a1.len() == a2.len(),
    ensures
        a1 == a2,
        r1 == r2,
{
    assert(a1 =~= (a1 + r1).subrange(0, a1.len() as int));
    assert(a2 =~= (a2 + r2).subrange(0, a2.len() as int));
    assert(r1 =~= (a1 + r1).subrange(a1.len() as int, (a1 + r1).len() as int));
    assert(r2 =~= (a2 + r2).subrange(a2.len() as int, (a2 + r2).len() as int));
}

proof fn lemma_u32_le_injective(x: u32, y: u32)
    requires
        u32_le(x) == u32_le(y),
    ensures
        x == y,
{
    assert(u32_le(x)[0] == u32_le(y)[0] && u32_le(x)[1] == u32_le(y)[1]);
    assert(u32_le(x)[2] == u32_le(y)[2] && u32_le(x)[3] == u32_le(y)[3]);
    assert(((x & 0xff) as u8 == (y & 0xff) as u8 && ((x >> 8u32) & 0xff) as u8 == ((y >> 8u32)
        & 0xff) as u8 && ((x >> 16u32) & 0xff) as u8 == ((y >> 16u32) & 0xff) as u8 && ((x
        >> 24u32) & 0xff) as u8 == ((y >> 24u32) & 0xff) as u8) ==> x == y) by (bit_vector);
}

proof fn lemma_u64_le_injective(x: u64, y: u64)
    requires
        u64_le(x) == u64_le(y),
    ensures
        x == y,
{
    assert(u64_le(x)[0] == u64_le(y)[0] && u64_le(x)[1] == u64_le(y)[1]);
    assert(u64_le(x)[2] == u64_le(y)[2] && u64_le(x)[3] == u64_le(y)[3]);
    assert(u64_le(x)[4] == u64_le(y)[4] && u64_le(x)[5] == u64_le(y)[5]);
    assert(u64_le(x)[6] == u64_le(y)[6] && u64_le(x)[7] == u64_le(y)[7]);
    assert(((x & 0xff) as u8 == (y & 0xff) as u8 && ((x >> 8u64) & 0xff) as u8 == ((y >> 8u64)
        & 0xff) as u8 && ((x >> 16u64) & 0xff) as u8 == ((y >> 16u64) & 0xff) as u8 && ((x
        >> 24u64) & 0xff) as u8 == ((y >> 24u64) & 0xff) as u8 && ((x >> 32u64) & 0xff) as u8
        == ((y >> 32u64) & 0xff) as u8 && ((x >> 40u64) & 0xff) as u8 == ((y >> 40u64) & 0xff)
        as u8 && ((x >> 48u64) & 0xff) as u8 == ((y >> 48u64) & 0xff) as u8 && ((x >> 56u64)
        & 0xff) as u8 == ((y >> 56u64) & 0xff) as u8) ==> x == y) by (bit_vector);
}

proof fn lemma_str_prefix(s1: Seq<char>, r1: Seq<u8>, s2: Seq<char>, r2: Seq<u8>)
    requires
        encode_str(s1) + r1 == encode_str(s2) + r2,
        encode_utf8(s1).len() < 0x1_0000_0000_0000_0000,
        encode_utf8(s2).len() < 0x1_0000_0000_0000_0000,
    ensures
        s1 == s2,
        r1 == r2,
{
    let n1 = encode_utf8(s1).len() as u64;
    let n2 = encode_utf8(s2).len() as u64;
    assert(encode_str(s1) + r1 =~= u64_le(n1) + (encode_utf8(s1) + r1));
    assert(encode_str(s2) + r2 =~= u64_le(n2) + (encode_utf8(s2) + r2));
    lemma_split_equal(u64_le(n1), encode_utf8(s1) + r1, u64_le(n2), encode_utf8(s2) + r2);
    lemma_u64_le_injective(n1, n2);
    lemma_split_equal(encode_utf8(s1), r1, encode_utf8(s2), r2);
    encode_utf8_decode_utf8(s1);
    encode_utf8_decode_utf8(s2);
}

proof fn lemma_tx_prefix(t1: TxView, r1: Seq<u8>, t2: TxView, r2: Seq<u8>)
    requires
        encode_tx(t1) + r1 == encode_tx(t2) + r2,
        tx_encodable(t1),
        tx_encodable(t2),
    ensures
        t1 == t2,
        r1 == r2,
{
    let q1 = encode_str(t1.to) + u32_le(t1.amount) + r1;
    let q2 = encode_str(t2.to) + u32_le(t2.amount) + r2;
    assert(encode_tx(t1) + r1 =~= encode_str(t1.from) + q1);
    assert(encode_tx(t2) + r2 =~= encode_str(t2.from) + q2);
    lemma_str_prefix(t1.from, q1, t2.from, q2);
    assert(q1 =~= encode_str(t1.to) + (u32_le(t1.amount) + r1));
    assert(q2 =~= encode_str(t2.to) + (u32_le(t2.amount) + r2));
    lemma_str_prefix(t1.to, u32_le(t1.amount) + r1, t2.to, u32_le(t2.amount) + r2);
    lemma_split_equal(u32_le(t1.amount), r1, u32_le(t2.amount), r2);
    lemma_u32_le_injective(t1.amount, t2.amount);
}

proof fn lemma_encode_txs_front(ts: Seq<TxView>)
    requires
        ts.len() > 0,
    ensures
        encode_txs(ts) == encode_tx(ts[0]) + encode_txs(ts.drop_first()),
    decreases ts.len(),
{
    if ts.len() > 1 {
        lemma_encode_txs_front(ts.drop_last());
        assert(ts.drop_last().drop_first() =~= ts.drop_first().drop_last());
        assert(ts.drop_last()[0] == ts[0]);
        assert(ts.drop_first().last() == ts.last());
        assert(encode_txs(ts) =~= encode_tx(ts[0]) + encode_txs(ts.drop_first()));
    } else {
        assert(ts.drop_last() =~= Seq::<TxView>::empty());
        assert(ts.drop_first() =~= Seq::<TxView>::empty());
        assert(encode_txs(ts) =~= encode_tx(ts[0]) + encode_txs(ts.drop_first()));
    }
}

proof fn lemma_txs_prefix(a: Seq<TxView>, r1: Seq<u8>, b: Seq<TxView>, r2: Seq<u8>)
    requires
        encode_txs(a) + r1 == encode_txs(b) + r2,
        a.len() == b.len(),
        forall|i: int| 0 <= i < a.len() ==> tx_encodable(#[trigger] a[i]),
        forall|i: int| 0 <= i < b.len() ==> tx_encodable(#[trigger] b[i]),
    ensures
        a == b,
        r1 == r2,
    decreases a.len(),
{
    if a.len() == 0 {
        assert(a =~= b);
        assert(encode_txs(a) + r1 =~= r1);
        assert(encode_txs(b) + r2 =~= r2);
    } else {
        lemma_encode_txs_front(a);
        lemma_encode_txs_front(b);
        let q1 = encode_txs(a.drop_first()) + r1;
        let q2 = encode_txs(b.drop_first()) + r2;
        assert(encode_txs(a) + r1 =~= encode_tx(a[0]) + q1);
        assert(encode_txs(b) + r2 =~= encode_tx(b[0]) + q2);
        assert(tx_encodable(a[0]) && tx_encodable(b[0]));
        lemma_tx_prefix(a[0], q1, b[0], q2);
        assert forall|i: int| 0 <= i < a.drop_first().len() implies tx_encodable(
            #[trigger] a.drop_first()[i],
        ) by {
            assert(tx_encodable(a[i + 1]));
        }
        assert forall|i: int| 0 <= i < b.drop_first().len() implies tx_encodable(
            #[trigger] b.drop_first()[i],
        ) by {
            assert(tx_encodable(b[i + 1]));
        }
        lemma_txs_prefix(a.drop_first(), r1, b.drop_first(), r2);
        assert(a =~= seq![a[0]] + a.drop_first());
        assert(b =~= seq![b[0]] + b.drop_first());
    }
}

/// Blocks with equal encodings agree on `prev_hash`, `nonce` and every
/// transaction, in order: the encoding loses nothing that the digest covers.
pub proof fn lemma_encoding_injective(a: BlockView, b: BlockView)
    requires
        encode_block(a) == encode_block(b),
        block_encodable(a),
        block_encodable(b),
    ensures
        a.prev_hash == b.prev_hash,
        a.nonce == b.nonce,
        a.transactions == b.transactions,
{
    let ra = encode_opt_u32(a.nonce) + u64_le(a.transactions.len() as u64) + encode_txs(
        a.transactions,
    );
    let rb = encode_opt_u32(b.nonce) + u64_le(b.transactions.len() as u64) + encode_txs(
        b.transactions,
    );
    assert(encode_block(a) =~= encode_opt_digest(a.prev_hash) + ra);
    assert(encode_block(b) =~= encode_opt_digest(b.prev_hash) + rb);
    let e = encode_block(a);
    assert(e[0] == (if a.prev_hash is Some { 1u8 } else { 0u8 }));
    assert(e[0] == (if b.prev_hash is Some { 1u8 } else { 0u8 }));
    lemma_split_equal(encode_opt_digest(a.prev_hash), ra, encode_opt_digest(b.prev_hash), rb);
    if let Some(ha) = a.prev_hash {
        let hb = b.prev_hash->0;
        assert(ha =~= encode_opt_digest(a.prev_hash).drop_first());
        assert(hb =~= encode_opt_digest(b.prev_hash).drop_first());
    }
    let sa = u64_le(a.transactions.len() as u64) + encode_txs(a.transactions);
    let sb = u64_le(b.transactions.len() as u64) + encode_txs(b.transactions);
    assert(ra =~= encode_opt_u32(a.nonce) + sa);
    assert(rb =~= encode_opt_u32(b.nonce) + sb);
    assert(ra[0] == (if a.nonce is Some { 1u8 } else { 0u8 }));
    assert(rb[0] == (if b.nonce is Some { 1u8 } else { 0u8 }));
    lemma_split_equal(encode_opt_u32(a.nonce), sa, encode_opt_u32(b.nonce), sb);
    if let Some(na) = a.nonce {
        let nb = b.nonce->0;
        assert(u32_le(na) =~= encode_opt_u32(a.nonce).drop_first());
        assert(u32_le(nb) =~= encode_opt_u32(b.nonce).drop_first());
        lemma_u32_le_injective(na, nb);
    }
    lemma_split_equal(
        u64_le(a.transactions.len() as u64),
        encode_txs(a.transactions),
        u64_le(b.transactions.len() as u64),
        encode_txs(b.transactions),
    );
    lemma_u64_le_injective(a.transactions.len() as u64, b.transactions.len() as u64);
    assert(encode_txs(a.transactions) + Seq::<u8>::empty() =~= encode_txs(a.transactions));
    assert(encode_txs(b.transactions) + Seq::<u8>::empty() =~= encode_txs(b.transactions));
    lemma_txs_prefix(a.transactions, Seq::empty(), b.transactions, Seq::empty());
}

} // verus!
