use vstd::prelude::*;

use crate::decimal::{decimal_u64, parse_u64};
use crate::error::{ErrorType, TCError};
use crate::txn::TxnId;

verus! {

/// A block is sealed once its encoded size reaches this many bytes.
pub const BLOCK_SIZE: u64 = 1000000;

/// The length of a block hash.
pub const HASH_LEN: usize = 32;

/// One recorded change: the transaction that made it, the path of the subject it changed,
/// and the encoded key and value.
pub struct Mutation {
    pub txn_id: TxnId,
    pub path: Vec<u8>,
    pub key: Vec<u8>,
    pub value: Vec<u8>,
}

/// A mutation as plain values.
pub struct MutationView {
    pub txn_id: TxnId,
    pub path: Seq<u8>,
    pub key: Seq<u8>,
    pub value: Seq<u8>,
}

impl View for Mutation {
    type V = MutationView;

    open spec fn view(&self) -> MutationView {
        MutationView { txn_id: self.txn_id, path: self.path@, key: self.key@, value: self.value@ }
    }
}

/// The predecessor hash of the first block: all zero.
pub open spec fn null_hash() -> Seq<u8> {
    Seq::new(32, |i: int| 0u8)
}

/// Names the SHA-256 digest of a byte string.
pub uninterp spec fn sha256_of(bytes: Seq<u8>) -> Seq<u8>;

/// Relies on sha2::Sha256::digest: the 32-byte SHA-256 digest of the input.
#[verifier::external_body]
fn sha256(bytes: &Vec<u8>) -> (r: Vec<u8>)
    ensures
        r@ == sha256_of(bytes@),
        r@.len() == 32,
{
    <sha2::Sha256 as sha2::Digest>::digest(bytes.as_slice()).to_vec()
}

/// A `u64` as eight bytes, most significant first.
pub open spec fn be_u64(n: u64) -> Seq<u8> {
    seq![
        (n >> 56u64) as u8,
        (n >> 48u64) as u8,
        (n >> 40u64) as u8,
        (n >> 32u64) as u8,
        (n >> 24u64) as u8,
        (n >> 16u64) as u8,
        (n >> 8u64) as u8,
        n as u8,
    ]
}

/// A `u16` as two bytes, most significant first.
pub open spec fn be_u16(n: u16) -> Seq<u8> {
    seq![(n >> 8u16) as u8, n as u8]
}

/// The encoding of a byte string: its length, then its bytes.
pub open spec fn framed(bytes: Seq<u8>) -> Seq<u8> {
    be_u64(bytes.len() as u64) + bytes
}

/// The encoding of one mutation: transaction, path, key, value.
pub open spec fn record(m: MutationView) -> Seq<u8> {
    be_u64(m.txn_id.spec_nanos()) + be_u16(m.txn_id.spec_nonce()) + framed(m.path) + framed(m.key)
        + framed(m.value)
}

/// The encoded length of one mutation.
pub open spec fn record_len(m: MutationView) -> nat {
    34 + m.path.len() + m.key.len() + m.value.len()
}

/// The encoding of a sequence of mutations, in order.
pub open spec fn records(ms: Seq<MutationView>) -> Seq<u8>
    decreases ms.len(),
{
    if ms.len() == 0 {
        Seq::empty()
    } else {
        records(ms.drop_last()) + record(ms.last())
    }
}

fn push_u64(out: &mut Vec<u8>, n: u64)
    ensures
        final(out)@ == old(out)@ + be_u64(n),
{
    out.push((n >> 56) as u8);
    out.push((n >> 48) as u8);
    out.push((n >> 40) as u8);
    out.push((n >> 32) as u8);
    out.push((n >> 24) as u8);
    out.push((n >> 16) as u8);
    out.push((n >> 8) as u8);
    out.push(n as u8);
    assert(final(out)@ =~= old(out)@ + be_u64(n));
}

fn push_bytes(out: &mut Vec<u8>, bytes: &Vec<u8>)
    ensures
        final(out)@ == old(out)@ + bytes@,
{
    let ghost start = out@;
    let mut i: usize = 0;
    while i < bytes.len()
        invariant
            i <= bytes@.len(),
            out@ == start + bytes@.subrange(0, i as int),
        decreases bytes@.len() - i,
    {
        out.push(bytes[i]);
        assert(out@ =~= start + bytes@.subrange(0, i + 1));
        i = i + 1;
    }
    assert(bytes@.subrange(0, i as int) =~= bytes@);
}

fn push_framed(out: &mut Vec<u8>, bytes: &Vec<u8>)
    ensures
        final(out)@ == old(out)@ + framed(bytes@),
{
    push_u64(out, bytes.len() as u64);
    push_bytes(out, bytes);
    assert(final(out)@ =~= old(out)@ + framed(bytes@));
}

impl Mutation {
    /// Appends the encoding of this mutation to `out`.
    pub fn encode_into(&self, out: &mut Vec<u8>)
        ensures
            final(out)@ == old(out)@ + record(self@),
    {
        let ghost start = out@;
        push_u64(out, self.txn_id.nanos());
        let nonce = self.txn_id.nonce();
        out.push((nonce >> 8) as u8);
        out.push(nonce as u8);
        push_framed(out, &self.path);
        push_framed(out, &self.key);
        push_framed(out, &self.value);
        assert(out@ =~= start + record(self@));
    }

    /// A copy of this mutation.
    pub fn duplicate(&self) -> (r: Mutation)
        ensures
            r@ == self@,
    {
        let r = Mutation {
            txn_id: self.txn_id,
            path: self.path.clone(),
            key: self.key.clone(),
            value: self.value.clone(),
        };
        r
    }
}

/// The length of the encoding of a mutation is its stated length.
pub proof fn lemma_record_len(m: MutationView)
    ensures
        record(m).len() == record_len(m),
{
}

/// A block of mutations, chained to its predecessor by the predecessor's hash.
pub struct ChainBlock {
    last_hash: Vec<u8>,
    mutations: Vec<Mutation>,
    size: u64,
}

/// A block as plain values.
pub struct ChainBlockView {
    pub last_hash: Seq<u8>,
    pub mutations: Seq<MutationView>,
}

/// The encoding of a block: the predecessor hash, then each mutation in order.
pub open spec fn encode(b: ChainBlockView) -> Seq<u8> {
    b.last_hash + records(b.mutations)
}

impl View for ChainBlock {
    type V = ChainBlockView;

    closed spec fn view(&self) -> ChainBlockView {
        ChainBlockView {
            last_hash: self.last_hash@,
            mutations: self.mutations@.map_values(|m: Mutation| m@),
        }
    }
}

impl ChainBlock {
    /// The recorded size matches the encoding.
    pub closed spec fn wf(&self) -> bool {
        &&& self.size == encode(self@).len()
        &&& self.last_hash@.len() == 32
    }

    /// An empty block that follows the block whose hash is `last_hash`.
    pub fn new(last_hash: Vec<u8>) -> (r: ChainBlock)
        requires
            last_hash@.len() == 32,
        ensures
            r.wf(),
            r@.last_hash == last_hash@,
            r@.mutations == Seq::<MutationView>::empty(),
    {
        let r = ChainBlock { last_hash, mutations: Vec::new(), size: 32 };
        assert(r@.mutations =~= Seq::<MutationView>::empty());
        assert(encode(r@) =~= r@.last_hash);
        r
    }

    /// Records one more mutation at the end of the block.
    pub fn append(&mut self, mutation: Mutation)
        requires
            old(self).wf(),
            encode(old(self)@).len() + record_len(mutation@) <= u64::MAX,
        ensures
            final(self).wf(),
            final(self)@.last_hash == old(self)@.last_hash,
            final(self)@.mutations == old(self)@.mutations.push(mutation@),
            encode(final(self)@).len() == encode(old(self)@).len() + record_len(mutation@),
    {
        let ghost before = self@;
        let len = 34 + mutation.path.len() as u64 + mutation.key.len() as u64
            + mutation.value.len() as u64;
        self.mutations.push(mutation);
        self.size = self.size + len;
        proof {
            assert(self@.mutations =~= before.mutations.push(mutation@));
            assert(self@.mutations.drop_last() =~= before.mutations);
            lemma_record_len(mutation@);
        }
    }

    /// The encoded size of the block, in bytes.
    pub fn size(&self) -> (r: u64)
        requires
            self.wf(),
        ensures
            r == encode(self@).len(),
    {
        self.size
    }

    /// The hash of the preceding block.
    pub fn last_hash(&self) -> (r: &Vec<u8>)
        ensures
            r@ == self@.last_hash,
    {
        &self.last_hash
    }

    /// The mutations of the block, in the order they were recorded.
    pub fn mutations(&self) -> (r: &Vec<Mutation>)
        ensures
            r@.map_values(|m: Mutation| m@) == self@.mutations,
    {
        &self.mutations
    }

    /// The encoding of the block.
    pub fn encode(&self) -> (r: Vec<u8>)
        ensures
            r@ == encode(self@),
    {
        let ghost ms = self@.mutations;
        let mut out: Vec<u8> = Vec::new();
        push_bytes(&mut out, &self.last_hash);
        let mut i: usize = 0;
        assert(ms.subrange(0, 0) =~= Seq::<MutationView>::empty());
        assert(out@ =~= self.last_hash@ + records(ms.subrange(0, 0)));
        while i < self.mutations.len()
            invariant
                i <= self.mutations@.len(),
                ms == self@.mutations,
                out@ == self.last_hash@ + records(ms.subrange(0, i as int)),
            decreases self.mutations@.len() - i,
        {
            self.mutations[i].encode_into(&mut out);
            assert(ms.subrange(0, i + 1).drop_last() =~= ms.subrange(0, i as int));
            assert(out@ =~= self.last_hash@ + records(ms.subrange(0, i + 1)));
            i = i + 1;
        }
        assert(ms.subrange(0, i as int) =~= ms);
        out
    }

    /// The SHA-256 digest of the block's encoding.
    pub fn hash(&self) -> (r: Vec<u8>)
        ensures
            r@ == sha256_of(encode(self@)),
            r@.len() == 32,
    {
        let bytes = self.encode();
        sha256(&bytes)
    }
}

/// The mutations of a run of blocks, block after block.
pub open spec fn flatten(blocks: Seq<ChainBlockView>) -> Seq<MutationView>
    decreases blocks.len(),
{
    if blocks.len() == 0 {
        Seq::empty()
    } else {
        flatten(blocks.drop_last()) + blocks.last().mutations
    }
}

/// Each block after the first names the hash of the encoding of the block before it, and the
/// first names the null hash.
pub open spec fn linked(blocks: Seq<ChainBlockView>) -> bool {
    &&& blocks.len() > 0 ==> blocks[0].last_hash == null_hash()
    &&& forall|i: int| 0 < i < blocks.len() ==> #[trigger] blocks[i].last_hash == sha256_of(
        encode(blocks[i - 1]),
    )
}

/// Every block but the last has reached the sealing size.
pub open spec fn sealed(blocks: Seq<ChainBlockView>) -> bool {
    forall|i: int| 0 <= i < blocks.len() - 1 ==> encode(#[trigger] blocks[i]).len() >= BLOCK_SIZE
}

/// An append-only log of mutations, in blocks. The last block is the only open one.
pub struct BlockChain {
    blocks: Vec<ChainBlock>,
    history: Ghost<Seq<MutationView>>,
}

impl BlockChain {
    /// The blocks as plain values, oldest first.
    pub closed spec fn spec_blocks(&self) -> Seq<ChainBlockView> {
        self.blocks@.map_values(|b: ChainBlock| b@)
    }

    /// Every mutation appended so far, in append order.
    pub closed spec fn history(&self) -> Seq<MutationView> {
        self.history@
    }

    /// The ordinal of the open block.
    pub open spec fn spec_latest(&self) -> nat {
        (self.spec_blocks().len() - 1) as nat
    }

    /// The encoded size of the open block.
    pub open spec fn open_size(&self) -> nat {
        encode(self.spec_blocks().last()).len()
    }

    pub closed spec fn wf(&self) -> bool {
        &&& self.blocks@.len() >= 1
        &&& self.blocks@.len() < usize::MAX
        &&& forall|i: int| 0 <= i < self.blocks@.len() ==> (#[trigger] self.blocks@[i]).wf()
        &&& linked(self.spec_blocks())
        &&& sealed(self.spec_blocks())
        &&& flatten(self.spec_blocks()) == self.history@
    }

    /// A chain of one empty block, which follows the null hash.
    pub fn new() -> (r: BlockChain)
        ensures
            r.wf(),
            r.history() == Seq::<MutationView>::empty(),
            r.spec_latest() == 0,
            r.open_size() == HASH_LEN,
    {
        let mut null: Vec<u8> = Vec::new();
        let mut i: usize = 0;
        while i < HASH_LEN
            invariant
                i <= HASH_LEN,
                null@ == Seq::new(i as nat, |j: int| 0u8),
            decreases HASH_LEN - i,
        {
            null.push(0u8);
            assert(null@ =~= Seq::new((i + 1) as nat, |j: int| 0u8));
            i = i + 1;
        }
        let block = ChainBlock::new(null);
        let mut blocks: Vec<ChainBlock> = Vec::new();
        blocks.push(block);
        let r = BlockChain { blocks, history: Ghost(Seq::empty()) };
        proof {
            let bs = r.spec_blocks();
            assert(bs.len() == 1);
            assert(bs.drop_last() =~= Seq::<ChainBlockView>::empty());
            assert(flatten(bs.drop_last()) == Seq::<MutationView>::empty());
            assert(bs[0] == r.blocks@[0]@);
            assert(flatten(bs) =~= Seq::<MutationView>::empty());
            assert(encode(bs[0]) =~= bs[0].last_hash);
        }
        r
    }

    /// Records a mutation in the open block.
    #[verifier::spinoff_prover]
    pub fn append(&mut self, mutation: Mutation)
        requires
            old(self).wf(),
            old(self).open_size() + record_len(mutation@) <= u64::MAX,
        ensures
            final(self).wf(),
            final(self).history() == old(self).history().push(mutation@),
            final(self).spec_latest() == old(self).spec_latest(),
            final(self).open_size() == old(self).open_size() + record_len(mutation@),
            final(self).spec_blocks().drop_last() == old(self).spec_blocks().drop_last(),
    {
        let ghost before = self.spec_blocks();
        let ghost m = mutation@;
        let mut block = self.blocks.pop().unwrap();
        block.append(mutation);
        self.blocks.push(block);
        proof {
            self.history@ = self.history@.push(m);
            let after = self.spec_blocks();
            assert(after.drop_last() =~= before.drop_last());
            assert(after.last().mutations == before.last().mutations.push(m));
            assert(after.last().last_hash == before.last().last_hash);
            assert(flatten(after) =~= flatten(before).push(m));
            assert forall|i: int| 0 < i < after.len() implies #[trigger] after[i].last_hash
                == sha256_of(encode(after[i - 1])) by {
                assert(before[i].last_hash == sha256_of(encode(before[i - 1])));
                if i < after.len() - 1 {
                    assert(after[i] == before[i]);
                }
                assert(after[i - 1] == before[i - 1]);
            }
            assert forall|i: int| 0 <= i < after.len() - 1 implies encode(
                #[trigger] after[i],
            ).len() >= BLOCK_SIZE by {
                assert(after[i] == before[i]);
            }
            assert(after[0].last_hash == before[0].last_hash);
        }
    }

    /// Seals the open block if it has reached the sealing size: a new open block then follows
    /// it, chained to it by its hash.
    #[verifier::spinoff_prover]
    pub fn commit(&mut self)
        requires
            old(self).wf(),
            old(self).spec_latest() + 2 < usize::MAX,
        ensures
            final(self).wf(),
            final(self).history() == old(self).history(),
            old(self).open_size() >= BLOCK_SIZE ==> {
                &&& final(self).spec_latest() == old(self).spec_latest() + 1
                &&& final(self).spec_blocks() == old(self).spec_blocks().push(
                    ChainBlockView {
                        last_hash: sha256_of(encode(old(self).spec_blocks().last())),
                        mutations: Seq::empty(),
                    },
                )
            },
            old(self).open_size() < BLOCK_SIZE ==> final(self).spec_blocks()
                == old(self).spec_blocks(),
    {
        let n = self.blocks.len();
        let size = self.blocks[n - 1].size();
        if size >= BLOCK_SIZE {
            let ghost before = self.spec_blocks();
            let ghost old_blocks = self.blocks@;
            let hash = self.blocks[n - 1].hash();
            let block = ChainBlock::new(hash);
            let ghost nb = block@;
            self.blocks.push(block);
            proof {
                let after = self.spec_blocks();
                assert(after =~= before.push(nb));
                lemma_seal(before, nb);
                assert forall|i: int| 0 <= i < self.blocks@.len() implies (
                #[trigger] self.blocks@[i]).wf() by {
                    if i < n {
                        assert(self.blocks@[i] == old_blocks[i]);
                    }
                }
            }
        }
    }

    /// The ordinal of the open block.
    pub fn latest(&self) -> (r: u64)
        requires
            self.wf(),
        ensures
            r == self.spec_latest(),
    {
        (self.blocks.len() - 1) as u64
    }

    /// The block at ordinal `i`.
    pub fn block(&self, i: usize) -> (r: &ChainBlock)
        requires
            self.wf(),
            i <= self.spec_latest(),
        ensures
            r@ == self.spec_blocks()[i as int],
            r.wf(),
    {
        &self.blocks[i]
    }

    /// Every mutation in the chain, sealed blocks first and the open block last, in the order
    /// they were appended.
    pub fn replay(&self) -> (r: Vec<Mutation>)
        requires
            self.wf(),
        ensures
            r@.map_values(|m: Mutation| m@) == self.history(),
    {
        let r = self.replay_blocks(self.blocks.len());
        assert(self.spec_blocks().take(self.spec_blocks().len() as int) =~= self.spec_blocks());
        r
    }

    /// The mutations of the sealed blocks, the durable history: every block before the open
    /// one, in order.
    pub fn replay_sealed(&self) -> (r: Vec<Mutation>)
        requires
            self.wf(),
        ensures
            r@.map_values(|m: Mutation| m@) == flatten(self.spec_blocks().drop_last()),
    {
        let r = self.replay_blocks(self.blocks.len() - 1);
        assert(self.spec_blocks().take(self.spec_blocks().len() - 1) =~= self.spec_blocks().drop_last());
        r
    }

    fn replay_blocks(&self, count: usize) -> (r: Vec<Mutation>)
        requires
            self.wf(),
            count <= self.spec_blocks().len(),
        ensures
            r@.map_values(|m: Mutation| m@) == flatten(self.spec_blocks().take(count as int)),
    {
        let ghost bs = self.spec_blocks();
        let mut out: Vec<Mutation> = Vec::new();
        let mut b: usize = 0;
        assert(bs.subrange(0, 0) =~= Seq::<ChainBlockView>::empty());
        assert(out@.map_values(|m: Mutation| m@) =~= flatten(bs.subrange(0, 0)));
        while b < count
            invariant
                count <= self.blocks@.len(),
                b <= count,
                bs == self.spec_blocks(),
                out@.map_values(|m: Mutation| m@) == flatten(bs.subrange(0, b as int)),
            decreases self.blocks@.len() - b,
        {
            let ms = self.blocks[b].mutations();
            let ghost start = out@.map_values(|m: Mutation| m@);
            let mut i: usize = 0;
            while i < ms.len()
                invariant
                    i <= ms@.len(),
                    out@.map_values(|m: Mutation| m@) == start + ms@.map_values(|m: Mutation| m@).subrange(0, i as int),
                decreases ms@.len() - i,
            {
                let m = ms[i].duplicate();
                let ghost prev = out@;
                out.push(m);
                proof {
                    let mv = ms@.map_values(|m: Mutation| m@);
                    assert(mv[i as int] == ms@[i as int]@);
                    assert(out@.map_values(|m: Mutation| m@) =~= prev.map_values(|m: Mutation| m@).push(m@));
                    assert(mv.subrange(0, i + 1) =~= mv.subrange(0, i as int).push(mv[i as int]));
                    assert(out@.map_values(|m: Mutation| m@) =~= start + mv.subrange(0, i + 1));
                }
                i = i + 1;
            }
            proof {
                assert(ms@.map_values(|m: Mutation| m@).subrange(0, i as int) =~= ms@.map_values(|m: Mutation| m@));
                assert(bs.subrange(0, b + 1).drop_last() =~= bs.subrange(0, b as int));
                assert(bs.subrange(0, b + 1).last() == bs[b as int]);
            }
            b = b + 1;
        }
        assert(bs.subrange(0, b as int) =~= bs.take(count as int));
        out
    }
}

proof fn lemma_seal(before: Seq<ChainBlockView>, next: ChainBlockView)
    requires
        before.len() > 0,
        linked(before),
        sealed(before),
        encode(before.last()).len() >= BLOCK_SIZE,
        next.last_hash == sha256_of(encode(before.last())),
        next.mutations == Seq::<MutationView>::empty(),
    ensures
        linked(before.push(next)),
        sealed(before.push(next)),
        flatten(before.push(next)) == flatten(before),
{
    let after = before.push(next);
    assert(after.drop_last() =~= before);
    assert(flatten(after) =~= flatten(before));
    assert forall|i: int| 0 < i < after.len() implies #[trigger] after[i].last_hash == sha256_of(
        encode(after[i - 1]),
    ) by {
        if i < before.len() {
            assert(before[i].last_hash == sha256_of(encode(before[i - 1])));
        }
    }
    assert forall|i: int| 0 <= i < after.len() - 1 implies encode(#[trigger] after[i]).len()
        >= BLOCK_SIZE by {
        if i < before.len() - 1 {
            assert(encode(before[i]).len() >= BLOCK_SIZE);
        }
    }
}

/// Replaying a chain gives back every mutation in append order: the blocks' mutations, block
/// after block, are exactly those appended; the first block follows the null hash and each
/// later one the hash of its predecessor; and every block before the open one is sealed.
pub proof fn lemma_replay(chain: &BlockChain)
    requires
        chain.wf(),
    ensures
        flatten(chain.spec_blocks()) == chain.history(),
        linked(chain.spec_blocks()),
        sealed(chain.spec_blocks()),
        chain.spec_blocks().len() == chain.spec_latest() + 1,
{
}

/// The greatest of the block ordinals that the ids spell, zero where there are none.
pub open spec fn max_ordinal(ids: Seq<Seq<u8>>) -> u64
    decreases ids.len(),
{
    if ids.len() == 0 {
        0
    } else {
        let rest = max_ordinal(ids.drop_last());
        let last = decimal_u64(ids.last())->Some_0;
        if last > rest { last } else { rest }
    }
}

/// The ordinal of the open block of a chain whose stored blocks have the given ids: the
/// greatest of them, zero where there are none. An id that is not a decimal `u64` is a bad
/// request.
pub fn latest_of(block_ids: &Vec<Vec<u8>>) -> (r: Result<u64, TCError>)
    ensures
        r is Ok <==> forall|i: int| 0 <= i < block_ids@.len() ==> decimal_u64(#[trigger] block_ids@[i]@) is Some,
        r matches Ok(m) ==> m == max_ordinal(block_ids@.map_values(|id: Vec<u8>| id@)),
        r is Err ==> r->Err_0.spec_code() == ErrorType::BadRequest,
{
    let ghost ids = block_ids@.map_values(|id: Vec<u8>| id@);
    let mut latest: u64 = 0;
    let mut i: usize = 0;
    assert(ids.subrange(0, 0) =~= Seq::<Seq<u8>>::empty());
    while i < block_ids.len()
        invariant
            i <= block_ids@.len(),
            ids == block_ids@.map_values(|id: Vec<u8>| id@),
            forall|j: int| 0 <= j < i ==> decimal_u64(#[trigger] block_ids@[j]@) is Some,
            latest == max_ordinal(ids.subrange(0, i as int)),
        decreases block_ids@.len() - i,
    {
        let id = &block_ids[i];
        match parse_u64(id.as_slice(), 0, id.len()) {
            None => {
                assert(id@.subrange(0, id@.len() as int) =~= id@);
                return Err(TCError::bad_request("block id must be a non-negative integer", "id"));
            },
            Some(n) => {
                assert(id@.subrange(0, id@.len() as int) =~= id@);
                assert(ids.subrange(0, i + 1).drop_last() =~= ids.subrange(0, i as int));
                assert(ids[i as int] == id@);
                if n > latest {
                    latest = n;
                }
            },
        }
        i = i + 1;
    }
    assert(ids.subrange(0, i as int) =~= ids);
    Ok(latest)
}

} // verus!
