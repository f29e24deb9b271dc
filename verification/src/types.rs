//! Blocks of the DAG, the references between them and the slots they fill.

use std::sync::Arc;

use vstd::prelude::*;
use vstd::std_specs::cmp::PartialEqSpec;

use crate::committee::{AuthorityIndex, Committee, Epoch};
use crate::hashing::{le_bytes, lemma_le_bytes, pow256, push_all, push_le, sha3_256, sha3_256_digest};
use crate::stable_sort::{lemma_sorted_by_rank, of_rank, sort_by_rank, sorted_by_rank};
use crate::text::{comma_joined, comma_joined_text, decimal, decimal_text, hex, hex_text};

verus! {

/// Round number of a block.
pub type Round = u32;

/// Block proposal timestamp in milliseconds.
pub type BlockTimestampMs = u64;

/// Length in bytes of a block digest.
pub const DIGEST_LENGTH: usize = 32;

/// Round 0 is genesis; real proposals start at round 1.
pub const GENESIS_ROUND: Round = 0;

/// 32-byte digest of a block.
#[derive(Clone, Copy, Eq, PartialOrd, Ord, Hash, Debug)]
pub struct BlockDigest(pub [u8; 32]);

impl PartialEq for BlockDigest {
    fn eq(&self, other: &Self) -> (r: bool) {
        let mut i: usize = 0;
        while i < 32
            invariant
                i <= 32,
                forall|j: int| 0 <= j < i ==> self.0[j] == other.0[j],
            decreases 32 - i,
        {
            if self.0[i] != other.0[i] {
                return false;
            }
            i += 1;
        }
        assert(self.0 =~= other.0);
        true
    }
}

impl vstd::std_specs::cmp::PartialEqSpecImpl for BlockDigest {
    open spec fn obeys_eq_spec() -> bool {
        true
    }

    open spec fn eq_spec(&self, other: &Self) -> bool {
        *self == *other
    }
}

impl Default for BlockDigest {
    fn default() -> (r: Self)
        ensures
            forall|i: int| 0 <= i < 32 ==> r.0[i] == 0,
    {
        BlockDigest([0u8; 32])
    }
}

impl BlockDigest {
    /// Whether this digest comes before `other` in byte order.
    pub open spec fn precedes(self, other: BlockDigest) -> bool {
        exists|i: int| #[trigger] self.first_less_at(other, i)
    }

    /// Whether the digests agree up to byte `i` and this one is smaller there.
    pub open spec fn first_less_at(self, other: BlockDigest, i: int) -> bool {
        &&& 0 <= i < 32
        &&& self.0[i] < other.0[i]
        &&& forall|j: int| 0 <= j < i ==> self.0[j] == other.0[j]
    }

    /// The rendered form: the first four bytes in hexadecimal.
    pub open spec fn text(self) -> Seq<char> {
        hex(self.0@.take(4))
    }

    /// Renders the first four bytes in hexadecimal.
    pub fn to_text(&self) -> (r: String)
        ensures
            r@ == self.text(),
    {
        let mut head: Vec<u8> = Vec::new();
        head.push(self.0[0]);
        head.push(self.0[1]);
        head.push(self.0[2]);
        head.push(self.0[3]);
        assert(head@ == self.0@.take(4));
        hex_text(head.as_slice())
    }
}

/// Where one reference stands relative to another.
#[derive(Clone, Copy, PartialEq, Eq, Structural, Debug)]
pub enum Placement {
    Before,
    Same,
    After,
}

/// Identifies a block by round, author and digest.
#[derive(Clone, Copy, Eq, PartialOrd, Ord, Hash, Debug)]
pub struct BlockRef {
    pub round: Round,
    pub author: AuthorityIndex,
    pub digest: BlockDigest,
}

impl PartialEq for BlockRef {
    fn eq(&self, other: &Self) -> (r: bool) {
        self.round == other.round && self.author == other.author && self.digest == other.digest
    }
}

impl vstd::std_specs::cmp::PartialEqSpecImpl for BlockRef {
    open spec fn obeys_eq_spec() -> bool {
        true
    }

    open spec fn eq_spec(&self, other: &Self) -> bool {
        *self == *other
    }
}

impl Default for BlockRef {
    fn default() -> (r: Self)
        ensures
            r.round == 0,
            r.author == AuthorityIndex(0),
            forall|i: int| 0 <= i < 32 ==> r.digest.0[i] == 0,
    {
        BlockRef::new(0, AuthorityIndex::default(), BlockDigest::default())
    }
}

impl BlockRef {
    pub fn new(round: Round, author: AuthorityIndex, digest: BlockDigest) -> (r: Self)
        ensures
            r == (BlockRef { round, author, digest }),
    {
        BlockRef { round, author, digest }
    }

    /// The order of references: by round, then author, then digest.
    pub open spec fn precedes(self, other: BlockRef) -> bool {
        ||| self.round < other.round
        ||| self.round == other.round && self.author.0 < other.author.0
        ||| self.round == other.round && self.author == other.author && self.digest.precedes(
            other.digest,
        )
    }

    /// The slot that this reference fills.
    pub open spec fn slot(self) -> Slot {
        Slot { round: self.round, authority: self.author }
    }

    /// Compares two references by round, then author, then digest.
    pub fn placement(&self, other: &BlockRef) -> (r: Placement)
        ensures
            r == Placement::Before <==> self.precedes(*other),
            r == Placement::Same <==> *self == *other,
            r == Placement::After <==> other.precedes(*self),
    {
        proof {
            lemma_precedes_irreflexive(*self);
            if self.precedes(*other) && other.precedes(*self) {
                lemma_precedes_transitive(*self, *other, *self);
            }
        }
        if self.round < other.round {
            return Placement::Before;
        }
        if self.round > other.round {
            return Placement::After;
        }
        if self.author.0 < other.author.0 {
            return Placement::Before;
        }
        if self.author.0 > other.author.0 {
            return Placement::After;
        }
        let mut i: usize = 0;
        while i < 32
            invariant
                i <= 32,
                self.round == other.round,
                self.author == other.author,
                forall|j: int| 0 <= j < i ==> self.digest.0[j] == other.digest.0[j],
                self.precedes(*other) ==> !other.precedes(*self) && *self != *other,
                other.precedes(*self) ==> *self != *other,
            decreases 32 - i,
        {
            if self.digest.0[i] < other.digest.0[i] {
                assert(self.digest.first_less_at(other.digest, i as int));
                return Placement::Before;
            }
            if self.digest.0[i] > other.digest.0[i] {
                assert(other.digest.first_less_at(self.digest, i as int));
                return Placement::After;
            }
            i += 1;
        }
        assert(self.digest.0 =~= other.digest.0);
        Placement::Same
    }

    /// The rendered form: `B7([2],0a1b2c3d)`.
    pub open spec fn text(self) -> Seq<char> {
        seq!['B'] + decimal(self.round as nat) + seq!['('] + self.author.text() + seq![',']
            + self.digest.text() + seq![')']
    }

    /// Renders round, author and digest.
    pub fn to_text(&self) -> (r: String)
        ensures
            r@ == self.text(),
    {
        proof {
            reveal_strlit("B");
            reveal_strlit("(");
            reveal_strlit(",");
            reveal_strlit(")");
        }
        let mut out = String::from_str("B");
        assert(out@ == seq!['B']);
        let round = decimal_text(self.round as u64);
        out.append(round.as_str());
        out.append("(");
        assert("("@ == seq!['(']);
        let author = self.author.to_text();
        out.append(author.as_str());
        out.append(",");
        assert(","@ == seq![',']);
        let digest = self.digest.to_text();
        out.append(digest.as_str());
        out.append(")");
        assert(")"@ == seq![')']);
        out
    }
}

/// No reference precedes itself.
pub proof fn lemma_precedes_irreflexive(a: BlockRef)
    ensures
        !a.precedes(a),
{
}

/// The order of references is transitive.
pub proof fn lemma_precedes_transitive(a: BlockRef, b: BlockRef, c: BlockRef)
    requires
        a.precedes(b),
        b.precedes(c),
    ensures
        a.precedes(c),
{
    if a.round == c.round && a.author == c.author {
        let i = choose|i: int| #[trigger] a.digest.first_less_at(b.digest, i);
        let j = choose|j: int| #[trigger] b.digest.first_less_at(c.digest, j);
        if i <= j {
            assert(a.digest.first_less_at(c.digest, i));
        } else {
            assert(a.digest.first_less_at(c.digest, j));
        }
    }
}

/// Raw transaction bytes.
#[derive(Debug, PartialEq, Eq)]
pub struct Transaction(pub Vec<u8>);

impl Clone for Transaction {
    fn clone(&self) -> (r: Self)
        ensures
            r.0@ == self.0@,
    {
        let bytes = self.0.clone();
        assert(bytes@ =~= self.0@);
        Transaction(bytes)
    }
}

impl Default for Transaction {
    fn default() -> (r: Self)
        ensures
            r.0@.len() == 0,
    {
        Transaction(Vec::new())
    }
}

/// (round, authority) position in the DAG. One slot may hold any number of blocks,
/// more than one only if the authority equivocates.
#[derive(Clone, Copy, PartialEq, Eq, Structural, PartialOrd, Ord, Hash, Debug)]
pub struct Slot {
    pub round: Round,
    pub authority: AuthorityIndex,
}

impl Default for Slot {
    fn default() -> (r: Self)
        ensures
            r == (Slot { round: 0, authority: AuthorityIndex(0) }),
    {
        Slot { round: 0, authority: AuthorityIndex(0) }
    }
}

impl Slot {
    pub fn new(round: Round, authority: AuthorityIndex) -> (r: Self)
        ensures
            r == (Slot { round, authority }),
    {
        Slot { round, authority }
    }

    pub fn new_for_test(round: Round, authority: u32) -> (r: Self)
        ensures
            r == (Slot { round, authority: AuthorityIndex(authority) }),
    {
        Slot { round, authority: AuthorityIndex::new_for_test(authority) }
    }

    /// The rendered form: `[2]7`.
    pub open spec fn text(self) -> Seq<char> {
        self.authority.text() + decimal(self.round as nat)
    }

    /// Renders authority and round.
    pub fn to_text(&self) -> (r: String)
        ensures
            r@ == self.text(),
    {
        let mut out = self.authority.to_text();
        let round = decimal_text(self.round as u64);
        out.append(round.as_str());
        out
    }
}

impl From<BlockRef> for Slot {
    fn from(b: BlockRef) -> (r: Slot) {
        Slot::new(b.round, b.author)
    }
}

impl vstd::std_specs::convert::FromSpecImpl<BlockRef> for Slot {
    open spec fn obeys_from_spec() -> bool {
        true
    }

    open spec fn from_spec(b: BlockRef) -> Slot {
        b.slot()
    }
}

/// Core block data produced by one authority at one round.
#[derive(Debug)]
pub struct Block {
    pub epoch: Epoch,
    pub round: Round,
    pub author: AuthorityIndex,
    pub timestamp_ms: BlockTimestampMs,
    pub ancestors: Vec<BlockRef>,
    pub transactions: Vec<Transaction>,
}

impl Default for Block {
    fn default() -> (r: Self)
        ensures
            r.epoch == 0,
            r.round == 0,
            r.author == AuthorityIndex(0),
            r.timestamp_ms == 0,
            r.ancestors@.len() == 0,
            r.transactions@.len() == 0,
    {
        Block {
            epoch: 0,
            round: 0,
            author: AuthorityIndex(0),
            timestamp_ms: 0,
            ancestors: Vec::new(),
            transactions: Vec::new(),
        }
    }
}

impl Clone for Block {
    fn clone(&self) -> (r: Self)
        ensures
            r.epoch == self.epoch,
            r.round == self.round,
            r.author == self.author,
            r.timestamp_ms == self.timestamp_ms,
            r.ancestors@ == self.ancestors@,
            r.transactions@.len() == self.transactions@.len(),
            forall|i: int|
                0 <= i < self.transactions@.len() ==> (#[trigger] r.transactions@[i]).0@
                    == self.transactions@[i].0@,
    {
        let ancestors = self.ancestors.clone();
        assert(ancestors@ =~= self.ancestors@);
        Block {
            epoch: self.epoch,
            round: self.round,
            author: self.author,
            timestamp_ms: self.timestamp_ms,
            ancestors,
            transactions: self.transactions.clone(),
        }
    }
}

impl Block {
    pub fn slot(&self) -> (r: Slot)
        ensures
            r == (Slot { round: self.round, authority: self.author }),
    {
        Slot::new(self.round, self.author)
    }
}

/// The digests of `refs`, one after the other.
pub open spec fn ref_digests(refs: Seq<BlockRef>) -> Seq<u8>
    decreases refs.len(),
{
    if refs.len() == 0 {
        Seq::empty()
    } else {
        ref_digests(refs.drop_last()) + refs.last().digest.0@
    }
}

/// The length of `tx` in four bytes followed by its bytes.
pub open spec fn frame(tx: Transaction) -> Seq<u8> {
    le_bytes(tx.0@.len() as u32 as nat, 4) + tx.0@
}

/// The frames of all of `txs`, one after the other.
pub open spec fn framed(txs: Seq<Transaction>) -> Seq<u8>
    decreases txs.len(),
{
    if txs.len() == 0 {
        Seq::empty()
    } else {
        framed(txs.drop_last()) + frame(txs.last())
    }
}

/// Round, author, epoch and timestamp in little-endian order.
pub open spec fn header_bytes(block: Block) -> Seq<u8> {
    le_bytes(block.round as nat, 4) + le_bytes(block.author.0 as nat, 4) + le_bytes(
        block.epoch as nat,
        8,
    ) + le_bytes(block.timestamp_ms as nat, 8)
}

/// The bytes that a block's digest is computed over: the header, the digests of the
/// ancestors, the number of transactions, and the framed transactions.
pub open spec fn block_preimage(block: Block) -> Seq<u8> {
    header_bytes(block) + ref_digests(block.ancestors@) + le_bytes(
        block.transactions@.len() as u32 as nat,
        4,
    ) + framed(block.transactions@)
}

/// Encodes what the digest of `block` is computed over.
pub fn encode_block(block: &Block) -> (r: Vec<u8>)
    ensures
        r@ == block_preimage(*block),
{
    let mut out: Vec<u8> = Vec::new();
    push_le(&mut out, block.round as u64, 4);
    push_le(&mut out, block.author.0 as u64, 4);
    push_le(&mut out, block.epoch, 8);
    push_le(&mut out, block.timestamp_ms, 8);
    assert(out@ == header_bytes(*block));
    let ghost head = out@;
    let mut i: usize = 0;
    while i < block.ancestors.len()
        invariant
            i <= block.ancestors@.len(),
            out@ == head + ref_digests(block.ancestors@.take(i as int)),
        decreases block.ancestors@.len() - i,
    {
        push_all(&mut out, block.ancestors[i].digest.0.as_slice());
        i += 1;
        proof {
            let refs = block.ancestors@.take(i as int);
            assert(refs.drop_last() == block.ancestors@.take(i - 1));
            assert(out@ == head + ref_digests(refs));
        }
    }
    assert(block.ancestors@.take(block.ancestors@.len() as int) == block.ancestors@);
    push_le(&mut out, block.transactions.len() as u32 as u64, 4);
    let ghost body = out@;
    let mut j: usize = 0;
    while j < block.transactions.len()
        invariant
            j <= block.transactions@.len(),
            out@ == body + framed(block.transactions@.take(j as int)),
        decreases block.transactions@.len() - j,
    {
        push_le(&mut out, block.transactions[j].0.len() as u32 as u64, 4);
        push_all(&mut out, block.transactions[j].0.as_slice());
        j += 1;
        proof {
            let txs = block.transactions@.take(j as int);
            assert(txs.drop_last() == block.transactions@.take(j - 1));
            assert(out@ == body + framed(txs));
        }
    }
    assert(block.transactions@.take(block.transactions@.len() as int) == block.transactions@);
    out
}

proof fn lemma_framed_front(txs: Seq<Transaction>)
    requires
        txs.len() > 0,
    ensures
        framed(txs) == frame(txs[0]) + framed(txs.skip(1)),
    decreases txs.len(),
{
    if txs.len() == 1 {
        assert(txs.drop_last() == Seq::<Transaction>::empty());
        assert(txs.skip(1) == Seq::<Transaction>::empty());
        assert(framed(txs) == frame(txs[0]) + framed(txs.skip(1)));
    } else {
        lemma_framed_front(txs.drop_last());
        assert(txs.drop_last().skip(1) == txs.skip(1).drop_last());
        assert(framed(txs) == frame(txs[0]) + (framed(txs.skip(1).drop_last()) + frame(
            txs.last(),
        )));
    }
}

proof fn lemma_framed_injective(a: Seq<Transaction>, b: Seq<Transaction>)
    requires
        a.len() == b.len(),
        forall|i: int| 0 <= i < a.len() ==> (#[trigger] a[i]).0@.len() <= u32::MAX,
        forall|i: int| 0 <= i < b.len() ==> (#[trigger] b[i]).0@.len() <= u32::MAX,
        framed(a) == framed(b),
    ensures
        forall|i: int| 0 <= i < a.len() ==> (#[trigger] a[i]).0@ == b[i].0@,
    decreases a.len(),
{
    if a.len() > 0 {
        lemma_framed_front(a);
        lemma_framed_front(b);
        let la = a[0].0@.len() as u32 as nat;
        let lb = b[0].0@.len() as u32 as nat;
        lemma_le_bytes(la, lb, 4);
        reveal_with_fuel(pow256, 5);
        let whole = framed(a);
        assert(whole.take(4) == le_bytes(la, 4));
        assert(whole.take(4) == le_bytes(lb, 4));
        assert(la == lb);
        assert(whole.subrange(4, 4 + la as int) == a[0].0@);
        assert(whole.subrange(4, 4 + la as int) == b[0].0@);
        assert(whole.skip(4 + la as int) == framed(a.skip(1)));
        assert(whole.skip(4 + la as int) == framed(b.skip(1)));
        assert forall|i: int| 0 <= i < a.skip(1).len() implies (#[trigger] a.skip(1)[i]).0@.len()
            <= u32::MAX by {
            assert(a.skip(1)[i] == a[i + 1]);
        }
        assert forall|i: int| 0 <= i < b.skip(1).len() implies (#[trigger] b.skip(1)[i]).0@.len()
            <= u32::MAX by {
            assert(b.skip(1)[i] == b[i + 1]);
        }
        lemma_framed_injective(a.skip(1), b.skip(1));
        assert forall|i: int| 0 <= i < a.len() implies (#[trigger] a[i]).0@ == b[i].0@ by {
            if i > 0 {
                assert(a.skip(1)[i - 1] == a[i]);
                assert(b.skip(1)[i - 1] == b[i]);
            }
        }
    }
}

/// Two blocks with the same ancestors are hashed over different bytes unless they also
/// carry the same transactions, as long as counts and lengths fit their four-byte fields.
pub proof fn law_encoding_binds_transactions(a: Block, b: Block)
    requires
        a.ancestors@ == b.ancestors@,
        block_preimage(a) == block_preimage(b),
        a.transactions@.len() <= u32::MAX,
        b.transactions@.len() <= u32::MAX,
        forall|i: int|
            0 <= i < a.transactions@.len() ==> (#[trigger] a.transactions@[i]).0@.len() <= u32::MAX,
        forall|i: int|
            0 <= i < b.transactions@.len() ==> (#[trigger] b.transactions@[i]).0@.len() <= u32::MAX,
    ensures
        a.transactions@.len() == b.transactions@.len(),
        forall|i: int|
            0 <= i < a.transactions@.len() ==> (#[trigger] a.transactions@[i]).0@
                == b.transactions@[i].0@,
{
    lemma_le_bytes(a.round as nat, b.round as nat, 4);
    lemma_le_bytes(a.author.0 as nat, b.author.0 as nat, 4);
    lemma_le_bytes(a.epoch as nat, b.epoch as nat, 8);
    lemma_le_bytes(a.timestamp_ms as nat, b.timestamp_ms as nat, 8);
    let ca = a.transactions@.len() as u32 as nat;
    let cb = b.transactions@.len() as u32 as nat;
    lemma_le_bytes(ca, cb, 4);
    reveal_with_fuel(pow256, 5);
    let whole = block_preimage(a);
    let start = 24 + ref_digests(a.ancestors@).len() as int;
    assert(whole.subrange(start, start + 4) == le_bytes(ca, 4));
    assert(whole.subrange(start, start + 4) == le_bytes(cb, 4));
    assert(whole.skip(start + 4) == framed(a.transactions@));
    assert(whole.skip(start + 4) == framed(b.transactions@));
    lemma_framed_injective(a.transactions@, b.transactions@);
}

/// The digest of `block` as the hash of its encoding.
pub open spec fn block_digest(block: Block) -> Seq<u8> {
    sha3_256(block_preimage(block))
}

/// A block that has been validated and is fit for the local DAG, together with its
/// digest. Cloning is cheap.
#[derive(Debug)]
pub struct VerifiedBlock(pub(crate) Arc<VerifiedBlockInner>);

#[derive(Debug)]
pub struct VerifiedBlockInner {
    pub(crate) block: Block,
    pub(crate) digest: BlockDigest,
}

impl Clone for VerifiedBlock {
    fn clone(&self) -> (r: Self)
        ensures
            r == *self,
    {
        VerifiedBlock(self.0.clone())
    }
}

impl PartialEq for VerifiedBlock {
    fn eq(&self, other: &Self) -> (r: bool) {
        self.0.digest == other.0.digest
    }
}

impl vstd::std_specs::cmp::PartialEqSpecImpl for VerifiedBlock {
    open spec fn obeys_eq_spec() -> bool {
        true
    }

    open spec fn eq_spec(&self, other: &Self) -> bool {
        self.spec_digest() == other.spec_digest()
    }
}

impl VerifiedBlock {
    /// The block itself.
    pub open(crate) spec fn block(&self) -> Block {
        self.0.block
    }

    pub open(crate) spec fn spec_digest(&self) -> BlockDigest {
        self.0.digest
    }

    /// The reference to this block.
    pub open spec fn spec_ref(&self) -> BlockRef {
        BlockRef {
            round: self.block().round,
            author: self.block().author,
            digest: self.spec_digest(),
        }
    }

    /// The references to the ancestors, in the order the block lists them.
    pub open spec fn parents(&self) -> Seq<BlockRef> {
        self.block().ancestors@
    }

    /// The byte strings of the transactions, in order.
    pub open spec fn payload(&self) -> Seq<Seq<u8>> {
        self.block().transactions@.map_values(|t: Transaction| t.0@)
    }

    /// Hashes the encoding of `block`.
    fn compute_digest(block: &Block) -> (r: BlockDigest)
        ensures
            r.0@ == block_digest(*block),
    {
        let bytes = encode_block(block);
        BlockDigest(sha3_256_digest(&bytes))
    }

    /// Marks `block` as verified and computes its digest.
    pub fn new_verified(block: Block) -> (r: Self)
        ensures
            r.block() == block,
            r.spec_digest().0@ == block_digest(block),
    {
        let digest = VerifiedBlock::compute_digest(&block);
        VerifiedBlock(Arc::new(VerifiedBlockInner { block, digest }))
    }

    /// Creates a verified block without actual verification.
    pub fn new_for_test(block: Block) -> (r: Self)
        ensures
            r.block() == block,
            r.spec_digest().0@ == block_digest(block),
    {
        VerifiedBlock::new_verified(block)
    }

    pub fn reference(&self) -> (r: BlockRef)
        ensures
            r == self.spec_ref(),
    {
        BlockRef::new(self.0.block.round, self.0.block.author, self.0.digest)
    }

    pub fn digest(&self) -> (r: BlockDigest)
        ensures
            r == self.spec_digest(),
    {
        self.0.digest
    }

    pub fn epoch(&self) -> (r: Epoch)
        ensures
            r == self.block().epoch,
    {
        self.0.block.epoch
    }

    pub fn round(&self) -> (r: Round)
        ensures
            r == self.block().round,
    {
        self.0.block.round
    }

    pub fn author(&self) -> (r: AuthorityIndex)
        ensures
            r == self.block().author,
    {
        self.0.block.author
    }

    pub fn slot(&self) -> (r: Slot)
        ensures
            r == self.spec_ref().slot(),
    {
        self.0.block.slot()
    }

    pub fn timestamp_ms(&self) -> (r: BlockTimestampMs)
        ensures
            r == self.block().timestamp_ms,
    {
        self.0.block.timestamp_ms
    }

    pub fn ancestors(&self) -> (r: &[BlockRef])
        ensures
            r@ == self.parents(),
    {
        self.0.block.ancestors.as_slice()
    }

    pub fn transactions(&self) -> (r: &[Transaction])
        ensures
            r@ == self.block().transactions@,
    {
        self.0.block.transactions.as_slice()
    }

    /// Renders the reference of the block.
    pub fn to_text(&self) -> (r: String)
        ensures
            r@ == self.spec_ref().text(),
    {
        self.reference().to_text()
    }

    /// The detailed rendering: reference, ancestors and number of transactions.
    pub open spec fn detail(&self) -> Seq<char> {
        self.spec_ref().text() + seq!['(', '['] + comma_joined(
            self.parents().map_values(|r: BlockRef| r.text()),
        ) + seq![']', ';'] + decimal(self.block().transactions@.len()) + seq!['t', ')']
    }

    /// Renders reference, ancestors and number of transactions.
    pub fn to_detailed_text(&self) -> (r: String)
        ensures
            r@ == self.detail(),
    {
        proof {
            reveal_strlit("([");
            reveal_strlit("];");
            reveal_strlit("t)");
        }
        let mut out = self.to_text();
        out.append("([");
        assert("(["@ == seq!['(', '[']);
        let ancestors = refs_text(self.ancestors());
        out.append(ancestors.as_str());
        out.append("];");
        assert("];"@ == seq![']', ';']);
        let count = decimal_text(self.transactions().len() as u64);
        out.append(count.as_str());
        out.append("t)");
        assert("t)"@ == seq!['t', ')']);
        out
    }
}

/// Renders `refs` separated by `", "`.
pub fn refs_text(refs: &[BlockRef]) -> (r: String)
    ensures
        r@ == comma_joined(refs@.map_values(|r: BlockRef| r.text())),
{
    let mut parts: Vec<String> = Vec::new();
    let mut i: usize = 0;
    while i < refs.len()
        invariant
            i <= refs@.len(),
            parts@.len() == i,
            forall|j: int| 0 <= j < i ==> (#[trigger] parts@[j])@ == refs@[j].text(),
        decreases refs@.len() - i,
    {
        parts.push(refs[i].to_text());
        i += 1;
    }
    assert(parts@.map_values(|s: String| s@) =~= refs@.map_values(|r: BlockRef| r.text()));
    comma_joined_text(&parts)
}

/// Rank of an ancestor in a block by `own`: the author's own blocks first, then by author.
pub open spec fn own_first(own: AuthorityIndex, r: BlockRef) -> nat {
    if r.author == own {
        0
    } else {
        r.author.0 as nat + 1
    }
}

/// [`own_first`] as a rank function.
pub open spec fn ancestor_rank(own: AuthorityIndex) -> spec_fn(BlockRef) -> nat {
    |r: BlockRef| own_first(own, r)
}

/// Convenience builder for blocks.
pub struct TestBlock {
    pub(crate) block: Block,
}

impl TestBlock {
    /// The block as built so far.
    pub open(crate) spec fn built(&self) -> Block {
        self.block
    }

    pub fn new(round: Round, author: u32) -> (r: Self)
        ensures
            r.built().round == round,
            r.built().author == AuthorityIndex(author),
            r.built().epoch == 0,
            r.built().timestamp_ms == 0,
            r.built().ancestors@.len() == 0,
            r.built().transactions@.len() == 0,
    {
        let mut block = Block::default();
        block.round = round;
        block.author = AuthorityIndex::new_for_test(author);
        TestBlock { block }
    }

    pub fn set_epoch(self, epoch: Epoch) -> (r: Self)
        ensures
            r.built() == (Block { epoch, ..self.built() }),
    {
        TestBlock { block: Block { epoch, ..self.block } }
    }

    pub fn set_round(self, round: Round) -> (r: Self)
        ensures
            r.built() == (Block { round, ..self.built() }),
    {
        TestBlock { block: Block { round, ..self.block } }
    }

    pub fn set_author(self, author: AuthorityIndex) -> (r: Self)
        ensures
            r.built() == (Block { author, ..self.built() }),
    {
        TestBlock { block: Block { author, ..self.block } }
    }

    pub fn set_timestamp_ms(self, ts: BlockTimestampMs) -> (r: Self)
        ensures
            r.built() == (Block { timestamp_ms: ts, ..self.built() }),
    {
        TestBlock { block: Block { timestamp_ms: ts, ..self.block } }
    }

    /// Sorts ancestors by author, with the block's own author first.
    pub fn set_ancestors(self, ancestors: Vec<BlockRef>) -> (r: Self)
        ensures
            r.built().ancestors@ == sorted_by_rank(
                ancestors@,
                ancestor_rank(self.built().author),
            ),
            r.built() == (Block { ancestors: r.built().ancestors, ..self.built() }),
    {
        let own = self.block.author;
        let mut sorted = ancestors;
        let rank = |r: &BlockRef| -> (k: u64)
            ensures
                k == own_first(own, *r),
            {
                if r.author == own {
                    0
                } else {
                    r.author.0 as u64 + 1
                }
            };
        sort_by_rank(&mut sorted, rank, Ghost(ancestor_rank(own)));
        TestBlock { block: Block { ancestors: sorted, ..self.block } }
    }

    /// Takes the ancestors as they are.
    pub fn set_ancestors_raw(self, ancestors: Vec<BlockRef>) -> (r: Self)
        ensures
            r.built() == (Block { ancestors, ..self.built() }),
    {
        TestBlock { block: Block { ancestors, ..self.block } }
    }

    pub fn set_transactions(self, txs: Vec<Transaction>) -> (r: Self)
        ensures
            r.built() == (Block { transactions: txs, ..self.built() }),
    {
        TestBlock { block: Block { transactions: txs, ..self.block } }
    }

    pub fn build(self) -> (r: VerifiedBlock)
        ensures
            r.block() == self.built(),
            r.spec_digest().0@ == block_digest(self.built()),
    {
        VerifiedBlock::new_for_test(self.block)
    }
}

/// Whether `b` is the genesis block of the authority at position `i` of `committee`.
pub open spec fn is_genesis_of(b: VerifiedBlock, committee: Committee, i: int) -> bool {
    &&& b.block().epoch == committee.spec_epoch()
    &&& b.block().round == GENESIS_ROUND
    &&& b.block().author.0 == i
    &&& b.block().timestamp_ms == 0
    &&& b.block().ancestors@.len() == 0
    &&& b.block().transactions@.len() == 0
    &&& b.spec_digest().0@ == block_digest(b.block())
}

/// Generates one genesis block (round 0) per committee authority, in index order.
pub fn genesis_blocks(committee: &Committee) -> (r: Vec<VerifiedBlock>)
    requires
        committee.wf(),
    ensures
        r@.len() == committee.members().len(),
        forall|i: int| 0 <= i < r@.len() ==> is_genesis_of(#[trigger] r@[i], *committee, i),
{
    let mut out: Vec<VerifiedBlock> = Vec::new();
    let mut i: usize = 0;
    while i < committee.size()
        invariant
            committee.wf(),
            i <= committee.members().len(),
            out@.len() == i,
            forall|j: int| 0 <= j < i ==> is_genesis_of(#[trigger] out@[j], *committee, j),
        decreases committee.members().len() - i,
    {
        let mut block = Block::default();
        block.epoch = committee.epoch();
        block.round = GENESIS_ROUND;
        block.author = AuthorityIndex(i as u32);
        out.push(VerifiedBlock::new_verified(block));
        i += 1;
    }
    out
}

proof fn lemma_digests_at(refs: Seq<BlockRef>, i: int)
    requires
        0 <= i < refs.len(),
    ensures
        ref_digests(refs).len() == 32 * refs.len(),
        ref_digests(refs).subrange(32 * i, 32 * i + 32) == refs[i].digest.0@,
    decreases refs.len(),
{
    let front = refs.drop_last();
    let all = ref_digests(refs);
    let head = ref_digests(front);
    lemma_digests_len(front);
    if i < front.len() {
        lemma_digests_at(front, i);
        assert(all.subrange(32 * i, 32 * i + 32) =~= head.subrange(32 * i, 32 * i + 32));
    } else {
        assert(all.subrange(32 * i, 32 * i + 32) =~= refs[i].digest.0@);
    }
}

proof fn lemma_digests_len(refs: Seq<BlockRef>)
    ensures
        ref_digests(refs).len() == 32 * refs.len(),
    decreases refs.len(),
{
    if refs.len() > 0 {
        lemma_digests_len(refs.drop_last());
    }
}

proof fn lemma_framed_flat(txs: Seq<Transaction>)
    ensures
        framed(txs) == txs.map_values(
            |t: Transaction| le_bytes(t.0@.len() as u32 as nat, 4) + t.0@,
        ).flatten(),
    decreases txs.len(),
{
    let frames = txs.map_values(|t: Transaction| le_bytes(t.0@.len() as u32 as nat, 4) + t.0@);
    frames.lemma_flatten_and_flatten_alt_are_equivalent();
    if txs.len() > 0 {
        let front = txs.drop_last();
        lemma_framed_flat(front);
        let fewer = front.map_values(
            |t: Transaction| le_bytes(t.0@.len() as u32 as nat, 4) + t.0@,
        );
        fewer.lemma_flatten_and_flatten_alt_are_equivalent();
        assert(frames.drop_last() =~= fewer);
    }
}

/// What a block is hashed over, place by place: round and author in four bytes each, epoch and
/// timestamp in eight each, the digest of each ancestor in its place, then the number of
/// transactions in four bytes and each transaction after its length in four.
pub proof fn law_encoding_layout(block: Block)
    ensures
        ({
            let out = block_preimage(block);
            let n = block.ancestors@.len() as int;
            &&& out.len() >= 28 + 32 * n
            &&& out.subrange(0, 4) == le_bytes(block.round as nat, 4)
            &&& out.subrange(4, 8) == le_bytes(block.author.0 as nat, 4)
            &&& out.subrange(8, 16) == le_bytes(block.epoch as nat, 8)
            &&& out.subrange(16, 24) == le_bytes(block.timestamp_ms as nat, 8)
            &&& forall|i: int|
                0 <= i < n ==> out.subrange(24 + 32 * i, 56 + 32 * i) == (
                #[trigger] block.ancestors@[i]).digest.0@
            &&& out.subrange(24 + 32 * n, 28 + 32 * n) == le_bytes(
                block.transactions@.len() as u32 as nat,
                4,
            )
            &&& out.skip(28 + 32 * n) == block.transactions@.map_values(
                |t: Transaction| le_bytes(t.0@.len() as u32 as nat, 4) + t.0@,
            ).flatten()
        }),
{
    let out = block_preimage(block);
    let n = block.ancestors@.len() as int;
    lemma_le_bytes(block.round as nat, 0, 4);
    lemma_le_bytes(block.author.0 as nat, 0, 4);
    lemma_le_bytes(block.epoch as nat, 0, 8);
    lemma_le_bytes(block.timestamp_ms as nat, 0, 8);
    lemma_le_bytes(block.transactions@.len() as u32 as nat, 0, 4);
    lemma_digests_len(block.ancestors@);
    lemma_framed_flat(block.transactions@);
    assert(out.subrange(0, 4) =~= le_bytes(block.round as nat, 4));
    assert(out.subrange(4, 8) =~= le_bytes(block.author.0 as nat, 4));
    assert(out.subrange(8, 16) =~= le_bytes(block.epoch as nat, 8));
    assert(out.subrange(16, 24) =~= le_bytes(block.timestamp_ms as nat, 8));
    assert forall|i: int| 0 <= i < n implies out.subrange(24 + 32 * i, 56 + 32 * i) == (
    #[trigger] block.ancestors@[i]).digest.0@ by {
        lemma_digests_at(block.ancestors@, i);
        let digests = ref_digests(block.ancestors@);
        assert(out.subrange(24 + 32 * i, 56 + 32 * i) =~= digests.subrange(32 * i, 32 * i + 32));
    }
    assert(out.subrange(24 + 32 * n, 28 + 32 * n) =~= le_bytes(
        block.transactions@.len() as u32 as nat,
        4,
    ));
    assert(out.skip(28 + 32 * n) =~= framed(block.transactions@));
}

/// References are ordered by round, within a round by author, and within a slot by the first byte
/// in which the digests differ.
pub proof fn law_reference_order(a: BlockRef, b: BlockRef, i: int)
    ensures
        a.round < b.round ==> a.precedes(b) && !b.precedes(a),
        a.round == b.round && a.author.0 < b.author.0 ==> a.precedes(b) && !b.precedes(a),
        a.round == b.round && a.author == b.author && 0 <= i < 32 && a.digest.0[i] < b.digest.0[i]
            && (forall|j: int| 0 <= j < i ==> a.digest.0[j] == b.digest.0[j]) ==> a.precedes(b)
            && !b.precedes(a),
        !a.precedes(a),
{
    if a.round == b.round && a.author == b.author && 0 <= i < 32 && a.digest.0[i] < b.digest.0[i]
        && (forall|j: int| 0 <= j < i ==> a.digest.0[j] == b.digest.0[j]) {
        assert(a.digest.first_less_at(b.digest, i));
        if b.precedes(a) {
            lemma_precedes_transitive(a, b, a);
        }
    }
}

/// Ancestors are put in order: the author's own ones first, then by author; those of one author keep
/// their order, and none is lost or added.
pub proof fn law_own_ancestors_first(
    own: AuthorityIndex,
    ancestors: Seq<BlockRef>,
    author: AuthorityIndex,
)
    ensures
        ({
            let out = sorted_by_rank(ancestors, ancestor_rank(own));
            &&& out.to_multiset() == ancestors.to_multiset()
            &&& forall|i: int, j: int|
                0 <= i < j < out.len() ==> (#[trigger] out[i]).author == own || (
                #[trigger] out[j]).author != own && out[i].author.0 <= out[j].author.0
            &&& out.filter(|r: BlockRef| r.author == author) == ancestors.filter(
                |r: BlockRef| r.author == author,
            )
        }),
{
    let rank = ancestor_rank(own);
    let out = sorted_by_rank(ancestors, rank);
    lemma_sorted_by_rank(ancestors, rank);
    assert forall|i: int, j: int| 0 <= i < j < out.len() implies (#[trigger] out[i]).author == own
        || (#[trigger] out[j]).author != own && out[i].author.0 <= out[j].author.0 by {
        assert(rank(out[i]) <= rank(out[j]));
        assert(own_first(own, out[i]) <= own_first(own, out[j]));
    }
    let k: nat = if author == own { 0 } else { author.0 as nat + 1 };
    lemma_of_author(own, ancestors, author);
    lemma_of_author(own, out, author);
    assert(of_rank(out, rank, k) == of_rank(ancestors, rank, k));
}

proof fn lemma_of_author(own: AuthorityIndex, refs: Seq<BlockRef>, author: AuthorityIndex)
    ensures
        of_rank(
            refs,
            ancestor_rank(own),
            if author == own {
                0
            } else {
                author.0 as nat + 1
            },
        ) == refs.filter(|r: BlockRef| r.author == author),
    decreases refs.len(),
{
    reveal(Seq::filter);
    if refs.len() > 0 {
        lemma_of_author(own, refs.drop_last(), author);
    }
}

/// A genesis block is of round 0 and of its committee's epoch, at time 0, and lists no ancestors and
/// no transactions; so an authority has one genesis reference.
pub proof fn law_genesis_is_bare(b: VerifiedBlock, committee: Committee, i: int)
    requires
        is_genesis_of(b, committee, i),
    ensures
        b.block().epoch == committee.spec_epoch(),
        b.spec_ref().round == 0,
        b.spec_ref().author.0 == i,
        b.block().timestamp_ms == 0,
        b.parents().len() == 0,
        b.block().transactions@.len() == 0,
        b.spec_ref().digest.0@ == sha3_256(block_preimage(b.block())),
{
}

/// What is known of a block is what it says: its reference names its round, author and digest, its
/// slot is the one it fills, and its ancestors and transactions are those it lists, in order.
pub proof fn law_reference_names_its_block(b: VerifiedBlock, r: BlockRef)
    ensures
        b.spec_ref().round == b.block().round,
        b.spec_ref().author == b.block().author,
        b.spec_ref().digest == b.spec_digest(),
        r.slot().round == r.round,
        r.slot().authority == r.author,
        b.parents() == b.block().ancestors@,
        b.payload().len() == b.block().transactions@.len(),
        forall|i: int|
            0 <= i < b.payload().len() ==> #[trigger] b.payload()[i]
                == b.block().transactions@[i].0@,
{
}

/// How references and blocks are written: round, author and the start of the digest; and in detail
/// also the ancestors and the number of transactions.
pub proof fn law_written_forms(r: BlockRef, s: Slot, b: VerifiedBlock)
    ensures
        r.text() == seq!['B'] + decimal(r.round as nat) + seq!['(', '['] + decimal(
            r.author.0 as nat,
        ) + seq![']', ','] + hex(r.digest.0@.take(4)) + seq![')'],
        s.text() == seq!['['] + decimal(s.authority.0 as nat) + seq![']'] + decimal(s.round as nat),
        b.detail() == b.spec_ref().text() + seq!['(', '['] + comma_joined(
            b.block().ancestors@.map_values(|a: BlockRef| a.text()),
        ) + seq![']', ';'] + decimal(b.block().transactions@.len()) + seq!['t', ')'],
{
    assert(r.text() =~= seq!['B'] + decimal(r.round as nat) + seq!['(', '['] + decimal(
        r.author.0 as nat,
    ) + seq![']', ','] + hex(r.digest.0@.take(4)) + seq![')']);
}

/// Two blocks count as equal exactly if their digests are.
pub proof fn law_blocks_equal_by_digest(a: VerifiedBlock, b: VerifiedBlock)
    ensures
        a.eq_spec(&b) <==> a.spec_digest() == b.spec_digest(),
{
}

} // verus!
