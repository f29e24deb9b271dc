//! Commits: their references, the sub-DAGs they cover, and the fate of leader slots.

use vstd::prelude::*;

use crate::committee::AuthorityIndex;
use crate::stable_sort::{sort_by_rank, sorted_by_rank};
use crate::text::{comma_joined, decimal, decimal_text, hex, hex_text};
use crate::types::{refs_text, BlockRef, BlockTimestampMs, Round, Slot, VerifiedBlock};

verus! {

/// Index of a commit among all consensus commits.
pub type CommitIndex = u32;

/// Index before the first commit.
pub const GENESIS_COMMIT_INDEX: CommitIndex = 0;

/// At least one leader round, one voting round and one decision round.
pub const MINIMUM_WAVE_LENGTH: Round = 3;

/// Default wave length for all committers.
pub const DEFAULT_WAVE_LENGTH: Round = MINIMUM_WAVE_LENGTH;

/// The consensus protocol operates in waves of `wave_length` rounds.
pub type WaveNumber = u32;

/// Length in bytes of a commit digest.
pub const COMMIT_DIGEST_LENGTH: usize = 32;

/// 32-byte digest of a consensus commit.
#[derive(Clone, Copy, Eq, PartialOrd, Ord, Hash, Debug)]
pub struct CommitDigest(pub [u8; 32]);

impl PartialEq for CommitDigest {
    fn eq(&self, other: &Self) -> (r: bool) {
        let mut i: usize = 0;
        while i < 32
            invariant
                i <= 32,
                forall|j: int| 0 <= j < i ==> self.0[j] == other.0[j],
            decreases 32 - i,
        {
            if self.0[i] != other.0[i] {
                return false;
            }
            i += 1;
        }
        assert(self.0 =~= other.0);
        true
    }
}

impl vstd::std_specs::cmp::PartialEqSpecImpl for CommitDigest {
    open spec fn obeys_eq_spec() -> bool {
        true
    }

    open spec fn eq_spec(&self, other: &Self) -> bool {
        *self == *other
    }
}

impl Default for CommitDigest {
    fn default() -> (r: Self)
        ensures
            r.0@ == Seq::new(32, |i: int| 0u8),
    {
        let r = CommitDigest([0u8; 32]);
        assert(r.0@ =~= Seq::new(32, |i: int| 0u8));
        r
    }
}

impl CommitDigest {
    /// The rendered form: the first four bytes in hexadecimal.
    pub open spec fn text(self) -> Seq<char> {
        hex(self.0@.take(4))
    }

    /// Renders the first four bytes in hexadecimal.
    pub fn to_text(&self) -> (r: String)
        ensures
            r@ == self.text(),
    {
        let mut head: Vec<u8> = Vec::new();
        head.push(self.0[0]);
        head.push(self.0[1]);
        head.push(self.0[2]);
        head.push(self.0[3]);
        assert(head@ == self.0@.take(4));
        hex_text(head.as_slice())
    }
}

/// Uniquely identifies a commit with its sequential index and digest.
#[derive(Clone, Copy, Eq, PartialOrd, Ord, Debug)]
pub struct CommitRef {
    pub index: CommitIndex,
    pub digest: CommitDigest,
}

impl PartialEq for CommitRef {
    fn eq(&self, other: &Self) -> (r: bool) {
        self.index == other.index && self.digest == other.digest
    }
}

impl vstd::std_specs::cmp::PartialEqSpecImpl for CommitRef {
    open spec fn obeys_eq_spec() -> bool {
        true
    }

    open spec fn eq_spec(&self, other: &Self) -> bool {
        *self == *other
    }
}

impl Default for CommitRef {
    fn default() -> (r: Self)
        ensures
            r.index == 0,
            r.digest.0@ == Seq::new(32, |i: int| 0u8),
    {
        CommitRef::new(0, CommitDigest::default())
    }
}

impl CommitRef {
    pub fn new(index: CommitIndex, digest: CommitDigest) -> (r: Self)
        ensures
            r == (CommitRef { index, digest }),
    {
        CommitRef { index, digest }
    }

    /// The rendered form: `C4(0a1b2c3d)`.
    pub open spec fn text(self) -> Seq<char> {
        seq!['C'] + decimal(self.index as nat) + seq!['('] + self.digest.text() + seq![')']
    }

    /// Renders index and digest.
    pub fn to_text(&self) -> (r: String)
        ensures
            r@ == self.text(),
    {
        proof {
            reveal_strlit("C");
            reveal_strlit("(");
            reveal_strlit(")");
        }
        let mut out = String::from_str("C");
        assert(out@ == seq!['C']);
        let index = decimal_text(self.index as u64);
        out.append(index.as_str());
        out.append("(");
        assert("("@ == seq!['(']);
        let digest = self.digest.to_text();
        out.append(digest.as_str());
        out.append(")");
        assert(")"@ == seq![')']);
        out
    }
}

/// The ordered set of blocks that form one consensus commit.
#[derive(PartialEq, Debug)]
pub struct CommittedSubDag {
    /// Reference to the wave leader block.
    pub leader: BlockRef,
    /// All committed blocks, sorted by (round, author).
    pub blocks: Vec<VerifiedBlock>,
    /// Commit timestamp.
    pub timestamp_ms: BlockTimestampMs,
    /// Sequential commit reference.
    pub commit_ref: CommitRef,
}

/// The references of `blocks`.
pub open spec fn refs_of(blocks: Seq<VerifiedBlock>) -> Seq<BlockRef> {
    blocks.map_values(|b: VerifiedBlock| b.spec_ref())
}

/// Collects the references of `blocks`.
pub fn references(blocks: &[VerifiedBlock]) -> (r: Vec<BlockRef>)
    ensures
        r@ == refs_of(blocks@),
{
    let mut out: Vec<BlockRef> = Vec::new();
    let mut i: usize = 0;
    while i < blocks.len()
        invariant
            i <= blocks@.len(),
            out@.len() == i,
            forall|j: int| 0 <= j < i ==> #[trigger] out@[j] == blocks@[j].spec_ref(),
        decreases blocks@.len() - i,
    {
        out.push(blocks[i].reference());
        i += 1;
    }
    assert(out@ =~= refs_of(blocks@));
    out
}

impl Clone for CommittedSubDag {
    fn clone(&self) -> (r: Self)
        ensures
            r.leader == self.leader,
            r.blocks@ == self.blocks@,
            r.timestamp_ms == self.timestamp_ms,
            r.commit_ref == self.commit_ref,
    {
        let blocks = self.blocks.clone();
        assert(blocks@ =~= self.blocks@);
        CommittedSubDag {
            leader: self.leader,
            blocks,
            timestamp_ms: self.timestamp_ms,
            commit_ref: self.commit_ref,
        }
    }
}

impl CommittedSubDag {
    pub fn new(
        leader: BlockRef,
        blocks: Vec<VerifiedBlock>,
        timestamp_ms: BlockTimestampMs,
        commit_ref: CommitRef,
    ) -> (r: Self)
        ensures
            r == (CommittedSubDag { leader, blocks, timestamp_ms, commit_ref }),
    {
        CommittedSubDag { leader, blocks, timestamp_ms, commit_ref }
    }

    /// The rendered form: `C4(0a1b2c3d)@B3([3],..) [B1(..), B3(..)]`.
    pub open spec fn text(&self) -> Seq<char> {
        self.commit_ref.text() + seq!['@'] + self.leader.text() + seq![' ', '['] + comma_joined(
            refs_of(self.blocks@).map_values(|r: BlockRef| r.text()),
        ) + seq![']']
    }

    /// Renders commit reference, leader and blocks.
    pub fn to_text(&self) -> (r: String)
        ensures
            r@ == self.text(),
    {
        proof {
            reveal_strlit("@");
            reveal_strlit(" [");
            reveal_strlit("]");
        }
        let mut out = self.commit_ref.to_text();
        out.append("@");
        assert("@"@ == seq!['@']);
        let leader = self.leader.to_text();
        out.append(leader.as_str());
        out.append(" [");
        assert(" ["@ == seq![' ', '[']);
        let refs = references(self.blocks.as_slice());
        let blocks = refs_text(refs.as_slice());
        out.append(blocks.as_str());
        out.append("]");
        assert("]"@ == seq![']']);
        out
    }
}

/// Position of a block in a sub-DAG: by round, then author.
pub open spec fn sub_dag_rank() -> spec_fn(VerifiedBlock) -> nat {
    |b: VerifiedBlock| round_then_author(b)
}

/// Round and author as one number.
pub open spec fn round_then_author(b: VerifiedBlock) -> nat {
    (b.block().round as nat) * 0x1_0000_0000 + b.block().author.0 as nat
}

/// Sort sub-DAG blocks by round then authority; blocks of the same slot keep their order.
pub fn sort_sub_dag_blocks(blocks: &mut Vec<VerifiedBlock>)
    ensures
        final(blocks)@ == sorted_by_rank(old(blocks)@, sub_dag_rank()),
{
    let rank = |b: &VerifiedBlock| -> (k: u64)
        ensures
            k == round_then_author(*b),
        {
            b.round() as u64 * 0x1_0000_0000 + b.author().0 as u64
        };
    sort_by_rank(blocks, rank, Ghost(sub_dag_rank()));
}

/// The status of a leader slot from the direct and indirect commit rules.
#[derive(PartialEq, Debug)]
pub enum LeaderStatus {
    Commit(VerifiedBlock),
    Skip(Slot),
    Undecided(Slot),
}

impl Clone for LeaderStatus {
    fn clone(&self) -> (r: Self)
        ensures
            r == *self,
    {
        match self {
            LeaderStatus::Commit(block) => LeaderStatus::Commit(block.clone()),
            LeaderStatus::Skip(slot) => LeaderStatus::Skip(*slot),
            LeaderStatus::Undecided(slot) => LeaderStatus::Undecided(*slot),
        }
    }
}

impl LeaderStatus {
    pub open spec fn spec_round(&self) -> Round {
        match self {
            LeaderStatus::Commit(block) => block.block().round,
            LeaderStatus::Skip(slot) => slot.round,
            LeaderStatus::Undecided(slot) => slot.round,
        }
    }

    pub open spec fn decided(&self) -> bool {
        !(self is Undecided)
    }

    /// The decision that this status stands for, if it is one.
    pub open spec fn as_decision(self, direct: bool) -> Option<DecidedLeader> {
        match self {
            LeaderStatus::Commit(block) => Some(DecidedLeader::Commit(block, direct)),
            LeaderStatus::Skip(slot) => Some(DecidedLeader::Skip(slot)),
            LeaderStatus::Undecided(_) => None,
        }
    }

    pub fn round(&self) -> (r: Round)
        ensures
            r == self.spec_round(),
    {
        match self {
            LeaderStatus::Commit(block) => block.round(),
            LeaderStatus::Skip(leader) => leader.round,
            LeaderStatus::Undecided(leader) => leader.round,
        }
    }

    pub fn is_decided(&self) -> (r: bool)
        ensures
            r == self.decided(),
    {
        match self {
            LeaderStatus::Commit(_) => true,
            LeaderStatus::Skip(_) => true,
            LeaderStatus::Undecided(_) => false,
        }
    }

    pub fn into_decided_leader(self, direct: bool) -> (r: Option<DecidedLeader>)
        ensures
            r == self.as_decision(direct),
    {
        match self {
            LeaderStatus::Commit(block) => Some(DecidedLeader::Commit(block, direct)),
            LeaderStatus::Skip(slot) => Some(DecidedLeader::Skip(slot)),
            LeaderStatus::Undecided(_) => None,
        }
    }

    /// The rendered form: `Commit(B3(..))`, `Skip([3]3)` or `Undecided([3]3)`.
    pub open spec fn text(&self) -> Seq<char> {
        match self {
            LeaderStatus::Commit(block) => seq!['C', 'o', 'm', 'm', 'i', 't', '(']
                + block.spec_ref().text() + seq![')'],
            LeaderStatus::Skip(slot) => seq!['S', 'k', 'i', 'p', '('] + slot.text() + seq![')'],
            LeaderStatus::Undecided(slot) => seq![
                'U',
                'n',
                'd',
                'e',
                'c',
                'i',
                'd',
                'e',
                'd',
                '(',
            ] + slot.text() + seq![')'],
        }
    }

    /// Renders the status with the block or slot it is about.
    pub fn to_text(&self) -> (r: String)
        ensures
            r@ == self.text(),
    {
        proof {
            reveal_strlit("Commit(");
            reveal_strlit("Skip(");
            reveal_strlit("Undecided(");
            reveal_strlit(")");
            assert("Commit("@ == seq!['C', 'o', 'm', 'm', 'i', 't', '(']);
            assert("Skip("@ == seq!['S', 'k', 'i', 'p', '(']);
            assert("Undecided("@ == seq!['U', 'n', 'd', 'e', 'c', 'i', 'd', 'e', 'd', '(']);
            assert(")"@ == seq![')']);
        }
        let mut out = String::new();
        match self {
            LeaderStatus::Commit(block) => {
                out.append("Commit(");
                out.append(block.to_text().as_str());
            },
            LeaderStatus::Skip(slot) => {
                out.append("Skip(");
                out.append(slot.to_text().as_str());
            },
            LeaderStatus::Undecided(slot) => {
                out.append("Undecided(");
                out.append(slot.to_text().as_str());
            },
        }
        out.append(")");
        assert(out@ =~= self.text());
        out
    }
}

/// Decision of each leader slot, after all undecided leaders are resolved.
#[derive(PartialEq, Debug)]
pub enum DecidedLeader {
    /// The committed leader block; the bool indicates whether it was a direct commit.
    Commit(VerifiedBlock, bool),
    /// The leader slot was skipped (no block committed).
    Skip(Slot),
}

impl Clone for DecidedLeader {
    fn clone(&self) -> (r: Self)
        ensures
            r == *self,
    {
        match self {
            DecidedLeader::Commit(block, direct) => DecidedLeader::Commit(block.clone(), *direct),
            DecidedLeader::Skip(slot) => DecidedLeader::Skip(*slot),
        }
    }
}

impl DecidedLeader {
    pub open spec fn spec_slot(&self) -> Slot {
        match self {
            DecidedLeader::Commit(block, _) => block.spec_ref().slot(),
            DecidedLeader::Skip(slot) => *slot,
        }
    }

    pub fn slot(&self) -> (r: Slot)
        ensures
            r == self.spec_slot(),
    {
        match self {
            DecidedLeader::Commit(block, _) => block.slot(),
            DecidedLeader::Skip(slot) => *slot,
        }
    }

    pub fn into_committed_block(self) -> (r: Option<VerifiedBlock>)
        ensures
            r == (match self {
                DecidedLeader::Commit(block, _) => Some(block),
                DecidedLeader::Skip(_) => None,
            }),
    {
        match self {
            DecidedLeader::Commit(block, _) => Some(block),
            DecidedLeader::Skip(_) => None,
        }
    }

    pub fn round(&self) -> (r: Round)
        ensures
            r == self.spec_slot().round,
    {
        self.slot().round
    }

    pub fn authority(&self) -> (r: AuthorityIndex)
        ensures
            r == self.spec_slot().authority,
    {
        self.slot().authority
    }
}

/// Whether a commit was reached via direct or indirect rule.
#[derive(Clone, Copy, PartialEq, Eq, Structural, Debug)]
pub enum Decision {
    Direct,
    Indirect,
}

/// A status is of the round of its block or slot; it stands for a decision exactly if it is a commit
/// or a skip, and the decision is about the same block or slot.
pub proof fn law_status_and_decision(block: VerifiedBlock, slot: Slot, direct: bool)
    ensures
        LeaderStatus::Commit(block).spec_round() == block.block().round,
        LeaderStatus::Skip(slot).spec_round() == slot.round,
        LeaderStatus::Undecided(slot).spec_round() == slot.round,
        LeaderStatus::Commit(block).decided(),
        LeaderStatus::Skip(slot).decided(),
        !LeaderStatus::Undecided(slot).decided(),
        LeaderStatus::Commit(block).as_decision(direct) == Some(
            DecidedLeader::Commit(block, direct),
        ),
        LeaderStatus::Skip(slot).as_decision(direct) == Some(DecidedLeader::Skip(slot)),
        LeaderStatus::Undecided(slot).as_decision(direct) is None,
        DecidedLeader::Commit(block, direct).spec_slot() == (Slot {
            round: block.block().round,
            authority: block.block().author,
        }),
        DecidedLeader::Skip(slot).spec_slot() == slot,
{
}

/// How commits and statuses are written.
pub proof fn law_commit_forms(c: CommitRef, d: CommittedSubDag, block: VerifiedBlock, slot: Slot)
    ensures
        c.text() == seq!['C'] + decimal(c.index as nat) + seq!['('] + hex(c.digest.0@.take(4))
            + seq![')'],
        d.text() == d.commit_ref.text() + seq!['@'] + d.leader.text() + seq![' ', '[']
            + comma_joined(d.blocks@.map_values(|b: VerifiedBlock| b.spec_ref().text())) + seq![
            ']',
        ],
        LeaderStatus::Commit(block).text() == seq!['C', 'o', 'm', 'm', 'i', 't', '(']
            + block.spec_ref().text() + seq![')'],
        LeaderStatus::Skip(slot).text() == seq!['S', 'k', 'i', 'p', '('] + slot.text() + seq![')'],
{
    assert(refs_of(d.blocks@).map_values(|r: BlockRef| r.text()) =~= d.blocks@.map_values(
        |b: VerifiedBlock| b.spec_ref().text(),
    ));
}

} // verus!
