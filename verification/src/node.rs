//! The consensus pipeline of one validator.

use std::sync::Arc;

use vstd::prelude::*;

use crate::base_committer::{BaseCommitterOptions, ConflictingLeaders};
use crate::block_manager::{
    by_round, fit, grows, law_offers_keep_whole, round_rank, whole, BlockManager, Intake,
};
use crate::causal::{
    closed_above, complete, has_ref, history_present, lemma_leads_down, points_back,
};
use crate::commit::{CommitDigest, CommittedSubDag, DecidedLeader, DEFAULT_WAVE_LENGTH};
use crate::committee::{AuthorityIndex, Committee};
use crate::context::Context;
use crate::dag_state::{commit_preimage, is_initial, DagModel, DagState};
use crate::hashing::sha3_256;
use crate::linearizer::{
    commit_timestamp, law_commit_covers_history, lemma_history_stored, sealed, sub_dag, Linearizer,
};
use crate::shared;
use crate::shared::{ConsensusEvent, EthSignedTx, OurCommittedSubDag, OurVerifiedBlock};
use crate::soft_commit::{SoftCommitTracker, SoftVotes};
use crate::stable_sort::lemma_sorted_by_rank;
use crate::types::{BlockRef, Round, Slot, Transaction, VerifiedBlock, GENESIS_ROUND};
use crate::universal_committer::{
    decisions, law_decisions_follow_slots, law_single_committer_ascends, leaders_at_offset,
    open_leader, open_slots, UniversalCommitter, UniversalCommitterBuilder,
};

verus! {

/// `r` as it is known outside the consensus layer.
pub open spec fn shared_ref(r: BlockRef) -> shared::BlockRef {
    shared::BlockRef {
        round: r.round as u64,
        author: r.author.0 as u64,
        digest: shared::BlockDigest(r.digest.0),
    }
}

/// Converts a reference for use outside the consensus layer.
pub fn to_shared_block_ref(r: &BlockRef) -> (out: shared::BlockRef)
    ensures
        out == shared_ref(*r),
{
    shared::BlockRef {
        round: r.round as u64,
        author: r.author.0 as u64,
        digest: shared::BlockDigest(r.digest.0),
    }
}

/// A block as an event shows it.
#[verifier::ext_equal]
pub struct BlockView {
    pub block_ref: shared::BlockRef,
    pub txs: Seq<Seq<u8>>,
}

/// What an event says.
#[verifier::ext_equal]
pub enum EventView {
    SoftCommit { round: u64, leader: shared::BlockRef, txs: Seq<Seq<u8>> },
    HardCommit {
        leader: shared::BlockRef,
        blocks: Seq<BlockView>,
        timestamp_ms: u64,
        commit_index: u64,
    },
}

impl View for OurVerifiedBlock {
    type V = BlockView;

    open spec fn view(&self) -> BlockView {
        BlockView { block_ref: self.block_ref, txs: shared::payload_of(self.txs@) }
    }
}

impl View for ConsensusEvent {
    type V = EventView;

    open spec fn view(&self) -> EventView {
        match self {
            ConsensusEvent::SoftCommit { round, leader, txs } => EventView::SoftCommit {
                round: *round,
                leader: *leader,
                txs: shared::payload_of(txs@),
            },
            ConsensusEvent::HardCommit { subdag } => EventView::HardCommit {
                leader: subdag.leader,
                blocks: subdag.blocks@.map_values(|b: OurVerifiedBlock| b@),
                timestamp_ms: subdag.timestamp_ms,
                commit_index: subdag.commit_index,
            },
        }
    }
}

/// What each of `events` says.
pub open spec fn views_of(events: Seq<ConsensusEvent>) -> Seq<EventView> {
    events.map_values(|e: ConsensusEvent| e@)
}

/// All transactions of `blocks`, block by block.
pub open spec fn txs_of(blocks: Seq<VerifiedBlock>) -> Seq<Seq<u8>>
    decreases blocks.len(),
{
    if blocks.len() == 0 {
        Seq::empty()
    } else {
        txs_of(blocks.drop_last()) + blocks.last().payload()
    }
}

/// `b` as an event shows it.
pub open spec fn block_view(b: VerifiedBlock) -> BlockView {
    BlockView { block_ref: shared_ref(b.spec_ref()), txs: b.payload() }
}

/// The event of committing `leader` on `dag`.
pub open spec fn hard_event(dag: DagModel, leader: VerifiedBlock) -> EventView {
    EventView::HardCommit {
        leader: shared_ref(leader.spec_ref()),
        blocks: sub_dag(dag, leader).map_values(|b: VerifiedBlock| block_view(b)),
        timestamp_ms: commit_timestamp(dag, leader),
        commit_index: (dag.last_index + 1) as u64,
    }
}

/// The event of soft-committing `leader` on `dag`.
pub open spec fn soft_event(dag: DagModel, leader: BlockRef) -> EventView {
    EventView::SoftCommit {
        round: leader.round as u64,
        leader: shared_ref(leader),
        txs: txs_of(dag.causal(leader, 0)),
    }
}

/// Copies the transactions of a block for use outside the consensus layer.
fn to_shared_txs(txs: &[Transaction], out: &mut Vec<EthSignedTx>)
    ensures
        shared::payload_of(final(out)@) == shared::payload_of(old(out)@) + txs@.map_values(
            |t: Transaction| t.0@,
        ),
{
    let ghost before = shared::payload_of(out@);
    let mut i: usize = 0;
    assert(shared::payload_of(out@) =~= before + txs@.take(0).map_values(|t: Transaction| t.0@));
    while i < txs.len()
        invariant
            i <= txs@.len(),
            shared::payload_of(out@) == before + txs@.take(i as int).map_values(
                |t: Transaction| t.0@,
            ),
        decreases txs@.len() - i,
    {
        let bytes = txs[i].0.clone();
        let ghost so_far = out@;
        assert(bytes@ =~= txs@[i as int].0@);
        out.push(EthSignedTx(bytes));
        proof {
            assert(shared::payload_of(out@) =~= shared::payload_of(so_far).push(bytes@));
            assert(txs@.take(i + 1).map_values(|t: Transaction| t.0@) =~= txs@.take(
                i as int,
            ).map_values(|t: Transaction| t.0@).push(bytes@));
            assert(shared::payload_of(out@) =~= before + txs@.take(i + 1).map_values(
                |t: Transaction| t.0@,
            ));
        }
        i += 1;
    }
    assert(txs@.take(txs@.len() as int) =~= txs@);
}

/// Converts a commit for use outside the consensus layer.
pub fn to_shared_subdag(subdag: &CommittedSubDag) -> (r: OurCommittedSubDag)
    ensures
        r.leader == shared_ref(subdag.leader),
        r.blocks@.map_values(|b: OurVerifiedBlock| b@) == subdag.blocks@.map_values(
            |b: VerifiedBlock| block_view(b),
        ),
        r.timestamp_ms == subdag.timestamp_ms,
        r.commit_index == subdag.commit_ref.index,
{
    let mut blocks: Vec<OurVerifiedBlock> = Vec::new();
    let mut i: usize = 0;
    while i < subdag.blocks.len()
        invariant
            i <= subdag.blocks@.len(),
            blocks@.len() == i,
            forall|j: int| 0 <= j < i ==> (#[trigger] blocks@[j])@ == block_view(subdag.blocks@[j]),
        decreases subdag.blocks@.len() - i,
    {
        let block = &subdag.blocks[i];
        let mut txs: Vec<EthSignedTx> = Vec::new();
        assert(shared::payload_of(txs@) =~= Seq::<Seq<u8>>::empty());
        to_shared_txs(block.transactions(), &mut txs);
        assert(shared::payload_of(txs@) =~= block.payload());
        let ghost so_far = blocks@;
        blocks.push(
            OurVerifiedBlock { block_ref: to_shared_block_ref(&block.reference()), txs },
        );
        assert(blocks@[i as int]@ == block_view(subdag.blocks@[i as int]));
        i += 1;
    }
    assert(blocks@.map_values(|b: OurVerifiedBlock| b@) =~= subdag.blocks@.map_values(
        |b: VerifiedBlock| block_view(b),
    ));
    OurCommittedSubDag {
        leader: to_shared_block_ref(&subdag.leader),
        blocks,
        timestamp_ms: subdag.timestamp_ms,
        commit_index: subdag.commit_ref.index as u64,
    }
}

/// Whether the ancestor `p` of `block` is the leader of the round that `block` votes on.
pub open spec fn is_soft_vote(block: VerifiedBlock, p: BlockRef, size: nat) -> bool {
    &&& p.round + 1 == block.block().round
    &&& SoftCommitTracker::leads(p.round)
    &&& p.author.0 == p.round as int % size as int
}

/// The votes once the first `n` ancestors of `block` are counted.
pub open spec fn votes_after(
    votes: SoftVotes,
    committee: Committee,
    block: VerifiedBlock,
    n: int,
) -> SoftVotes
    decreases n,
{
    if n <= 0 || n > block.parents().len() {
        votes
    } else {
        let before = votes_after(votes, committee, block, n - 1);
        let p = block.parents()[n - 1];
        if is_soft_vote(block, p, committee.members().len()) {
            before.vote(p, block.block().author, committee)
        } else {
            before
        }
    }
}

/// The events that the first `n` ancestors of `block` give rise to.
pub open spec fn soft_events(
    votes: SoftVotes,
    dag: DagModel,
    committee: Committee,
    block: VerifiedBlock,
    n: int,
) -> Seq<EventView>
    decreases n,
{
    if n <= 0 || n > block.parents().len() {
        Seq::empty()
    } else {
        let events = soft_events(votes, dag, committee, block, n - 1);
        let p = block.parents()[n - 1];
        if is_soft_vote(block, p, committee.members().len()) && votes_after(
            votes,
            committee,
            block,
            n - 1,
        ).fires(p, block.block().author, committee) {
            events.push(soft_event(dag, p))
        } else {
            events
        }
    }
}

/// The votes once all of `block` is counted.
pub open spec fn votes_with(votes: SoftVotes, committee: Committee, block: VerifiedBlock) -> SoftVotes {
    votes_after(votes, committee, block, block.parents().len() as int)
}

/// The votes once all of `blocks` are counted, one after the other.
pub open spec fn votes_with_all(
    votes: SoftVotes,
    committee: Committee,
    blocks: Seq<VerifiedBlock>,
) -> SoftVotes
    decreases blocks.len(),
{
    if blocks.len() == 0 {
        votes
    } else {
        votes_with(votes_with_all(votes, committee, blocks.drop_last()), committee, blocks.last())
    }
}

/// The soft commits that `blocks` give rise to, one after the other.
pub open spec fn all_soft_events(
    votes: SoftVotes,
    dag: DagModel,
    committee: Committee,
    blocks: Seq<VerifiedBlock>,
) -> Seq<EventView>
    decreases blocks.len(),
{
    if blocks.len() == 0 {
        Seq::empty()
    } else {
        let last = blocks.last();
        all_soft_events(votes, dag, committee, blocks.drop_last()) + soft_events(
            votes_with_all(votes, committee, blocks.drop_last()),
            dag,
            committee,
            last,
            last.parents().len() as int,
        )
    }
}

/// The digest with the given bytes.
pub open spec fn digest_with(bytes: Seq<u8>) -> CommitDigest {
    choose|d: CommitDigest| d.0@ == bytes
}

/// The DAG once `leader` is committed.
pub open spec fn committed_with(dag: DagModel, leader: VerifiedBlock) -> DagModel {
    DagModel {
        last_index: (dag.last_index + 1) as u32,
        last_digest: digest_with(
            sha3_256(commit_preimage((dag.last_index + 1) as u32, leader.spec_ref())),
        ),
        last_timestamp: commit_timestamp(dag, leader),
        last_round: leader.block().round,
        ..sealed(dag, leader)
    }
}

/// The DAG once `decided` have been carried out, in order.
pub open spec fn dag_after(dag: DagModel, decided: Seq<DecidedLeader>) -> DagModel
    decreases decided.len(),
{
    if decided.len() == 0 {
        dag
    } else {
        let before = dag_after(dag, decided.drop_last());
        match decided.last() {
            DecidedLeader::Commit(leader, _) => committed_with(before, leader),
            DecidedLeader::Skip(_) => before,
        }
    }
}

/// The hard commits of `decided`, in order. A skipped leader makes no event.
pub open spec fn hard_events(dag: DagModel, decided: Seq<DecidedLeader>) -> Seq<EventView>
    decreases decided.len(),
{
    if decided.len() == 0 {
        Seq::empty()
    } else {
        let events = hard_events(dag, decided.drop_last());
        match decided.last() {
            DecidedLeader::Commit(leader, _) => events.push(
                hard_event(dag_after(dag, decided.drop_last()), leader),
            ),
            DecidedLeader::Skip(_) => events,
        }
    }
}

/// The last slot decided once `decided` have been carried out.
pub open spec fn last_after(last: Slot, decided: Seq<DecidedLeader>) -> Slot {
    if decided.len() == 0 {
        last
    } else {
        decided.last().spec_slot()
    }
}

/// What a node knows.
#[verifier::ext_equal]
pub struct NodeModel {
    pub intake: Intake,
    pub votes: SoftVotes,
    pub last: Slot,
}

/// What a node does with a batch of blocks.
#[verifier::ext_equal]
pub struct NodeStep {
    pub node: NodeModel,
    pub events: Seq<EventView>,
    pub conflict: Option<ConflictingLeaders>,
}

/// The options of the node's one committer.
pub open spec fn node_options() -> BaseCommitterOptions {
    BaseCommitterOptions { wave_length: DEFAULT_WAVE_LENGTH, leader_offset: 0, round_offset: 0 }
}

impl NodeModel {
    /// The node after `blocks`: they are taken in by round, the accepted ones are counted
    /// as votes, and then every leader that can be decided is carried out.
    pub open spec fn accept(self, blocks: Seq<VerifiedBlock>, committee: Committee) -> NodeStep {
        let sorted = by_round(blocks);
        let intake = self.intake.offer_all(sorted, committee);
        let accepted = self.intake.accepted_from_all(sorted, committee);
        let votes = votes_with_all(self.votes, committee, accepted);
        let soft = all_soft_events(self.votes, intake.dag, committee, accepted);
        match decisions(committee, seq![node_options()], intake.dag, self.last) {
            Err(e) => NodeStep {
                node: NodeModel { intake, votes, last: self.last },
                events: soft,
                conflict: Some(e),
            },
            Ok(decided) => NodeStep {
                node: NodeModel {
                    intake: Intake { dag: dag_after(intake.dag, decided), pool: intake.pool },
                    votes,
                    last: last_after(self.last, decided),
                },
                events: soft + hard_events(intake.dag, decided),
                conflict: None,
            },
        }
    }

    /// Whether a node may be handed `block`: it fits the DAG and its ancestors come from
    /// earlier rounds.
    pub open spec fn admits(self, block: VerifiedBlock, committee: Committee) -> bool {
        fit(self.intake.dag, committee, block) && points_back(block)
    }

    /// What holds between two calls.
    pub open spec fn sound(self, committee: Committee) -> bool {
        let dag = self.intake.dag;
        &&& dag.valid(committee)
        &&& self.intake.settled(committee)
        &&& whole(self.intake)
        &&& self.votes.settled(committee)
        &&& closed_above(dag.stored, dag.committed, 0)
        &&& dag.committed.subset_of(dag.stored.dom())
        &&& self.last.round == 0 || node_options().elected(
            self.last.round,
            committee.members().len(),
        ) == Some(self.last)
        &&& dag.last_index <= self.last.round
        &&& forall|r: BlockRef| #[trigger]
            dag.committed.contains(r) ==> r.round <= self.last.round
    }
}

/// Blocks without a soft vote among their ancestors change no votes and make no event.
proof fn lemma_no_soft_votes(
    votes: SoftVotes,
    dag: DagModel,
    committee: Committee,
    block: VerifiedBlock,
    n: int,
)
    requires
        forall|p: BlockRef| !is_soft_vote(block, p, committee.members().len()),
    ensures
        votes_after(votes, committee, block, n) == votes,
        soft_events(votes, dag, committee, block, n) == Seq::<EventView>::empty(),
    decreases n,
{
    if 0 < n <= block.parents().len() {
        lemma_no_soft_votes(votes, dag, committee, block, n - 1);
    }
}

/// A digest is known by its bytes.
proof fn lemma_digest_with(d: CommitDigest)
    ensures
        digest_with(d.0@) == d,
{
    let chosen = digest_with(d.0@);
    assert(chosen.0@ == d.0@);
    assert(chosen.0 =~= d.0);
}

/// What holds of a DAG between two commits, `last` being the slot decided last.
pub open spec fn commits_sound(dag: DagModel, last: Slot, committee: Committee) -> bool {
    &&& dag.valid(committee)
    &&& complete(dag.stored)
    &&& closed_above(dag.stored, dag.committed, 0)
    &&& dag.committed.subset_of(dag.stored.dom())
    &&& dag.last_index <= last.round
    &&& forall|r: BlockRef| #[trigger] dag.committed.contains(r) ==> r.round <= last.round
}

/// Committing a stored leader of a later round keeps the DAG sound.
pub proof fn lemma_commit_keeps_sound(
    dag: DagModel,
    last: Slot,
    leader: VerifiedBlock,
    committee: Committee,
)
    requires
        commits_sound(dag, last, committee),
        dag.stored.contains_key(leader.spec_ref()),
        dag.stored[leader.spec_ref()] == leader,
        last.round < leader.block().round,
    ensures
        commits_sound(committed_with(dag, leader), leader.spec_ref().slot(), committee),
        committed_with(dag, leader).stored == dag.stored,
        committed_with(dag, leader).highest == dag.highest,
        committed_with(dag, leader).clock == dag.clock,
{
    let r = leader.spec_ref();
    assert(!dag.committed.contains(r));
    law_commit_covers_history(dag, leader);
    let after = committed_with(dag, leader);
    assert forall|x: BlockRef| #[trigger] after.committed.contains(x) implies x.round <= r.round
        && dag.stored.contains_key(x) by {
        assert(sealed(dag, leader).committed.contains(x));
        if !dag.committed.contains(x) {
            assert(has_ref(sub_dag(dag, leader), x));
            if x != r {
                lemma_leads_down(dag.stored, leader, x);
            }
        }
    }
    assert forall|x: BlockRef| #[trigger] after.stored.contains_key(x) && x.round == 0 implies
        after.committed.contains(x) by {
        assert(dag.committed.contains(x));
        assert(sealed(dag, leader).committed.contains(x));
    }
}

/// The result of handing blocks to a node.
#[derive(Debug)]
pub struct AcceptOutcome {
    /// Soft commits first, then hard commits.
    pub events: Vec<ConsensusEvent>,
    /// The slot, if any, at which deciding leaders had to stop because of a conflict.
    pub conflict: Option<ConflictingLeaders>,
}

/// Runs the full consensus pipeline for one validator node.
///
/// Takes blocks through [`ConsensusNode::accept_block`] and
/// [`ConsensusNode::accept_blocks`], and reports soft commits as soon as a quorum votes for
/// a leader and hard commits as soon as leaders are decided.
#[derive(Debug)]
pub struct ConsensusNode {
    pub(crate) context: Arc<Context>,
    pub(crate) dag_state: DagState,
    pub(crate) block_manager: BlockManager,
    pub(crate) committer: UniversalCommitter,
    pub(crate) linearizer: Linearizer,
    pub(crate) soft_commit: SoftCommitTracker,
    // Last leader slot that was decided (committed or skipped).
    pub(crate) last_decided: Slot,
}

impl View for ConsensusNode {
    type V = NodeModel;

    open(crate) spec fn view(&self) -> NodeModel {
        NodeModel {
            intake: Intake { dag: self.dag_state@, pool: self.block_manager@ },
            votes: self.soft_commit@,
            last: self.last_decided,
        }
    }
}

impl ConsensusNode {
    pub open(crate) spec fn spec_committee(&self) -> Committee {
        *self.context.committee
    }

    /// The parts belong to one committee and are in order.
    pub open(crate) spec fn assembled(&self) -> bool {
        &&& self.context.wf()
        &&& self.dag_state.wf()
        &&& self.dag_state.spec_committee() == self.spec_committee()
        &&& self.block_manager.wf(self.dag_state@)
        &&& self.block_manager.spec_committee() == self.spec_committee()
        &&& self.committer.wf()
        &&& self.committer.spec_committee() == self.spec_committee()
        &&& self.committer.options() == seq![node_options()]
        &&& self.soft_commit.wf(self.spec_committee())
    }

    pub open spec fn wf(&self) -> bool {
        &&& self.assembled()
        &&& self@.sound(self.spec_committee())
    }

    /// Creates a node that holds the genesis blocks.
    pub fn new(context: Arc<Context>) -> (r: Self)
        requires
            context.wf(),
        ensures
            r.wf(),
            r.spec_committee() == *context.committee,
            is_initial(r@.intake.dag, *context.committee),
            r@.intake.pool.waiting == Map::<BlockRef, VerifiedBlock>::empty(),
            r@.intake.pool.missing == Set::<BlockRef>::empty(),
            r@.votes == SoftVotes::none(),
            r@.last == (Slot { round: GENESIS_ROUND, authority: AuthorityIndex(0) }),
    {
        let dag_state = DagState::new(context.clone());
        let block_manager = BlockManager::new(context.clone());
        let builder = UniversalCommitterBuilder::new(context.clone());
        proof {
            assert(leaders_at_offset(DEFAULT_WAVE_LENGTH, 0, 1) =~= seq![node_options()]);
        }
        let committer = builder.build();
        let linearizer = Linearizer::new(context.clone());
        let soft_commit = SoftCommitTracker::new();
        // The genesis slot (round 0, authority 0) acts as the sentinel "last decided".
        let last_decided = Slot::new(GENESIS_ROUND, AuthorityIndex(0));
        let r = ConsensusNode {
            context,
            dag_state,
            block_manager,
            committer,
            linearizer,
            soft_commit,
            last_decided,
        };
        proof {
            assert(r.block_manager.wf(r.dag_state@));
            assert(r.soft_commit.wf(r.spec_committee()));
            let dag = r@.intake.dag;
            assert forall|x: BlockRef, p: BlockRef|
                #![trigger dag.committed.contains(x), dag.stored[x].parents().contains(p)]
                dag.committed.contains(x) && dag.stored.contains_key(x)
                    && dag.stored[x].parents().contains(p) && p.round > 0
                    && dag.stored.contains_key(p) implies dag.committed.contains(p) by {}
            assert forall|x: BlockRef| #[trigger] dag.committed.contains(x) implies x.round
                == 0 by {
                assert(dag.stored.contains_key(x));
            }
            assert(whole(r@.intake));
        }
        r
    }

    /// For a block at the voting round, check whether any of its ancestors is the wave
    /// leader of the round before. Each such reference counts as one vote. When a quorum
    /// of votes accumulates, a soft commit is reported.
    fn check_soft_commit(&mut self, block: &VerifiedBlock, events: &mut Vec<ConsensusEvent>)
        requires
            old(self).assembled(),
            old(self).spec_committee().has(block.block().author),
        ensures
            final(self).assembled(),
            final(self).context == old(self).context,
            final(self)@ == (NodeModel {
                votes: votes_with(old(self)@.votes, old(self).spec_committee(), *block),
                ..old(self)@
            }),
            views_of(final(events)@) == views_of(old(events)@) + soft_events(
                old(self)@.votes,
                old(self)@.intake.dag,
                old(self).spec_committee(),
                *block,
                block.parents().len() as int,
            ),
    {
        let ghost committee = self.spec_committee();
        let ghost votes = self@.votes;
        let ghost dag = self@.intake.dag;
        let ghost told = views_of(events@);
        let ghost n = block.parents().len() as int;
        let round: Round = block.round();
        if round < 2 || !SoftCommitTracker::is_leader_round(round - 1) {
            proof {
                lemma_no_soft_votes(votes, dag, committee, *block, n);
                assert(views_of(events@) =~= told + Seq::<EventView>::empty());
            }
            return;
        }
        let potential_leader_round: Round = round - 1;
        let committee_size: usize = self.context.committee.size();
        let expected_leader = SoftCommitTracker::leader_at_round(
            potential_leader_round,
            committee_size,
        );
        let voter = block.author();
        let ancestors = block.ancestors();
        let mut i: usize = 0;
        assert(views_of(events@) =~= told + soft_events(votes, dag, committee, *block, 0));
        while i < ancestors.len()
            invariant
                self.assembled(),
                self.context == old(self).context,
                committee == self.spec_committee(),
                committee.has(voter),
                voter == block.block().author,
                ancestors@ == block.parents(),
                n == block.parents().len(),
                potential_leader_round + 1 == block.block().round,
                SoftCommitTracker::leads(potential_leader_round),
                expected_leader.0 == potential_leader_round as int
                    % committee.members().len() as int,
                i <= ancestors@.len(),
                dag == old(self)@.intake.dag,
                self@ == (NodeModel {
                    votes: votes_after(votes, committee, *block, i as int),
                    ..old(self)@
                }),
                views_of(events@) == told + soft_events(votes, dag, committee, *block, i as int),
            decreases ancestors@.len() - i,
        {
            let ancestor = ancestors[i];
            let ghost here = votes_after(votes, committee, *block, i as int);
            let ghost sofar = soft_events(votes, dag, committee, *block, i as int);
            if ancestor.round == potential_leader_round && ancestor.author == expected_leader {
                assert(is_soft_vote(*block, ancestor, committee.members().len()));
                if self.soft_commit.add_vote(ancestor, voter, &self.context.committee) {
                    let gc_round = self.dag_state.gc_round();
                    let blocks = self.dag_state.get_causal_blocks(&ancestor, gc_round);
                    let txs = collect_txs(blocks.as_slice());
                    let ghost before = events@;
                    let event = ConsensusEvent::SoftCommit {
                        round: potential_leader_round as u64,
                        leader: to_shared_block_ref(&ancestor),
                        txs,
                    };
                    assert(event@ == soft_event(dag, ancestor));
                    events.push(event);
                    proof {
                        assert(views_of(events@) =~= views_of(before).push(event@));
                        assert(views_of(events@) =~= told + sofar.push(
                            soft_event(dag, ancestor),
                        ));
                    }
                }
            } else {
                assert(!is_soft_vote(*block, ancestor, committee.members().len()));
            }
            i += 1;
        }
    }

    /// Runs the committer and carries out every newly decided leader.
    fn try_hard_commit(&mut self, events: &mut Vec<ConsensusEvent>) -> (r: Option<
        ConflictingLeaders,
    >)
        requires
            old(self).wf(),
        ensures
            final(self).wf(),
            final(self).context == old(self).context,
            match decisions(
                old(self).spec_committee(),
                seq![node_options()],
                old(self)@.intake.dag,
                old(self)@.last,
            ) {
                Err(e) => {
                    &&& r == Some(e)
                    &&& final(self)@ == old(self)@
                    &&& views_of(final(events)@) == views_of(old(events)@)
                },
                Ok(decided) => {
                    &&& r is None
                    &&& final(self)@ == (NodeModel {
                        intake: Intake {
                            dag: dag_after(old(self)@.intake.dag, decided),
                            pool: old(self)@.intake.pool,
                        },
                        last: last_after(old(self)@.last, decided),
                        ..old(self)@
                    })
                    &&& views_of(final(events)@) == views_of(old(events)@) + hard_events(
                        old(self)@.intake.dag,
                        decided,
                    )
                },
            },
    {
        let ghost committee = self.spec_committee();
        let ghost start = self@;
        let ghost dag0 = self@.intake.dag;
        let ghost last0 = self@.last;
        let ghost told = views_of(events@);
        let decided = match self.committer.try_decide(&self.dag_state, self.last_decided) {
            Err(e) => {
                return Some(e);
            },
            Ok(decided) => decided,
        };
        let ghost list = decided@;
        let ghost slots = open_slots(
            seq![node_options()],
            committee.members().len(),
            dag0.highest,
            last0,
        );
        proof {
            law_decisions_follow_slots(committee, seq![node_options()], dag0, last0);
            law_single_committer_ascends(
                node_options(),
                committee.members().len(),
                dag0.highest,
                last0,
            );
            assert(list.take(0) =~= Seq::<DecidedLeader>::empty());
            assert(views_of(events@) =~= told + hard_events(dag0, list.take(0)));
        }
        let mut i: usize = 0;
        while i < decided.len()
            invariant
                self.assembled(),
                self.context == old(self).context,
                committee == self.spec_committee(),
                list == decided@,
                i <= list.len() <= slots.len(),
                start.sound(committee),
                dag0 == start.intake.dag,
                last0 == start.last,
                forall|k: int|
                    0 <= k < list.len() ==> (#[trigger] list[k]).spec_slot() == slots[k].slot,
                forall|k: int|
                    #![trigger list[k]]
                    0 <= k < list.len() ==> (list[k] matches DecidedLeader::Commit(b, _)
                        ==> open_leader(dag0, slots[k].slot, b)),
                forall|k: int|
                    0 <= k < slots.len() ==> {
                        let e = #[trigger] slots[k];
                        &&& last0.round < e.slot.round
                        &&& e.slot.round + 2 <= dag0.highest
                        &&& node_options().elected(e.slot.round, committee.members().len())
                            == Some(e.slot)
                    },
                forall|k: int, j: int|
                    0 <= k < j < slots.len() ==> (#[trigger] slots[k]).slot.round < (
                    #[trigger] slots[j]).slot.round,
                self@ == (NodeModel {
                    intake: Intake {
                        dag: dag_after(dag0, list.take(i as int)),
                        pool: start.intake.pool,
                    },
                    last: last_after(last0, list.take(i as int)),
                    ..start
                }),
                self@.intake.dag.stored == dag0.stored,
                commits_sound(self@.intake.dag, self@.last, committee),
                i > 0 ==> self@.last == slots[i - 1].slot,
                i == 0 ==> self@.last == last0,
                views_of(events@) == told + hard_events(dag0, list.take(i as int)),
            decreases list.len() - i,
        {
            let ghost here = self@.intake.dag;
            let ghost sofar = hard_events(dag0, list.take(i as int));
            proof {
                let now = list.take(i + 1);
                assert(now.drop_last() =~= list.take(i as int));
                assert(now.last() == list[i as int]);
                if i > 0 {
                    assert(slots[i - 1].slot.round < slots[i as int].slot.round);
                }
                assert(self@.last.round < slots[i as int].slot.round);
            }
            let slot = decided[i].slot();
            match &decided[i] {
                DecidedLeader::Commit(leader_block, _direct) => {
                    let leader_block = leader_block.clone();
                    proof {
                        assert(list[i as int] == decided@[i as int]);
                        assert(open_leader(dag0, slots[i as int].slot, leader_block));
                        assert(here.stored.contains_key(leader_block.spec_ref()));
                        assert(!here.committed.contains(leader_block.spec_ref()));
                        lemma_history_stored(here, leader_block);
                        lemma_commit_keeps_sound(here, self@.last, leader_block, committee);
                    }
                    let ghost manager = self.block_manager;
                    let subdag = self.linearizer.commit_leader(&mut self.dag_state, leader_block);
                    let event = ConsensusEvent::HardCommit { subdag: to_shared_subdag(&subdag) };
                    let ghost before = events@;
                    proof {
                        lemma_digest_with(subdag.commit_ref.digest);
                        assert(self.dag_state@ =~= committed_with(here, leader_block));
                        assert(event@ =~= hard_event(here, leader_block));
                        assert(manager.wf(self.dag_state@)) by {
                            lemma_same_store(manager, here, self.dag_state@);
                        }
                    }
                    events.push(event);
                    proof {
                        assert(views_of(events@) =~= views_of(before).push(event@));
                        assert(views_of(events@) =~= told + sofar.push(
                            hard_event(here, leader_block),
                        ));
                    }
                },
                DecidedLeader::Skip(_) => {
                    // No event for skipped leaders: the commit indices leave no gap.
                },
            }
            self.last_decided = slot;
            i += 1;
        }
        proof {
            assert(list.take(list.len() as int) =~= list);
            let end = self@;
            assert(end.sound(committee));
        }
        None
    }

    /// Whether `block` may be handed to this node.
    pub fn is_acceptable(&self, block: &VerifiedBlock) -> (r: bool)
        requires
            self.wf(),
        ensures
            r == self@.admits(*block, self.spec_committee()),
    {
        if !self.context.committee.is_valid_index(block.author()) {
            return false;
        }
        if block.round() == u32::MAX {
            return false;
        }
        if block.round() == 0 && !self.dag_state.contains_block(&block.reference()) {
            return false;
        }
        let ancestors = block.ancestors();
        let mut i: usize = 0;
        while i < ancestors.len()
            invariant
                i <= ancestors@.len(),
                ancestors@ == block.parents(),
                forall|k: int|
                    0 <= k < i ==> (#[trigger] ancestors@[k]).round < block.block().round,
            decreases ancestors@.len() - i,
        {
            let ancestor = ancestors[i];
            if ancestor.round >= block.round() {
                assert(block.parents().contains(ancestor));
                return false;
            }
            i += 1;
        }
        proof {
            assert forall|p: BlockRef| #[trigger] block.parents().contains(p) implies p.round
                < block.block().round by {
                let k = block.parents().index_of(p);
                assert(ancestors@[k] == p);
            }
        }
        true
    }

    /// Accept a batch of blocks and run the commit pipeline once.
    pub fn accept_blocks(&mut self, blocks: Vec<VerifiedBlock>) -> (r: AcceptOutcome)
        requires
            old(self).wf(),
            forall|i: int|
                0 <= i < blocks@.len() ==> old(self)@.admits(
                    #[trigger] blocks@[i],
                    old(self).spec_committee(),
                ),
        ensures
            final(self).wf(),
            final(self).spec_committee() == old(self).spec_committee(),
            ({
                let step = old(self)@.accept(blocks@, old(self).spec_committee());
                &&& final(self)@ == step.node
                &&& views_of(r.events@) == step.events
                &&& r.conflict == step.conflict
            }),
    {
        let ghost committee = self.spec_committee();
        let ghost start = self@;
        let ghost sorted = by_round(blocks@);
        proof {
            lemma_sorted_by_rank(blocks@, round_rank());
            assert forall|i: int| 0 <= i < sorted.len() implies fit(
                start.intake.dag,
                committee,
                #[trigger] sorted[i],
            ) && points_back(sorted[i]) by {
                assert(sorted.contains(sorted[i]));
                let k = blocks@.index_of(sorted[i]);
                assert(start.admits(blocks@[k], committee));
            }
            law_offers_keep_whole(start.intake, sorted, committee);
        }
        let (accepted, _missing) = self.block_manager.try_accept_blocks(
            &mut self.dag_state,
            blocks,
        );
        let ghost taken = self@;
        let mut events: Vec<ConsensusEvent> = Vec::new();
        let ghost list = accepted@;
        proof {
            assert(list.take(0) =~= Seq::<VerifiedBlock>::empty());
            assert(views_of(events@) =~= all_soft_events(
                start.votes,
                taken.intake.dag,
                committee,
                list.take(0),
            ));
            assert forall|k: int| 0 <= k < list.len() implies committee.has(
                (#[trigger] list[k]).block().author,
            ) by {
                assert(has_ref(list, list[k].spec_ref()));
                assert(taken.intake.dag.stored.contains_key(list[k].spec_ref()));
            }
        }
        let mut i: usize = 0;
        while i < accepted.len()
            invariant
                self.assembled(),
                committee == self.spec_committee(),
                list == accepted@,
                i <= list.len(),
                forall|k: int|
                    0 <= k < list.len() ==> committee.has((#[trigger] list[k]).block().author),
                self@ == (NodeModel {
                    votes: votes_with_all(start.votes, committee, list.take(i as int)),
                    ..taken
                }),
                views_of(events@) == all_soft_events(
                    start.votes,
                    taken.intake.dag,
                    committee,
                    list.take(i as int),
                ),
            decreases list.len() - i,
        {
            self.check_soft_commit(&accepted[i], &mut events);
            proof {
                let now = list.take(i + 1);
                assert(now.drop_last() =~= list.take(i as int));
                assert(now.last() == list[i as int]);
            }
            i += 1;
        }
        proof {
            assert(list.take(list.len() as int) =~= list);
            lemma_growth_keeps_closed(start.intake, taken.intake, list);
            assert(self@.sound(committee));
        }
        let conflict = self.try_hard_commit(&mut events);
        AcceptOutcome { events, conflict }
    }

    /// Accept one block into the local DAG and run the commit pipeline.
    pub fn accept_block(&mut self, block: VerifiedBlock) -> (r: AcceptOutcome)
        requires
            old(self).wf(),
            old(self)@.admits(block, old(self).spec_committee()),
        ensures
            final(self).wf(),
            final(self).spec_committee() == old(self).spec_committee(),
            ({
                let step = old(self)@.accept(seq![block], old(self).spec_committee());
                &&& final(self)@ == step.node
                &&& views_of(r.events@) == step.events
                &&& r.conflict == step.conflict
            }),
    {
        let mut blocks: Vec<VerifiedBlock> = Vec::new();
        blocks.push(block);
        assert(blocks@ =~= seq![block]);
        self.accept_blocks(blocks)
    }

    /// The DAG of this node.
    pub fn dag(&self) -> (r: &DagState)
        requires
            self.wf(),
        ensures
            r@ == self@.intake.dag,
            r.wf(),
            r.spec_committee() == self.spec_committee(),
    {
        &self.dag_state
    }

    /// The last leader slot that was decided.
    pub fn last_decided(&self) -> (r: Slot)
        ensures
            r == self@.last,
    {
        self.last_decided
    }
}

/// Taking in blocks commits nothing, so the committed blocks go on lacking no ancestor.
pub proof fn lemma_growth_keeps_closed(before: Intake, after: Intake, accepted: Seq<VerifiedBlock>)
    requires
        grows(before, after, accepted),
        complete(before.dag.stored),
        closed_above(before.dag.stored, before.dag.committed, 0),
        before.dag.committed.subset_of(before.dag.stored.dom()),
    ensures
        closed_above(after.dag.stored, after.dag.committed, 0),
        after.dag.committed.subset_of(after.dag.stored.dom()),
{
    let old_dag = before.dag;
    let new_dag = after.dag;
    assert forall|r: BlockRef, p: BlockRef|
        #![trigger new_dag.committed.contains(r), new_dag.stored[r].parents().contains(p)]
        new_dag.committed.contains(r) && new_dag.stored.contains_key(r)
            && new_dag.stored[r].parents().contains(p) && p.round > 0
            && new_dag.stored.contains_key(p) implies new_dag.committed.contains(p) by {
        assert(old_dag.committed.contains(r));
        assert(old_dag.stored.dom().contains(r));
        assert(old_dag.stored.contains_key(r));
        assert(history_present(old_dag.stored[r], old_dag.stored));
        assert(old_dag.stored[r].parents().contains(p));
        assert(old_dag.stored.contains_key(p));
    }
    assert forall|r: BlockRef| #[trigger]
        new_dag.committed.contains(r) implies new_dag.stored.dom().contains(r) by {
        assert(old_dag.stored.dom().contains(r));
        assert(old_dag.stored.contains_key(r));
        assert(new_dag.stored.contains_key(r));
    }
}

/// A block manager serves any DAG with the same store.
proof fn lemma_same_store(manager: BlockManager, before: DagModel, after: DagModel)
    requires
        manager.wf(before),
        before.stored == after.stored,
    ensures
        manager.wf(after),
{
    let a = Intake { dag: before, pool: manager@ };
    let b = Intake { dag: after, pool: manager@ };
    assert(a.known() == b.known());
    assert forall|r: BlockRef| #[trigger] b.pool.waiting.contains_key(r) implies a.pool.waiting.contains_key(
        r,
    ) by {}
    assert(b.settled(manager.spec_committee()));
}

/// Collects the transactions of `blocks`, block by block.
fn collect_txs(blocks: &[VerifiedBlock]) -> (r: Vec<EthSignedTx>)
    ensures
        shared::payload_of(r@) == txs_of(blocks@),
{
    let mut out: Vec<EthSignedTx> = Vec::new();
    let mut i: usize = 0;
    assert(blocks@.take(0) =~= Seq::<VerifiedBlock>::empty());
    assert(shared::payload_of(out@) =~= txs_of(blocks@.take(0)));
    while i < blocks.len()
        invariant
            i <= blocks@.len(),
            shared::payload_of(out@) == txs_of(blocks@.take(i as int)),
        decreases blocks@.len() - i,
    {
        to_shared_txs(blocks[i].transactions(), &mut out);
        proof {
            let now = blocks@.take(i + 1);
            assert(now.drop_last() =~= blocks@.take(i as int));
            assert(now.last() == blocks@[i as int]);
        }
        i += 1;
    }
    assert(blocks@.take(blocks@.len() as int) =~= blocks@);
    out
}

} // verus!
