//! The commit rules for the leaders of one wave pattern.

use std::sync::Arc;

use vstd::arithmetic::div_mod::lemma_fundamental_div_mod;
use vstd::prelude::*;

use crate::causal::{complete, distinct, history_present, points_back, Store};
use crate::commit::{refs_of, LeaderStatus, WaveNumber, DEFAULT_WAVE_LENGTH};
use crate::committee::{
    faults_of, law_quorums_intersect, lemma_stake_monotone, lemma_stake_of_none, AuthorityIndex,
    Committee,
};
use crate::context::Context;
use crate::dag_state::{DagModel, DagState};
use crate::ordered::RefMap;
use crate::stake_aggregator::{QuorumThreshold, StakeAggregator};
use crate::text::{decimal, decimal_text};
use crate::types::{lemma_precedes_irreflexive, BlockRef, Round, Slot, VerifiedBlock};

verus! {

/// Which rounds a committer is responsible for, and which leader it elects there.
#[derive(Clone, Copy, PartialEq, Eq, Structural, Debug)]
pub struct BaseCommitterOptions {
    /// Length of one wave (at least three rounds).
    pub wave_length: Round,
    /// Leader offset for multi-leader setups; selects a different leader per committer.
    pub leader_offset: u32,
    /// Round offset for pipelining; shifts when a committer looks for a leader.
    pub round_offset: Round,
}

impl Default for BaseCommitterOptions {
    fn default() -> (r: Self)
        ensures
            r == (BaseCommitterOptions {
                wave_length: DEFAULT_WAVE_LENGTH,
                leader_offset: 0,
                round_offset: 0,
            }),
    {
        BaseCommitterOptions {
            wave_length: DEFAULT_WAVE_LENGTH,
            leader_offset: 0,
            round_offset: 0,
        }
    }
}

impl BaseCommitterOptions {
    /// The wave that `round` falls into; rounds before the first wave count to it.
    pub open spec fn wave_of(self, round: Round) -> int {
        (if round >= self.round_offset {
            round - self.round_offset
        } else {
            0
        }) / self.wave_length as int
    }

    /// First round of `wave`.
    pub open spec fn leader_round_of(self, wave: int) -> int {
        wave * self.wave_length + self.round_offset
    }

    /// Last round of `wave`.
    pub open spec fn decision_round_of(self, wave: int) -> int {
        wave * self.wave_length + self.wave_length - 1 + self.round_offset
    }

    /// Round robin over `n` authorities, starting from round plus leader offset.
    pub open spec fn leader_at(self, round: Round, n: nat) -> AuthorityIndex {
        let sum = round + self.leader_offset;
        let start = if sum > u32::MAX {
            sum - 0x1_0000_0000
        } else {
            sum
        };
        AuthorityIndex((start % (n as int)) as u32)
    }

    /// The leader slot of `round`: every wave's first round has one.
    pub open spec fn elected(self, round: Round, n: nat) -> Option<Slot> {
        if round >= self.round_offset && (round - self.round_offset) % (self.wave_length as int)
            == 0 {
            Some(Slot { round, authority: self.leader_at(round, n) })
        } else {
            None
        }
    }

    /// Whether the rounds that decide `slot` can be counted.
    pub open spec fn can_decide(self, slot: Slot) -> bool {
        &&& slot.round > 0
        &&& slot.round < u32::MAX
        &&& self.wave_of(slot.round) * self.wave_length + self.wave_length <= u32::MAX
        &&& self.decision_round_of(self.wave_of(slot.round)) <= u32::MAX
    }
}

/// An elected slot is the first of its wave, so its decision round is the wave's last.
pub proof fn lemma_elected(options: BaseCommitterOptions, round: Round, n: nat)
    requires
        options.wave_length > 0,
    ensures
        (options.elected(round, n) is Some) <==> options.leader_round_of(options.wave_of(round))
            == round,
        options.elected(round, n) is Some ==> options.decision_round_of(options.wave_of(round))
            == round + options.wave_length - 1,
        0 <= options.wave_of(round) * options.wave_length <= round,
        0 <= options.wave_of(round) <= round,
        round >= options.round_offset ==> options.leader_round_of(options.wave_of(round)) <= round,
{
    let wl = options.wave_length as int;
    let x = if round >= options.round_offset {
        round - options.round_offset
    } else {
        0
    };
    lemma_fundamental_div_mod(x, wl);
    let wave = x / wl;
    assert(wl * wave == wave * wl) by (nonlinear_arith);
    assert(wave <= wave * wl) by (nonlinear_arith)
        requires
            wave >= 0,
            wl >= 1,
    ;
}

/// The first of `parents` from position `i` on that fills `slot`.
pub open spec fn first_at_slot(parents: Seq<BlockRef>, slot: Slot, i: int) -> Option<BlockRef>
    decreases parents.len() - i,
{
    if i < 0 || i >= parents.len() {
        None
    } else if parents[i].slot() == slot {
        Some(parents[i])
    } else {
        first_at_slot(parents, slot, i + 1)
    }
}

/// The block at `slot` that `b` supports: the one it lists as an ancestor, or else the one
/// supported by the first of its later ancestors that supports any.
pub open spec fn supported(stored: Store, slot: Slot, b: VerifiedBlock) -> Option<BlockRef>
    decreases b.block().round, b.parents().len() + 1,
{
    if b.block().round < slot.round {
        None
    } else {
        match first_at_slot(b.parents(), slot, 0) {
            Some(r) => Some(r),
            None => supported_via(stored, slot, b, 0),
        }
    }
}

/// The block at `slot` supported by the first ancestor of `b` from position `i` on that
/// comes after `slot` and supports any.
pub open spec fn supported_via(
    stored: Store,
    slot: Slot,
    b: VerifiedBlock,
    i: int,
) -> Option<BlockRef>
    decreases b.block().round, b.parents().len() - i,
{
    if i < 0 || i >= b.parents().len() {
        None
    } else {
        let p = b.parents()[i];
        if p.round > slot.round && stored.contains_key(p) && stored[p].block().round
            < b.block().round {
            match supported(stored, slot, stored[p]) {
                Some(r) => Some(r),
                None => supported_via(stored, slot, b, i + 1),
            }
        } else {
            supported_via(stored, slot, b, i + 1)
        }
    }
}

/// Whether the block stored under `r` supports `leader`.
pub open spec fn votes(stored: Store, r: BlockRef, leader: VerifiedBlock) -> bool {
    stored.contains_key(r) && supported(stored, leader.spec_ref().slot(), stored[r]) == Some(
        leader.spec_ref(),
    )
}

/// The authorities with a vote for `leader` among the first `n` ancestors of `b`.
pub open spec fn voters_among(
    stored: Store,
    b: VerifiedBlock,
    leader: VerifiedBlock,
    n: int,
) -> Set<AuthorityIndex> {
    Set::new(
        |a: AuthorityIndex|
            exists|i: int|
                0 <= i < n && i < b.parents().len() && (#[trigger] b.parents()[i]).author == a
                    && votes(stored, b.parents()[i], leader),
    )
}

/// Whether `b` is a certificate for `leader`: its ancestors hold votes of a quorum.
pub open spec fn certifies(
    committee: Committee,
    stored: Store,
    b: VerifiedBlock,
    leader: VerifiedBlock,
) -> bool {
    committee.is_quorum(voters_among(stored, b, leader, b.parents().len() as int))
}

/// Whether `b` lists a block of `author` as an ancestor.
pub open spec fn names(b: VerifiedBlock, author: AuthorityIndex) -> bool {
    exists|i: int| 0 <= i < b.parents().len() && (#[trigger] b.parents()[i]).author == author
}

/// The authors of those among the first `n` of `blocks` that do not name `leader`.
pub open spec fn blamers_among(blocks: Seq<VerifiedBlock>, leader: AuthorityIndex, n: int) -> Set<
    AuthorityIndex,
> {
    Set::new(
        |a: AuthorityIndex|
            exists|i: int|
                0 <= i < n && i < blocks.len() && (#[trigger] blocks[i]).block().author == a
                    && !names(blocks[i], leader),
    )
}

/// Whether a quorum has an uncommitted block at `round` that does not name `leader`.
pub open spec fn blamed(
    committee: Committee,
    dag: DagModel,
    round: Round,
    leader: AuthorityIndex,
) -> bool {
    let blocks = dag.open_at_round(round);
    committee.is_quorum(blamers_among(blocks, leader, blocks.len() as int))
}

/// The authors of those among the first `n` of `blocks` that certify `leader`.
pub open spec fn supporters_among(
    committee: Committee,
    stored: Store,
    blocks: Seq<VerifiedBlock>,
    leader: VerifiedBlock,
    n: int,
) -> Set<AuthorityIndex> {
    Set::new(
        |a: AuthorityIndex|
            exists|i: int|
                0 <= i < n && i < blocks.len() && (#[trigger] blocks[i]).block().author == a
                    && certifies(committee, stored, blocks[i], leader),
    )
}

/// Whether a quorum has an uncommitted certificate for `leader` at `round`.
pub open spec fn backed(
    committee: Committee,
    dag: DagModel,
    round: Round,
    leader: VerifiedBlock,
) -> bool {
    let blocks = dag.open_at_round(round);
    committee.is_quorum(
        supporters_among(committee, dag.stored, blocks, leader, blocks.len() as int),
    )
}

/// Those of `leaders` that are backed at `round`.
pub open spec fn backed_leaders(
    committee: Committee,
    dag: DagModel,
    round: Round,
    leaders: Seq<VerifiedBlock>,
) -> Seq<VerifiedBlock> {
    leaders.filter(|l: VerifiedBlock| backed(committee, dag, round, l))
}

/// Whether one of `certificates` certifies `leader`.
pub open spec fn certified_by(
    committee: Committee,
    stored: Store,
    certificates: Seq<VerifiedBlock>,
    leader: VerifiedBlock,
) -> bool {
    exists|i: int|
        0 <= i < certificates.len() && certifies(
            committee,
            stored,
            #[trigger] certificates[i],
            leader,
        )
}

/// Those of `leaders` that one of `certificates` certifies.
pub open spec fn certified_leaders(
    committee: Committee,
    stored: Store,
    certificates: Seq<VerifiedBlock>,
    leaders: Seq<VerifiedBlock>,
) -> Seq<VerifiedBlock> {
    leaders.filter(|l: VerifiedBlock| certified_by(committee, stored, certificates, l))
}

/// More than one block qualifies to be committed in one slot. With the tolerated amount of
/// faulty stake this does not happen.
#[derive(Clone, Copy, PartialEq, Eq, Structural, Debug)]
pub struct ConflictingLeaders {
    pub slot: Slot,
}

/// The outcome for `slot` when `candidates` qualify: at most one may, and `otherwise`
/// holds if none does.
pub open spec fn sole(
    candidates: Seq<VerifiedBlock>,
    slot: Slot,
    otherwise: LeaderStatus,
) -> Result<LeaderStatus, ConflictingLeaders> {
    if candidates.len() > 1 {
        Err(ConflictingLeaders { slot })
    } else if candidates.len() == 1 {
        Ok(LeaderStatus::Commit(candidates[0]))
    } else {
        Ok(otherwise)
    }
}

/// The direct rule: skip a leader that a quorum of the next round does not name, commit one
/// that a quorum certifies in the decision round.
pub open spec fn directly(
    committee: Committee,
    options: BaseCommitterOptions,
    dag: DagModel,
    slot: Slot,
) -> Result<LeaderStatus, ConflictingLeaders> {
    if blamed(committee, dag, (slot.round + 1) as Round, slot.authority) {
        Ok(LeaderStatus::Skip(slot))
    } else {
        sole(
            backed_leaders(
                committee,
                dag,
                options.decision_round_of(options.wave_of(slot.round)) as Round,
                dag.open_at_slot(slot),
            ),
            slot,
            LeaderStatus::Undecided(slot),
        )
    }
}

/// What the committed `anchor` decides for `slot`: commit the leader that an ancestor of the
/// anchor in the decision round certifies, otherwise skip.
pub open spec fn from_anchor(
    committee: Committee,
    options: BaseCommitterOptions,
    dag: DagModel,
    anchor: VerifiedBlock,
    slot: Slot,
) -> Result<LeaderStatus, ConflictingLeaders> {
    sole(
        certified_leaders(
            committee,
            dag.stored,
            dag.ancestors(anchor, options.decision_round_of(options.wave_of(slot.round)) as Round),
            dag.open_at_slot(slot),
        ),
        slot,
        LeaderStatus::Skip(slot),
    )
}

/// The first of `leaders` from position `i` on that is at `round` or later and not skipped.
pub open spec fn anchor_from(leaders: Seq<LeaderStatus>, round: int, i: int) -> Option<LeaderStatus>
    decreases leaders.len() - i,
{
    if i < 0 || i >= leaders.len() {
        None
    } else if leaders[i].spec_round() >= round && !(leaders[i] is Skip) {
        Some(leaders[i])
    } else {
        anchor_from(leaders, round, i + 1)
    }
}

/// The indirect rule: the first later leader that is at least a wave away and not skipped is
/// the anchor. A committed anchor decides; an undecided or absent one leaves the slot open.
pub open spec fn indirectly(
    committee: Committee,
    options: BaseCommitterOptions,
    dag: DagModel,
    slot: Slot,
    leaders: Seq<LeaderStatus>,
) -> Result<LeaderStatus, ConflictingLeaders> {
    match anchor_from(leaders, slot.round + options.wave_length, 0) {
        Some(LeaderStatus::Commit(anchor)) => from_anchor(committee, options, dag, anchor, slot),
        _ => Ok(LeaderStatus::Undecided(slot)),
    }
}

/// Whether each entry of `all_votes` says whether that block votes for `leader`.
pub open spec fn remembers(all_votes: Map<BlockRef, bool>, stored: Store, leader: VerifiedBlock) -> bool {
    forall|r: BlockRef| #[trigger]
        all_votes.contains_key(r) ==> all_votes[r] == votes(stored, r, leader)
}

/// Decides leaders by the direct and the indirect rule.
#[derive(Debug)]
pub struct BaseCommitter {
    pub(crate) context: Arc<Context>,
    pub(crate) options: BaseCommitterOptions,
}

impl BaseCommitter {
    pub open(crate) spec fn spec_committee(&self) -> Committee {
        *self.context.committee
    }

    pub open(crate) spec fn spec_options(&self) -> BaseCommitterOptions {
        self.options
    }

    pub open(crate) spec fn wf(&self) -> bool {
        &&& self.context.wf()
        &&& self.options.wave_length >= 3
    }

    /// The slot elected at `round`, if this committer is responsible for it.
    pub open spec fn elects(&self, round: Round) -> Option<Slot> {
        self.spec_options().elected(round, self.spec_committee().members().len())
    }

    pub fn new(context: Arc<Context>, options: BaseCommitterOptions) -> (r: Self)
        requires
            context.wf(),
            options.wave_length >= 3,
        ensures
            r.wf(),
            r.spec_committee() == *context.committee,
            r.spec_options() == options,
    {
        BaseCommitter { context, options }
    }

    fn elect_leader_index(&self, round: Round, offset: u32) -> (r: AuthorityIndex)
        requires
            self.wf(),
            offset == self.options.leader_offset,
        ensures
            r == self.options.leader_at(round, self.spec_committee().members().len()),
    {
        let size: u32 = self.context.committee.size() as u32;
        // Rotate starting from (round + offset) mod size to distribute leaders evenly.
        let idx: u32 = round.wrapping_add(offset) % size;
        AuthorityIndex::new_for_test(idx)
    }

    /// Returns the slot that is the leader for `round`, or `None` if this committer is not
    /// responsible for `round`.
    pub fn elect_leader(&self, round: Round) -> (r: Option<Slot>)
        requires
            self.wf(),
        ensures
            r == self.elects(round),
    {
        let wave = self.wave_number(round);
        proof {
            lemma_elected(self.options, round, self.spec_committee().members().len());
        }
        if round < self.options.round_offset {
            return None;
        }
        if self.leader_round(wave) != round {
            return None;
        }
        Some(Slot::new(round, self.elect_leader_index(round, self.options.leader_offset)))
    }

    pub fn leader_round(&self, wave: WaveNumber) -> (r: Round)
        requires
            self.spec_options().leader_round_of(wave as int) <= u32::MAX,
        ensures
            r == self.spec_options().leader_round_of(wave as int),
    {
        proof {
            let w = wave as int;
            let wl = self.options.wave_length as int;
            assert(0 <= w * wl) by (nonlinear_arith)
                requires
                    w >= 0,
                    wl >= 0,
            ;
        }
        wave * self.options.wave_length + self.options.round_offset
    }

    pub fn decision_round(&self, wave: WaveNumber) -> (r: Round)
        requires
            self.wf(),
            wave * self.spec_options().wave_length + self.spec_options().wave_length <= u32::MAX,
            self.spec_options().decision_round_of(wave as int) <= u32::MAX,
        ensures
            r == self.spec_options().decision_round_of(wave as int),
    {
        let wl: Round = self.options.wave_length;
        proof {
            let w = wave as int;
            let l = wl as int;
            assert(0 <= w * l) by (nonlinear_arith)
                requires
                    w >= 0,
                    l >= 0,
            ;
        }
        wave * wl + wl - 1 + self.options.round_offset
    }

    pub fn wave_number(&self, round: Round) -> (r: WaveNumber)
        requires
            self.wf(),
        ensures
            r == self.spec_options().wave_of(round),
    {
        let rounds_in: Round = if round >= self.options.round_offset {
            round - self.options.round_offset
        } else {
            0
        };
        rounds_in / self.options.wave_length
    }

    /// Find which block at `leader_slot` is supported (directly or indirectly) by `from`.
    fn find_supported_block(&self, dag: &DagState, leader_slot: Slot, from: &VerifiedBlock) -> (r:
        Option<BlockRef>)
        requires
            dag.wf(),
            complete(dag@.stored),
            points_back(*from),
            history_present(*from, dag@.stored),
        ensures
            r == supported(dag@.stored, leader_slot, *from),
        decreases from.block().round,
    {
        if from.round() < leader_slot.round {
            return None;
        }
        let ancestors = from.ancestors();
        let mut i: usize = 0;
        while i < ancestors.len()
            invariant
                ancestors@ == from.parents(),
                from.block().round >= leader_slot.round,
                i <= ancestors@.len(),
                first_at_slot(ancestors@, leader_slot, 0) == first_at_slot(
                    ancestors@,
                    leader_slot,
                    i as int,
                ),
            decreases ancestors@.len() - i,
        {
            if Slot::from(ancestors[i]) == leader_slot {
                return Some(ancestors[i]);
            }
            i += 1;
        }
        // Weak links may reference lower rounds; recurse through ancestors above the slot.
        let mut j: usize = 0;
        while j < ancestors.len()
            invariant
                dag.wf(),
                complete(dag@.stored),
                points_back(*from),
                history_present(*from, dag@.stored),
                ancestors@ == from.parents(),
                j <= ancestors@.len(),
                supported(dag@.stored, leader_slot, *from) == supported_via(
                    dag@.stored,
                    leader_slot,
                    *from,
                    j as int,
                ),
            decreases ancestors@.len() - j,
        {
            let ancestor = ancestors[j];
            assert(from.parents().contains(ancestor));
            if ancestor.round > leader_slot.round {
                match dag.get_block(&ancestor) {
                    Some(ancestor_block) => {
                        assert(ancestor_block.spec_ref() == ancestor);
                        let support = self.find_supported_block(dag, leader_slot, &ancestor_block);
                        if support.is_some() {
                            return support;
                        }
                    },
                    None => {
                        assert(false);
                    },
                }
            }
            j += 1;
        }
        None
    }

    fn is_vote(&self, dag: &DagState, potential_vote: &VerifiedBlock, leader_block: &VerifiedBlock) -> (r:
        bool)
        requires
            dag.wf(),
            complete(dag@.stored),
            points_back(*potential_vote),
            history_present(*potential_vote, dag@.stored),
        ensures
            r == (supported(dag@.stored, leader_block.spec_ref().slot(), *potential_vote) == Some(
                leader_block.spec_ref(),
            )),
    {
        let reference = leader_block.reference();
        let leader_slot = Slot::from(reference);
        match self.find_supported_block(dag, leader_slot, potential_vote) {
            Some(found) => found == reference,
            None => false,
        }
    }

    /// Whether a quorum of votes for `leader_block` is among the ancestors of
    /// `potential_certificate`. `all_votes` keeps what is known of each ancestor.
    fn is_certificate(
        &self,
        dag: &DagState,
        potential_certificate: &VerifiedBlock,
        leader_block: &VerifiedBlock,
        all_votes: &mut RefMap<bool>,
    ) -> (r: bool)
        requires
            self.wf(),
            dag.wf(),
            dag.spec_committee() == self.spec_committee(),
            complete(dag@.stored),
            old(all_votes).wf(),
            remembers(old(all_votes)@, dag@.stored, *leader_block),
        ensures
            r == certifies(
                self.spec_committee(),
                dag@.stored,
                *potential_certificate,
                *leader_block,
            ),
            final(all_votes).wf(),
            remembers(final(all_votes)@, dag@.stored, *leader_block),
    {
        let ghost stored = dag@.stored;
        let ghost committee = self.spec_committee();
        let ghost cert = *potential_certificate;
        let ghost leader = *leader_block;
        let mut votes_stake: StakeAggregator<QuorumThreshold> = StakeAggregator::new();
        let ancestors = potential_certificate.ancestors();
        let mut i: usize = 0;
        proof {
            lemma_stake_of_none(committee.members());
            assert(votes_stake.voters() =~= voters_among(stored, cert, leader, 0));
        }
        while i < ancestors.len()
            invariant
                self.wf(),
                dag.wf(),
                dag.spec_committee() == self.spec_committee(),
                committee == self.spec_committee(),
                stored == dag@.stored,
                complete(stored),
                leader == *leader_block,
                ancestors@ == cert.parents(),
                cert == *potential_certificate,
                i <= ancestors@.len(),
                all_votes.wf(),
                remembers(all_votes@, stored, leader),
                votes_stake.wf(committee),
                votes_stake.voters() == voters_among(stored, cert, leader, i as int),
                !committee.is_quorum(votes_stake.voters()),
            decreases ancestors@.len() - i,
        {
            let reference = ancestors[i];
            let known = match all_votes.get(&reference) {
                Some(cached) => Some(*cached),
                None => None,
            };
            let is_vote = match known {
                Some(cached) => cached,
                None => {
                    let vote = match dag.get_block(&reference) {
                        Some(potential_vote) => self.is_vote(dag, &potential_vote, leader_block),
                        None => false,
                    };
                    all_votes.insert(reference, vote);
                    vote
                },
            };
            assert(is_vote == votes(stored, reference, leader));
            let ghost before = votes_stake.voters();
            proof {
                let now = voters_among(stored, cert, leader, i + 1);
                assert forall|a: AuthorityIndex| #[trigger] now.contains(a) <==> before.contains(a)
                    || (is_vote && a == reference.author) by {
                    if is_vote && a == reference.author {
                        assert(cert.parents()[i as int].author == a);
                    }
                }
                if is_vote {
                    assert(now =~= before.insert(reference.author));
                } else {
                    assert(now =~= before);
                }
            }
            if is_vote {
                if votes_stake.add(reference.author, &self.context.committee) {
                    proof {
                        let all = voters_among(stored, cert, leader, cert.parents().len() as int);
                        assert(votes_stake.voters().subset_of(all));
                        lemma_stake_monotone(committee.members(), votes_stake.voters(), all);
                    }
                    return true;
                }
            }
            i += 1;
        }
        false
    }

    /// Whether a quorum has an uncommitted block at `voting_round` without `leader` among
    /// the authors of its ancestors.
    fn enough_leader_blame(&self, dag: &DagState, voting_round: Round, leader: AuthorityIndex) -> (r:
        bool)
        requires
            self.wf(),
            dag.wf(),
            dag.spec_committee() == self.spec_committee(),
        ensures
            r == blamed(self.spec_committee(), dag@, voting_round, leader),
    {
        let ghost committee = self.spec_committee();
        let voting_blocks = dag.get_uncommitted_blocks_at_round(voting_round);
        let ghost blocks = voting_blocks@;
        let mut blame: StakeAggregator<QuorumThreshold> = StakeAggregator::new();
        let mut i: usize = 0;
        proof {
            dag@.lemma_fetched(dag@.open_refs_at_round(voting_round));
            lemma_stake_of_none(committee.members());
            assert(blame.voters() =~= blamers_among(blocks, leader, 0));
        }
        while i < voting_blocks.len()
            invariant
                self.wf(),
                committee == self.spec_committee(),
                blocks == voting_blocks@,
                blocks == dag@.open_at_round(voting_round),
                forall|k: int|
                    0 <= k < blocks.len() ==> committee.has(
                        (#[trigger] blocks[k]).block().author,
                    ),
                i <= blocks.len(),
                blame.wf(committee),
                blame.voters() == blamers_among(blocks, leader, i as int),
                !committee.is_quorum(blame.voters()),
            decreases blocks.len() - i,
        {
            let voter = voting_blocks[i].reference().author;
            let ancestors = voting_blocks[i].ancestors();
            let mut named = false;
            let mut j: usize = 0;
            while j < ancestors.len() && !named
                invariant
                    j <= ancestors@.len(),
                    named == exists|k: int|
                        0 <= k < j && (#[trigger] ancestors@[k]).author == leader,
                decreases ancestors@.len() - j,
            {
                if ancestors[j].author == leader {
                    named = true;
                }
                j += 1;
            }
            let ghost before = blame.voters();
            proof {
                assert(named == names(blocks[i as int], leader));
                let now = blamers_among(blocks, leader, i + 1);
                assert forall|a: AuthorityIndex| #[trigger] now.contains(a) <==> before.contains(a)
                    || (!named && a == voter) by {
                    if !named && a == voter {
                        assert(blocks[i as int].block().author == a);
                    }
                }
                if named {
                    assert(now =~= before);
                } else {
                    assert(now =~= before.insert(voter));
                }
            }
            if !named {
                if blame.add(voter, &self.context.committee) {
                    proof {
                        let all = blamers_among(blocks, leader, blocks.len() as int);
                        assert(blame.voters().subset_of(all));
                        lemma_stake_monotone(committee.members(), blame.voters(), all);
                    }
                    return true;
                }
            }
            i += 1;
        }
        false
    }

    /// Whether a quorum has an uncommitted certificate for `leader_block` at
    /// `decision_round`.
    fn enough_leader_support(
        &self,
        dag: &DagState,
        decision_round: Round,
        leader_block: &VerifiedBlock,
    ) -> (r: bool)
        requires
            self.wf(),
            dag.wf(),
            dag.spec_committee() == self.spec_committee(),
            complete(dag@.stored),
        ensures
            r == backed(self.spec_committee(), dag@, decision_round, *leader_block),
    {
        let ghost committee = self.spec_committee();
        let ghost stored = dag@.stored;
        let ghost leader = *leader_block;
        let decision_blocks = dag.get_uncommitted_blocks_at_round(decision_round);
        let ghost blocks = decision_blocks@;
        let mut support: StakeAggregator<QuorumThreshold> = StakeAggregator::new();
        let mut all_votes: RefMap<bool> = RefMap::new();
        let mut i: usize = 0;
        proof {
            dag@.lemma_fetched(dag@.open_refs_at_round(decision_round));
            lemma_stake_of_none(committee.members());
            assert(support.voters() =~= supporters_among(committee, stored, blocks, leader, 0));
        }
        while i < decision_blocks.len()
            invariant
                self.wf(),
                dag.wf(),
                dag.spec_committee() == self.spec_committee(),
                committee == self.spec_committee(),
                stored == dag@.stored,
                complete(stored),
                leader == *leader_block,
                blocks == decision_blocks@,
                blocks == dag@.open_at_round(decision_round),
                forall|k: int|
                    0 <= k < blocks.len() ==> committee.has(
                        (#[trigger] blocks[k]).block().author,
                    ),
                i <= blocks.len(),
                all_votes.wf(),
                remembers(all_votes@, stored, leader),
                support.wf(committee),
                support.voters() == supporters_among(
                    committee,
                    stored,
                    blocks,
                    leader,
                    i as int,
                ),
                !committee.is_quorum(support.voters()),
            decreases blocks.len() - i,
        {
            let certificate = self.is_certificate(
                dag,
                &decision_blocks[i],
                leader_block,
                &mut all_votes,
            );
            let voter = decision_blocks[i].reference().author;
            let ghost before = support.voters();
            proof {
                let now = supporters_among(committee, stored, blocks, leader, i + 1);
                assert forall|a: AuthorityIndex| #[trigger] now.contains(a) <==> before.contains(a)
                    || (certificate && a == voter) by {
                    if certificate && a == voter {
                        assert(blocks[i as int].block().author == a);
                    }
                }
                if certificate {
                    assert(now =~= before.insert(voter));
                } else {
                    assert(now =~= before);
                }
            }
            if certificate {
                if support.add(voter, &self.context.committee) {
                    proof {
                        let all = supporters_among(
                            committee,
                            stored,
                            blocks,
                            leader,
                            blocks.len() as int,
                        );
                        assert(support.voters().subset_of(all));
                        lemma_stake_monotone(committee.members(), support.voters(), all);
                    }
                    return true;
                }
            }
            i += 1;
        }
        false
    }

    /// Direct-decide rule: try to commit or skip the leader at `leader`.
    pub fn try_direct_decide(&self, dag: &DagState, leader: Slot) -> (r: Result<
        LeaderStatus,
        ConflictingLeaders,
    >)
        requires
            self.wf(),
            dag.wf(),
            dag.spec_committee() == self.spec_committee(),
            complete(dag@.stored),
            self.spec_options().can_decide(leader),
        ensures
            r == directly(self.spec_committee(), self.spec_options(), dag@, leader),
    {
        let ghost committee = self.spec_committee();
        let voting_round: Round = leader.round + 1;
        if self.enough_leader_blame(dag, voting_round, leader.authority) {
            return Ok(LeaderStatus::Skip(leader));
        }
        let wave = self.wave_number(leader.round);
        let decision_round = self.decision_round(wave);
        let leader_blocks = dag.get_uncommitted_blocks_at_slot(leader);
        let ghost blocks = leader_blocks@;
        let mut candidates: Vec<VerifiedBlock> = Vec::new();
        let mut i: usize = 0;
        proof {
            reveal(Seq::filter);
            assert(blocks.take(0) =~= Seq::<VerifiedBlock>::empty());
        }
        while i < leader_blocks.len()
            invariant
                self.wf(),
                dag.wf(),
                dag.spec_committee() == self.spec_committee(),
                committee == self.spec_committee(),
                complete(dag@.stored),
                blocks == leader_blocks@,
                i <= blocks.len(),
                candidates@ == backed_leaders(
                    committee,
                    dag@,
                    decision_round,
                    blocks.take(i as int),
                ),
            decreases blocks.len() - i,
        {
            proof {
                reveal(Seq::filter);
                let now = blocks.take(i + 1);
                assert(now.drop_last() =~= blocks.take(i as int));
                assert(now.last() == blocks[i as int]);
            }
            if self.enough_leader_support(dag, decision_round, &leader_blocks[i]) {
                candidates.push(leader_blocks[i].clone());
            }
            i += 1;
        }
        assert(blocks.take(blocks.len() as int) =~= blocks);
        if candidates.len() > 1 {
            return Err(ConflictingLeaders { slot: leader });
        }
        match candidates.pop() {
            Some(block) => Ok(LeaderStatus::Commit(block)),
            None => Ok(LeaderStatus::Undecided(leader)),
        }
    }

    /// The blocks of `slot` with a certificate in the history of `anchor`.
    spec fn certified_in(&self, dag: DagModel, anchor: VerifiedBlock, slot: Slot) -> Seq<
        VerifiedBlock,
    > {
        let options = self.spec_options();
        certified_leaders(
            self.spec_committee(),
            dag.stored,
            dag.ancestors(anchor, options.decision_round_of(options.wave_of(slot.round)) as Round),
            dag.open_at_slot(slot),
        )
    }

    /// Collects the blocks of `leader_slot` with a certificate in the history of an anchor.
    fn certified_from_anchor(
        &self,
        dag: &DagState,
        anchor: &VerifiedBlock,
        leader_slot: Slot,
    ) -> (r: Vec<VerifiedBlock>)
        requires
            self.wf(),
            dag.wf(),
            dag.spec_committee() == self.spec_committee(),
            complete(dag@.stored),
            points_back(*anchor),
            self.spec_options().can_decide(leader_slot),
        ensures
            r@ == self.certified_in(dag@, *anchor, leader_slot),
    {
        let ghost committee = self.spec_committee();
        let ghost stored = dag@.stored;
        let leader_blocks = dag.get_uncommitted_blocks_at_slot(leader_slot);
        let ghost blocks = leader_blocks@;
        let wave = self.wave_number(leader_slot.round);
        let decision_round = self.decision_round(wave);
        let potential_certificates = dag.ancestors_at_round(anchor, decision_round);
        let ghost certs = potential_certificates@;
        let mut certified: Vec<VerifiedBlock> = Vec::new();
        let mut i: usize = 0;
        proof {
            reveal(Seq::filter);
            assert(blocks.take(0) =~= Seq::<VerifiedBlock>::empty());
        }
        while i < leader_blocks.len()
            invariant
                self.wf(),
                dag.wf(),
                dag.spec_committee() == self.spec_committee(),
                committee == self.spec_committee(),
                stored == dag@.stored,
                complete(stored),
                blocks == leader_blocks@,
                certs == potential_certificates@,
                i <= blocks.len(),
                certified@ == certified_leaders(committee, stored, certs, blocks.take(i as int)),
            decreases blocks.len() - i,
        {
            proof {
                reveal(Seq::filter);
                let now = blocks.take(i + 1);
                assert(now.drop_last() =~= blocks.take(i as int));
                assert(now.last() == blocks[i as int]);
            }
            let mut all_votes: RefMap<bool> = RefMap::new();
            let mut found = false;
            let mut j: usize = 0;
            while j < potential_certificates.len() && !found
                invariant
                    self.wf(),
                    dag.wf(),
                    dag.spec_committee() == self.spec_committee(),
                    committee == self.spec_committee(),
                    stored == dag@.stored,
                    complete(stored),
                    blocks == leader_blocks@,
                    certs == potential_certificates@,
                    i < blocks.len(),
                    j <= certs.len(),
                    all_votes.wf(),
                    remembers(all_votes@, stored, blocks[i as int]),
                    found == exists|k: int|
                        0 <= k < j && certifies(
                            committee,
                            stored,
                            #[trigger] certs[k],
                            blocks[i as int],
                        ),
                decreases certs.len() - j,
            {
                if self.is_certificate(
                    dag,
                    &potential_certificates[j],
                    &leader_blocks[i],
                    &mut all_votes,
                ) {
                    assert(certifies(committee, stored, certs[j as int], blocks[i as int]));
                    found = true;
                }
                j += 1;
            }
            assert(found == certified_by(committee, stored, certs, blocks[i as int]));
            if found {
                certified.push(leader_blocks[i].clone());
            }
            i += 1;
        }
        assert(blocks.take(blocks.len() as int) =~= blocks);
        certified
    }

    /// Decides `leader_slot` by the history of a committed anchor, `certified` being the blocks
    /// of the slot with a certificate there, at most one. The slot is never left undecided.
    fn decide_leader_from_anchor(
        &self,
        dag: &DagState,
        anchor: &VerifiedBlock,
        leader_slot: Slot,
        certified: Vec<VerifiedBlock>,
    ) -> (r: LeaderStatus)
        requires
            certified@ == self.certified_in(dag@, *anchor, leader_slot),
            certified@.len() <= 1,
        ensures
            Ok::<LeaderStatus, ConflictingLeaders>(r) == from_anchor(
                self.spec_committee(),
                self.spec_options(),
                dag@,
                *anchor,
                leader_slot,
            ),
            r == if certified@.len() == 1 {
                LeaderStatus::Commit(certified@[0])
            } else {
                LeaderStatus::Skip(leader_slot)
            },
    {
        let mut certified = certified;
        match certified.pop() {
            Some(block) => LeaderStatus::Commit(block),
            None => LeaderStatus::Skip(leader_slot),
        }
    }

    /// Indirect-decide rule: try to commit or skip `leader_slot` using the status of the
    /// later leaders, given in ascending order.
    pub fn try_indirect_decide(
        &self,
        dag: &DagState,
        leader_slot: Slot,
        leaders: &[LeaderStatus],
    ) -> (r: Result<LeaderStatus, ConflictingLeaders>)
        requires
            self.wf(),
            dag.wf(),
            dag.spec_committee() == self.spec_committee(),
            complete(dag@.stored),
            self.spec_options().can_decide(leader_slot),
            forall|i: int|
                #![trigger leaders@[i]]
                0 <= i < leaders@.len() ==> (leaders@[i] matches LeaderStatus::Commit(b)
                    ==> points_back(b)),
        ensures
            r == indirectly(
                self.spec_committee(),
                self.spec_options(),
                dag@,
                leader_slot,
                leaders@,
            ),
    {
        let from: u64 = leader_slot.round as u64 + self.options.wave_length as u64;
        let mut i: usize = 0;
        while i < leaders.len()
            invariant
                self.wf(),
                dag.wf(),
                dag.spec_committee() == self.spec_committee(),
                complete(dag@.stored),
                self.spec_options().can_decide(leader_slot),
                forall|k: int|
                    #![trigger leaders@[k]]
                    0 <= k < leaders@.len() ==> (leaders@[k] matches LeaderStatus::Commit(b)
                        ==> points_back(b)),
                from == leader_slot.round + self.spec_options().wave_length,
                i <= leaders@.len(),
                anchor_from(leaders@, from as int, 0) == anchor_from(
                    leaders@,
                    from as int,
                    i as int,
                ),
            decreases leaders@.len() - i,
        {
            if leaders[i].round() as u64 >= from {
                match &leaders[i] {
                    LeaderStatus::Commit(anchor_block) => {
                        assert(leaders@[i as int] == LeaderStatus::Commit(*anchor_block));
                        let certified = self.certified_from_anchor(dag, anchor_block, leader_slot);
                        if certified.len() > 1 {
                            return Err(ConflictingLeaders { slot: leader_slot });
                        }
                        return Ok(
                            self.decide_leader_from_anchor(
                                dag,
                                anchor_block,
                                leader_slot,
                                certified,
                            ),
                        );
                    },
                    LeaderStatus::Skip(_) => {},
                    LeaderStatus::Undecided(_) => {
                        return Ok(LeaderStatus::Undecided(leader_slot));
                    },
                }
            }
            i += 1;
        }
        Ok(LeaderStatus::Undecided(leader_slot))
    }

    /// The rendered form:
    /// `BaseCommitter(wave_len=3, leader_off=0, round_off=0)`.
    pub open spec fn text(&self) -> Seq<char> {
        "BaseCommitter(wave_len="@ + decimal(self.spec_options().wave_length as nat)
            + ", leader_off="@ + decimal(self.spec_options().leader_offset as nat)
            + ", round_off="@ + decimal(self.spec_options().round_offset as nat) + ")"@
    }

    /// Renders the options of the committer.
    pub fn to_text(&self) -> (r: String)
        ensures
            r@ == self.text(),
    {
        let mut out = String::from_str("BaseCommitter(wave_len=");
        let wave_length = decimal_text(self.options.wave_length as u64);
        out.append(wave_length.as_str());
        out.append(", leader_off=");
        let leader_offset = decimal_text(self.options.leader_offset as u64);
        out.append(leader_offset.as_str());
        out.append(", round_off=");
        let round_offset = decimal_text(self.options.round_offset as u64);
        out.append(round_offset.as_str());
        out.append(")");
        out
    }
}

/// The authorities with two stored blocks at one round.
pub open spec fn equivocators(stored: Store) -> Set<AuthorityIndex> {
    Set::new(|a: AuthorityIndex| exists|x: BlockRef, y: BlockRef| #[trigger] clash(stored, x, y, a))
}

/// Whether `x` and `y` are two stored blocks of `a` at one round.
pub open spec fn clash(stored: Store, x: BlockRef, y: BlockRef, a: AuthorityIndex) -> bool {
    &&& stored.contains_key(x)
    &&& stored.contains_key(y)
    &&& x != y
    &&& x.round == y.round
    &&& x.author == a
    &&& y.author == a
}

/// Whether equivocators hold no more stake than may be faulty.
pub open spec fn few_equivocate(committee: Committee, stored: Store) -> bool {
    committee.stake_held(equivocators(stored)) <= faults_of(committee.total())
}

proof fn lemma_first_at_slot(parents: Seq<BlockRef>, slot: Slot, i: int)
    requires
        0 <= i,
    ensures
        first_at_slot(parents, slot, i) matches Some(r) ==> exists|k: int|
            0 <= k < parents.len() && #[trigger] parents[k] == r && r.slot() == slot,
    decreases parents.len() - i,
{
    if i < parents.len() && parents[i].slot() != slot {
        lemma_first_at_slot(parents, slot, i + 1);
    }
}

proof fn lemma_no_way_above(stored: Store, slot: Slot, b: VerifiedBlock, i: int)
    requires
        0 <= i,
        points_back(b),
        b.block().round <= slot.round + 1,
    ensures
        supported_via(stored, slot, b, i) is None,
    decreases b.parents().len() - i,
{
    if i < b.parents().len() {
        assert(b.parents().contains(b.parents()[i]));
        lemma_no_way_above(stored, slot, b, i + 1);
    }
}

/// In the first round after the leader a vote lists the leader as an ancestor; earlier
/// blocks cast none.
pub proof fn lemma_vote(stored: Store, r: BlockRef, leader: VerifiedBlock)
    requires
        complete(stored),
        votes(stored, r, leader),
        r.round <= leader.block().round + 1,
    ensures
        r.round == leader.block().round + 1,
        stored[r].parents().contains(leader.spec_ref()),
{
    let slot = leader.spec_ref().slot();
    let b = stored[r];
    assert(b.spec_ref() == r);
    lemma_no_way_above(stored, slot, b, 0);
    lemma_first_at_slot(b.parents(), slot, 0);
    assert(first_at_slot(b.parents(), slot, 0) == Some(leader.spec_ref()));
    assert(b.parents().contains(leader.spec_ref()));
}

/// Two stored blocks of one round by an authority that does not equivocate are the same.
pub proof fn lemma_same_block(stored: Store, x: BlockRef, y: BlockRef, a: AuthorityIndex)
    requires
        stored.contains_key(x),
        stored.contains_key(y),
        x.round == y.round,
        x.author == a,
        y.author == a,
        !equivocators(stored).contains(a),
    ensures
        x == y,
{
    if x != y {
        assert(clash(stored, x, y, a));
    }
}

/// With the tolerated amount of equivocation, certificates two rounds after a leader slot
/// all certify the same block of that slot.
pub proof fn law_one_certified_leader(
    committee: Committee,
    stored: Store,
    first: VerifiedBlock,
    second: VerifiedBlock,
    one: VerifiedBlock,
    other: VerifiedBlock,
)
    requires
        committee.wf(),
        complete(stored),
        few_equivocate(committee, stored),
        one.spec_ref().slot() == other.spec_ref().slot(),
        points_back(first),
        points_back(second),
        first.block().round == one.block().round + 2,
        second.block().round == one.block().round + 2,
        certifies(committee, stored, first, one),
        certifies(committee, stored, second, other),
    ensures
        one.spec_ref() == other.spec_ref(),
{
    let va = voters_among(stored, first, one, first.parents().len() as int);
    let vb = voters_among(stored, second, other, second.parents().len() as int);
    law_quorums_intersect(committee, va, vb, equivocators(stored));
    let v = choose|v: AuthorityIndex| #[trigger]
        va.contains(v) && vb.contains(v) && !equivocators(stored).contains(v);
    let i = choose|i: int|
        0 <= i < first.parents().len() && (#[trigger] first.parents()[i]).author == v && votes(
            stored,
            first.parents()[i],
            one,
        );
    let j = choose|j: int|
        0 <= j < second.parents().len() && (#[trigger] second.parents()[j]).author == v && votes(
            stored,
            second.parents()[j],
            other,
        );
    let p = first.parents()[i];
    let q = second.parents()[j];
    assert(first.parents().contains(p));
    assert(second.parents().contains(q));
    lemma_vote(stored, p, one);
    lemma_vote(stored, q, other);
    lemma_same_block(stored, p, q, v);
}

/// With the tolerated amount of equivocation, a leader that a quorum of the next round does
/// not name has no certificate two rounds later: skipping and committing exclude each other.
pub proof fn law_blame_excludes_commit(
    committee: Committee,
    dag: DagModel,
    leader: VerifiedBlock,
    certificate: VerifiedBlock,
)
    requires
        committee.wf(),
        dag.valid(committee),
        complete(dag.stored),
        few_equivocate(committee, dag.stored),
        leader.block().round < u32::MAX,
        blamed(committee, dag, (leader.block().round + 1) as Round, leader.block().author),
        points_back(certificate),
        certificate.block().round == leader.block().round + 2,
    ensures
        !certifies(committee, dag.stored, certificate, leader),
{
    let stored = dag.stored;
    if certifies(committee, stored, certificate, leader) {
        let round = (leader.block().round + 1) as Round;
        let author = leader.block().author;
        let blocks = dag.open_at_round(round);
        dag.lemma_fetched(dag.open_refs_at_round(round));
        let va = voters_among(stored, certificate, leader, certificate.parents().len() as int);
        let vb = blamers_among(blocks, author, blocks.len() as int);
        law_quorums_intersect(committee, va, vb, equivocators(stored));
        let v = choose|v: AuthorityIndex| #[trigger]
            va.contains(v) && vb.contains(v) && !equivocators(stored).contains(v);
        let i = choose|i: int|
            0 <= i < certificate.parents().len() && (#[trigger] certificate.parents()[i]).author
                == v && votes(stored, certificate.parents()[i], leader);
        let j = choose|j: int|
            0 <= j < blocks.len() && (#[trigger] blocks[j]).block().author == v && !names(
                blocks[j],
                author,
            );
        let p = certificate.parents()[i];
        assert(certificate.parents().contains(p));
        lemma_vote(stored, p, leader);
        lemma_same_block(stored, p, blocks[j].spec_ref(), v);
        let k = stored[p].parents().index_of(leader.spec_ref());
        assert(blocks[j].parents()[k].author == author);
        assert(names(blocks[j], author));
    }
}

/// Filtering keeps only members of the sequence that pass.
pub proof fn lemma_filter_keeps(blocks: Seq<VerifiedBlock>, keep: spec_fn(VerifiedBlock) -> bool)
    ensures
        forall|i: int|
            0 <= i < blocks.filter(keep).len() ==> keep(#[trigger] blocks.filter(keep)[i])
                && blocks.contains(blocks.filter(keep)[i]),
    decreases blocks.len(),
{
    reveal(Seq::filter);
    if blocks.len() > 0 {
        let front = blocks.drop_last();
        lemma_filter_keeps(front, keep);
        let kept = front.filter(keep);
        assert forall|i: int| 0 <= i < kept.len() implies blocks.contains(#[trigger] kept[i]) by {
            let k = front.index_of(kept[i]);
            assert(blocks[k] == kept[i]);
        }
        assert(blocks[blocks.len() - 1] == blocks.last());
    }
}

pub proof fn lemma_filter_distinct(blocks: Seq<VerifiedBlock>, keep: spec_fn(VerifiedBlock) -> bool)
    requires
        distinct(blocks),
    ensures
        distinct(blocks.filter(keep)),
        forall|i: int|
            0 <= i < blocks.filter(keep).len() ==> keep(#[trigger] blocks.filter(keep)[i])
                && blocks.contains(blocks.filter(keep)[i]),
    decreases blocks.len(),
{
    reveal(Seq::filter);
    if blocks.len() > 0 {
        let front = blocks.drop_last();
        let last = blocks.last();
        assert forall|i: int, j: int| 0 <= i < j < front.len() implies (
        #[trigger] front[i]).spec_ref() != (#[trigger] front[j]).spec_ref() by {
            assert(blocks[i].spec_ref() != blocks[j].spec_ref());
        }
        lemma_filter_distinct(front, keep);
        let kept = front.filter(keep);
        let out = blocks.filter(keep);
        assert forall|i: int| 0 <= i < kept.len() implies blocks.contains(#[trigger] kept[i])
            && kept[i].spec_ref() != last.spec_ref() by {
            let k = front.index_of(kept[i]);
            assert(blocks[k] == kept[i]);
            assert(blocks[k].spec_ref() != blocks[blocks.len() - 1].spec_ref());
        }
        assert(blocks[blocks.len() - 1] == last);
        if keep(last) {
            assert(out == kept.push(last));
        } else {
            assert(out == kept);
        }
    }
}

/// With the tolerated amount of equivocation and waves of three rounds, no elected slot ever
/// has conflicting leaders, neither by the direct nor by the indirect rule.
pub proof fn law_no_conflicting_leaders(
    committee: Committee,
    options: BaseCommitterOptions,
    dag: DagModel,
    slot: Slot,
    anchor: VerifiedBlock,
)
    requires
        committee.wf(),
        dag.valid(committee),
        complete(dag.stored),
        few_equivocate(committee, dag.stored),
        options.wave_length == 3,
        options.elected(slot.round, committee.members().len()) == Some(slot),
        options.can_decide(slot),
    ensures
        directly(committee, options, dag, slot) is Ok,
        from_anchor(committee, options, dag, anchor, slot) is Ok,
{
    let stored = dag.stored;
    lemma_elected(options, slot.round, committee.members().len());
    let round = options.decision_round_of(options.wave_of(slot.round)) as Round;
    assert(round == slot.round + 2);
    let leaders = dag.open_at_slot(slot);
    dag.lemma_fetched(dag.open_refs_at_slot(slot));
    assert forall|i: int, j: int| 0 <= i < j < leaders.len() implies (
    #[trigger] leaders[i]).spec_ref() != (#[trigger] leaders[j]).spec_ref() by {
        lemma_precedes_irreflexive(leaders[i].spec_ref());
        assert(refs_of(leaders)[i].precedes(refs_of(leaders)[j]));
    }
    let by_support = backed_leaders(committee, dag, round, leaders);
    lemma_filter_distinct(leaders, |l: VerifiedBlock| backed(committee, dag, round, l));
    if by_support.len() > 1 {
        let one = by_support[0];
        let other = by_support[1];
        let first = lemma_backed_has_certificate(committee, dag, round, one);
        let second = lemma_backed_has_certificate(committee, dag, round, other);
        law_one_certified_leader(committee, stored, first, second, one, other);
    }
    let certs = dag.ancestors(anchor, round);
    dag.lemma_fetched(dag.ancestor_refs(anchor, round));
    let by_certificate = certified_leaders(committee, stored, certs, leaders);
    lemma_filter_distinct(
        leaders,
        |l: VerifiedBlock| certified_by(committee, stored, certs, l),
    );
    if by_certificate.len() > 1 {
        let one = by_certificate[0];
        let other = by_certificate[1];
        assert(certified_by(committee, stored, certs, one));
        assert(certified_by(committee, stored, certs, other));
        let i = choose|i: int|
            0 <= i < certs.len() && certifies(committee, stored, #[trigger] certs[i], one);
        let j = choose|j: int|
            0 <= j < certs.len() && certifies(committee, stored, #[trigger] certs[j], other);
        law_one_certified_leader(committee, stored, certs[i], certs[j], one, other);
    }
}

/// A leader that is backed has a certificate.
pub proof fn lemma_backed_has_certificate(
    committee: Committee,
    dag: DagModel,
    round: Round,
    leader: VerifiedBlock,
) -> (c: VerifiedBlock)
    requires
        committee.wf(),
        dag.valid(committee),
        complete(dag.stored),
        backed(committee, dag, round, leader),
    ensures
        certifies(committee, dag.stored, c, leader),
        c.block().round == round,
        points_back(c),
{
    let blocks = dag.open_at_round(round);
    dag.lemma_fetched(dag.open_refs_at_round(round));
    let who = supporters_among(committee, dag.stored, blocks, leader, blocks.len() as int);
    if forall|a: AuthorityIndex| !who.contains(a) {
        assert(who =~= Set::empty());
        lemma_stake_of_none(committee.members());
    }
    let a = choose|a: AuthorityIndex| who.contains(a);
    let i = choose|i: int|
        0 <= i < blocks.len() && (#[trigger] blocks[i]).block().author == a && certifies(
            committee,
            dag.stored,
            blocks[i],
            leader,
        );
    blocks[i]
}

/// How a committer is written: its wave length and its two offsets.
pub proof fn law_committer_form(committer: BaseCommitter)
    ensures
        committer.text() == "BaseCommitter(wave_len="@ + decimal(
            committer.spec_options().wave_length as nat,
        ) + ", leader_off="@ + decimal(committer.spec_options().leader_offset as nat)
            + ", round_off="@ + decimal(committer.spec_options().round_offset as nat) + ")"@,
{
}

/// A committer elects by its own options, among the members of its committee.
pub proof fn law_elects_by_its_options(committer: BaseCommitter, round: Round)
    ensures
        committer.elects(round) == committer.spec_options().elected(
            round,
            committer.spec_committee().members().len(),
        ),
{
}

} // verus!
