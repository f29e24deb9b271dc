//! The early commit signal: a quorum of the voting round references the wave leader.

use vstd::prelude::*;

use crate::commit::DEFAULT_WAVE_LENGTH;
use crate::committee::{lemma_stake_of_none, stake_of, stake_total, AuthorityIndex, Committee};
use crate::ordered::{RefMap, RefSet};
use crate::stake_aggregator::{QuorumThreshold, StakeAggregator};
use crate::types::{BlockRef, Round};

verus! {

/// Votes seen so far and the leaders that have reached a quorum.
#[verifier::ext_equal]
pub struct SoftVotes {
    pub votes: Map<BlockRef, Set<AuthorityIndex>>,
    pub committed: Set<BlockRef>,
}

impl SoftVotes {
    /// Before any vote.
    pub open spec fn none() -> SoftVotes {
        SoftVotes { votes: Map::empty(), committed: Set::empty() }
    }

    /// Who has voted for `leader`.
    pub open spec fn voters(self, leader: BlockRef) -> Set<AuthorityIndex> {
        if self.votes.contains_key(leader) {
            self.votes[leader]
        } else {
            Set::empty()
        }
    }

    /// Whether the vote of `voter` is the one that soft-commits `leader`.
    pub open spec fn fires(
        self,
        leader: BlockRef,
        voter: AuthorityIndex,
        committee: Committee,
    ) -> bool {
        &&& !self.committed.contains(leader)
        &&& committee.is_quorum(self.voters(leader).insert(voter))
    }

    /// The state after the vote of `voter` for `leader`; a leader that is soft-committed
    /// needs no more votes.
    pub open spec fn vote(
        self,
        leader: BlockRef,
        voter: AuthorityIndex,
        committee: Committee,
    ) -> SoftVotes {
        if self.committed.contains(leader) {
            self
        } else {
            SoftVotes {
                votes: self.votes.insert(leader, self.voters(leader).insert(voter)),
                committed: if self.fires(leader, voter, committee) {
                    self.committed.insert(leader)
                } else {
                    self.committed
                },
            }
        }
    }

    /// Exactly the leaders with a quorum of votes are soft-committed.
    pub open spec fn settled(self, committee: Committee) -> bool {
        forall|leader: BlockRef| #[trigger]
            self.committed.contains(leader) <==> committee.is_quorum(self.voters(leader))
    }
}

/// Tracks votes for wave-leader blocks and fires once a quorum is reached.
///
/// A vote for leader block L at round R is any accepted block at voting round R + 1 whose
/// ancestor list contains the reference of L.
#[derive(Debug)]
pub struct SoftCommitTracker {
    // Votes per leader.
    pub(crate) votes: RefMap<StakeAggregator<QuorumThreshold>>,
    // Leaders that have already reached quorum.
    pub(crate) soft_committed: RefSet,
}

impl View for SoftCommitTracker {
    type V = SoftVotes;

    open(crate) spec fn view(&self) -> SoftVotes {
        SoftVotes {
            votes: Map::new(
                |r: BlockRef| self.votes@.contains_key(r),
                |r: BlockRef| self.votes@[r].voters(),
            ),
            committed: self.soft_committed@,
        }
    }
}

impl SoftCommitTracker {
    /// The collections are in order.
    pub open(crate) spec fn kept(&self) -> bool {
        &&& self.votes.wf()
        &&& self.soft_committed.wf()
    }

    /// The stake counted per leader is that of its voters.
    pub open(crate) spec fn counts(&self, committee: Committee) -> bool {
        forall|r: BlockRef| #[trigger]
            self.votes@.contains_key(r) ==> self.votes@[r].wf(committee)
    }

    pub open spec fn wf(&self, committee: Committee) -> bool {
        &&& self.kept()
        &&& self.counts(committee)
        &&& self@.settled(committee)
    }

    pub fn new() -> (r: Self)
        ensures
            r@ == SoftVotes::none(),
            forall|committee: Committee| committee.wf() ==> #[trigger] r.wf(committee),
    {
        let r = SoftCommitTracker { votes: RefMap::new(), soft_committed: RefSet::new() };
        proof {
            assert(r@.votes =~= Map::<BlockRef, Set<AuthorityIndex>>::empty());
            assert forall|committee: Committee| committee.wf() implies #[trigger] r.wf(
                committee,
            ) by {
                lemma_stake_of_none(committee.members());
            }
        }
        r
    }

    /// Record that `voter` at the voting round referenced `leader_ref` (at a leader round).
    ///
    /// Returns `true` the first time a quorum (`2f + 1`) is reached for `leader_ref`.
    /// Subsequent calls for the same `leader_ref` always return `false`.
    pub fn add_vote(
        &mut self,
        leader_ref: BlockRef,
        voter: AuthorityIndex,
        committee: &Committee,
    ) -> (r: bool)
        requires
            committee.wf(),
            committee.has(voter),
            SoftCommitTracker::leads(leader_ref.round),
            old(self).wf(*committee),
        ensures
            final(self).wf(*committee),
            final(self)@ == old(self)@.vote(leader_ref, voter, *committee),
            r == old(self)@.fires(leader_ref, voter, *committee),
    {
        // Already soft-committed: ignore further votes.
        if self.soft_committed.contains(&leader_ref) {
            return false;
        }
        let ghost before = self@;
        assert(before.committed.contains(leader_ref) <==> committee.is_quorum(
            before.voters(leader_ref),
        ));
        let mut agg = match self.votes.remove(&leader_ref) {
            Some(agg) => agg,
            None => StakeAggregator::new(),
        };
        assert(agg.voters() =~= before.voters(leader_ref));
        let reached = agg.add(voter, committee);
        self.votes.insert(leader_ref, agg);
        if reached {
            self.soft_committed.insert(leader_ref);
        }
        proof {
            let after = before.vote(leader_ref, voter, *committee);
            assert(self@.votes =~= after.votes);
            assert(self@ =~= after);
            assert forall|leader: BlockRef| #[trigger]
                self@.committed.contains(leader) <==> committee.is_quorum(
                self@.voters(leader),
            ) by {
                assert(before.committed.contains(leader) <==> committee.is_quorum(
                    before.voters(leader),
                ));
            }
        }
        reached
    }

    pub fn is_soft_committed(&self, leader_ref: &BlockRef) -> (r: bool)
        requires
            self.kept(),
        ensures
            r == self@.committed.contains(*leader_ref),
    {
        self.soft_committed.contains(leader_ref)
    }

    /// Leader rounds are the positive multiples of the wave length.
    pub open spec fn leads(round: Round) -> bool {
        round > 0 && round % DEFAULT_WAVE_LENGTH == 0
    }

    /// Returns `true` if `round` is a wave-leader round: 3, 6, 9, ...
    pub fn is_leader_round(round: Round) -> (r: bool)
        ensures
            r == SoftCommitTracker::leads(round),
    {
        round > 0 && round % DEFAULT_WAVE_LENGTH == 0
    }

    /// Returns the expected leader for a leader round, by the same round robin as the
    /// committers use.
    pub fn leader_at_round(round: Round, committee_size: usize) -> (r: AuthorityIndex)
        requires
            SoftCommitTracker::leads(round),
            0 < committee_size <= u32::MAX,
        ensures
            r.0 == round as int % committee_size as int,
    {
        AuthorityIndex::new_for_test(round % committee_size as u32)
    }
}

/// Once soft-committed, a leader stays so, its votes no longer change, and no further vote
/// fires for it; votes for one leader leave every other one alone.
pub proof fn law_soft_commit_fires_once(
    votes: SoftVotes,
    leader: BlockRef,
    other: BlockRef,
    voter: AuthorityIndex,
    committee: Committee,
)
    ensures
        votes.fires(leader, voter, committee) ==> votes.vote(
            leader,
            voter,
            committee,
        ).committed.contains(leader),
        votes.committed.contains(leader) ==> !votes.fires(leader, voter, committee) && votes.vote(
            leader,
            voter,
            committee,
        ) == votes,
        votes.committed.contains(other) ==> votes.vote(leader, voter, committee).committed.contains(
            other,
        ),
        other != leader ==> votes.vote(leader, voter, committee).voters(other) == votes.voters(
            other,
        ),
{
}

/// A vote is counted for its leader, and it soft-commits the leader exactly if the voters, this one
/// included, then hold all stake but what may be faulty and the leader was not committed before.
pub proof fn law_vote_is_counted(
    votes: SoftVotes,
    leader: BlockRef,
    voter: AuthorityIndex,
    committee: Committee,
)
    requires
        committee.wf(),
    ensures
        ({
            let total = stake_total(committee.members());
            let voters = votes.voters(leader).insert(voter);
            let reached = stake_of(committee.members(), voters) >= total - (total - 1) / 3;
            let after = votes.vote(leader, voter, committee);
            &&& votes.fires(leader, voter, committee) <==> reached && !votes.committed.contains(
                leader,
            )
            &&& !votes.committed.contains(leader) ==> after.voters(leader) == voters && (
            after.committed.contains(leader) <==> reached)
            &&& forall|x: BlockRef| #[trigger]
                after.committed.contains(x) && x != leader ==> votes.committed.contains(x)
            &&& SoftVotes::none().voters(leader) == Set::<AuthorityIndex>::empty()
            &&& !SoftVotes::none().committed.contains(leader)
        }),
{
}

/// Leader rounds are 3, 6, 9 and so on, and no others.
pub proof fn law_leader_rounds(round: Round)
    ensures
        SoftCommitTracker::leads(round) <==> exists|wave: int|
            wave > 0 && round == #[trigger] (3 * wave),
        !SoftCommitTracker::leads(0),
        SoftCommitTracker::leads(3),
        round > 0 && round <= u32::MAX - 3 ==> SoftCommitTracker::leads((round + 3) as Round)
            == SoftCommitTracker::leads(round),
{
    if SoftCommitTracker::leads(round) {
        assert(round == 3 * (round as int / 3));
    }
}

} // verus!
