//! Counting the stake behind a set of votes.

use std::collections::BTreeSet;
use std::marker::PhantomData;

use vstd::prelude::*;

use crate::committee::{
    lemma_stake_insert, lemma_stake_monotone, lemma_stake_of_none, stake_total, validity_of,
    AuthorityIndex, Committee, Stake,
};

verus! {

/// An amount of stake that votes are counted up to.
pub trait CommitteeThreshold {
    /// The stake that reaches this threshold.
    spec fn needed(committee: Committee) -> nat;

    /// Whether `amount` reaches the threshold.
    fn is_threshold(committee: &Committee, amount: Stake) -> (r: bool)
        requires
            committee.wf(),
        ensures
            r == (amount >= Self::needed(*committee)),
    ;

    fn threshold(committee: &Committee) -> (r: Stake)
        requires
            committee.wf(),
        ensures
            r == Self::needed(*committee),
    ;
}

/// The stake of a quorum (`2f + 1`).
#[derive(Debug)]
pub struct QuorumThreshold;

/// The stake of validity (`f + 1`).
#[derive(Debug)]
pub struct ValidityThreshold;

impl CommitteeThreshold for QuorumThreshold {
    open spec fn needed(committee: Committee) -> nat {
        committee.quorum()
    }

    fn is_threshold(committee: &Committee, amount: Stake) -> (r: bool) {
        committee.reached_quorum(amount)
    }

    fn threshold(committee: &Committee) -> (r: Stake) {
        committee.quorum_threshold()
    }
}

impl CommitteeThreshold for ValidityThreshold {
    open spec fn needed(committee: Committee) -> nat {
        validity_of(committee.total())
    }

    fn is_threshold(committee: &Committee, amount: Stake) -> (r: bool) {
        committee.reached_validity(amount)
    }

    fn threshold(committee: &Committee) -> (r: Stake) {
        committee.validity_threshold()
    }
}

/// Counts the stake of distinct voters up to the threshold `T`.
#[derive(Debug)]
#[verifier::reject_recursive_types(T)]
pub struct StakeAggregator<T> {
    pub(crate) votes: BTreeSet<u32>,
    pub(crate) stake: Stake,
    pub(crate) threshold: PhantomData<T>,
}

impl<T: CommitteeThreshold> StakeAggregator<T> {
    /// The authorities that have voted.
    pub open(crate) spec fn voters(&self) -> Set<AuthorityIndex> {
        Set::new(|a: AuthorityIndex| self.votes@.contains(a.0))
    }

    pub open(crate) spec fn counted(&self) -> Stake {
        self.stake
    }

    /// The stake counted is that of the voters.
    pub open spec fn wf(&self, committee: Committee) -> bool {
        self.counted() == committee.stake_held(self.voters())
    }

    pub fn new() -> (r: Self)
        ensures
            r.voters() == Set::<AuthorityIndex>::empty(),
            forall|committee: Committee| #[trigger] r.wf(committee),
    {
        let r = StakeAggregator { votes: BTreeSet::new(), stake: 0, threshold: PhantomData };
        assert(r.voters() =~= Set::<AuthorityIndex>::empty());
        assert forall|committee: Committee| #[trigger] r.wf(committee) by {
            lemma_stake_of_none(committee.members());
        }
        r
    }

    /// Adds a vote of `vote`. Returns true when the threshold is first reached.
    /// Duplicate votes from the same authority are ignored.
    pub fn add(&mut self, vote: AuthorityIndex, committee: &Committee) -> (r: bool)
        requires
            committee.wf(),
            committee.has(vote),
            old(self).wf(*committee),
        ensures
            final(self).wf(*committee),
            final(self).voters() == old(self).voters().insert(vote),
            r == (committee.stake_held(old(self).voters()) < T::needed(*committee)
                <= committee.stake_held(old(self).voters().insert(vote))),
    {
        let ghost before = self.voters();
        if self.votes.insert(vote.0) {
            proof {
                assert(self.voters() =~= before.insert(vote));
                lemma_stake_insert(committee.members(), before, vote);
                lemma_stake_monotone(committee.members(), before, before.insert(vote));
            }
            let reached_before = T::is_threshold(committee, self.stake);
            self.stake = self.stake + committee.stake(vote);
            return !reached_before && T::is_threshold(committee, self.stake);
        }
        assert(self.voters() =~= before.insert(vote));
        assert(before =~= before.insert(vote));
        false
    }

    /// The stake counted so far.
    pub fn stake(&self) -> (r: Stake)
        ensures
            r == self.counted(),
    {
        self.stake
    }

    /// Forgets all votes.
    pub fn clear(&mut self)
        ensures
            final(self).voters() == Set::<AuthorityIndex>::empty(),
            forall|committee: Committee| #[trigger] final(self).wf(committee),
    {
        self.votes.clear();
        self.stake = 0;
        assert(self.voters() =~= Set::<AuthorityIndex>::empty());
        assert forall|committee: Committee| #[trigger] self.wf(committee) by {
            lemma_stake_of_none(committee.members());
        }
    }
}

impl<T: CommitteeThreshold> Default for StakeAggregator<T> {
    fn default() -> (r: Self)
        ensures
            r.voters() == Set::<AuthorityIndex>::empty(),
            forall|committee: Committee| #[trigger] r.wf(committee),
    {
        StakeAggregator::new()
    }
}

/// The thresholds: for a quorum all stake but what may be faulty, which is the most that is less
/// than a third, and for validity one more than may be faulty.
pub proof fn law_what_is_needed(committee: Committee)
    requires
        committee.wf(),
    ensures
        ({
            let total = stake_total(committee.members());
            &&& QuorumThreshold::needed(committee) == total - (total - 1) / 3
            &&& ValidityThreshold::needed(committee) == (total - 1) / 3 + 1
        }),
{
}

} // verus!
