//! The clock that decides which round a node may propose for.

use std::sync::Arc;

use vstd::prelude::*;

use crate::committee::{
    lemma_stake_of_none, stake_of, stake_total, AuthorityIndex, Committee,
};
use crate::context::Context;
use crate::stake_aggregator::{QuorumThreshold, StakeAggregator};
use crate::types::{BlockRef, Round};

verus! {

/// What the clock knows: the current round and who has produced a block for it.
#[verifier::ext_equal]
pub struct ClockState {
    pub round: Round,
    pub voters: Set<AuthorityIndex>,
}

impl ClockState {
    /// The clock at `round`, before any block of that round.
    pub open spec fn at(round: Round) -> ClockState {
        ClockState { round, voters: Set::empty() }
    }

    /// The authorities with a block at the round of `block` once `block` is counted.
    pub open spec fn voters_with(self, block: BlockRef) -> Set<AuthorityIndex> {
        (if block.round == self.round {
            self.voters
        } else {
            Set::empty()
        }).insert(block.author)
    }

    /// The clock after `block`: a block of an earlier round changes nothing; one of the
    /// current or a later round moves the clock to its round, and on to the next one
    /// once that round has a quorum.
    pub open spec fn after(self, block: BlockRef, committee: Committee) -> ClockState {
        if block.round < self.round {
            self
        } else if committee.is_quorum(self.voters_with(block)) {
            ClockState::at((block.round + 1) as Round)
        } else {
            ClockState { round: block.round, voters: self.voters_with(block) }
        }
    }

    /// Whether the clock can count `block` without running out of round numbers.
    pub open spec fn can_count(self, block: BlockRef, committee: Committee) -> bool {
        block.round < u32::MAX || !committee.is_quorum(self.voters_with(block))
    }
}

/// Advances the round as blocks of the current round reach a quorum.
#[derive(Debug)]
pub struct ThresholdClock {
    pub(crate) context: Arc<Context>,
    pub(crate) aggregator: StakeAggregator<QuorumThreshold>,
    pub(crate) round: Round,
}

impl View for ThresholdClock {
    type V = ClockState;

    open(crate) spec fn view(&self) -> ClockState {
        ClockState { round: self.round, voters: self.aggregator.voters() }
    }
}

impl ThresholdClock {
    /// The committee whose quorums advance the clock.
    pub open(crate) spec fn committee(&self) -> Committee {
        *self.context.committee
    }

    /// The blocks counted for the current round are not yet a quorum.
    pub open(crate) spec fn wf(&self) -> bool {
        &&& self.context.wf()
        &&& self.aggregator.wf(self.committee())
        &&& !self.committee().is_quorum(self@.voters)
    }

    pub fn new(round: Round, context: Arc<Context>) -> (r: Self)
        requires
            context.wf(),
        ensures
            r.wf(),
            r.committee() == *context.committee,
            r@ == ClockState::at(round),
    {
        let aggregator = StakeAggregator::new();
        proof {
            lemma_stake_of_none(context.committee.members());
        }
        ThresholdClock { context, aggregator, round }
    }

    /// Adds a block reference that has been accepted and advances the round when
    /// a quorum (`2f + 1`) of blocks at the current round is collected.
    /// Returns `true` if the round advanced.
    pub fn add_block(&mut self, block: BlockRef) -> (r: bool)
        requires
            old(self).wf(),
            old(self).committee().has(block.author),
            old(self)@.can_count(block, old(self).committee()),
        ensures
            final(self).wf(),
            final(self).committee() == old(self).committee(),
            final(self)@ == old(self)@.after(block, old(self).committee()),
            r == (final(self)@.round > old(self)@.round),
    {
        proof {
            lemma_stake_of_none(self.committee().members());
        }
        // Blocks from an older round than what we are building are irrelevant.
        if block.round < self.round {
            return false;
        }
        let catch_up = block.round > self.round;
        if catch_up {
            // A block from a future round implies that every intermediate round has
            // a quorum already.
            self.aggregator.clear();
        }
        assert(self.aggregator.voters().insert(block.author) =~= old(self)@.voters_with(block));
        if self.aggregator.add(block.author, &self.context.committee) {
            self.aggregator.clear();
            self.round = block.round + 1;
            true
        } else {
            self.round = block.round;
            catch_up
        }
    }

    pub fn get_round(&self) -> (r: Round)
        ensures
            r == self@.round,
    {
        self.round
    }
}

/// The clock never goes back, and never stays behind a block it has counted.
pub proof fn law_clock_never_goes_back(clock: ClockState, block: BlockRef, committee: Committee)
    requires
        clock.can_count(block, committee),
    ensures
        clock.after(block, committee).round >= clock.round,
        clock.after(block, committee).round >= block.round,
        clock.after(block, committee).round <= clock.round
            || clock.after(block, committee).round <= block.round + 1,
{
}

/// What a block does to the clock. One of an earlier round does nothing. Otherwise its author is
/// counted, alone if the clock had not come to that round; if those counted then hold all stake but
/// what may be faulty the clock moves on to the next round and counts from nothing, and else it
/// stands at the block's round.
pub proof fn law_clock_step(clock: ClockState, block: BlockRef, committee: Committee)
    requires
        committee.wf(),
        block.round < u32::MAX,
    ensures
        ({
            let total = stake_total(committee.members());
            let counted = if block.round == clock.round {
                clock.voters.insert(block.author)
            } else {
                Set::<AuthorityIndex>::empty().insert(block.author)
            };
            let reached = stake_of(committee.members(), counted) >= total - (total - 1) / 3;
            let after = clock.after(block, committee);
            &&& block.round < clock.round ==> after == clock
            &&& block.round >= clock.round && reached ==> after.round == block.round + 1
                && after.voters == Set::<AuthorityIndex>::empty()
            &&& block.round >= clock.round && !reached ==> after.round == block.round
                && after.voters == counted
        }),
{
}

} // verus!
