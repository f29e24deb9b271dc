//! Questions to ask of a node's events.

use vstd::prelude::*;

use crate::shared::{BlockRef, ConsensusEvent, EthSignedTx, OurCommittedSubDag, Round};

verus! {

/// Whether `event` is a soft commit of `round`.
pub open spec fn softly_commits(event: ConsensusEvent, round: Round) -> bool {
    event matches ConsensusEvent::SoftCommit { round: r, .. } && r == round
}

/// Whether `event` is a hard commit whose leader is at `round`.
pub open spec fn finally_commits(event: ConsensusEvent, round: Round) -> bool {
    event matches ConsensusEvent::HardCommit { subdag } && subdag.leader.round == round
}

/// Whether one of `events` is a soft commit of `round`.
pub fn has_soft_commit(events: &[ConsensusEvent], round: Round) -> (r: bool)
    ensures
        r <==> exists|i: int| 0 <= i < events@.len() && softly_commits(#[trigger] events@[i], round),
{
    let mut i: usize = 0;
    while i < events.len()
        invariant
            i <= events@.len(),
            forall|j: int| 0 <= j < i ==> !softly_commits(#[trigger] events@[j], round),
        decreases events@.len() - i,
    {
        let hit = match &events[i] {
            ConsensusEvent::SoftCommit { round: r, leader: _, txs: _ } => *r == round,
            ConsensusEvent::HardCommit { subdag: _ } => false,
        };
        if hit {
            assert(softly_commits(events@[i as int], round));
            return true;
        }
        i += 1;
    }
    false
}

/// Whether one of `events` is a hard commit whose leader is at `round`.
pub fn has_hard_commit(events: &[ConsensusEvent], round: Round) -> (r: bool)
    ensures
        r <==> exists|i: int| 0 <= i < events@.len() && finally_commits(#[trigger] events@[i], round),
{
    let mut i: usize = 0;
    while i < events.len()
        invariant
            i <= events@.len(),
            forall|j: int| 0 <= j < i ==> !finally_commits(#[trigger] events@[j], round),
        decreases events@.len() - i,
    {
        let hit = match &events[i] {
            ConsensusEvent::SoftCommit { round: _, leader: _, txs: _ } => false,
            ConsensusEvent::HardCommit { subdag } => subdag.leader.round == round,
        };
        if hit {
            assert(finally_commits(events@[i as int], round));
            return true;
        }
        i += 1;
    }
    false
}

/// An event is a soft commit of its own round only, and a hard commit of its leader's round only.
pub proof fn law_events_are_of_one_round(
    soft: Round,
    leader: BlockRef,
    txs: Vec<EthSignedTx>,
    subdag: OurCommittedSubDag,
    round: Round,
)
    ensures
        softly_commits(ConsensusEvent::SoftCommit { round: soft, leader, txs }, round) <==> soft
            == round,
        finally_commits(ConsensusEvent::HardCommit { subdag }, round) <==> subdag.leader.round
            == round,
        !softly_commits(ConsensusEvent::HardCommit { subdag }, round),
        !finally_commits(ConsensusEvent::SoftCommit { round: soft, leader, txs }, round),
{
}

} // verus!
