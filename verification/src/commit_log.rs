//! A log of the scheduler's commit decisions.

use vstd::prelude::*;

use crate::scheduler::pipeline::CommitDecision;
use crate::shared::{Round, TxBatch};

verus! {

/// Record of one decision.
#[derive(Debug, Clone, Copy, PartialEq, Eq, Structural)]
pub enum CommitEvent {
    /// Speculative execution was right; the cached result is committed.
    Commit { commit_index: u64, round: Round },
    /// The speculative result is discarded.
    Discard { commit_index: u64 },
    /// No speculative run existed; a fresh batch was supplied for execution.
    FreshBatch { round: Round, commit_index: u64, tx_count: usize },
}

/// The record of `decision`.
pub open spec fn logged(decision: CommitDecision) -> CommitEvent {
    match decision {
        CommitDecision::Commit { commit_index, round } => CommitEvent::Commit {
            commit_index,
            round,
        },
        CommitDecision::Discard { commit_index } => CommitEvent::Discard { commit_index },
        CommitDecision::FreshBatch(batch) => CommitEvent::FreshBatch {
            round: batch.round,
            commit_index: batch.commit_index,
            tx_count: batch.txs@.len() as usize,
        },
    }
}

/// Consumer of commit decisions that records them.
#[derive(Debug)]
pub struct MockCommitWrapper {
    pub(crate) events: Vec<CommitEvent>,
}

impl MockCommitWrapper {
    /// The decisions recorded so far, oldest first.
    pub open(crate) spec fn recorded(&self) -> Seq<CommitEvent> {
        self.events@
    }

    /// An empty log.
    pub fn new() -> (r: Self)
        ensures
            r.recorded() == Seq::<CommitEvent>::empty(),
    {
        MockCommitWrapper { events: Vec::new() }
    }

    /// The decisions recorded so far, oldest first.
    pub fn events(&self) -> (r: &Vec<CommitEvent>)
        ensures
            r@ == self.recorded(),
    {
        &self.events
    }

    /// Records `decision`.
    pub fn on_decision(&mut self, decision: &CommitDecision)
        ensures
            final(self).recorded() == old(self).recorded().push(logged(*decision)),
    {
        let event = match decision {
            CommitDecision::Commit { commit_index, round } => CommitEvent::Commit {
                commit_index: *commit_index,
                round: *round,
            },
            CommitDecision::Discard { commit_index } => CommitEvent::Discard {
                commit_index: *commit_index,
            },
            CommitDecision::FreshBatch(batch) => CommitEvent::FreshBatch {
                round: batch.round,
                commit_index: batch.commit_index,
                tx_count: batch.txs.len(),
            },
        };
        self.events.push(event);
    }
}

impl Default for MockCommitWrapper {
    fn default() -> (r: Self)
        ensures
            r.recorded() == Seq::<CommitEvent>::empty(),
    {
        MockCommitWrapper::new()
    }
}

/// The record of a decision is of its kind and tells its round and index, and for a fresh batch how
/// many transactions it holds.
pub proof fn law_record_tells_the_decision(
    commit_index: u64,
    round: Round,
    batch: TxBatch,
)
    requires
        batch.txs@.len() <= usize::MAX,
    ensures
        logged(CommitDecision::Commit { commit_index, round }) == (CommitEvent::Commit {
            commit_index,
            round,
        }),
        logged(CommitDecision::Discard { commit_index }) == (CommitEvent::Discard { commit_index }),
        ({
            let event = logged(CommitDecision::FreshBatch(batch));
            &&& event is FreshBatch
            &&& event->FreshBatch_round == batch.round
            &&& event->FreshBatch_commit_index == batch.commit_index
            &&& event->tx_count == batch.txs@.len()
        }),
{
}

} // verus!
