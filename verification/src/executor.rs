//! An executor that acknowledges batches without running them.

use vstd::prelude::*;

use crate::shared::{BackpressureSignal, Round, TxBatch};

verus! {

/// Record of one batch handed to a [`MockExecutor`].
#[derive(Debug, Clone, Copy, PartialEq, Eq, Structural)]
pub struct ExecutorEvent {
    pub round: Round,
    pub commit_index: u64,
    pub is_optimistic: bool,
    pub tx_count: usize,
}

/// The record of `batch`.
pub open spec fn record_of(batch: TxBatch) -> ExecutorEvent {
    ExecutorEvent {
        round: batch.round,
        commit_index: batch.commit_index,
        is_optimistic: batch.is_optimistic,
        tx_count: batch.txs@.len() as usize,
    }
}

/// What an executor wants done for a batch, in order.
#[derive(Debug, Clone, Copy, PartialEq, Eq, Structural)]
pub enum ExecutorAction {
    /// Send a signal to the scheduler.
    Signal(BackpressureSignal),
    /// Wait that many milliseconds.
    Sleep(u64),
}

/// What an executor with the given delay wants done for each batch: nothing if there is no
/// delay, else to hold the scheduler back while it waits.
pub open spec fn batch_actions(delay_ms: u64) -> Seq<ExecutorAction> {
    if delay_ms == 0 {
        Seq::empty()
    } else {
        seq![
            ExecutorAction::Signal(BackpressureSignal::SlowDown),
            ExecutorAction::Sleep(delay_ms),
            ExecutorAction::Signal(BackpressureSignal::Resume),
        ]
    }
}

/// Executor that records each batch, with an optional delay per batch.
#[derive(Debug)]
pub struct MockExecutor {
    pub(crate) received: Vec<ExecutorEvent>,
    pub(crate) delay_ms: u64,
}

impl MockExecutor {
    /// The batches recorded so far, oldest first.
    pub open(crate) spec fn recorded(&self) -> Seq<ExecutorEvent> {
        self.received@
    }

    /// Delay per batch in milliseconds (0 = none).
    pub open(crate) spec fn delay(&self) -> u64 {
        self.delay_ms
    }

    /// An executor without delay.
    pub fn new() -> (r: Self)
        ensures
            r.recorded() == Seq::<ExecutorEvent>::empty(),
            r.delay() == 0,
    {
        MockExecutor { received: Vec::new(), delay_ms: 0 }
    }

    /// An executor that waits `delay_ms` per batch, between a `SlowDown` and a `Resume`.
    pub fn new_with_delay(delay_ms: u64) -> (r: Self)
        ensures
            r.recorded() == Seq::<ExecutorEvent>::empty(),
            r.delay() == delay_ms,
    {
        MockExecutor { received: Vec::new(), delay_ms }
    }

    /// The batches recorded so far, oldest first.
    pub fn events(&self) -> (r: &Vec<ExecutorEvent>)
        ensures
            r@ == self.recorded(),
    {
        &self.received
    }

    /// Records `batch` and says what is to be done for it.
    pub fn on_batch(&mut self, batch: &TxBatch) -> (r: Vec<ExecutorAction>)
        ensures
            final(self).recorded() == old(self).recorded().push(record_of(*batch)),
            final(self).delay() == old(self).delay(),
            r@ == batch_actions(old(self).delay()),
    {
        self.received.push(
            ExecutorEvent {
                round: batch.round,
                commit_index: batch.commit_index,
                is_optimistic: batch.is_optimistic,
                tx_count: batch.txs.len(),
            },
        );
        let mut actions: Vec<ExecutorAction> = Vec::new();
        if self.delay_ms > 0 {
            actions.push(ExecutorAction::Signal(BackpressureSignal::SlowDown));
            actions.push(ExecutorAction::Sleep(self.delay_ms));
            actions.push(ExecutorAction::Signal(BackpressureSignal::Resume));
        }
        assert(actions@ =~= batch_actions(self.delay_ms));
        actions
    }
}

impl Default for MockExecutor {
    fn default() -> (r: Self)
        ensures
            r.recorded() == Seq::<ExecutorEvent>::empty(),
            r.delay() == 0,
    {
        MockExecutor::new()
    }
}

/// An executor never leaves the scheduler held back: the last thing done for a batch that
/// slows it down is to let it resume.
pub proof fn law_every_pause_is_lifted(delay_ms: u64, k: int)
    requires
        0 <= k < batch_actions(delay_ms).len(),
        batch_actions(delay_ms)[k] == ExecutorAction::Signal(BackpressureSignal::SlowDown),
    ensures
        k < batch_actions(delay_ms).len() - 1,
        batch_actions(delay_ms).last() == ExecutorAction::Signal(BackpressureSignal::Resume),
{
}

/// What is done for a batch: without a delay nothing, and with one the scheduler is slowed down, the
/// delay is waited out, and the scheduler is let go, in this order.
pub proof fn law_delay_is_waited_out(delay_ms: u64)
    ensures
        delay_ms == 0 ==> batch_actions(delay_ms).len() == 0,
        delay_ms > 0 ==> {
            &&& batch_actions(delay_ms).len() == 3
            &&& batch_actions(delay_ms)[0] == ExecutorAction::Signal(BackpressureSignal::SlowDown)
            &&& batch_actions(delay_ms)[1] == ExecutorAction::Sleep(delay_ms)
            &&& batch_actions(delay_ms)[2] == ExecutorAction::Signal(BackpressureSignal::Resume)
        },
{
}

/// The record of a batch tells its round, index and kind, and how many transactions it holds.
pub proof fn law_record_tells_the_batch(batch: TxBatch)
    requires
        batch.txs@.len() <= usize::MAX,
    ensures
        record_of(batch).round == batch.round,
        record_of(batch).commit_index == batch.commit_index,
        record_of(batch).is_optimistic == batch.is_optimistic,
        record_of(batch).tx_count == batch.txs@.len(),
{
}

} // verus!
