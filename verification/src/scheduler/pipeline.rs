//! Decisions of the scheduler between consensus and execution.

use vstd::prelude::*;

use crate::scheduler::backpressure::{
    law_signal_comes_when_due, paused_after, signal_for, BackpressureController,
};
use crate::scheduler::pending_queue::{
    law_dispatch_in_round_order, law_dispatch_marks_what_leaves, law_dispatch_takes_all_that_waits,
    law_hard_commit_confirms_dispatched, leaves_in, waits_at, HardCommitDecision, PendingEntry,
    PendingQueue, QueueModel, WAVE_LENGTH,
};
use crate::shared::{
    BackpressureSignal, ConsensusEvent, EthSignedTx, OurCommittedSubDag, OurVerifiedBlock, Round,
    TxBatch,
};

verus! {

/// What is to become of a speculative result.
#[derive(Debug, PartialEq, Eq)]
pub enum CommitDecision {
    /// Speculative execution was right; commit its cached result.
    Commit { commit_index: u64, round: Round },
    /// Speculative result must be discarded.
    Discard { commit_index: u64 },
    /// No speculative run exists; a fresh batch is supplied for execution.
    FreshBatch(TxBatch),
}

/// What the scheduler wants done.
#[derive(Debug, PartialEq, Eq)]
pub enum PipelineAction {
    /// Send a batch to the executor.
    Execute(TxBatch),
    /// Send a decision to the commit wrapper.
    Decide(CommitDecision),
    /// Tell consensus to slow down or to resume.
    Throttle(BackpressureSignal),
}

/// What a scheduler knows.
#[verifier::ext_equal]
pub struct PipelineModel {
    pub queue: QueueModel,
    pub threshold: usize,
    /// Whether the queue is too deep.
    pub paused: bool,
    /// Whether the executor has asked for a pause.
    pub held: bool,
    /// Number of speculative batches sent.
    pub sent: nat,
}

/// The speculative batches for `rounds`, numbered from `sent + 1` on.
pub open spec fn speculative_batches(rounds: Seq<(Round, Vec<EthSignedTx>)>, sent: nat) -> Seq<
    PipelineAction,
> {
    Seq::new(
        rounds.len(),
        |k: int|
            PipelineAction::Execute(
                TxBatch {
                    round: rounds[k].0,
                    commit_index: (sent + 1 + k) as u64,
                    txs: rounds[k].1,
                    is_optimistic: true,
                },
            ),
    )
}

/// All transactions of `blocks`, block by block.
pub open spec fn subdag_txs(blocks: Seq<OurVerifiedBlock>) -> Seq<EthSignedTx>
    decreases blocks.len(),
{
    if blocks.len() == 0 {
        Seq::empty()
    } else {
        subdag_txs(blocks.drop_last()) + blocks.last().txs@
    }
}

impl PipelineModel {
    /// The signal that the depth of the queue calls for.
    pub open spec fn signal(self) -> Option<BackpressureSignal> {
        signal_for(self.threshold, self.paused, self.queue.entries.dom().len() as usize)
    }

    /// Whether the queue counts as too deep once that signal is given.
    pub open spec fn too_deep(self) -> bool {
        paused_after(self.paused, self.signal())
    }

    /// Whether dispatch is paused then.
    pub open spec fn pausing(self) -> bool {
        self.held || self.too_deep()
    }

    /// The scheduler once it has looked at the depth and, unless paused, sent whatever can
    /// be sent.
    pub open spec fn advanced(self) -> PipelineModel {
        PipelineModel {
            queue: if self.pausing() {
                self.queue
            } else {
                self.queue.drained()
            },
            paused: self.too_deep(),
            sent: if self.pausing() {
                self.sent
            } else {
                self.sent + self.queue.dispatchable().len()
            },
            ..self
        }
    }

    /// What the scheduler wants done then.
    pub open spec fn actions(self) -> Seq<PipelineAction> {
        (match self.signal() {
            Some(signal) => seq![PipelineAction::Throttle(signal)],
            None => Seq::empty(),
        }) + if self.pausing() {
            Seq::empty()
        } else {
            speculative_batches(self.queue.dispatchable(), self.sent)
        }
    }

    /// Whether a soft commit of `round` can be buffered: it is not buffered already, and
    /// leaves room for the next leader round.
    pub open spec fn takes(self, round: Round) -> bool {
        &&& round > 0
        &&& round + WAVE_LENGTH <= u64::MAX
        &&& !self.queue.entries.contains_key(round)
    }

    /// The scheduler with a soft commit of `round` buffered.
    pub open spec fn buffered(self, round: Round, txs: Vec<EthSignedTx>) -> PipelineModel {
        PipelineModel {
            queue: QueueModel {
                entries: self.queue.entries.insert(round, PendingEntry::Queued(txs)),
                ..self.queue
            },
            ..self
        }
    }

    /// The scheduler once the entry of `round` is settled.
    pub open spec fn settled(self, round: Round) -> PipelineModel {
        PipelineModel {
            queue: QueueModel { entries: self.queue.entries.remove(round), ..self.queue },
            ..self
        }
    }
}

/// Whether `decision` is what the hard commit `subdag` calls for: confirm the batch that was
/// dispatched for its round, or run the transactions afresh.
pub open spec fn answers(
    decision: CommitDecision,
    scheduler: PipelineModel,
    subdag: OurCommittedSubDag,
) -> bool {
    let round = subdag.leader.round;
    match scheduler.queue.decision(round, subdag.commit_index) {
        HardCommitDecision::Commit { .. } => decision == (CommitDecision::Commit {
            commit_index: subdag.commit_index,
            round,
        }),
        HardCommitDecision::FreshExecution { .. } => {
            &&& decision is FreshBatch
            &&& decision->FreshBatch_0.round == round
            &&& decision->FreshBatch_0.commit_index == subdag.commit_index
            &&& decision->FreshBatch_0.txs@ == subdag_txs(subdag.blocks@)
            &&& !decision->FreshBatch_0.is_optimistic
        },
    }
}

/// Gathers the transactions of `blocks`, block by block.
fn gather_txs(blocks: Vec<OurVerifiedBlock>) -> (r: Vec<EthSignedTx>)
    ensures
        r@ == subdag_txs(blocks@),
{
    let mut out: Vec<EthSignedTx> = Vec::new();
    let mut blocks = blocks;
    let ghost given = blocks@;
    let mut tail: Vec<Vec<EthSignedTx>> = Vec::new();
    let ghost mut left = given.len() as int;
    assert(given.take(left) =~= given);
    // Take the blocks off the end, then put their transactions together from the front.
    while blocks.len() > 0
        invariant
            left == blocks@.len() <= given.len(),
            blocks@ == given.take(left),
            tail@.len() == given.len() - left,
            forall|k: int|
                0 <= k < tail@.len() ==> (#[trigger] tail@[k])@ == given[given.len() - 1 - k].txs@,
        decreases blocks@.len(),
    {
        let block = blocks.pop().unwrap();
        tail.push(block.txs);
        proof {
            left = left - 1;
            assert(blocks@ =~= given.take(left));
        }
    }
    let ghost mut done = 0int;
    assert(given.take(0) =~= Seq::<OurVerifiedBlock>::empty());
    while tail.len() > 0
        invariant
            0 <= done <= given.len(),
            tail@.len() == given.len() - done,
            forall|k: int|
                0 <= k < tail@.len() ==> (#[trigger] tail@[k])@ == given[given.len() - 1 - k].txs@,
            out@ == subdag_txs(given.take(done)),
        decreases tail@.len(),
    {
        let mut txs = tail.pop().unwrap();
        proof {
            assert(txs@ == given[done].txs@);
            assert(given.take(done + 1).drop_last() =~= given.take(done));
        }
        out.append(&mut txs);
        proof {
            done = done + 1;
        }
    }
    assert(given.take(given.len() as int) =~= given);
    out
}

/// Mediates between consensus events and the executor.
#[derive(Debug)]
pub struct PipelineScheduler {
    pub(crate) queue: PendingQueue,
    pub(crate) backpressure: BackpressureController,
    pub(crate) held: bool,
    pub(crate) sent: u64,
}

impl View for PipelineScheduler {
    type V = PipelineModel;

    open(crate) spec fn view(&self) -> PipelineModel {
        PipelineModel {
            queue: self.queue@,
            threshold: self.backpressure.spec_threshold(),
            paused: self.backpressure.pausing(),
            held: self.held,
            sent: self.sent as nat,
        }
    }
}

impl PipelineScheduler {
    /// Every batch sent has moved the queue on by one wave.
    pub open(crate) spec fn wf(&self) -> bool {
        &&& self.queue.wf()
        &&& self.queue@.next == WAVE_LENGTH + WAVE_LENGTH * self.sent
    }

    /// A scheduler that starts with the first leader round and slows consensus down when
    /// more than `threshold` rounds are buffered.
    pub fn new(threshold: usize) -> (r: Self)
        requires
            threshold >= 2,
        ensures
            r.wf(),
            r@ == (PipelineModel {
                queue: QueueModel { entries: Map::empty(), next: WAVE_LENGTH },
                threshold,
                paused: false,
                held: false,
                sent: 0,
            }),
    {
        PipelineScheduler {
            queue: PendingQueue::new(WAVE_LENGTH, threshold),
            backpressure: BackpressureController::new(threshold),
            held: false,
            sent: 0,
        }
    }

    /// Looks at the depth of the queue and, unless paused, sends whatever can be sent.
    fn advance(&mut self, actions: &mut Vec<PipelineAction>)
        requires
            old(self).wf(),
        ensures
            final(self).wf(),
            final(self)@ == old(self)@.advanced(),
            final(actions)@ == old(actions)@ + old(self)@.actions(),
    {
        let ghost start = self@;
        let ghost told = actions@;
        match self.backpressure.check(self.queue.depth()) {
            Some(signal) => {
                actions.push(PipelineAction::Throttle(signal));
            },
            None => {},
        }
        let ghost head = actions@;
        if self.held || self.backpressure.is_paused() {
            assert(actions@ =~= told + start.actions());
            return;
        }
        let ghost queue = self.queue@;
        proof {
            law_dispatch_in_round_order(queue);
        }
        let rounds = self.queue.drain_dispatchable();
        let ghost list = rounds@;
        let ghost sent0 = self.sent as nat;
        let ghost batches = speculative_batches(list, sent0);
        let mut rounds = rounds;
        let mut i: usize = 0;
        let n: usize = rounds.len();
        proof {
            assert(list.skip(0) =~= list);
            assert(actions@ =~= head + batches.take(0));
        }
        while i < n
            invariant
                i <= n == list.len(),
                rounds@ == list.skip(i as int),
                self.queue.wf(),
                self.queue@ == start.queue.drained(),
                self.backpressure.spec_threshold() == start.threshold,
                self.backpressure.pausing() == start.too_deep(),
                self.held == start.held,
                self.sent == sent0 + i,
                WAVE_LENGTH + WAVE_LENGTH * (sent0 + list.len()) <= u64::MAX,
                batches == speculative_batches(list, sent0),
                actions@ == head + batches.take(i as int),
            decreases n - i,
        {
            let (round, txs) = rounds.remove(0);
            self.sent = self.sent + 1;
            let ghost so_far = actions@;
            let batch = TxBatch { round, commit_index: self.sent, txs, is_optimistic: true };
            actions.push(PipelineAction::Execute(batch));
            proof {
                assert(rounds@ =~= list.skip(i + 1));
                assert(batches[i as int] == PipelineAction::Execute(batch));
                assert(actions@ =~= head + batches.take(i + 1));
            }
            i += 1;
        }
        proof {
            assert(batches.take(batches.len() as int) =~= batches);
            assert(actions@ =~= told + start.actions());
            assert(self@ =~= start.advanced());
        }
    }

    /// Buffers a soft commit and sends whatever can be sent. A soft commit of a round that
    /// is still buffered is dropped.
    pub fn on_soft_commit(&mut self, round: Round, txs: Vec<EthSignedTx>) -> (r: Vec<PipelineAction>)
        requires
            old(self).wf(),
        ensures
            final(self).wf(),
            old(self)@.takes(round) ==> {
                &&& final(self)@ == old(self)@.buffered(round, txs).advanced()
                &&& r@ == old(self)@.buffered(round, txs).actions()
            },
            !old(self)@.takes(round) ==> {
                &&& final(self)@ == old(self)@
                &&& r@.len() == 0
            },
    {
        let mut actions: Vec<PipelineAction> = Vec::new();
        if round == 0 || round > u64::MAX - WAVE_LENGTH || self.queue.contains(round) {
            return actions;
        }
        let ghost start = self@;
        self.queue.insert(round, txs);
        assert(self@ =~= start.buffered(round, txs));
        self.advance(&mut actions);
        assert(actions@ =~= start.buffered(round, txs).actions());
        actions
    }

    /// Confirms the speculative batch of a hard commit, or supplies a fresh one.
    pub fn on_hard_commit(&mut self, subdag: OurCommittedSubDag) -> (r: Vec<PipelineAction>)
        requires
            old(self).wf(),
            subdag.leader.round > 0,
            subdag.commit_index > 0,
        ensures
            final(self).wf(),
            final(self)@ == old(self)@.settled(subdag.leader.round).advanced(),
            r@.len() > 0,
            r@[0] is Decide,
            answers(r@[0]->Decide_0, old(self)@, subdag),
            r@.skip(1) == old(self)@.settled(subdag.leader.round).actions(),
    {
        let ghost start = self@;
        let round = subdag.leader.round;
        let commit_index = subdag.commit_index;
        let mut actions: Vec<PipelineAction> = Vec::new();
        let decision = match self.queue.on_hard_commit(round, commit_index) {
            HardCommitDecision::Commit { round, commit_index } => CommitDecision::Commit {
                commit_index,
                round,
            },
            HardCommitDecision::FreshExecution { round, commit_index } => {
                CommitDecision::FreshBatch(
                    TxBatch {
                        round,
                        commit_index,
                        txs: gather_txs(subdag.blocks),
                        is_optimistic: false,
                    },
                )
            },
        };
        assert(self@ =~= start.settled(round));
        assert(answers(decision, start, subdag));
        actions.push(PipelineAction::Decide(decision));
        self.advance(&mut actions);
        assert(actions@.skip(1) =~= start.settled(round).actions());
        actions
    }

    /// Handles an event of consensus.
    pub fn on_event(&mut self, event: ConsensusEvent) -> (r: Vec<PipelineAction>)
        requires
            old(self).wf(),
            event matches ConsensusEvent::HardCommit { subdag } ==> subdag.leader.round > 0
                && subdag.commit_index > 0,
        ensures
            final(self).wf(),
            match event {
                ConsensusEvent::SoftCommit { round, leader, txs } => {
                    &&& old(self)@.takes(round) ==> {
                        &&& final(self)@ == old(self)@.buffered(round, txs).advanced()
                        &&& r@ == old(self)@.buffered(round, txs).actions()
                    }
                    &&& !old(self)@.takes(round) ==> {
                        &&& final(self)@ == old(self)@
                        &&& r@.len() == 0
                    }
                },
                ConsensusEvent::HardCommit { subdag } => {
                    &&& final(self)@ == old(self)@.settled(subdag.leader.round).advanced()
                    &&& r@.len() > 0
                    &&& r@[0] is Decide
                    &&& answers(r@[0]->Decide_0, old(self)@, subdag)
                    &&& r@.skip(1) == old(self)@.settled(subdag.leader.round).actions()
                },
            },
    {
        match event {
            ConsensusEvent::SoftCommit { round, leader: _, txs } => self.on_soft_commit(round, txs),
            ConsensusEvent::HardCommit { subdag } => self.on_hard_commit(subdag),
        }
    }

    /// Handles a signal of the executor: pause dispatch of soft commits until further notice, or
    /// resume it.
    pub fn on_signal(&mut self, signal: BackpressureSignal) -> (r: Vec<PipelineAction>)
        requires
            old(self).wf(),
        ensures
            final(self).wf(),
            ({
                let told = PipelineModel {
                    held: signal is SlowDown,
                    ..old(self)@
                };
                match signal {
                    BackpressureSignal::SlowDown => {
                        &&& final(self)@ == told
                        &&& r@.len() == 0
                    },
                    BackpressureSignal::Resume => {
                        &&& final(self)@ == told.advanced()
                        &&& r@ == told.actions()
                    },
                }
            }),
    {
        let ghost start = self@;
        let mut actions: Vec<PipelineAction> = Vec::new();
        match signal {
            BackpressureSignal::SlowDown => {
                self.held = true;
                assert(self@ =~= (PipelineModel { held: true, ..start }));
            },
            BackpressureSignal::Resume => {
                self.held = false;
                assert(self@ =~= (PipelineModel { held: false, ..start }));
                self.advance(&mut actions);
            },
        }
        actions
    }
}

/// Speculative batches leave in round order, one wave apart, numbered without a gap.
pub proof fn law_batches_in_order(scheduler: PipelineModel, k: int)
    requires
        !scheduler.pausing(),
        0 <= k < scheduler.queue.dispatchable().len(),
        scheduler.sent + scheduler.queue.dispatchable().len() <= u64::MAX,
    ensures
        ({
            let batch = speculative_batches(scheduler.queue.dispatchable(), scheduler.sent)[k];
            &&& batch is Execute
            &&& batch->Execute_0.round == scheduler.queue.next + k * WAVE_LENGTH
            &&& batch->Execute_0.commit_index == scheduler.sent + 1 + k
            &&& batch->Execute_0.is_optimistic
        }),
{
    law_dispatch_in_round_order(scheduler.queue);
    let (r, txs) = scheduler.queue.dispatchable()[k];
    assert(r == scheduler.queue.next + k * WAVE_LENGTH);
}

/// While dispatch is paused nothing is sent to the executor, and a pause that the executor
/// asked for lasts until it says otherwise. Decisions on hard commits are not held back.
pub proof fn law_pause_holds_back_batches(scheduler: PipelineModel)
    requires
        scheduler.pausing(),
    ensures
        scheduler.advanced().queue == scheduler.queue,
        scheduler.advanced().sent == scheduler.sent,
        scheduler.held ==> scheduler.advanced().pausing(),
        forall|k: int|
            0 <= k < scheduler.actions().len() ==> #[trigger] scheduler.actions()[k] is Throttle,
{
}

/// Each speculative batch carries exactly the transactions buffered for its own round, and is sent
/// only while dispatch is not paused.
pub proof fn law_batch_carries_its_rounds_txs(scheduler: PipelineModel, k: int, batch: TxBatch)
    requires
        0 <= k < scheduler.actions().len(),
        scheduler.actions()[k] == PipelineAction::Execute(batch),
    ensures
        scheduler.queue.entries.contains_key(batch.round),
        scheduler.queue.entries[batch.round] == PendingEntry::Queued(batch.txs),
        batch.is_optimistic,
        !scheduler.held,
        !scheduler.advanced().paused,
        scheduler.advanced().queue.entries[batch.round] is Dispatched,
{
    let queue = scheduler.queue;
    law_dispatch_takes_all_that_waits(queue);
    law_dispatch_marks_what_leaves(queue);
    let lead = scheduler.actions().len() - queue.dispatchable().len();
    assert(!scheduler.pausing());
    let j = k - lead;
    assert(0 <= j < queue.dispatchable().len());
    assert(waits_at(queue, j));
    assert(queue.dispatchable()[j].0 == batch.round);
    assert(leaves_in(queue.dispatchable(), batch.round));
}

/// What the scheduler does when it looks at its queue follows from the depth alone. It slows
/// consensus down exactly if the depth exceeds the threshold and it had not done so, and lets it
/// resume exactly if the depth is below half the threshold and it had slowed it down. Unless
/// paused it then sends all rounds that wait in a row, numbered from the last batch on.
pub proof fn law_depth_decides_what_is_done(scheduler: PipelineModel)
    requires
        scheduler.queue.entries.dom().len() <= usize::MAX,
        scheduler.sent + scheduler.queue.dispatchable().len() <= u64::MAX,
    ensures
        ({
            let depth = scheduler.queue.entries.dom().len();
            let slow = !scheduler.paused && depth > scheduler.threshold;
            let resume = scheduler.paused && depth < scheduler.threshold / 2;
            let paused = slow || (scheduler.paused && !resume);
            let lead: int = if slow || resume { 1 } else { 0 };
            let actions = scheduler.actions();
            let after = scheduler.advanced();
            &&& slow ==> actions.len() > 0 && actions[0] == PipelineAction::Throttle(
                BackpressureSignal::SlowDown,
            )
            &&& resume ==> actions.len() > 0 && actions[0] == PipelineAction::Throttle(
                BackpressureSignal::Resume,
            )
            &&& after.paused == paused
            &&& after.held == scheduler.held
            &&& after.threshold == scheduler.threshold
            &&& after.sent == scheduler.sent + actions.len() - lead
            &&& after.queue.next == scheduler.queue.next + 3 * (actions.len() - lead)
            &&& scheduler.held || paused ==> actions.len() == lead && after.queue
                == scheduler.queue
            &&& !scheduler.held && !paused ==> !waits_at(scheduler.queue, actions.len() - lead)
            &&& forall|k: int|
                lead <= k < actions.len() ==> {
                    &&& waits_at(scheduler.queue, k - lead)
                    &&& #[trigger] actions[k] is Execute
                    &&& actions[k]->Execute_0.round == scheduler.queue.next + 3 * (k - lead)
                    &&& actions[k]->Execute_0.commit_index == scheduler.sent + 1 + k - lead
                    &&& scheduler.queue.entries[actions[k]->Execute_0.round]
                        == PendingEntry::Queued(actions[k]->Execute_0.txs)
                    &&& actions[k]->Execute_0.is_optimistic
                }
        }),
{
    let queue = scheduler.queue;
    law_dispatch_takes_all_that_waits(queue);
    law_signal_comes_when_due(scheduler.threshold, scheduler.paused, queue.entries.dom().len() as usize);
    let actions = scheduler.actions();
    let lead: int = if scheduler.signal() is Some { 1 } else { 0 };
    assert forall|k: int| lead <= k < actions.len() implies {
        &&& waits_at(queue, k - lead)
        &&& #[trigger] actions[k] is Execute
        &&& actions[k]->Execute_0.round == queue.next + 3 * (k - lead)
        &&& actions[k]->Execute_0.commit_index == scheduler.sent + 1 + k - lead
        &&& queue.entries[actions[k]->Execute_0.round] == PendingEntry::Queued(
            actions[k]->Execute_0.txs,
        )
        &&& actions[k]->Execute_0.is_optimistic
    } by {
        assert(waits_at(queue, k - lead));
    }
}

/// A soft commit of a round that is not held is buffered with its transactions, and nothing else
/// changes by that.
pub proof fn law_soft_commit_is_buffered(
    scheduler: PipelineModel,
    round: Round,
    txs: Vec<EthSignedTx>,
)
    ensures
        scheduler.takes(round) <==> 0 < round <= u64::MAX - 3
            && !scheduler.queue.entries.contains_key(round),
        scheduler.buffered(round, txs).queue.entries == scheduler.queue.entries.insert(
            round,
            PendingEntry::Queued(txs),
        ),
        scheduler.buffered(round, txs).queue.next == scheduler.queue.next,
        scheduler.buffered(round, txs).threshold == scheduler.threshold,
        scheduler.buffered(round, txs).paused == scheduler.paused,
        scheduler.buffered(round, txs).held == scheduler.held,
        scheduler.buffered(round, txs).sent == scheduler.sent,
{
}

/// The transactions of a sub-DAG are those of its blocks, block after block, each block's in the
/// order in which it lists them.
pub proof fn law_subdag_txs_in_listed_order(blocks: Seq<OurVerifiedBlock>)
    ensures
        subdag_txs(blocks) == blocks.map_values(|b: OurVerifiedBlock| b.txs@).flatten(),
    decreases blocks.len(),
{
    let lists = blocks.map_values(|b: OurVerifiedBlock| b.txs@);
    lists.lemma_flatten_and_flatten_alt_are_equivalent();
    if blocks.len() > 0 {
        let front = blocks.drop_last();
        law_subdag_txs_in_listed_order(front);
        let fewer = front.map_values(|b: OurVerifiedBlock| b.txs@);
        fewer.lemma_flatten_and_flatten_alt_are_equivalent();
        assert(lists.drop_last() =~= fewer);
    }
}

/// A hard commit of a round that was dispatched is answered by confirming it; any other by a
/// batch to be run afresh, with all transactions of the sub-DAG in order. Either way the round is
/// no longer held, and nothing else is changed by the answer.
pub proof fn law_hard_commit_is_answered(
    scheduler: PipelineModel,
    subdag: OurCommittedSubDag,
    decision: CommitDecision,
)
    requires
        answers(decision, scheduler, subdag),
    ensures
        ({
            let round = subdag.leader.round;
            let held = scheduler.queue.entries;
            let sent = held.contains_key(round) && held[round] is Dispatched;
            &&& sent ==> decision == (CommitDecision::Commit {
                commit_index: subdag.commit_index,
                round,
            })
            &&& !sent ==> {
                &&& decision is FreshBatch
                &&& decision->FreshBatch_0.round == round
                &&& decision->FreshBatch_0.commit_index == subdag.commit_index
                &&& decision->FreshBatch_0.txs@ == subdag.blocks@.map_values(
                    |b: OurVerifiedBlock| b.txs@,
                ).flatten()
                &&& !decision->FreshBatch_0.is_optimistic
            }
            &&& scheduler.settled(round).queue.entries == held.remove(round)
            &&& scheduler.settled(round) == (PipelineModel {
                queue: QueueModel { entries: held.remove(round), next: scheduler.queue.next },
                threshold: scheduler.threshold,
                paused: scheduler.paused,
                held: scheduler.held,
                sent: scheduler.sent,
            })
        }),
{
    law_subdag_txs_in_listed_order(subdag.blocks@);
    law_hard_commit_confirms_dispatched(
        scheduler.queue,
        subdag.leader.round,
        subdag.commit_index,
    );
}

/// What happens to a scheduler.
pub enum PipelineStep {
    /// A soft commit of this round, with its transactions.
    Soft(Round, Vec<EthSignedTx>),
    /// A hard commit, and how it is answered.
    Hard(OurCommittedSubDag, CommitDecision),
    /// The executor asks for a pause.
    Pause,
    /// The executor asks to go on.
    Resume,
}

impl PipelineStep {
    /// The scheduler that looks at its queue in this step, if any does.
    pub open spec fn looking(self, scheduler: PipelineModel) -> Option<PipelineModel> {
        match self {
            PipelineStep::Soft(round, txs) => if scheduler.takes(round) {
                Some(scheduler.buffered(round, txs))
            } else {
                None
            },
            PipelineStep::Hard(subdag, _) => Some(scheduler.settled(subdag.leader.round)),
            PipelineStep::Pause => None,
            PipelineStep::Resume => Some(PipelineModel { held: false, ..scheduler }),
        }
    }

    /// The scheduler after the step.
    pub open spec fn taken(self, scheduler: PipelineModel) -> PipelineModel {
        match self.looking(scheduler) {
            Some(looking) => looking.advanced(),
            None => if self is Pause {
                PipelineModel { held: true, ..scheduler }
            } else {
                scheduler
            },
        }
    }

    /// What the step sends to the executor for speculation.
    pub open spec fn speculates(self, scheduler: PipelineModel) -> Seq<TxBatch> {
        match self.looking(scheduler) {
            Some(looking) => batches_of(looking.actions()),
            None => Seq::empty(),
        }
    }
}

/// The batches to be sent among `actions`, in order.
pub open spec fn batches_of(actions: Seq<PipelineAction>) -> Seq<TxBatch>
    decreases actions.len(),
{
    if actions.len() == 0 {
        Seq::empty()
    } else {
        let before = batches_of(actions.drop_last());
        match actions.last() {
            PipelineAction::Execute(batch) => before.push(batch),
            _ => before,
        }
    }
}

/// The scheduler once `steps` have happened.
pub open spec fn scheduler_after(scheduler: PipelineModel, steps: Seq<PipelineStep>) -> PipelineModel
    decreases steps.len(),
{
    if steps.len() == 0 {
        scheduler
    } else {
        steps.last().taken(scheduler_after(scheduler, steps.drop_last()))
    }
}

/// All batches sent for speculation in the course of `steps`.
pub open spec fn speculated(scheduler: PipelineModel, steps: Seq<PipelineStep>) -> Seq<TxBatch>
    decreases steps.len(),
{
    if steps.len() == 0 {
        Seq::empty()
    } else {
        speculated(scheduler, steps.drop_last()) + steps.last().speculates(
            scheduler_after(scheduler, steps.drop_last()),
        )
    }
}

/// Whether one of `steps` is a soft commit of `round` with `txs`.
pub open spec fn soft_committed_in(
    steps: Seq<PipelineStep>,
    round: Round,
    txs: Vec<EthSignedTx>,
) -> bool {
    exists|i: int| 0 <= i < steps.len() && #[trigger] steps[i] == PipelineStep::Soft(round, txs)
}

proof fn lemma_soft_committed_longer(
    steps: Seq<PipelineStep>,
    round: Round,
    txs: Vec<EthSignedTx>,
)
    requires
        steps.len() > 0,
    ensures
        soft_committed_in(steps.drop_last(), round, txs) ==> soft_committed_in(steps, round, txs),
        steps.last() == PipelineStep::Soft(round, txs) ==> soft_committed_in(steps, round, txs),
{
    let front = steps.drop_last();
    if soft_committed_in(front, round, txs) {
        let i = choose|i: int|
            0 <= i < front.len() && #[trigger] front[i] == PipelineStep::Soft(round, txs);
        assert(steps[i] == PipelineStep::Soft(round, txs));
    }
    assert(steps[steps.len() - 1] == steps.last());
}

proof fn lemma_batches_of(actions: Seq<PipelineAction>, lead: int)
    requires
        0 <= lead <= actions.len(),
        forall|k: int| 0 <= k < lead ==> !(#[trigger] actions[k] is Execute),
        forall|k: int| lead <= k < actions.len() ==> #[trigger] actions[k] is Execute,
    ensures
        batches_of(actions).len() == actions.len() - lead,
        forall|k: int|
            0 <= k < actions.len() - lead ==> PipelineAction::Execute(
                #[trigger] batches_of(actions)[k],
            ) == actions[lead + k],
    decreases actions.len(),
{
    if actions.len() > 0 {
        let front = actions.drop_last();
        assert forall|k: int| 0 <= k < front.len() implies #[trigger] front[k] == actions[k] by {}
        let end = actions.len() - 1;
        if lead < actions.len() {
            lemma_batches_of(front, lead);
            assert(actions[end] is Execute);
        } else {
            lemma_batches_of(front, front.len() as int);
            assert(!(actions[end] is Execute));
        }
    }
}

/// In whatever order soft commits arrive, and whatever else happens meanwhile, the speculative
/// batches leave in the order of the leader rounds 3, 6, 9 and so on, numbered 1, 2, 3 and so on,
/// and each carries the transactions that were soft-committed for its own round.
pub proof fn law_speculation_in_round_order(threshold: usize, steps: Seq<PipelineStep>)
    requires
        3 * speculated(new_scheduler(threshold), steps).len() + 3 <= u64::MAX,
        forall|i: int|
            0 <= i <= steps.len() ==> (#[trigger] scheduler_after(
                new_scheduler(threshold),
                steps.take(i),
            )).queue.entries.dom().len() < usize::MAX,
    ensures
        ({
            let out = speculated(new_scheduler(threshold), steps);
            let end = scheduler_after(new_scheduler(threshold), steps);
            &&& end.sent == out.len()
            &&& end.queue.next == 3 + 3 * out.len()
            &&& end.queue.entries.dom().finite()
            &&& forall|k: int|
                0 <= k < out.len() ==> {
                    &&& (#[trigger] out[k]).round == 3 * (k + 1)
                    &&& out[k].commit_index == k + 1
                    &&& out[k].is_optimistic
                    &&& soft_committed_in(steps, out[k].round, out[k].txs)
                }
            &&& forall|round: Round| #[trigger]
                end.queue.entries.contains_key(round) ==> (
                end.queue.entries[round] matches PendingEntry::Queued(txs) ==> soft_committed_in(
                    steps,
                    round,
                    txs,
                ))
        }),
    decreases steps.len(),
{
    let start = new_scheduler(threshold);
    assert(steps.take(steps.len() as int) =~= steps);
    if steps.len() > 0 {
        let front = steps.drop_last();
        let step = steps.last();
        let before = scheduler_after(start, front);
        let end = scheduler_after(start, steps);
        let earlier = speculated(start, front);
        let now = step.speculates(before);
        let out = speculated(start, steps);
        assert forall|i: int| 0 <= i <= front.len() implies (#[trigger] scheduler_after(
            start,
            front.take(i),
        )).queue.entries.dom().len() < usize::MAX by {
            assert(front.take(i) =~= steps.take(i));
            assert(scheduler_after(start, steps.take(i)).queue.entries.dom().len() < usize::MAX);
        }
        law_speculation_in_round_order(threshold, front);
        assert(steps.take(steps.len() - 1) =~= front);
        assert(scheduler_after(start, steps.take(steps.len() - 1)).queue.entries.dom().len()
            < usize::MAX);
        if let Some(looking) = step.looking(before) {
            let queue = looking.queue;
            assert(queue.next == before.queue.next && looking.sent == before.sent);
            assert(queue.entries.dom().finite() && queue.entries.dom().len() <= usize::MAX) by {
                match step {
                    PipelineStep::Soft(round, _) => {
                        assert(queue.entries.dom() =~= before.queue.entries.dom().insert(round));
                    },
                    PipelineStep::Hard(subdag, _) => {
                        assert(queue.entries.dom() =~= before.queue.entries.dom().remove(
                            subdag.leader.round,
                        ));
                    },
                    _ => {},
                }
            }
            law_dispatch_takes_all_that_waits(queue);
            law_dispatch_marks_what_leaves(queue);
            assert(queue.drained().next == queue.next + 3 * queue.dispatchable().len());
            let actions = looking.actions();
            assert(looking.sent + queue.dispatchable().len() <= u64::MAX);
            law_depth_decides_what_is_done(looking);
            let lead: int = if looking.signal() is Some { 1 } else { 0 };
            assert forall|k: int| 0 <= k < lead implies !(#[trigger] actions[k] is Execute) by {}
            assert forall|k: int| lead <= k < actions.len() implies #[trigger] actions[k] is Execute by {}
            lemma_batches_of(actions, lead);
            assert(end.queue.entries.dom() =~= queue.entries.dom());
            assert forall|k: int| 0 <= k < out.len() implies {
                &&& (#[trigger] out[k]).round == 3 * (k + 1)
                &&& out[k].commit_index == k + 1
                &&& out[k].is_optimistic
                &&& soft_committed_in(steps, out[k].round, out[k].txs)
            } by {
                lemma_soft_committed_longer(steps, out[k].round, out[k].txs);
                if k < earlier.len() {
                    assert(out[k] == earlier[k]);
                } else {
                    let j = k - earlier.len();
                    assert(out[k] == now[j]);
                    assert(PipelineAction::Execute(now[j]) == actions[lead + j]);
                    assert(actions[lead + j] is Execute);
                    assert(waits_at(queue, j));
                    let round = out[k].round;
                    assert(queue.entries[round] == PendingEntry::Queued(out[k].txs));
                    assert(queue.entries.contains_key(round));
                    if !(step == PipelineStep::Soft(round, out[k].txs)) {
                        assert(before.queue.entries.contains_key(round));
                        assert(before.queue.entries[round] == PendingEntry::Queued(out[k].txs));
                    }
                }
            }
            assert forall|round: Round| #[trigger] end.queue.entries.contains_key(round) implies (
            end.queue.entries[round] matches PendingEntry::Queued(txs) ==> soft_committed_in(
                steps,
                round,
                txs,
            )) by {
                if let PendingEntry::Queued(txs) = end.queue.entries[round] {
                    lemma_soft_committed_longer(steps, round, txs);
                    assert(queue.entries.contains_key(round));
                    assert(queue.entries[round] == PendingEntry::Queued(txs));
                    if !(step == PipelineStep::Soft(round, txs)) {
                        assert(before.queue.entries.contains_key(round));
                    }
                }
            }
        } else {
            assert(end.queue == before.queue);
            assert(out =~= earlier);
            assert forall|k: int| 0 <= k < out.len() implies soft_committed_in(
                steps,
                (#[trigger] out[k]).round,
                out[k].txs,
            ) by {
                lemma_soft_committed_longer(steps, out[k].round, out[k].txs);
            }
            assert forall|round: Round| #[trigger] end.queue.entries.contains_key(round) implies (
            end.queue.entries[round] matches PendingEntry::Queued(txs) ==> soft_committed_in(
                steps,
                round,
                txs,
            )) by {
                if let PendingEntry::Queued(txs) = end.queue.entries[round] {
                    lemma_soft_committed_longer(steps, round, txs);
                }
            }
        }
    }
}

/// A scheduler as it is created.
pub open spec fn new_scheduler(threshold: usize) -> PipelineModel {
    PipelineModel {
        queue: QueueModel { entries: Map::empty(), next: 3 },
        threshold,
        paused: false,
        held: false,
        sent: 0,
    }
}

} // verus!
