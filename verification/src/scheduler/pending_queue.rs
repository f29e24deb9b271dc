//! Buffering soft commits until they can be dispatched in round order.

use std::collections::BTreeMap;

use vstd::prelude::*;

use crate::shared::{EthSignedTx, Round};

verus! {

/// Number of rounds between consecutive leader rounds.
pub const WAVE_LENGTH: Round = 3;

/// What became of a buffered soft commit.
#[derive(Debug)]
pub enum PendingEntry {
    /// Waiting for dispatch.
    Queued(Vec<EthSignedTx>),
    /// Sent to the executor.
    Dispatched,
}

/// Decision returned when a hard commit arrives for a given round.
#[derive(Debug, PartialEq, Eq, Structural)]
pub enum HardCommitDecision {
    /// A soft commit for this round was already dispatched to the executor, which only
    /// needs to finalize it.
    Commit { round: Round, commit_index: u64 },
    /// No soft commit was dispatched for this round. The executor must run the
    /// transactions from scratch.
    FreshExecution { round: Round, commit_index: u64 },
}

/// What a queue holds: entries by round, and the round to be dispatched next.
#[verifier::ext_equal]
pub struct QueueModel {
    pub entries: Map<Round, PendingEntry>,
    pub next: Round,
}

impl QueueModel {
    /// Whether the next round waits for dispatch.
    pub open spec fn can_dispatch(self) -> bool {
        &&& self.entries.contains_key(self.next)
        &&& self.entries[self.next] is Queued
        &&& self.next + WAVE_LENGTH <= u64::MAX
    }

    /// The queue once the next round is dispatched.
    pub open spec fn dispatched(self) -> QueueModel {
        QueueModel {
            entries: self.entries.insert(self.next, PendingEntry::Dispatched),
            next: (self.next + WAVE_LENGTH) as Round,
        }
    }

    /// The rounds that can be dispatched now, with their transactions.
    pub open spec fn dispatchable(self) -> Seq<(Round, Vec<EthSignedTx>)>
        decreases u64::MAX - self.next,
    {
        if self.can_dispatch() {
            seq![(self.next, self.entries[self.next]->Queued_0)] + self.dispatched().dispatchable()
        } else {
            Seq::empty()
        }
    }

    /// The queue once all of them are dispatched.
    pub open spec fn drained(self) -> QueueModel
        decreases u64::MAX - self.next,
    {
        if self.can_dispatch() {
            self.dispatched().drained()
        } else {
            self
        }
    }

    /// What a hard commit of `round` calls for.
    pub open spec fn decision(self, round: Round, commit_index: u64) -> HardCommitDecision {
        if self.entries.contains_key(round) && self.entries[round] is Dispatched {
            HardCommitDecision::Commit { round, commit_index }
        } else {
            HardCommitDecision::FreshExecution { round, commit_index }
        }
    }
}

/// Out-of-order buffer for soft-commit transactions.
///
/// Guarantees that [`PendingQueue::drain_dispatchable`] gives entries in ascending round
/// order, even when soft commits arrive out of order.
#[derive(Debug)]
pub struct PendingQueue {
    pub(crate) entries: BTreeMap<Round, PendingEntry>,
    // Next leader round that should be dispatched to the executor.
    pub(crate) next_dispatch_round: Round,
    /// Queue-depth threshold exposed for the backpressure controller.
    pub threshold: usize,
}

impl View for PendingQueue {
    type V = QueueModel;

    open(crate) spec fn view(&self) -> QueueModel {
        QueueModel { entries: self.entries@, next: self.next_dispatch_round }
    }
}

impl PendingQueue {
    pub open(crate) spec fn limit(&self) -> usize {
        self.threshold
    }

    /// Every buffered round leaves room for the next leader round.
    pub open(crate) spec fn wf(&self) -> bool {
        forall|r: Round| #[trigger] self.entries@.contains_key(r) ==> r + WAVE_LENGTH <= u64::MAX
    }

    /// Create a new queue. Dispatch begins at `first_leader_round` (typically 3).
    pub fn new(first_leader_round: Round, threshold: usize) -> (r: Self)
        requires
            first_leader_round > 0,
            threshold > 0,
        ensures
            r.wf(),
            r@ == (QueueModel { entries: Map::empty(), next: first_leader_round }),
            r.limit() == threshold,
    {
        let r = PendingQueue {
            entries: BTreeMap::new(),
            next_dispatch_round: first_leader_round,
            threshold,
        };
        assert(r@.entries =~= Map::<Round, PendingEntry>::empty());
        r
    }

    /// Returns `true` if a soft commit of `round` is buffered.
    pub fn contains(&self, round: Round) -> (r: bool)
        ensures
            r == self@.entries.contains_key(round),
    {
        self.entries.contains_key(&round)
    }

    /// Buffer a soft commit of `round`.
    pub fn insert(&mut self, round: Round, txs: Vec<EthSignedTx>)
        requires
            old(self).wf(),
            round > 0,
            round + WAVE_LENGTH <= u64::MAX,
            !old(self)@.entries.contains_key(round),
        ensures
            final(self).wf(),
            final(self)@ == (QueueModel {
                entries: old(self)@.entries.insert(round, PendingEntry::Queued(txs)),
                ..old(self)@
            }),
            final(self).limit() == old(self).limit(),
    {
        self.entries.insert(round, PendingEntry::Queued(txs));
    }

    /// Drain all consecutive dispatchable entries starting from the next dispatch round.
    ///
    /// Returns rounds and transactions in ascending round order. Each returned entry is
    /// marked as dispatched, so that a later [`PendingQueue::on_hard_commit`] can tell
    /// "already sent" from "never seen".
    pub fn drain_dispatchable(&mut self) -> (r: Vec<(Round, Vec<EthSignedTx>)>)
        requires
            old(self).wf(),
        ensures
            final(self).wf(),
            final(self).limit() == old(self).limit(),
            r@ == old(self)@.dispatchable(),
            final(self)@ == old(self)@.drained(),
    {
        let mut result: Vec<(Round, Vec<EthSignedTx>)> = Vec::new();
        let ghost start = self@;
        assert(result@ + self@.dispatchable() =~= start.dispatchable());
        loop
            invariant
                self.wf(),
                self.limit() == old(self).limit(),
                result@ + self@.dispatchable() == start.dispatchable(),
                self@.drained() == start.drained(),
            ensures
                !self@.can_dispatch(),
            decreases u64::MAX - self.next_dispatch_round,
        {
            let round: Round = self.next_dispatch_round;
            let ghost here = self@;
            let ghost so_far = result@;
            match self.entries.remove(&round) {
                Some(PendingEntry::Queued(txs)) => {
                    self.entries.insert(round, PendingEntry::Dispatched);
                    proof {
                        assert(here.entries.contains_key(round));
                        assert(here.can_dispatch());
                        assert(self.entries@ =~= here.dispatched().entries);
                    }
                    self.next_dispatch_round = round + WAVE_LENGTH;
                    result.push((round, txs));
                    proof {
                        assert(self@ =~= here.dispatched());
                        assert(result@ + self@.dispatchable() =~= so_far + here.dispatchable());
                    }
                },
                Some(PendingEntry::Dispatched) => {
                    self.entries.insert(round, PendingEntry::Dispatched);
                    assert(self.entries@ =~= here.entries);
                    break;
                },
                None => {
                    assert(self.entries@ =~= here.entries);
                    break;
                },
            }
        }
        assert(result@ =~= start.dispatchable());
        result
    }

    /// Handle a hard commit of `round` with the given `commit_index`.
    ///
    /// Removes the buffered entry, if any, and says whether it had been dispatched.
    pub fn on_hard_commit(&mut self, round: Round, commit_index: u64) -> (r: HardCommitDecision)
        requires
            old(self).wf(),
            round > 0,
            commit_index > 0,
        ensures
            final(self).wf(),
            final(self).limit() == old(self).limit(),
            r == old(self)@.decision(round, commit_index),
            final(self)@ == (QueueModel { entries: old(self)@.entries.remove(round), ..old(self)@ }),
    {
        match self.entries.remove(&round) {
            Some(PendingEntry::Dispatched) => HardCommitDecision::Commit { round, commit_index },
            _ => {
                assert(self.entries@ =~= old(self).entries@.remove(round));
                HardCommitDecision::FreshExecution { round, commit_index }
            },
        }
    }

    /// Total number of entries in the queue (queued and dispatched).
    pub fn depth(&self) -> (r: usize)
        ensures
            r == self@.entries.dom().len(),
    {
        self.entries.len()
    }
}

/// Rounds are dispatched in ascending order, one wave apart, from the next one on, and only
/// with what was buffered for them; the queue then expects the round after the last.
pub proof fn law_dispatch_in_round_order(queue: QueueModel)
    ensures
        forall|k: int|
            #![trigger queue.dispatchable()[k]]
            0 <= k < queue.dispatchable().len() ==> {
                let round = queue.next + k * WAVE_LENGTH;
                let (r, txs) = queue.dispatchable()[k];
                &&& r == round
                &&& queue.entries.contains_key(r)
                &&& queue.entries[r] == PendingEntry::Queued(txs)
            },
        queue.drained().next == queue.next + queue.dispatchable().len() * WAVE_LENGTH,
        !queue.drained().can_dispatch(),
    decreases u64::MAX - queue.next,
{
    if queue.can_dispatch() {
        let rest = queue.dispatched();
        law_dispatch_in_round_order(rest);
        let out = queue.dispatchable();
        let tail = rest.dispatchable();
        assert forall|k: int|
            #![trigger out[k]]
            0 <= k < out.len() implies {
            let round = queue.next + k * WAVE_LENGTH;
            let (r, txs) = out[k];
            &&& r == round
            &&& queue.entries.contains_key(r)
            &&& queue.entries[r] == PendingEntry::Queued(txs)
        } by {
            if k > 0 {
                assert(out[k] == tail[k - 1]);
                let (r, txs) = tail[k - 1];
                assert(rest.entries[r] == PendingEntry::Queued(txs));
                assert(r != queue.next);
            }
        }
    }
}

/// A hard commit is confirmed exactly if its round was dispatched by the drain before it.
pub proof fn law_commit_iff_dispatched(queue: QueueModel, round: Round, commit_index: u64)
    requires
        queue.entries.contains_key(round),
        queue.entries[round] is Queued,
    ensures
        queue.drained().decision(round, commit_index) == (HardCommitDecision::Commit {
            round,
            commit_index,
        }) <==> exists|k: int|
            0 <= k < queue.dispatchable().len() && (#[trigger] queue.dispatchable()[k]).0 == round,
    decreases u64::MAX - queue.next,
{
    let out = queue.dispatchable();
    if queue.can_dispatch() {
        let rest = queue.dispatched();
        let tail = rest.dispatchable();
        assert(out[0].0 == queue.next);
        if round == queue.next {
            lemma_dispatched_stays(rest, round);
        } else {
            law_commit_iff_dispatched(rest, round, commit_index);
            if exists|k: int| 0 <= k < tail.len() && (#[trigger] tail[k]).0 == round {
                let k = choose|k: int| 0 <= k < tail.len() && (#[trigger] tail[k]).0 == round;
                assert(out[k + 1].0 == round);
            }
            if exists|k: int| 0 <= k < out.len() && (#[trigger] out[k]).0 == round {
                let k = choose|k: int| 0 <= k < out.len() && (#[trigger] out[k]).0 == round;
                assert(k > 0);
                assert(tail[k - 1].0 == round);
            }
        }
    }
}

proof fn lemma_dispatched_stays(queue: QueueModel, round: Round)
    requires
        queue.entries.contains_key(round),
        queue.entries[round] is Dispatched,
    ensures
        queue.drained().entries.contains_key(round),
        queue.drained().entries[round] is Dispatched,
    decreases u64::MAX - queue.next,
{
    if queue.can_dispatch() {
        lemma_dispatched_stays(queue.dispatched(), round);
    }
}

/// One call that changes a queue.
pub enum QueueStep {
    /// A soft commit of this round is buffered, with its transactions.
    Insert(Round, Vec<EthSignedTx>),
    /// What can be dispatched is dispatched.
    Drain,
    /// This round is hard-committed, with this commit index.
    HardCommit(Round, u64),
}

impl QueueStep {
    /// The queue once the step is taken on `queue`.
    pub open spec fn taken(self, queue: QueueModel) -> QueueModel {
        match self {
            QueueStep::Insert(round, txs) => QueueModel {
                entries: queue.entries.insert(round, PendingEntry::Queued(txs)),
                ..queue
            },
            QueueStep::Drain => queue.drained(),
            QueueStep::HardCommit(round, _) => QueueModel {
                entries: queue.entries.remove(round),
                ..queue
            },
        }
    }

    /// Whether the step can be taken on `queue`.
    pub open spec fn possible(self, queue: QueueModel) -> bool {
        match self {
            QueueStep::Insert(round, _) => {
                &&& round > 0
                &&& round + WAVE_LENGTH <= u64::MAX
                &&& !queue.entries.contains_key(round)
            },
            QueueStep::Drain => true,
            QueueStep::HardCommit(round, commit_index) => round > 0 && commit_index > 0,
        }
    }

    /// What taking the step on `queue` dispatches.
    pub open spec fn dispatches(self, queue: QueueModel) -> Seq<(Round, Vec<EthSignedTx>)> {
        match self {
            QueueStep::Drain => queue.dispatchable(),
            _ => Seq::empty(),
        }
    }

    /// Whether the step buffers `round`.
    pub open spec fn inserts(self, round: Round) -> bool {
        match self {
            QueueStep::Insert(r, _) => r == round,
            _ => false,
        }
    }

    /// Whether the step hard-commits `round`.
    pub open spec fn commits(self, round: Round) -> bool {
        match self {
            QueueStep::HardCommit(r, _) => r == round,
            _ => false,
        }
    }
}

/// A queue as it is created.
pub open spec fn new_queue(first_leader_round: Round) -> QueueModel {
    QueueModel { entries: Map::empty(), next: first_leader_round }
}

/// The queue once `steps` are taken one after the other.
pub open spec fn queue_after(queue: QueueModel, steps: Seq<QueueStep>) -> QueueModel
    decreases steps.len(),
{
    if steps.len() == 0 {
        queue
    } else {
        steps.last().taken(queue_after(queue, steps.drop_last()))
    }
}

/// Whether each of `steps` can be taken on what those before it give.
pub open spec fn steps_possible(queue: QueueModel, steps: Seq<QueueStep>) -> bool
    decreases steps.len(),
{
    steps.len() > 0 ==> {
        &&& steps_possible(queue, steps.drop_last())
        &&& steps.last().possible(queue_after(queue, steps.drop_last()))
    }
}

/// All that `steps` dispatch, in order.
pub open spec fn dispatched_by(queue: QueueModel, steps: Seq<QueueStep>) -> Seq<
    (Round, Vec<EthSignedTx>),
>
    decreases steps.len(),
{
    if steps.len() == 0 {
        Seq::empty()
    } else {
        dispatched_by(queue, steps.drop_last()) + steps.last().dispatches(
            queue_after(queue, steps.drop_last()),
        )
    }
}

/// As long as the first leader round has not been inserted, however many other rounds are, a new
/// queue dispatches nothing and goes on expecting that round.
pub proof fn law_nothing_before_the_first_round(first_leader_round: Round, steps: Seq<QueueStep>)
    requires
        first_leader_round > 0,
        steps_possible(new_queue(first_leader_round), steps),
        forall|i: int|
            0 <= i < steps.len() ==> !(#[trigger] steps[i]).inserts(first_leader_round),
    ensures
        dispatched_by(new_queue(first_leader_round), steps) == Seq::<
            (Round, Vec<EthSignedTx>),
        >::empty(),
        ({
            let end = queue_after(new_queue(first_leader_round), steps);
            &&& end.next == first_leader_round
            &&& !end.entries.contains_key(first_leader_round)
            &&& end.dispatchable() == Seq::<(Round, Vec<EthSignedTx>)>::empty()
        }),
    decreases steps.len(),
{
    if steps.len() > 0 {
        let front = steps.drop_last();
        assert forall|i: int| 0 <= i < front.len() implies !(#[trigger] front[i]).inserts(
            first_leader_round,
        ) by {
            assert(front[i] == steps[i]);
        }
        assert(!steps[steps.len() - 1].inserts(first_leader_round));
        law_nothing_before_the_first_round(first_leader_round, front);
    }
}

/// Whether none of `steps` after position `i` hard-commits `round`.
pub open spec fn uncommitted_since(steps: Seq<QueueStep>, i: int, round: Round) -> bool {
    forall|j: int| i < j < steps.len() ==> !(#[trigger] steps[j]).commits(round)
}

/// Whether `steps` insert `round` and do not hard-commit it since.
pub open spec fn pending_after(steps: Seq<QueueStep>, round: Round) -> bool {
    exists|i: int|
        0 <= i < steps.len() && (#[trigger] steps[i]).inserts(round) && uncommitted_since(
            steps,
            i,
            round,
        )
}

proof fn lemma_drained_rounds(queue: QueueModel)
    ensures
        queue.drained().entries.dom() == queue.entries.dom(),
    decreases u64::MAX - queue.next,
{
    if queue.can_dispatch() {
        lemma_drained_rounds(queue.dispatched());
        assert(queue.dispatched().entries.dom() =~= queue.entries.dom());
    }
}

proof fn lemma_pending_last(steps: Seq<QueueStep>, round: Round)
    requires
        steps.len() > 0,
    ensures
        pending_after(steps, round) <==> steps.last().inserts(round) || (pending_after(
            steps.drop_last(),
            round,
        ) && !steps.last().commits(round)),
{
    let front = steps.drop_last();
    let end = steps.len() - 1;
    assert(steps[end] == steps.last());
    if pending_after(steps, round) {
        let i = choose|i: int|
            0 <= i < steps.len() && (#[trigger] steps[i]).inserts(round) && uncommitted_since(
                steps,
                i,
                round,
            );
        if i < end {
            assert(front[i] == steps[i]);
            assert(!steps[end].commits(round));
            assert forall|j: int| i < j < front.len() implies !(#[trigger] front[j]).commits(
                round,
            ) by {
                assert(front[j] == steps[j]);
            }
            assert(uncommitted_since(front, i, round));
        }
    }
    if steps.last().inserts(round) {
        assert(uncommitted_since(steps, end, round));
    } else if pending_after(front, round) && !steps.last().commits(round) {
        let i = choose|i: int|
            0 <= i < front.len() && (#[trigger] front[i]).inserts(round) && uncommitted_since(
                front,
                i,
                round,
            );
        assert(steps[i] == front[i]);
        assert forall|j: int| i < j < steps.len() implies !(#[trigger] steps[j]).commits(round) by {
            if j < end {
                assert(front[j] == steps[j]);
            }
        }
        assert(uncommitted_since(steps, i, round));
    }
}

/// A queue holds exactly the rounds that were inserted and not hard-committed since, dispatched
/// ones among them, so its depth is their number.
pub proof fn law_depth_counts_pending_rounds(first_leader_round: Round, steps: Seq<QueueStep>)
    requires
        first_leader_round > 0,
        steps_possible(new_queue(first_leader_round), steps),
    ensures
        ({
            let end = queue_after(new_queue(first_leader_round), steps);
            let pending = Set::new(|round: Round| pending_after(steps, round));
            &&& pending.finite()
            &&& end.entries.dom() == pending
            &&& end.entries.dom().len() == pending.len()
        }),
    decreases steps.len(),
{
    let end = queue_after(new_queue(first_leader_round), steps);
    let pending = Set::new(|round: Round| pending_after(steps, round));
    if steps.len() > 0 {
        let front = steps.drop_last();
        law_depth_counts_pending_rounds(first_leader_round, front);
        let before = queue_after(new_queue(first_leader_round), front);
        lemma_drained_rounds(before);
        assert forall|round: Round| end.entries.dom().contains(round) <==> pending.contains(
            round,
        ) by {
            lemma_pending_last(steps, round);
            assert(before.entries.dom().contains(round) <==> pending_after(front, round));
        }
    }
    assert(end.entries.dom() =~= pending);
}

/// An insert makes a queue deeper by one, dispatching leaves its depth, and a hard commit takes
/// away one if the round was held and none otherwise.
pub proof fn law_depth_of_each_step(queue: QueueModel, step: QueueStep)
    requires
        queue.entries.dom().finite(),
        step.possible(queue),
    ensures
        ({
            let before = queue.entries.dom().len();
            let after = step.taken(queue).entries.dom().len();
            match step {
                QueueStep::Insert(_, _) => after == before + 1,
                QueueStep::Drain => after == before,
                QueueStep::HardCommit(round, _) => if queue.entries.contains_key(round) {
                    after + 1 == before
                } else {
                    after == before
                },
            }
        }),
{
    lemma_drained_rounds(queue);
    match step {
        QueueStep::Insert(round, _) => {
            assert(step.taken(queue).entries.dom() =~= queue.entries.dom().insert(round));
        },
        QueueStep::Drain => {},
        QueueStep::HardCommit(round, _) => {
            assert(step.taken(queue).entries.dom() =~= queue.entries.dom().remove(round));
        },
    }
}

/// Whether the round `k` waves after the next one is buffered and waits for dispatch, with room
/// for the leader round that follows it.
pub open spec fn waits_at(queue: QueueModel, k: int) -> bool {
    let round = queue.next + 3 * k;
    &&& round + 3 <= u64::MAX
    &&& queue.entries.contains_key(round as Round)
    &&& queue.entries[round as Round] is Queued
}

/// Everything that can leave leaves: each round that waits, with none missing before it, is
/// dispatched with exactly the transactions buffered for it, and dispatch stops at the first
/// round that does not wait.
pub proof fn law_dispatch_takes_all_that_waits(queue: QueueModel)
    ensures
        forall|k: int|
            0 <= k < queue.dispatchable().len() ==> #[trigger] waits_at(queue, k)
                && queue.dispatchable()[k].0 == queue.next + 3 * k
                && queue.entries[queue.dispatchable()[k].0] == PendingEntry::Queued(
                queue.dispatchable()[k].1,
            ),
        !waits_at(queue, queue.dispatchable().len() as int),
        queue.drained().next == queue.next + 3 * queue.dispatchable().len(),
    decreases u64::MAX - queue.next,
{
    if queue.can_dispatch() {
        let rest = queue.dispatched();
        law_dispatch_takes_all_that_waits(rest);
        let out = queue.dispatchable();
        let tail = rest.dispatchable();
        assert(out == seq![(queue.next, queue.entries[queue.next]->Queued_0)] + tail);
        assert forall|k: int| 0 <= k < out.len() implies #[trigger] waits_at(queue, k)
            && out[k].0 == queue.next + 3 * k && queue.entries[out[k].0] == PendingEntry::Queued(
            out[k].1,
        ) by {
            if k > 0 {
                assert(waits_at(rest, k - 1));
                assert(out[k] == tail[k - 1]);
            }
        }
        if waits_at(queue, out.len() as int) {
            assert(waits_at(rest, tail.len() as int));
        }
    }
}

/// Whether `round` is among `out`.
pub open spec fn leaves_in(out: Seq<(Round, Vec<EthSignedTx>)>, round: Round) -> bool {
    exists|k: int| 0 <= k < out.len() && (#[trigger] out[k]).0 == round
}

/// Dispatching marks exactly the rounds that leave, and changes no other entry.
pub proof fn law_dispatch_marks_what_leaves(queue: QueueModel)
    ensures
        forall|round: Round| #[trigger]
            queue.drained().entries.contains_key(round) <==> queue.entries.contains_key(round),
        forall|round: Round| #[trigger]
            queue.entries.contains_key(round) ==> queue.drained().entries[round] == if leaves_in(
                queue.dispatchable(),
                round,
            ) {
                PendingEntry::Dispatched
            } else {
                queue.entries[round]
            },
    decreases u64::MAX - queue.next,
{
    let out = queue.dispatchable();
    if queue.can_dispatch() {
        let rest = queue.dispatched();
        law_dispatch_marks_what_leaves(rest);
        law_dispatch_takes_all_that_waits(rest);
        let tail = rest.dispatchable();
        assert(out[0].0 == queue.next);
        assert forall|round: Round| #[trigger] queue.drained().entries.contains_key(round)
            <==> queue.entries.contains_key(round) by {
            assert(rest.entries.contains_key(round) <==> queue.entries.contains_key(round));
        }
        assert forall|round: Round| #[trigger]
            queue.entries.contains_key(round) implies queue.drained().entries[round]
            == if leaves_in(out, round) {
            PendingEntry::Dispatched
        } else {
            queue.entries[round]
        } by {
            assert(rest.entries.contains_key(round));
            if leaves_in(tail, round) {
                let k = choose|k: int| 0 <= k < tail.len() && (#[trigger] tail[k]).0 == round;
                assert(out[k + 1].0 == round);
            }
            if leaves_in(out, round) && round != queue.next {
                let k = choose|k: int| 0 <= k < out.len() && (#[trigger] out[k]).0 == round;
                assert(tail[k - 1].0 == round);
            }
        }
    }
}

/// A hard commit confirms its round exactly if that round is held and was dispatched; either way
/// the answer names the round and the index it was asked about.
pub proof fn law_hard_commit_confirms_dispatched(
    queue: QueueModel,
    round: Round,
    commit_index: u64,
)
    ensures
        queue.entries.contains_key(round) && queue.entries[round] is Dispatched
            ==> queue.decision(round, commit_index) == (HardCommitDecision::Commit {
            round,
            commit_index,
        }),
        !(queue.entries.contains_key(round) && queue.entries[round] is Dispatched)
            ==> queue.decision(round, commit_index) == (HardCommitDecision::FreshExecution {
            round,
            commit_index,
        }),
{
}

/// Whether one of `steps` inserts `round` with `txs`.
pub open spec fn given_in(steps: Seq<QueueStep>, round: Round, txs: Vec<EthSignedTx>) -> bool {
    exists|i: int| 0 <= i < steps.len() && #[trigger] steps[i] == QueueStep::Insert(round, txs)
}

proof fn lemma_given_longer(steps: Seq<QueueStep>, round: Round, txs: Vec<EthSignedTx>)
    requires
        steps.len() > 0,
    ensures
        given_in(steps.drop_last(), round, txs) ==> given_in(steps, round, txs),
        steps.last() == QueueStep::Insert(round, txs) ==> given_in(steps, round, txs),
{
    let front = steps.drop_last();
    if given_in(front, round, txs) {
        let i = choose|i: int|
            0 <= i < front.len() && #[trigger] front[i] == QueueStep::Insert(round, txs);
        assert(steps[i] == QueueStep::Insert(round, txs));
    }
    assert(steps[steps.len() - 1] == steps.last());
}

/// In whatever order rounds are inserted, a queue dispatches the leader rounds one after the
/// other, from the first on, none left out and none twice, each with transactions that were
/// inserted for that very round.
pub proof fn law_rounds_leave_in_order_with_their_own_txs(
    first_leader_round: Round,
    steps: Seq<QueueStep>,
)
    requires
        first_leader_round > 0,
        steps_possible(new_queue(first_leader_round), steps),
    ensures
        ({
            let out = dispatched_by(new_queue(first_leader_round), steps);
            let end = queue_after(new_queue(first_leader_round), steps);
            &&& end.next == first_leader_round + 3 * out.len()
            &&& forall|k: int|
                0 <= k < out.len() ==> (#[trigger] out[k]).0 == first_leader_round + 3 * k
                    && given_in(steps, out[k].0, out[k].1)
            &&& forall|round: Round| #[trigger]
                end.entries.contains_key(round) ==> match end.entries[round] {
                    PendingEntry::Queued(txs) => given_in(steps, round, txs),
                    PendingEntry::Dispatched => leaves_in(out, round),
                }
        }),
    decreases steps.len(),
{
    let start = new_queue(first_leader_round);
    if steps.len() > 0 {
        let front = steps.drop_last();
        law_rounds_leave_in_order_with_their_own_txs(first_leader_round, front);
        let before = queue_after(start, front);
        let end = queue_after(start, steps);
        let earlier = dispatched_by(start, front);
        let now = steps.last().dispatches(before);
        let out = dispatched_by(start, steps);
        law_dispatch_takes_all_that_waits(before);
        law_dispatch_marks_what_leaves(before);
        assert forall|k: int| 0 <= k < out.len() implies (#[trigger] out[k]).0
            == first_leader_round + 3 * k && given_in(steps, out[k].0, out[k].1) by {
            lemma_given_longer(steps, out[k].0, out[k].1);
            if k < earlier.len() {
                assert(out[k] == earlier[k]);
            } else {
                let j = k - earlier.len();
                assert(out[k] == now[j]);
                assert(waits_at(before, j));
                assert(before.entries.contains_key(out[k].0));
            }
        }
        assert forall|round: Round| #[trigger] end.entries.contains_key(round) implies match end.entries[round] {
            PendingEntry::Queued(txs) => given_in(steps, round, txs),
            PendingEntry::Dispatched => leaves_in(out, round),
        } by {
            if let PendingEntry::Queued(txs) = end.entries[round] {
                lemma_given_longer(steps, round, txs);
            }
            if before.entries.contains_key(round) {
                if let PendingEntry::Queued(txs) = before.entries[round] {
                    lemma_given_longer(steps, round, txs);
                }
                if leaves_in(earlier, round) {
                    let k = choose|k: int|
                        0 <= k < earlier.len() && (#[trigger] earlier[k]).0 == round;
                    assert(out[k].0 == round);
                }
                if leaves_in(now, round) {
                    let k = choose|k: int| 0 <= k < now.len() && (#[trigger] now[k]).0 == round;
                    assert(out[earlier.len() + k].0 == round);
                }
            }
        }
    }
}

} // verus!
