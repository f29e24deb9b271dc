use std::sync::Arc;

use dual_optimistic::committee::AuthorityIndex;
use dual_optimistic::context::Context;
use dual_optimistic::scheduler::backpressure::BackpressureController;
use dual_optimistic::scheduler::pending_queue::{HardCommitDecision, PendingQueue};
use dual_optimistic::shared::{BackpressureSignal, EthSignedTx};
use dual_optimistic::threshold_clock::ThresholdClock;
use dual_optimistic::types::{BlockDigest, BlockRef, Round};

fn make_block_ref(round: Round, author: u32) -> BlockRef {
    BlockRef::new(round, AuthorityIndex::new_for_test(author), BlockDigest::default())
}

fn tx(byte: u8) -> EthSignedTx {
    EthSignedTx(vec![byte])
}

#[test]
fn test_threshold_clock_add_block() {
    let context = Arc::new(Context::new_for_test(4));
    let mut clock = ThresholdClock::new(0, context);

    assert!(!clock.add_block(make_block_ref(0, 0)));
    assert_eq!(clock.get_round(), 0);
    assert!(!clock.add_block(make_block_ref(0, 1)));
    assert_eq!(clock.get_round(), 0);
    // Third of four blocks: a quorum.
    assert!(clock.add_block(make_block_ref(0, 2)));
    assert_eq!(clock.get_round(), 1);
    assert!(!clock.add_block(make_block_ref(1, 0)));
    assert_eq!(clock.get_round(), 1);
    assert!(!clock.add_block(make_block_ref(1, 3)));
    assert_eq!(clock.get_round(), 1);
    // Block from round 2: catch up.
    assert!(clock.add_block(make_block_ref(2, 1)));
    assert_eq!(clock.get_round(), 2);
    // Late block from round 1: ignored.
    assert!(!clock.add_block(make_block_ref(1, 1)));
    assert_eq!(clock.get_round(), 2);
    // Far ahead: catch up by several rounds.
    assert!(clock.add_block(make_block_ref(5, 2)));
    assert_eq!(clock.get_round(), 5);
}

#[test]
fn test_threshold_clock_min_committee() {
    let context = Arc::new(Context::new_for_test(1));
    let mut clock = ThresholdClock::new(10, context);

    assert!(!clock.add_block(make_block_ref(9, 0)));
    assert_eq!(clock.get_round(), 10);

    // One block is a quorum in a committee of one.
    assert!(clock.add_block(make_block_ref(10, 0)));
    assert_eq!(clock.get_round(), 11);

    clock.add_block(make_block_ref(20, 0));
    assert_eq!(clock.get_round(), 21);
}

#[test]
fn clock_counts_each_author_once() {
    let mut clock = ThresholdClock::new(3, Arc::new(Context::new_for_test(4)));
    assert!(!clock.add_block(make_block_ref(3, 1)));
    assert!(!clock.add_block(make_block_ref(3, 1)));
    assert!(!clock.add_block(make_block_ref(3, 1)));
    assert!(!clock.add_block(make_block_ref(3, 2)));
    assert_eq!(clock.get_round(), 3);
    assert!(clock.add_block(make_block_ref(3, 0)));
    assert_eq!(clock.get_round(), 4);
}

#[test]
fn test_in_order_processing() {
    let mut pq = PendingQueue::new(3, 16);
    pq.insert(3, vec![tx(1)]);
    pq.insert(6, vec![tx(2)]);

    let dispatched = pq.drain_dispatchable();
    assert_eq!(dispatched.len(), 2);
    assert_eq!(dispatched[0].0, 3, "R3 must be dispatched first");
    assert_eq!(dispatched[1].0, 6, "R6 must be dispatched second");
}

#[test]
fn test_out_of_order_reorder() {
    let mut pq = PendingQueue::new(3, 16);

    // R6 arrives first: nothing can be dispatched before R3.
    pq.insert(6, vec![tx(2)]);
    let d1 = pq.drain_dispatchable();
    assert!(d1.is_empty(), "R6 must be buffered until R3 arrives");

    pq.insert(3, vec![tx(1)]);
    let d2 = pq.drain_dispatchable();
    assert_eq!(d2.len(), 2);
    assert_eq!(d2[0].0, 3, "R3 must come first");
    assert_eq!(d2[1].0, 6, "R6 must come second");
}

#[test]
fn test_hard_commit_match() {
    let mut pq = PendingQueue::new(3, 16);
    pq.insert(3, vec![tx(1)]);
    let _ = pq.drain_dispatchable();

    let decision = pq.on_hard_commit(3, 1);
    assert_eq!(
        decision,
        HardCommitDecision::Commit { round: 3, commit_index: 1 },
        "HardCommit after dispatch should confirm Commit"
    );
}

#[test]
fn test_hard_commit_mismatch() {
    let mut pq = PendingQueue::new(3, 16);
    let decision = pq.on_hard_commit(3, 1);
    assert_eq!(
        decision,
        HardCommitDecision::FreshExecution { round: 3, commit_index: 1 },
        "HardCommit without prior SoftCommit dispatch should require FreshExecution"
    );
}

#[test]
fn buffered_round_is_executed_afresh() {
    let mut pq = PendingQueue::new(3, 16);
    pq.insert(6, vec![tx(2)]);
    assert!(pq.drain_dispatchable().is_empty());
    assert_eq!(pq.depth(), 1);
    assert!(pq.contains(6));
    assert_eq!(
        pq.on_hard_commit(6, 2),
        HardCommitDecision::FreshExecution { round: 6, commit_index: 2 }
    );
    assert_eq!(pq.depth(), 0);
    assert!(!pq.contains(6));
}

#[test]
fn dispatched_transactions_are_those_inserted() {
    let mut pq = PendingQueue::new(3, 16);
    pq.insert(3, vec![tx(7), tx(8)]);
    let out = pq.drain_dispatchable();
    assert_eq!(out.len(), 1);
    assert_eq!(out[0].1, vec![tx(7), tx(8)]);
    // Dispatched rounds stay until their hard commit, and are not dispatched again.
    assert_eq!(pq.depth(), 1);
    assert!(pq.drain_dispatchable().is_empty());
}

#[test]
fn nothing_is_dispatched_before_the_first_round() {
    let mut pq = PendingQueue::new(3, 16);
    assert_eq!(pq.threshold, 16);
    assert_eq!(pq.depth(), 0);
    for round in [6, 9, 1, 2, 4, 12] {
        pq.insert(round, vec![tx(round as u8)]);
        assert!(pq.drain_dispatchable().is_empty());
    }
    pq.on_hard_commit(3, 1);
    pq.on_hard_commit(9, 2);
    assert!(pq.drain_dispatchable().is_empty());
    pq.insert(3, vec![tx(3)]);
    let rounds: Vec<u64> = pq.drain_dispatchable().iter().map(|d| d.0).collect();
    assert_eq!(rounds, vec![3, 6]);
}

#[test]
fn depth_counts_rounds_inserted_and_not_committed() {
    let mut pq = PendingQueue::new(3, 16);
    pq.insert(3, Vec::new());
    pq.insert(6, Vec::new());
    pq.insert(12, Vec::new());
    assert_eq!(pq.depth(), 3);
    // Dispatched rounds count on.
    assert_eq!(pq.drain_dispatchable().len(), 2);
    assert_eq!(pq.depth(), 3);
    // A round that is not held takes nothing away.
    pq.on_hard_commit(9, 1);
    assert_eq!(pq.depth(), 3);
    pq.on_hard_commit(3, 2);
    pq.on_hard_commit(12, 3);
    pq.on_hard_commit(12, 4);
    assert_eq!(pq.depth(), 1);
    // A round inserted again counts again.
    pq.insert(12, Vec::new());
    assert_eq!(pq.depth(), 2);
}

#[test]
fn test_backpressure_triggered() {
    let mut bp = BackpressureController::new(2);

    // Depth 3 exceeds threshold 2.
    assert_eq!(
        bp.check(3).unwrap(),
        BackpressureSignal::SlowDown,
        "SlowDown must be emitted when depth exceeds threshold"
    );
    assert!(bp.is_paused(), "controller must be paused after SlowDown");

    assert!(bp.check(5).is_none(), "no duplicate SlowDown should be emitted");
}

#[test]
fn test_backpressure_release() {
    let mut bp = BackpressureController::new(4);

    // Depth 5 exceeds threshold 4.
    bp.check(5).unwrap();

    // Depth 1 is below half the threshold.
    assert_eq!(
        bp.check(1).unwrap(),
        BackpressureSignal::Resume,
        "Resume must be emitted when depth drops below hysteresis floor"
    );
    assert!(!bp.is_paused(), "controller must be unpaused after Resume");
}

#[test]
fn backpressure_has_hysteresis() {
    let mut bp = BackpressureController::new(4);
    assert_eq!(bp.check(4), None);
    assert_eq!(bp.check(5), Some(BackpressureSignal::SlowDown));
    assert_eq!(bp.check(4), None);
    assert_eq!(bp.check(2), None);
    assert!(bp.is_paused());
    assert_eq!(bp.check(1), Some(BackpressureSignal::Resume));
    assert_eq!(bp.check(1), None);
    bp.update(BackpressureSignal::SlowDown);
    assert!(bp.is_paused());
    bp.update(BackpressureSignal::Resume);
    assert!(!bp.is_paused());
}
