use std::collections::HashMap;
use std::sync::Arc;

use dual_optimistic::committee::{make_test_committee, AuthorityIndex};
use dual_optimistic::context::Context;
use dual_optimistic::node::ConsensusNode;
use dual_optimistic::shared::ConsensusEvent;
use dual_optimistic::types::{genesis_blocks, BlockRef, TestBlock, Transaction, VerifiedBlock};

fn genesis_refs(n: usize) -> Vec<BlockRef> {
    let committee = make_test_committee(0, n);
    genesis_blocks(&committee).into_iter().map(|b| b.reference()).collect()
}

fn build_round(round: u32, authors: &[u32], prev_refs: &[BlockRef]) -> Vec<VerifiedBlock> {
    authors
        .iter()
        .map(|&a| TestBlock::new(round, a).set_ancestors(prev_refs.to_vec()).build())
        .collect()
}

fn refs_of(blocks: &[VerifiedBlock]) -> Vec<BlockRef> {
    blocks.iter().map(|b| b.reference()).collect()
}

/// A node and the events not yet looked at.
struct Observed {
    node: ConsensusNode,
    events: Vec<ConsensusEvent>,
}

impl Observed {
    fn new(own_index: u32, n: usize) -> Self {
        let committee = make_test_committee(0, n);
        let context = Arc::new(Context::new(AuthorityIndex::new_for_test(own_index), committee));
        Observed { node: ConsensusNode::new(context), events: Vec::new() }
    }

    fn accept_blocks(&mut self, blocks: Vec<VerifiedBlock>) {
        for block in &blocks {
            assert!(self.node.is_acceptable(block));
        }
        let outcome = self.node.accept_blocks(blocks);
        assert!(outcome.conflict.is_none());
        self.events.extend(outcome.events);
    }

    fn drain(&mut self) -> Vec<ConsensusEvent> {
        std::mem::take(&mut self.events)
    }
}

#[test]
fn test_soft_commit_triggered() {
    let n = 4;
    let mut node = Observed::new(0, n);
    let g = genesis_refs(n);

    let r1 = build_round(1, &[0, 1, 2, 3], &g);
    let r1_refs = refs_of(&r1);
    node.accept_blocks(r1);

    let r2 = build_round(2, &[0, 1, 2, 3], &r1_refs);
    let r2_refs = refs_of(&r2);
    node.accept_blocks(r2);

    // Round 3 is a leader round, led by node 3.
    let r3 = build_round(3, &[0, 1, 2, 3], &r2_refs);
    let r3_refs = refs_of(&r3);
    node.accept_blocks(r3);

    assert!(node.drain().is_empty(), "no events before voting round");

    // Three of four nodes vote.
    let r4_partial = build_round(4, &[0, 1, 2], &r3_refs);
    node.accept_blocks(r4_partial);

    let events = node.drain();
    let soft_events: Vec<_> =
        events.iter().filter(|e| matches!(e, ConsensusEvent::SoftCommit { .. })).collect();

    assert_eq!(soft_events.len(), 1, "expected exactly one SoftCommit event");
    match &soft_events[0] {
        ConsensusEvent::SoftCommit { round, .. } => {
            assert_eq!(*round, 3, "soft commit must be for round 3 leader");
        }
        _ => unreachable!(),
    }
}

#[test]
fn test_hard_commit_triggered() {
    let n = 4;
    let mut node = Observed::new(0, n);
    let g = genesis_refs(n);

    let r1 = build_round(1, &[0, 1, 2, 3], &g);
    let r1_refs = refs_of(&r1);
    node.accept_blocks(r1);

    let r2 = build_round(2, &[0, 1, 2, 3], &r1_refs);
    let r2_refs = refs_of(&r2);
    node.accept_blocks(r2);

    let r3 = build_round(3, &[0, 1, 2, 3], &r2_refs);
    let r3_refs = refs_of(&r3);
    node.accept_blocks(r3);

    let r4 = build_round(4, &[0, 1, 2, 3], &r3_refs);
    let r4_refs = refs_of(&r4);
    node.accept_blocks(r4);

    let before = node
        .drain()
        .into_iter()
        .filter(|e| matches!(e, ConsensusEvent::HardCommit { .. }))
        .count();
    assert_eq!(before, 0, "no HardCommit before decision round 5");

    let r5 = build_round(5, &[0, 1, 2, 3], &r4_refs);
    node.accept_blocks(r5);

    let events = node.drain();
    let hard_events: Vec<_> =
        events.iter().filter(|e| matches!(e, ConsensusEvent::HardCommit { .. })).collect();

    assert_eq!(hard_events.len(), 1, "expected exactly one HardCommit");
    match &hard_events[0] {
        ConsensusEvent::HardCommit { subdag } => {
            assert_eq!(subdag.leader.round, 3, "committed leader must be at round 3");
            assert_eq!(subdag.leader.author, 3, "round-3 leader must be node 3");
        }
        _ => unreachable!(),
    }
}

#[test]
fn test_dag_causal_order() {
    let n = 4;
    let mut node = Observed::new(0, n);
    let mut prev = genesis_refs(n);
    for round in 1..=5 {
        let blocks = build_round(round, &[0, 1, 2, 3], &prev);
        prev = refs_of(&blocks);
        node.accept_blocks(blocks);
    }

    let events = node.drain();
    let subdag = events.iter().find_map(|e| {
        if let ConsensusEvent::HardCommit { subdag } = e {
            Some(subdag)
        } else {
            None
        }
    });
    let subdag = subdag.expect("expected a HardCommit event");

    let pos: HashMap<(u64, u64), usize> = subdag
        .blocks
        .iter()
        .enumerate()
        .map(|(idx, b)| ((b.block_ref.round, b.block_ref.author), idx))
        .collect();

    for (i, block) in subdag.blocks.iter().enumerate() {
        if i > 0 {
            let prev = &subdag.blocks[i - 1];
            assert!(
                block.block_ref.round >= prev.block_ref.round,
                "causal order violated: block at index {} has round {} < previous round {}",
                i,
                block.block_ref.round,
                prev.block_ref.round,
            );
        }
        assert!(
            pos.contains_key(&(block.block_ref.round, block.block_ref.author)),
            "block ({}, {}) not found in position map",
            block.block_ref.round,
            block.block_ref.author,
        );
    }
}

#[test]
fn test_byzantine_node_tolerance() {
    let n = 4;
    let mut node = Observed::new(1, n);

    // Node 0 produces nothing.
    let honest: &[u32] = &[1, 2, 3];
    let mut prev = genesis_refs(n);
    for round in 1..=5 {
        let blocks = build_round(round, honest, &prev);
        prev = refs_of(&blocks);
        node.accept_blocks(blocks);
    }

    let events = node.drain();
    let soft = events.iter().filter(|e| matches!(e, ConsensusEvent::SoftCommit { .. })).count();
    assert_eq!(soft, 1, "expected 1 SoftCommit from 3 honest nodes");

    let hard = events.iter().filter(|e| matches!(e, ConsensusEvent::HardCommit { .. })).count();
    assert_eq!(hard, 1, "expected 1 HardCommit despite 1 byzantine node");

    if let ConsensusEvent::HardCommit { subdag } =
        events.iter().find(|e| matches!(e, ConsensusEvent::HardCommit { .. })).unwrap()
    {
        assert_eq!(subdag.leader.round, 3);
        assert_eq!(subdag.leader.author, 3);
    }
}

fn replay() -> Vec<String> {
    let n = 4;
    let mut node = Observed::new(0, n);
    let mut prev = genesis_refs(n);
    for round in 1..=5u32 {
        let blocks: Vec<VerifiedBlock> = [0u32, 1, 2, 3]
            .iter()
            .map(|&a| {
                TestBlock::new(round, a)
                    .set_ancestors(prev.to_vec())
                    .set_timestamp_ms(round as u64 * 10 + a as u64)
                    .build()
            })
            .collect();
        prev = refs_of(&blocks);
        node.accept_blocks(blocks);
    }
    node.drain().into_iter().map(|e| format!("{e:?}")).collect()
}

#[test]
fn test_deterministic_replay() {
    let run1 = replay();
    let run2 = replay();

    assert!(!run1.is_empty(), "simulation must produce at least one event");
    assert_eq!(run1, run2, "two identical simulations must produce identical event sequences");
}

#[test]
fn test_tx_payload_flow() {
    let n = 4;
    let mut node = Observed::new(0, n);
    let g = genesis_refs(n);

    let build_tx_round = |round: u32, authors: &[u32], prev: &[BlockRef]| {
        authors
            .iter()
            .map(|&a| {
                TestBlock::new(round, a)
                    .set_ancestors(prev.to_vec())
                    .set_transactions(vec![Transaction(vec![round as u8, a as u8])])
                    .build()
            })
            .collect::<Vec<VerifiedBlock>>()
    };

    let r1 = build_tx_round(1, &[0, 1, 2, 3], &g);
    let r1_refs = refs_of(&r1);
    node.accept_blocks(r1);

    let r2 = build_tx_round(2, &[0, 1, 2, 3], &r1_refs);
    let r2_refs = refs_of(&r2);
    node.accept_blocks(r2);

    let r3 = build_tx_round(3, &[0, 1, 2, 3], &r2_refs);
    let r3_refs = refs_of(&r3);
    node.accept_blocks(r3);

    let r4 = build_tx_round(4, &[0, 1, 2], &r3_refs);
    let r4_refs = refs_of(&r4);
    node.accept_blocks(r4);

    let after_r4 = node.drain();
    let soft = after_r4
        .iter()
        .find(|e| matches!(e, ConsensusEvent::SoftCommit { .. }))
        .expect("SoftCommit must be emitted after 2f+1 votes");

    match soft {
        ConsensusEvent::SoftCommit { txs, .. } => {
            assert!(
                !txs.is_empty(),
                "SoftCommit.txs must not be empty when blocks carry transactions"
            );
            // The leader alone, four blocks below it and four below those.
            assert_eq!(
                txs.len(),
                9,
                "SoftCommit should contain 9 causal txs (1+4+4 from rounds 3,2,1)"
            );
        }
        _ => unreachable!(),
    }

    let r4_all = build_tx_round(4, &[3], &r3_refs);
    let r4_all_refs = refs_of(&r4_all);
    node.accept_blocks(r4_all);

    let mut all_r4_refs = r4_refs.clone();
    all_r4_refs.extend(r4_all_refs);

    let r5 = build_tx_round(5, &[0, 1, 2, 3], &all_r4_refs);
    node.accept_blocks(r5);

    let after_r5 = node.drain();
    let hard = after_r5
        .iter()
        .find(|e| matches!(e, ConsensusEvent::HardCommit { .. }))
        .expect("HardCommit must be emitted at decision round 5");

    match hard {
        ConsensusEvent::HardCommit { subdag } => {
            let total_hard_txs: usize = subdag.blocks.iter().map(|b| b.txs.len()).sum();
            assert!(total_hard_txs > 0, "HardCommit subdag blocks must carry transactions");
            assert_eq!(total_hard_txs, 9);
        }
        _ => unreachable!(),
    }
}

#[test]
fn blocks_may_arrive_in_any_order() {
    let n = 4;
    let mut rounds: Vec<Vec<VerifiedBlock>> = Vec::new();
    let mut prev = genesis_refs(n);
    for round in 1..=5 {
        let blocks = build_round(round, &[0, 1, 2, 3], &prev);
        prev = refs_of(&blocks);
        rounds.push(blocks);
    }

    let mut forward = Observed::new(0, n);
    for blocks in &rounds {
        forward.accept_blocks(blocks.clone());
    }
    let mut backward = Observed::new(0, n);
    for blocks in rounds.iter().rev() {
        for block in blocks.iter().rev() {
            backward.accept_blocks(vec![block.clone()]);
        }
    }

    let hard = |events: &[ConsensusEvent]| {
        events
            .iter()
            .filter(|e| matches!(e, ConsensusEvent::HardCommit { .. }))
            .cloned()
            .collect::<Vec<_>>()
    };
    let one = hard(&forward.drain());
    let other = hard(&backward.drain());
    assert_eq!(one.len(), 1);
    assert_eq!(one, other);
}

#[test]
fn nodes_with_different_views_commit_the_same_leaders() {
    let n = 4;
    let mut whole = Observed::new(0, n);
    let mut part = Observed::new(1, n);
    let mut prev = genesis_refs(n);
    for round in 1..=11 {
        let blocks = build_round(round, &[0, 1, 2, 3], &prev);
        prev = refs_of(&blocks);
        whole.accept_blocks(blocks.clone());
        // The other node misses the last block of the last rounds.
        if round > 9 {
            part.accept_blocks(blocks[..3].to_vec());
        } else {
            part.accept_blocks(blocks);
        }
    }
    let leaders = |events: Vec<ConsensusEvent>| {
        events
            .into_iter()
            .filter_map(|e| match e {
                ConsensusEvent::HardCommit { subdag } => Some((subdag.commit_index, subdag.leader)),
                ConsensusEvent::SoftCommit { .. } => None,
            })
            .collect::<Vec<_>>()
    };
    let seen_by_whole = leaders(whole.drain());
    let seen_by_part = leaders(part.drain());
    assert_eq!(seen_by_whole.len(), 3);
    assert!(!seen_by_part.is_empty());
    assert_eq!(seen_by_part[..], seen_by_whole[..seen_by_part.len()]);
}

#[test]
fn skipped_leader_is_committed_by_nobody() {
    let n = 4;
    let mut whole = Observed::new(0, n);
    let mut part = Observed::new(1, n);
    let mut prev = genesis_refs(n);
    // The leader of round 3 is silent in its round.
    for round in 1..=8 {
        let authors: &[u32] = if round == 3 { &[0, 1, 2] } else { &[0, 1, 2, 3] };
        let blocks = build_round(round, authors, &prev);
        prev = refs_of(&blocks);
        whole.accept_blocks(blocks.clone());
        if round < 8 {
            part.accept_blocks(blocks);
        } else {
            part.accept_blocks(blocks[1..].to_vec());
        }
    }
    for node in [&mut whole, &mut part] {
        let leaders: Vec<u64> = node
            .drain()
            .iter()
            .filter_map(|e| match e {
                ConsensusEvent::HardCommit { subdag } => Some(subdag.leader.round),
                ConsensusEvent::SoftCommit { .. } => None,
            })
            .collect();
        assert_eq!(leaders, vec![6]);
        assert_eq!(node.node.last_decided().round, 6);
    }
}

#[test]
fn commits_are_numbered_and_disjoint() {
    let n = 4;
    let mut node = Observed::new(0, n);
    let mut prev = genesis_refs(n);
    for round in 1..=14 {
        let blocks: Vec<VerifiedBlock> = (0..4u32)
            .map(|a| {
                TestBlock::new(round, a)
                    .set_ancestors(prev.clone())
                    .set_timestamp_ms(1000 * round as u64 + a as u64)
                    .build()
            })
            .collect();
        prev = refs_of(&blocks);
        node.accept_blocks(blocks);
    }
    let subdags: Vec<_> = node
        .drain()
        .into_iter()
        .filter_map(|e| match e {
            ConsensusEvent::HardCommit { subdag } => Some(subdag),
            ConsensusEvent::SoftCommit { .. } => None,
        })
        .collect();
    assert_eq!(subdags.len(), 4);
    let mut seen: Vec<(u64, u64)> = Vec::new();
    for (i, subdag) in subdags.iter().enumerate() {
        assert_eq!(subdag.commit_index, i as u64 + 1);
        assert_eq!(subdag.leader.round, 3 * (i as u64 + 1));
        if i > 0 {
            assert!(subdags[i - 1].timestamp_ms <= subdag.timestamp_ms);
        }
        for block in &subdag.blocks {
            let at = (block.block_ref.round, block.block_ref.author);
            assert!(!seen.contains(&at));
            seen.push(at);
        }
    }
    assert_eq!(subdags[0].timestamp_ms, 3003);
    assert_eq!(node.node.last_decided().round, 12);
}

#[test]
fn unfit_blocks_are_not_acceptable() {
    let n = 4;
    let node = Observed::new(0, n);
    let g = genesis_refs(n);
    assert!(node.node.is_acceptable(&TestBlock::new(1, 3).set_ancestors(g.clone()).build()));
    // Not a member.
    assert!(!node.node.is_acceptable(&TestBlock::new(1, 4).set_ancestors(g.clone()).build()));
    // Not a genesis block of the committee.
    assert!(!node.node.is_acceptable(&TestBlock::new(0, 1).set_timestamp_ms(5).build()));
    assert!(node.node.is_acceptable(&genesis_blocks(&make_test_committee(0, n))[2]));
    // No room above.
    assert!(!node.node.is_acceptable(&TestBlock::new(u32::MAX, 1).set_ancestors(g).build()));
    // An ancestor from the same round.
    let sibling = TestBlock::new(2, 0).build().reference();
    assert!(!node.node.is_acceptable(&TestBlock::new(2, 1).set_ancestors(vec![sibling]).build()));
}

#[test]
fn conflicting_leaders_are_reported() {
    // Two of four authorities equivocate, more than may be faulty: both blocks of the
    // leader get a quorum of votes and certificates.
    let n = 4;
    let mut node = Observed::new(0, n);
    let mut prev = genesis_refs(n);
    for round in 1..=2 {
        let blocks = build_round(round, &[0, 1, 2, 3], &prev);
        prev = refs_of(&blocks);
        node.accept_blocks(blocks);
    }
    let block = |round: u32, author: u32, tag: u8, ancestors: &[BlockRef]| {
        TestBlock::new(round, author)
            .set_ancestors(ancestors.to_vec())
            .set_transactions(vec![Transaction(vec![tag])])
            .build()
    };
    let l1 = block(3, 3, 1, &prev);
    let l2 = block(3, 3, 2, &prev);
    node.accept_blocks(vec![l1.clone(), l2.clone()]);
    let votes1: Vec<VerifiedBlock> =
        (0..3).map(|a| block(4, a, 1, &[l1.reference()])).collect();
    let votes2: Vec<VerifiedBlock> =
        (0..3).map(|a| block(4, a, 2, &[l2.reference()])).collect();
    node.accept_blocks(votes1.clone());
    node.accept_blocks(votes2.clone());
    let mut decisions: Vec<VerifiedBlock> =
        (0..3).map(|a| block(5, a, 1, &refs_of(&votes1))).collect();
    decisions.extend((0..3).map(|a| block(5, a, 2, &refs_of(&votes2))));
    let outcome = node.node.accept_blocks(decisions);
    let conflict = outcome.conflict.expect("two leaders qualify");
    assert_eq!(conflict.slot.round, 3);
    assert_eq!(conflict.slot.authority, AuthorityIndex::new_for_test(3));
    assert!(outcome.events.iter().all(|e| matches!(e, ConsensusEvent::SoftCommit { .. })));
}

#[test]
fn same_batches_give_the_same_events() {
    let n = 4;
    let mut batches: Vec<Vec<VerifiedBlock>> = Vec::new();
    let mut prev = genesis_refs(n);
    for round in 1..=8 {
        let mut blocks = build_round(round, &[0, 1, 2, 3], &prev);
        prev = refs_of(&blocks);
        // One block of each round comes late.
        let late = blocks.remove(round as usize % 4);
        batches.push(blocks);
        batches.push(vec![late]);
    }
    batches.swap(3, 4);
    let mut one = Observed::new(0, n);
    let mut other = Observed::new(3, n);
    let mut told = 0;
    for batch in batches {
        one.accept_blocks(batch.clone());
        other.accept_blocks(batch);
        let events = one.drain();
        told += events.len();
        assert_eq!(events, other.drain());
        assert_eq!(one.node.last_decided(), other.node.last_decided());
    }
    assert_eq!(told, 4);
}
