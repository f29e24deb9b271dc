use std::sync::Arc;

use dual_optimistic::commit_log::{CommitEvent, MockCommitWrapper};
use dual_optimistic::committee::{make_test_committee, AuthorityIndex};
use dual_optimistic::context::Context;
use dual_optimistic::executor::{ExecutorAction, ExecutorEvent, MockExecutor};
use dual_optimistic::node::ConsensusNode;
use dual_optimistic::scheduler::pipeline::{CommitDecision, PipelineAction, PipelineScheduler};
use dual_optimistic::shared::{
    BackpressureSignal, BlockDigest, BlockRef as SharedRef, ConsensusEvent, EthSignedTx,
    OurCommittedSubDag, OurVerifiedBlock, TxBatch,
};
use dual_optimistic::types::{genesis_blocks, BlockRef, TestBlock, Transaction, VerifiedBlock};

const WAVE_LEN: u32 = 3;

fn genesis_refs(n: usize) -> Vec<BlockRef> {
    let committee = make_test_committee(0, n);
    genesis_blocks(&committee).into_iter().map(|b| b.reference()).collect()
}

fn build_round(round: u32, authors: &[u32], prev: &[BlockRef]) -> Vec<VerifiedBlock> {
    authors
        .iter()
        .map(|&a| TestBlock::new(round, a).set_ancestors(prev.to_vec()).build())
        .collect()
}

fn build_round_tx(round: u32, authors: &[u32], prev: &[BlockRef]) -> Vec<VerifiedBlock> {
    authors
        .iter()
        .map(|&a| {
            TestBlock::new(round, a)
                .set_ancestors(prev.to_vec())
                .set_transactions(vec![Transaction(vec![round as u8, a as u8])])
                .build()
        })
        .collect()
}

fn refs_of(blocks: &[VerifiedBlock]) -> Vec<BlockRef> {
    blocks.iter().map(|b| b.reference()).collect()
}

/// One node with its whole pipeline.
struct Handle {
    consensus: ConsensusNode,
    scheduler: PipelineScheduler,
    executor: MockExecutor,
    commits: MockCommitWrapper,
    events: Vec<ConsensusEvent>,
    throttled: Vec<BackpressureSignal>,
}

impl Handle {
    fn build(own_index: u32, n: usize, executor: MockExecutor) -> Self {
        let committee = make_test_committee(0, n);
        let context = Arc::new(Context::new(AuthorityIndex::new_for_test(own_index), committee));
        Handle {
            consensus: ConsensusNode::new(context),
            scheduler: PipelineScheduler::new(16),
            executor,
            commits: MockCommitWrapper::new(),
            events: Vec::new(),
            throttled: Vec::new(),
        }
    }

    fn new(own_index: u32, n: usize) -> Self {
        Handle::build(own_index, n, MockExecutor::new())
    }

    fn perform(&mut self, actions: Vec<PipelineAction>) {
        for action in actions {
            match action {
                PipelineAction::Execute(batch) => {
                    for step in self.executor.on_batch(&batch) {
                        match step {
                            ExecutorAction::Signal(signal) => {
                                let more = self.scheduler.on_signal(signal);
                                self.perform(more);
                            }
                            ExecutorAction::Sleep(_) => {}
                        }
                    }
                }
                PipelineAction::Decide(decision) => self.commits.on_decision(&decision),
                PipelineAction::Throttle(signal) => self.throttled.push(signal),
            }
        }
    }

    fn accept_blocks(&mut self, blocks: Vec<VerifiedBlock>) {
        for block in &blocks {
            assert!(self.consensus.is_acceptable(block));
        }
        let outcome = self.consensus.accept_blocks(blocks);
        assert!(outcome.conflict.is_none());
        for event in outcome.events {
            self.events.push(event.clone());
            let actions = self.scheduler.on_event(event);
            self.perform(actions);
        }
    }

    fn executor_events(&self) -> Vec<ExecutorEvent> {
        self.executor.events().clone()
    }

    fn commit_events(&self) -> Vec<CommitEvent> {
        self.commits.events().clone()
    }
}

fn count_commit_decisions(handle: &Handle) -> usize {
    handle
        .commit_events()
        .iter()
        .filter(|e| matches!(e, CommitEvent::Commit { .. } | CommitEvent::FreshBatch { .. }))
        .count()
}

#[test]
fn test_e2e_single_round() {
    let n = 4;
    let mut handle = Handle::new(0, n);
    let mut prev = genesis_refs(n);
    for round in 1..=3 {
        let blocks = build_round(round, &[0, 1, 2, 3], &prev);
        prev = refs_of(&blocks);
        handle.accept_blocks(blocks);
    }

    let r4a = build_round(4, &[0, 1, 2], &prev);
    let mut r4r = refs_of(&r4a);
    handle.accept_blocks(r4a);
    let r4b = build_round(4, &[3], &prev);
    r4r.extend(refs_of(&r4b));
    handle.accept_blocks(r4b);

    let r5 = build_round(5, &[0, 1, 2, 3], &r4r);
    handle.accept_blocks(r5);

    let ex = handle.executor_events();
    assert!(
        ex.iter().any(|e| e.is_optimistic),
        "executor must receive at least one optimistic TxBatch from SoftCommit"
    );
    let cm = handle.commit_events();
    assert!(
        cm.iter().any(|e| matches!(e, CommitEvent::Commit { .. })),
        "commit wrapper must receive a Commit decision after HardCommit"
    );
}

#[test]
fn test_e2e_multi_round() {
    let n = 4;
    let mut handle = Handle::new(0, n);
    let mut prev = genesis_refs(n);
    for round in 1..=11 {
        let blocks = build_round(round, &[0, 1, 2, 3], &prev);
        prev = refs_of(&blocks);
        handle.accept_blocks(blocks);
    }

    let ex = handle.executor_events();
    let mut ci: Vec<u64> =
        ex.iter().filter(|e| e.is_optimistic).map(|e| e.commit_index).collect();
    assert_eq!(ci.len(), 3, "expected 3 optimistic TxBatches; got {:?}", ex);
    ci.sort();
    assert_eq!(ci, vec![1, 2, 3], "commit_indexes must be 1, 2, 3");

    let cm = handle.commit_events();
    let n_commits = cm.iter().filter(|e| matches!(e, CommitEvent::Commit { .. })).count();
    assert_eq!(n_commits, 3, "expected 3 Commit decisions for 3 waves");
}

#[test]
fn test_e2e_soft_hard_tx_match() {
    let n = 4;
    let mut handle = Handle::new(0, n);
    let all_nodes: &[u32] = &[0, 1, 2, 3];
    let mut prev = genesis_refs(n);
    for round in 1..=3 {
        let blocks = build_round_tx(round, all_nodes, &prev);
        prev = refs_of(&blocks);
        handle.accept_blocks(blocks);
    }
    let r4a = build_round_tx(4, &[0, 1, 2], &prev);
    let mut r4r = refs_of(&r4a);
    handle.accept_blocks(r4a);
    let r4b = build_round_tx(4, &[3], &prev);
    r4r.extend(refs_of(&r4b));
    handle.accept_blocks(r4b);
    let r5 = build_round_tx(5, all_nodes, &r4r);
    handle.accept_blocks(r5);

    let soft_txs = handle
        .events
        .iter()
        .find_map(|e| {
            if let ConsensusEvent::SoftCommit { txs, .. } = e {
                Some(txs.clone())
            } else {
                None
            }
        })
        .expect("SoftCommit must be present");
    assert!(!soft_txs.is_empty(), "SoftCommit.txs must not be empty");

    let hard_txs: Vec<Vec<u8>> = handle
        .events
        .iter()
        .find_map(|e| {
            if let ConsensusEvent::HardCommit { subdag } = e {
                Some(
                    subdag
                        .blocks
                        .iter()
                        .flat_map(|b| b.txs.iter().map(|t| t.0.clone()))
                        .collect(),
                )
            } else {
                None
            }
        })
        .expect("HardCommit must be present");
    assert!(!hard_txs.is_empty(), "HardCommit subdag must carry txs");

    let mut soft_sorted: Vec<Vec<u8>> = soft_txs.iter().map(|t| t.0.clone()).collect();
    let mut hard_sorted = hard_txs;
    soft_sorted.sort();
    hard_sorted.sort();
    assert_eq!(soft_sorted, hard_sorted, "SoftCommit.txs must equal HardCommit subdag txs");
}

#[test]
fn test_e2e_out_of_order() {
    let n = 4;
    let mut handle = Handle::new(0, n);
    let mut prev = genesis_refs(n);
    for round in 1..=3 {
        let blocks = build_round(round, &[0, 1, 2, 3], &prev);
        prev = refs_of(&blocks);
        handle.accept_blocks(blocks);
    }
    let r3r = prev;

    // Two votes are not enough.
    let r4p = build_round(4, &[0, 1], &r3r);
    let r4pr = refs_of(&r4p);
    handle.accept_blocks(r4p);

    // Node 2 leads round 6.
    let r5 = build_round(5, &[0, 1, 2], &r4pr);
    let r5r = refs_of(&r5);
    handle.accept_blocks(r5);
    let r6 = build_round(6, &[0, 1, 2], &r5r);
    let r6r = refs_of(&r6);
    handle.accept_blocks(r6);
    let r7 = build_round(7, &[0, 1, 2], &r6r);
    handle.accept_blocks(r7);

    // The third vote for the leader of round 3.
    let r4_node2 = build_round(4, &[2], &r3r);
    handle.accept_blocks(r4_node2);

    let ex = handle.executor_events();
    let rounds: Vec<u64> = ex.iter().map(|e| e.round).collect();
    assert!(
        rounds.len() >= 2,
        "executor must receive batches for R3 and R6; got: {:?}",
        rounds
    );
    assert_eq!(rounds[0], 3, "R3 must be dispatched first");
    assert_eq!(rounds[1], 6, "R6 must be dispatched second");
}

#[test]
fn test_e2e_backpressure() {
    let n = 4;
    let mut handle = Handle::build(0, n, MockExecutor::new_with_delay(10));
    let mut prev = genesis_refs(n);
    for round in 1..=8 {
        let blocks = build_round(round, &[0, 1, 2, 3], &prev);
        prev = refs_of(&blocks);
        handle.accept_blocks(blocks);
    }
    let optimistic: Vec<u64> = handle
        .executor_events()
        .iter()
        .filter(|e| e.is_optimistic)
        .map(|e| e.round)
        .collect();
    assert!(
        optimistic.len() >= 2,
        "both optimistic batches must complete despite delay; got: {:?}",
        optimistic
    );
}

/// Linear congruential generator.
struct Lcg(u64);

impl Lcg {
    fn new(seed: u64) -> Self {
        Self(seed)
    }

    fn next_u64(&mut self) -> u64 {
        self.0 = self.0.wrapping_mul(6364136223846793005).wrapping_add(1442695040888963407);
        self.0
    }

    fn next_usize(&mut self, n: usize) -> usize {
        (self.next_u64() % n as u64) as usize
    }

    fn shuffle<T>(&mut self, slice: &mut [T]) {
        for i in (1..slice.len()).rev() {
            let j = self.next_usize(i + 1);
            slice.swap(i, j);
        }
    }

    fn choose_k<T: Copy>(&mut self, items: &[T], k: usize) -> Vec<T> {
        let k = k.min(items.len());
        let mut idx: Vec<usize> = (0..items.len()).collect();
        self.shuffle(&mut idx);
        idx[..k].iter().map(|&i| items[i]).collect()
    }
}

fn leader_author_for_round(leader_round: u32, committee_size: usize) -> usize {
    (leader_round % committee_size as u32) as usize
}

/// Blocks with random ancestors; on voting rounds the leader is always among them.
fn build_round_random_refs(
    r: u32,
    authors: &[u32],
    prev: &[BlockRef],
    committee_size: usize,
    refs_per_block: usize,
    rng: &mut Lcg,
) -> Vec<VerifiedBlock> {
    let prev_round = r.saturating_sub(1);
    let forced_leader: Option<BlockRef> = if prev_round > 0 && prev_round % WAVE_LEN == 0 {
        let la = leader_author_for_round(prev_round, committee_size);
        prev.iter().find(|b| b.author.value() == la).copied()
    } else {
        None
    };

    authors
        .iter()
        .map(|&a| {
            let mut chosen = rng.choose_k(prev, refs_per_block);
            if let Some(lr) = forced_leader {
                if !chosen.iter().any(|b| *b == lr) {
                    match chosen.last_mut() {
                        Some(slot) => *slot = lr,
                        None => chosen.push(lr),
                    }
                }
            }
            TestBlock::new(r, a).set_ancestors(chosen).build()
        })
        .collect()
}

#[test]
fn test_8node_20waves_full_connectivity() {
    let n = 8;
    let mut handle = Handle::new(0, n);
    let all_nodes: Vec<u32> = (0..n as u32).collect();
    let total_rounds: u32 = WAVE_LEN * 20 + 2;

    let mut prev = genesis_refs(n);
    for r in 1..=total_rounds {
        let blocks = build_round(r, &all_nodes, &prev);
        prev = refs_of(&blocks);
        handle.accept_blocks(blocks);
    }

    let ex = handle.executor_events();
    let mut ci: Vec<u64> =
        ex.iter().filter(|e| e.is_optimistic).map(|e| e.commit_index).collect();
    ci.sort();
    assert_eq!(ci.len(), 20, "expected 20 optimistic TxBatches; got ci={ci:?}");
    assert_eq!(
        ci,
        (1u64..=20).collect::<Vec<_>>(),
        "commit_indexes must be exactly 1..=20"
    );

    let cm = handle.commit_events();
    let n_commits = cm.iter().filter(|e| matches!(e, CommitEvent::Commit { .. })).count();
    assert_eq!(n_commits, 20, "expected 20 Commit decisions; got cm={cm:?}");
}

#[test]
fn test_8node_random_ancestors_10waves() {
    let n = 8usize;
    let quorum = n - (n - 1) / 3;
    let mut handle = Handle::new(0, n);
    let all_nodes: Vec<u32> = (0..n as u32).collect();
    let mut rng = Lcg::new(42);

    let mut prev = genesis_refs(n);
    for r in 1u32..=32 {
        let blocks = build_round_random_refs(r, &all_nodes, &prev, n, quorum, &mut rng);
        prev = refs_of(&blocks);
        handle.accept_blocks(blocks);
    }

    let ex = handle.executor_events();
    let mut ci: Vec<u64> =
        ex.iter().filter(|e| e.is_optimistic).map(|e| e.commit_index).collect();
    ci.sort();
    assert_eq!(ci.len(), 10, "expected 10 optimistic TxBatches (random-ref); got ci={ci:?}");
    assert_eq!(
        ci,
        (1u64..=10).collect::<Vec<_>>(),
        "commit_indexes must be exactly 1..=10"
    );

    let cm = handle.commit_events();
    let n_commits = cm.iter().filter(|e| matches!(e, CommitEvent::Commit { .. })).count();
    assert_eq!(n_commits, 10, "expected 10 Commit decisions (random-ref); got cm={cm:?}");
}

#[test]
fn test_8node_sparse_participation_random() {
    let n = 8usize;
    let quorum = n - (n - 1) / 3;
    let mut handle = Handle::new(0, n);
    let mut rng = Lcg::new(99);

    let mut prev = genesis_refs(n);
    for r in 1u32..=47 {
        let n_part = quorum + rng.next_usize(n - quorum + 1);
        let mut all: Vec<u32> = (0..n as u32).collect();
        rng.shuffle(&mut all);
        let mut participants: Vec<u32> = all[..n_part].to_vec();

        // The leader takes part in its round.
        if r % WAVE_LEN == 0 {
            let la = (r % n as u32) as u32;
            if !participants.contains(&la) {
                *participants.last_mut().unwrap() = la;
                participants.dedup();
            }
        }
        participants.sort();

        let blocks = build_round(r, &participants, &prev);
        prev = refs_of(&blocks);
        handle.accept_blocks(blocks);
    }

    let ex = handle.executor_events();
    let ci: Vec<u64> = ex.iter().filter(|e| e.is_optimistic).map(|e| e.commit_index).collect();
    assert_eq!(ci.len(), 15, "expected 15 optimistic TxBatches (sparse); got ci={ci:?}");
    for w in ci.windows(2) {
        assert!(w[0] < w[1], "commit_indexes must be strictly increasing: {ci:?}");
    }

    let cm = handle.commit_events();
    let n_commits = cm.iter().filter(|e| matches!(e, CommitEvent::Commit { .. })).count();
    assert_eq!(n_commits, 15, "expected 15 Commit decisions (sparse); got cm={cm:?}");
}

#[test]
fn test_e2e_byzantine_f1() {
    let n = 4;
    let mut handle = Handle::new(1, n);
    let honest: &[u32] = &[1, 2, 3];
    let mut prev = genesis_refs(n);
    for round in 1..=5 {
        let blocks = build_round(round, honest, &prev);
        prev = refs_of(&blocks);
        handle.accept_blocks(blocks);
    }
    let cm = handle.commit_events();
    assert!(
        cm.iter()
            .any(|e| matches!(e, CommitEvent::Commit { .. } | CommitEvent::FreshBatch { .. })),
        "commit wrapper must receive a commit-path decision; got: {:?}",
        cm
    );
}

#[test]
fn test_network_partition_and_heal() {
    let n = 8usize;
    let mut handle = Handle::new(0, n);
    let all_nodes: Vec<u32> = (0..n as u32).collect();
    let group_a: Vec<u32> = (0..4u32).collect();
    let group_b: Vec<u32> = (4..8u32).collect();

    let mut prev = genesis_refs(n);
    for r in 1u32..=11 {
        let blocks = build_round(r, &all_nodes, &prev);
        prev = refs_of(&blocks);
        handle.accept_blocks(blocks);
    }
    assert_eq!(
        count_commit_decisions(&handle),
        3,
        "expected 3 commits after full-connectivity phase"
    );

    // Neither half is a quorum.
    let mut prev_a: Vec<BlockRef> =
        prev.iter().filter(|r| r.author.value() < 4).cloned().collect();
    let mut prev_b: Vec<BlockRef> =
        prev.iter().filter(|r| r.author.value() >= 4).cloned().collect();
    for r in 12u32..=20 {
        let blocks_a = build_round(r, &group_a, &prev_a);
        let blocks_b = build_round(r, &group_b, &prev_b);
        prev_a = refs_of(&blocks_a);
        prev_b = refs_of(&blocks_b);
        handle.accept_blocks(blocks_a);
        handle.accept_blocks(blocks_b);
    }
    assert_eq!(
        count_commit_decisions(&handle),
        3,
        "no new commits during partition (each sub-group has only 4 < quorum=6 nodes)"
    );

    let mut prev_all: Vec<BlockRef> = prev_a.into_iter().chain(prev_b).collect();
    for r in 21u32..=29 {
        let blocks = build_round(r, &all_nodes, &prev_all);
        prev_all = refs_of(&blocks);
        handle.accept_blocks(blocks);
    }
    let total = count_commit_decisions(&handle);
    assert!(total > 3, "commits must resume after partition heals; total={total}");
}

#[test]
fn test_node_offline_and_rejoin() {
    let n = 8usize;
    let mut handle = Handle::new(0, n);
    let all_nodes: Vec<u32> = (0..n as u32).collect();
    let without_7: Vec<u32> = (0..7u32).collect();

    let mut prev = genesis_refs(n);
    for r in 1u32..=11 {
        let blocks = build_round(r, &all_nodes, &prev);
        prev = refs_of(&blocks);
        handle.accept_blocks(blocks);
    }
    assert_eq!(count_commit_decisions(&handle), 3);

    // Node 7 leads round 15, which is skipped.
    for r in 12u32..=29 {
        let blocks = build_round(r, &without_7, &prev);
        prev = refs_of(&blocks);
        handle.accept_blocks(blocks);
    }
    let after_offline = count_commit_decisions(&handle);
    assert!(
        after_offline >= 8,
        "pipeline must continue with 7/8 nodes; got after_offline={after_offline}"
    );

    for r in 30u32..=38 {
        let blocks = build_round(r, &all_nodes, &prev);
        prev = refs_of(&blocks);
        handle.accept_blocks(blocks);
    }
    let after_rejoin = count_commit_decisions(&handle);
    assert!(
        after_rejoin > after_offline,
        "commits must increase after node 7 rejoins; {after_rejoin} > {after_offline}"
    );

    let n_opt = handle.executor_events().iter().filter(|e| e.is_optimistic).count();
    assert!(
        n_opt >= 3,
        "at least 3 optimistic batches (phase-1 waves R3/R6/R9); got {n_opt}"
    );
}

#[test]
fn test_equivocating_voter() {
    let n = 4usize;
    let mut handle = Handle::new(0, n);
    let all_nodes: Vec<u32> = (0..n as u32).collect();
    let mut prev = genesis_refs(n);
    for r in 1u32..=3 {
        let blocks = build_round(r, &all_nodes, &prev);
        prev = refs_of(&blocks);
        handle.accept_blocks(blocks);
    }

    let r4_node0 = TestBlock::new(4, 0).set_ancestors(prev.clone()).build();
    let v1a = TestBlock::new(4, 1)
        .set_ancestors(prev.clone())
        .set_transactions(vec![Transaction(vec![1, 0])])
        .build();
    let v1b = TestBlock::new(4, 1)
        .set_ancestors(prev.clone())
        .set_transactions(vec![Transaction(vec![1, 1])])
        .build();
    let r4_node2 = TestBlock::new(4, 2).set_ancestors(prev.clone()).build();
    let r4_node3 = TestBlock::new(4, 3).set_ancestors(prev.clone()).build();

    handle.accept_blocks(vec![
        r4_node0.clone(),
        v1a.clone(),
        v1b.clone(),
        r4_node2.clone(),
        r4_node3.clone(),
    ]);

    let mut r5_prev = refs_of(&[r4_node0, r4_node2, r4_node3]);
    r5_prev.push(v1a.reference());
    r5_prev.push(v1b.reference());
    let r5 = build_round(5, &all_nodes, &r5_prev);
    handle.accept_blocks(r5);

    let cm = handle.commit_events();
    let n_commits = count_commit_decisions(&handle);
    assert_eq!(
        n_commits, 1,
        "exactly one commit despite voter equivocation; events: {cm:?}"
    );

    let n_opt = handle.executor_events().iter().filter(|e| e.is_optimistic).count();
    assert_eq!(n_opt, 1, "exactly one optimistic batch; got {n_opt}");
}

#[test]
fn test_equivocating_leader() {
    let n = 8usize;
    let mut handle = Handle::new(0, n);
    let all_nodes: Vec<u32> = (0..n as u32).collect();
    let mut prev = genesis_refs(n);
    for r in 1u32..=2 {
        let blocks = build_round(r, &all_nodes, &prev);
        prev = refs_of(&blocks);
        handle.accept_blocks(blocks);
    }

    let r3_others: Vec<VerifiedBlock> = (0..n as u32)
        .filter(|&a| a != 3)
        .map(|a| TestBlock::new(3, a).set_ancestors(prev.clone()).build())
        .collect();
    let l1 = TestBlock::new(3, 3)
        .set_ancestors(prev.clone())
        .set_transactions(vec![Transaction(vec![0])])
        .build();
    let l2 = TestBlock::new(3, 3)
        .set_ancestors(prev.clone())
        .set_transactions(vec![Transaction(vec![1])])
        .build();

    let r3_other_refs = refs_of(&r3_others);
    handle.accept_blocks(r3_others);
    handle.accept_blocks(vec![l1.clone(), l2.clone()]);

    let r4_l1_voters: Vec<VerifiedBlock> = (0..6u32)
        .map(|a| {
            let mut ancs = r3_other_refs.clone();
            ancs.push(l1.reference());
            TestBlock::new(4, a).set_ancestors(ancs).build()
        })
        .collect();
    let r4_l2_voters: Vec<VerifiedBlock> = (6..8u32)
        .map(|a| {
            let mut ancs = r3_other_refs.clone();
            ancs.push(l2.reference());
            TestBlock::new(4, a).set_ancestors(ancs).build()
        })
        .collect();

    let mut r4r = refs_of(&r4_l1_voters);
    r4r.extend(refs_of(&r4_l2_voters));

    handle.accept_blocks(r4_l1_voters);
    handle.accept_blocks(r4_l2_voters);

    let r5 = build_round(5, &all_nodes, &r4r);
    handle.accept_blocks(r5);

    let cm = handle.commit_events();
    let n_commits = count_commit_decisions(&handle);
    assert_eq!(
        n_commits, 1,
        "exactly one commit for L1; L2 must be silently discarded; events: {cm:?}"
    );

    let n_opt = handle.executor_events().iter().filter(|e| e.is_optimistic).count();
    assert_eq!(n_opt, 1, "exactly one optimistic batch for L1; got {n_opt}");
}

fn tx(byte: u8) -> EthSignedTx {
    EthSignedTx(vec![byte])
}

fn subdag(round: u64, commit_index: u64, txs: &[&[u8]]) -> OurCommittedSubDag {
    let at = SharedRef { round, author: 0, digest: BlockDigest([0; 32]) };
    OurCommittedSubDag {
        leader: at.clone(),
        blocks: txs
            .iter()
            .map(|list| OurVerifiedBlock {
                block_ref: at.clone(),
                txs: list.iter().map(|&b| tx(b)).collect(),
            })
            .collect(),
        timestamp_ms: 0,
        commit_index,
    }
}

#[test]
fn fresh_batch_carries_the_whole_subdag() {
    let mut scheduler = PipelineScheduler::new(16);
    let actions = scheduler.on_hard_commit(subdag(3, 1, &[&[1, 2], &[], &[3]]));
    assert_eq!(
        actions,
        vec![PipelineAction::Decide(CommitDecision::FreshBatch(TxBatch {
            round: 3,
            commit_index: 1,
            txs: vec![tx(1), tx(2), tx(3)],
            is_optimistic: false,
        }))]
    );
}

#[test]
fn soft_commit_is_executed_then_confirmed() {
    let mut scheduler = PipelineScheduler::new(16);
    let actions = scheduler.on_soft_commit(3, vec![tx(9)]);
    assert_eq!(
        actions,
        vec![PipelineAction::Execute(TxBatch {
            round: 3,
            commit_index: 1,
            txs: vec![tx(9)],
            is_optimistic: true,
        })]
    );
    // A second soft commit of the round is dropped.
    assert!(scheduler.on_soft_commit(3, vec![tx(8)]).is_empty());
    assert_eq!(
        scheduler.on_hard_commit(subdag(3, 1, &[&[9]])),
        vec![PipelineAction::Decide(CommitDecision::Commit { commit_index: 1, round: 3 })]
    );
}

#[test]
fn pause_holds_batches_back_until_resume() {
    let mut scheduler = PipelineScheduler::new(16);
    assert!(scheduler.on_signal(BackpressureSignal::SlowDown).is_empty());
    assert!(scheduler.on_soft_commit(3, vec![tx(1)]).is_empty());
    assert!(scheduler.on_soft_commit(6, vec![tx(2)]).is_empty());
    // A hard commit is answered all the same.
    assert!(matches!(
        scheduler.on_hard_commit(subdag(12, 4, &[&[5]]))[0],
        PipelineAction::Decide(CommitDecision::FreshBatch(_))
    ));
    let actions = scheduler.on_signal(BackpressureSignal::Resume);
    let sent: Vec<(u64, u64)> = actions
        .iter()
        .map(|a| match a {
            PipelineAction::Execute(batch) => (batch.round, batch.commit_index),
            _ => unreachable!(),
        })
        .collect();
    assert_eq!(sent, vec![(3, 1), (6, 2)]);
}

#[test]
fn deep_queue_throttles_consensus() {
    let mut scheduler = PipelineScheduler::new(2);
    // Nothing can be sent before round 3.
    assert!(scheduler.on_soft_commit(6, Vec::new()).is_empty());
    assert!(scheduler.on_soft_commit(9, Vec::new()).is_empty());
    assert_eq!(
        scheduler.on_soft_commit(12, Vec::new()),
        vec![PipelineAction::Throttle(BackpressureSignal::SlowDown)]
    );
    assert_eq!(scheduler.on_hard_commit(subdag(6, 1, &[])).len(), 1);
    assert_eq!(scheduler.on_hard_commit(subdag(9, 2, &[])).len(), 1);
    let last = scheduler.on_hard_commit(subdag(12, 3, &[]));
    assert_eq!(last[1], PipelineAction::Throttle(BackpressureSignal::Resume));
}

#[test]
fn executor_records_and_signals() {
    let batch = TxBatch {
        round: 6,
        commit_index: 2,
        txs: vec![tx(1), tx(2), tx(3)],
        is_optimistic: true,
    };
    let mut plain = MockExecutor::default();
    assert!(plain.on_batch(&batch).is_empty());
    assert_eq!(
        plain.events(),
        &vec![ExecutorEvent { round: 6, commit_index: 2, is_optimistic: true, tx_count: 3 }]
    );
    let mut slow = MockExecutor::new_with_delay(25);
    assert_eq!(
        slow.on_batch(&batch),
        vec![
            ExecutorAction::Signal(BackpressureSignal::SlowDown),
            ExecutorAction::Sleep(25),
            ExecutorAction::Signal(BackpressureSignal::Resume),
        ]
    );
}

#[test]
fn commit_log_records_every_decision() {
    let mut log = MockCommitWrapper::default();
    log.on_decision(&CommitDecision::Commit { commit_index: 1, round: 3 });
    log.on_decision(&CommitDecision::Discard { commit_index: 2 });
    log.on_decision(&CommitDecision::FreshBatch(TxBatch {
        round: 9,
        commit_index: 3,
        txs: vec![tx(4)],
        is_optimistic: false,
    }));
    assert_eq!(
        log.events(),
        &vec![
            CommitEvent::Commit { commit_index: 1, round: 3 },
            CommitEvent::Discard { commit_index: 2 },
            CommitEvent::FreshBatch { round: 9, commit_index: 3, tx_count: 1 },
        ]
    );
}
