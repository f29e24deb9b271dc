use std::sync::Arc;

use dual_optimistic::base_committer::{BaseCommitter, BaseCommitterOptions};
use dual_optimistic::block_manager::BlockManager;
use dual_optimistic::commit::{DecidedLeader, LeaderStatus};
use dual_optimistic::committee::{make_test_committee, AuthorityIndex};
use dual_optimistic::context::Context;
use dual_optimistic::dag_state::{derive_commit_digest, DagState};
use dual_optimistic::linearizer::Linearizer;
use dual_optimistic::types::{genesis_blocks, BlockRef, Slot, TestBlock, VerifiedBlock};
use dual_optimistic::universal_committer::UniversalCommitterBuilder;

fn context(n: usize) -> Arc<Context> {
    Arc::new(Context::new_for_test(n))
}

fn author(i: u32) -> AuthorityIndex {
    AuthorityIndex::new_for_test(i)
}

fn genesis_refs(n: usize) -> Vec<BlockRef> {
    genesis_blocks(&make_test_committee(0, n)).iter().map(|b| b.reference()).collect()
}

fn refs_of(blocks: &[VerifiedBlock]) -> Vec<BlockRef> {
    blocks.iter().map(|b| b.reference()).collect()
}

fn build_round(round: u32, authors: &[u32], prev: &[BlockRef]) -> Vec<VerifiedBlock> {
    authors
        .iter()
        .map(|&a| {
            TestBlock::new(round, a)
                .set_ancestors(prev.to_vec())
                .set_timestamp_ms(100 * round as u64 + a as u64)
                .build()
        })
        .collect()
}

/// Full rounds 1 to `last`.
fn rounds(n: u32, last: u32) -> Vec<Vec<VerifiedBlock>> {
    let all: Vec<u32> = (0..n).collect();
    let mut prev = genesis_refs(n as usize);
    let mut out = Vec::new();
    for round in 1..=last {
        let blocks = build_round(round, &all, &prev);
        prev = refs_of(&blocks);
        out.push(blocks);
    }
    out
}

fn full_dag(n: u32, last: u32) -> (DagState, Vec<Vec<VerifiedBlock>>) {
    let mut dag = DagState::new(context(n as usize));
    let blocks = rounds(n, last);
    for round in &blocks {
        dag.accept_blocks(round.clone());
    }
    (dag, blocks)
}

#[test]
fn dag_starts_with_genesis() {
    let dag = DagState::new(context(4));
    let genesis = genesis_refs(4);
    assert_eq!(dag.contains_blocks(genesis.clone()), vec![true; 4]);
    assert!(dag.is_committed(&genesis[0]));
    assert_eq!(dag.highest_accepted_round(), 0);
    assert_eq!(dag.last_commit_index(), 0);
    assert_eq!(dag.last_commit_round(), 0);
    assert_eq!(dag.gc_round(), 0);
    assert_eq!(dag.committee().size(), 4);
    let unknown = TestBlock::new(1, 0).build().reference();
    assert!(dag.get_block(&unknown).is_none());
    assert!(!dag.contains_block(&unknown));
}

#[test]
fn dag_finds_blocks_by_slot_round_and_history() {
    let (dag, blocks) = full_dag(4, 3);
    assert_eq!(dag.highest_accepted_round(), 3);
    assert_eq!(dag.threshold_clock_round(), 4);
    let at_slot = dag.get_uncommitted_blocks_at_slot(Slot::new_for_test(2, 1));
    assert_eq!(refs_of(&at_slot), vec![blocks[1][1].reference()]);
    assert_eq!(dag.get_uncommitted_blocks_at_round(2).len(), 4);
    assert_eq!(dag.get_uncommitted_blocks_at_round(4).len(), 0);
    // The ancestors of one block two rounds below are all blocks of that round, in order.
    let below = dag.ancestors_at_round(&blocks[2][0], 1);
    let mut expected = refs_of(&blocks[0]);
    expected.sort();
    assert_eq!(refs_of(&below), expected);
    let history = dag.get_causal_blocks(&blocks[2][3].reference(), 0);
    assert_eq!(history.len(), 9);
    assert_eq!(dag.get_causal_blocks(&blocks[2][3].reference(), 1).len(), 5);
    let found = dag.get_blocks(&[blocks[0][0].reference(), TestBlock::new(9, 0).build().reference()]);
    assert!(found[0].is_some() && found[1].is_none());
}

#[test]
fn committed_blocks_are_no_longer_open() {
    let (mut dag, blocks) = full_dag(4, 2);
    let first = blocks[0][0].reference();
    assert!(dag.set_committed(&first));
    assert!(!dag.set_committed(&first));
    assert!(dag.is_committed(&first));
    assert_eq!(dag.get_uncommitted_blocks_at_round(1).len(), 3);
    assert!(dag.get_uncommitted_blocks_at_slot(Slot::new_for_test(1, 0)).is_empty());
}

#[test]
fn block_waits_for_its_ancestors() {
    let mut dag = DagState::new(context(4));
    let mut manager = BlockManager::new(context(4));
    let blocks = rounds(4, 2);
    let child = blocks[1][0].clone();
    let (accepted, missing) = manager.try_accept_blocks(&mut dag, vec![child.clone()]);
    assert!(accepted.is_empty());
    assert_eq!(missing.len(), 4);
    assert_eq!(manager.suspended_blocks_count(), 1);
    assert_eq!(manager.missing_blocks().len(), 4);
    assert_eq!(manager.highest_received_round(&dag), 0);

    let (accepted, missing) = manager.try_accept_blocks(&mut dag, blocks[0][..3].to_vec());
    assert_eq!(accepted.len(), 3);
    assert!(missing.is_empty());
    assert_eq!(manager.missing_blocks().len(), 1);

    // The last ancestor releases the child.
    let (accepted, _) = manager.try_accept_blocks(&mut dag, vec![blocks[0][3].clone()]);
    assert_eq!(refs_of(&accepted), vec![blocks[0][3].reference(), child.reference()]);
    assert_eq!(manager.suspended_blocks_count(), 0);
    assert!(manager.missing_blocks().is_empty());
    assert!(dag.contains_block(&child.reference()));
    assert_eq!(manager.highest_received_round(&dag), 2);

    // Known blocks are not accepted again.
    let (accepted, _) = manager.try_accept_blocks(&mut dag, vec![child]);
    assert!(accepted.is_empty());
}

#[test]
fn releases_cascade() {
    let mut dag = DagState::new(context(4));
    let mut manager = BlockManager::new(context(4));
    let blocks = rounds(4, 3);
    let late: Vec<VerifiedBlock> = blocks[1].iter().chain(blocks[2].iter()).cloned().collect();
    let (accepted, missing) = manager.try_accept_blocks(&mut dag, late);
    assert!(accepted.is_empty());
    // Of the missing ancestors only those of round 1 have to be fetched.
    for r in missing.as_slice() {
        assert!(r.round == 1 || r.round == 2);
    }
    assert_eq!(manager.missing_blocks().len(), 4);
    assert_eq!(manager.suspended_blocks_count(), 8);
    let (accepted, _) = manager.try_accept_blocks(&mut dag, blocks[0].clone());
    assert_eq!(accepted.len(), 12);
    for pair in accepted.windows(2) {
        assert!(pair[0].reference() != pair[1].reference());
    }
    let position = |r: &BlockRef| accepted.iter().position(|b| b.reference() == *r).unwrap();
    for block in &accepted {
        for ancestor in block.ancestors().iter().filter(|a| a.round > 0) {
            assert!(position(ancestor) < position(&block.reference()));
        }
    }
    assert_eq!(manager.suspended_blocks_count(), 0);
}

#[test]
fn finding_blocks_marks_unknown_ones_missing() {
    let (dag, blocks) = full_dag(4, 1);
    let mut manager = BlockManager::new(context(4));
    let unknown = TestBlock::new(5, 1).build().reference();
    let found = manager.try_find_blocks(&dag, vec![blocks[0][0].reference(), unknown]);
    assert_eq!(found.as_slice(), &[unknown]);
    assert!(manager.missing_blocks().contains(&unknown));
}

#[test]
fn committed_blocks_are_taken_without_their_history() {
    let mut dag = DagState::new(context(4));
    let mut manager = BlockManager::new(context(4));
    let blocks = rounds(4, 2);
    let taken = manager.try_accept_committed_blocks(&mut dag, vec![blocks[1][2].clone()]);
    assert_eq!(refs_of(&taken), vec![blocks[1][2].reference()]);
    assert!(dag.contains_block(&blocks[1][2].reference()));
}

#[test]
fn waves_and_leaders() {
    let committer = BaseCommitter::new(context(4), BaseCommitterOptions::default());
    assert_eq!(committer.wave_number(8), 2);
    assert_eq!(committer.leader_round(2), 6);
    assert_eq!(committer.decision_round(2), 8);
    assert_eq!(committer.elect_leader(6), Some(Slot::new_for_test(6, 2)));
    assert_eq!(committer.elect_leader(7), None);
    assert_eq!(
        committer.to_text(),
        "BaseCommitter(wave_len=3, leader_off=0, round_off=0)"
    );
    let shifted = BaseCommitter::new(
        context(4),
        BaseCommitterOptions { wave_length: 3, leader_offset: 1, round_offset: 2 },
    );
    assert_eq!(shifted.elect_leader(5), Some(Slot::new_for_test(5, 2)));
    assert_eq!(shifted.elect_leader(6), None);
    assert_eq!(shifted.decision_round(1), 7);
}

#[test]
fn direct_rule_commits_skips_or_waits() {
    let committer = BaseCommitter::new(context(4), BaseCommitterOptions::default());
    let slot = Slot::new_for_test(3, 3);

    let (dag, blocks) = full_dag(4, 5);
    match committer.try_direct_decide(&dag, slot).unwrap() {
        LeaderStatus::Commit(b) => assert_eq!(b.reference(), blocks[2][3].reference()),
        other => panic!("{other:?}"),
    }

    let (dag, _) = full_dag(4, 4);
    assert!(matches!(
        committer.try_direct_decide(&dag, slot).unwrap(),
        LeaderStatus::Undecided(s) if s == slot
    ));

    // Nobody names the leader in the next round.
    let mut dag = DagState::new(context(4));
    let below = rounds(4, 2);
    for round in &below {
        dag.accept_blocks(round.clone());
    }
    let r3 = build_round(3, &[0, 1, 2], &refs_of(&below[1]));
    let r4 = build_round(4, &[0, 1, 2], &refs_of(&r3));
    dag.accept_blocks(r3);
    dag.accept_blocks(r4);
    assert!(matches!(
        committer.try_direct_decide(&dag, slot).unwrap(),
        LeaderStatus::Skip(s) if s == slot
    ));
}

#[test]
fn indirect_rule_follows_the_anchor() {
    let committer = BaseCommitter::new(context(4), BaseCommitterOptions::default());
    let slot = Slot::new_for_test(3, 3);
    let (dag, blocks) = full_dag(4, 8);
    let anchor = LeaderStatus::Commit(blocks[5][2].clone());
    match committer.try_indirect_decide(&dag, slot, &[anchor]).unwrap() {
        LeaderStatus::Commit(b) => assert_eq!(b.reference(), blocks[2][3].reference()),
        other => panic!("{other:?}"),
    }
    let undecided = LeaderStatus::Undecided(Slot::new_for_test(6, 2));
    assert!(matches!(
        committer.try_indirect_decide(&dag, slot, &[undecided]).unwrap(),
        LeaderStatus::Undecided(_)
    ));
    assert!(matches!(
        committer.try_indirect_decide(&dag, slot, &[]).unwrap(),
        LeaderStatus::Undecided(_)
    ));
}

#[test]
fn anchor_commits_the_only_certified_block_or_skips() {
    let committer = BaseCommitter::new(context(4), BaseCommitterOptions::default());
    let slot = Slot::new_for_test(3, 3);
    let (mut dag, blocks) = full_dag(4, 2);
    let below = refs_of(&blocks[1]);
    // Two blocks in the leader slot, each with votes of a quorum and one certificate.
    let leader = |time| {
        TestBlock::new(3, 3).set_ancestors(below.clone()).set_timestamp_ms(time).build()
    };
    let leaders = [leader(1), leader(2)];
    let votes = [0, 1].map(|i: usize| build_round(4, &[0, 1, 2], &[leaders[i].reference()]));
    let certificates =
        [0, 1].map(|i: usize| build_round(5, &[i as u32], &refs_of(&votes[i])).remove(0));
    let plain = build_round(5, &[2], &refs_of(&votes[0][..2])).remove(0);
    dag.accept_blocks(leaders.to_vec());
    dag.accept_blocks(votes.concat());
    dag.accept_blocks(certificates.to_vec());
    dag.accept_blocks(vec![plain.clone()]);
    let decide = |over: &[&VerifiedBlock]| {
        let refs: Vec<BlockRef> = over.iter().map(|b| b.reference()).collect();
        let anchor = build_round(6, &[2], &refs).remove(0);
        committer.try_indirect_decide(&dag, slot, &[LeaderStatus::Commit(anchor)])
    };
    for i in 0..2 {
        match decide(&[&plain, &certificates[i]]).unwrap() {
            LeaderStatus::Commit(b) => assert_eq!(b.reference(), leaders[i].reference()),
            other => panic!("{other:?}"),
        }
    }
    assert!(matches!(decide(&[&plain]).unwrap(), LeaderStatus::Skip(s) if s == slot));
    let conflict = decide(&[&certificates[0], &certificates[1]]).err().unwrap();
    assert_eq!(conflict.slot, slot);
}

#[test]
fn leaders_are_decided_in_turn() {
    let committer = UniversalCommitterBuilder::new(context(4)).build();
    let (dag, _) = full_dag(4, 11);
    let start = Slot::new_for_test(0, 0);
    let decided = committer.try_decide(&dag, start).unwrap();
    let slots: Vec<(u32, usize)> =
        decided.iter().map(|d| (d.round(), d.authority().value())).collect();
    assert_eq!(slots, vec![(3, 3), (6, 2), (9, 1)]);
    assert!(decided.iter().all(|d| matches!(d, DecidedLeader::Commit(_, true))));
    let rest = committer.try_decide(&dag, Slot::new_for_test(6, 2)).unwrap();
    assert_eq!(rest.len(), 1);
    assert_eq!(committer.get_leaders(6), vec![author(2)]);
    assert!(committer.get_leaders(7).is_empty());
}

#[test]
fn several_leaders_and_pipelining() {
    let two = UniversalCommitterBuilder::new(context(4)).with_number_of_leaders(2).build();
    assert_eq!(two.get_leaders(3), vec![author(3), author(0)]);
    let piped = UniversalCommitterBuilder::new(context(4)).with_pipeline(true).build();
    for round in 3..6 {
        assert_eq!(piped.get_leaders(round).len(), 1);
    }
    let (dag, _) = full_dag(4, 7);
    let decided = piped.try_decide(&dag, Slot::new_for_test(0, 0)).unwrap();
    let found: Vec<u32> = decided.iter().map(|d| d.round()).collect();
    assert_eq!(found, vec![1, 2, 3, 4, 5]);
}

#[test]
fn commit_takes_the_uncommitted_history() {
    let (mut dag, blocks) = full_dag(4, 6);
    let mut linearizer = Linearizer::new(context(4));
    let first = linearizer.commit_leader(&mut dag, blocks[2][3].clone());
    assert_eq!(first.blocks.len(), 9);
    assert_eq!(first.commit_ref.index, 1);
    assert_eq!(first.timestamp_ms, 303);
    assert_eq!(
        first.commit_ref.digest,
        derive_commit_digest(1, &blocks[2][3].reference())
    );
    assert_eq!(dag.last_commit_index(), 1);
    assert_eq!(dag.last_commit_digest(), first.commit_ref.digest);
    assert_eq!(dag.last_commit_timestamp_ms(), 303);
    assert_eq!(dag.last_commit_round(), 3);
    let order: Vec<(u32, usize)> =
        first.blocks.iter().map(|b| (b.round(), b.author().value())).collect();
    assert_eq!(
        order,
        vec![(1, 0), (1, 1), (1, 2), (1, 3), (2, 0), (2, 1), (2, 2), (2, 3), (3, 3)]
    );
    // The next one takes what is left: three blocks of round 3, four each of rounds 4 and
    // 5, and itself.
    let second = linearizer.commit_leader(&mut dag, blocks[5][2].clone());
    assert_eq!(second.blocks.len(), 12);
    assert_eq!(second.commit_ref.index, 2);
    assert!(second.timestamp_ms >= first.timestamp_ms);
}

#[test]
fn accepting_blocks_again_changes_nothing() {
    let (mut dag, blocks) = full_dag(4, 2);
    dag.accept_blocks(build_round(3, &[0, 2], &refs_of(&blocks[1])));
    assert!(dag.set_committed(&blocks[0][1].reference()));
    let seen: Vec<VerifiedBlock> = blocks.concat();
    let before: Vec<_> = dag.get_blocks(&refs_of(&seen));
    for _ in 0..2 {
        dag.accept_blocks(seen.clone());
        dag.accept_blocks(build_round(3, &[2, 0], &refs_of(&blocks[1])));
        assert_eq!(dag.highest_accepted_round(), 3);
        assert_eq!(dag.threshold_clock_round(), 3);
        assert_eq!(dag.last_commit_index(), 0);
        assert_eq!(dag.get_uncommitted_blocks_at_round(1).len(), 3);
        assert_eq!(dag.get_uncommitted_blocks_at_round(3).len(), 2);
        let after = dag.get_blocks(&refs_of(&seen));
        for (x, y) in before.iter().zip(&after) {
            assert_eq!(x.as_ref().unwrap().reference(), y.as_ref().unwrap().reference());
        }
    }
}

#[test]
fn clock_follows_the_highest_round_in_any_order() {
    let blocks = rounds(4, 3);
    let mut dag = DagState::new(context(4));
    assert_eq!(dag.threshold_clock_round(), 1);
    // One block of round 3 comes first; the rounds below it no longer matter.
    let steps = [
        (&blocks[2][1], 3),
        (&blocks[0][0], 3),
        (&blocks[1][2], 3),
        (&blocks[2][1], 3),
        (&blocks[2][3], 3),
        (&blocks[0][1], 3),
        (&blocks[2][0], 4),
        (&blocks[2][2], 4),
    ];
    for (block, round) in steps {
        dag.accept_blocks(vec![block.clone()]);
        assert_eq!(dag.highest_accepted_round(), 3);
        assert_eq!(dag.threshold_clock_round(), round);
    }
    // The same blocks in another order end at the same round.
    let mut other = DagState::new(context(4));
    for (block, _) in steps.iter().rev() {
        other.accept_blocks(vec![(*block).clone()]);
    }
    assert_eq!(other.threshold_clock_round(), 4);
}

#[test]
fn only_the_history_of_the_leader_need_be_stored() {
    let blocks = rounds(4, 3);
    let mut dag = DagState::new(context(4));
    dag.accept_blocks(blocks[0].clone());
    // A block of round 3 whose ancestors are not stored.
    dag.accept_blocks(vec![blocks[2][0].clone()]);
    let mut linearizer = Linearizer::new(context(4));
    let subdag = linearizer.commit_leader(&mut dag, blocks[0][2].clone());
    assert_eq!(refs_of(&subdag.blocks), vec![blocks[0][2].reference()]);
    assert!(dag.is_committed(&blocks[0][2].reference()));
    assert!(!dag.is_committed(&blocks[0][1].reference()));
    assert!(!dag.is_committed(&blocks[2][0].reference()));
}

#[test]
fn commits_are_in_sequence() {
    let blocks = rounds(4, 2);
    let mut dag = DagState::new(context(4));
    let mut linearizer = Linearizer::new(context(4));
    dag.accept_blocks(blocks[0].clone());
    let first = linearizer.commit_leader(&mut dag, blocks[0][3].clone());
    dag.accept_blocks(blocks[1].clone());
    // The leader is earlier than the last commit: the timestamp stays.
    let second = linearizer.commit_leader(&mut dag, blocks[0][1].clone());
    let third = linearizer.commit_leader(&mut dag, blocks[1][0].clone());
    let commits = [&first, &second, &third];
    let indices: Vec<u32> = commits.iter().map(|c| c.commit_ref.index).collect();
    let times: Vec<u64> = commits.iter().map(|c| c.timestamp_ms).collect();
    assert_eq!(indices, vec![1, 2, 3]);
    assert_eq!(times, vec![103, 103, 200]);
    assert_eq!(dag.last_commit_index(), 3);
    assert_eq!(dag.last_commit_timestamp_ms(), 200);
    // What is committed is genesis and what the commits hold, each block once.
    let mut held: Vec<BlockRef> = Vec::new();
    for commit in commits {
        for r in refs_of(&commit.blocks) {
            assert!(!held.contains(&r));
            held.push(r);
        }
    }
    assert_eq!(held.len(), 5);
    for r in refs_of(&blocks.concat()) {
        assert_eq!(dag.is_committed(&r), held.contains(&r));
    }
    for r in genesis_refs(4) {
        assert!(dag.is_committed(&r));
    }
}
