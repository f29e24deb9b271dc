use sha3::{Digest, Sha3_256};

use dual_optimistic::commit::{
    references, sort_sub_dag_blocks, CommitDigest, CommitRef, CommittedSubDag, DecidedLeader,
    LeaderStatus,
};
use dual_optimistic::committee::{make_test_committee, Authority, AuthorityIndex, Committee};
use dual_optimistic::dag_state::derive_commit_digest;
use dual_optimistic::soft_commit::SoftCommitTracker;
use dual_optimistic::stake_aggregator::{
    CommitteeThreshold, QuorumThreshold, StakeAggregator, ValidityThreshold,
};
use dual_optimistic::text::{comma_joined_text, decimal_text, hex_text};
use dual_optimistic::types::{
    encode_block, genesis_blocks, refs_text, Block, BlockDigest, BlockRef, Placement, Slot,
    TestBlock, Transaction, VerifiedBlock,
};

fn member(stake: u64) -> Authority {
    Authority { stake, hostname: String::from("host") }
}

fn author(i: u32) -> AuthorityIndex {
    AuthorityIndex::new_for_test(i)
}

#[test]
fn genesis_digest_is_sha3_of_the_header() {
    let genesis = genesis_blocks(&make_test_committee(0, 4));
    assert_eq!(genesis.len(), 4);
    assert_eq!(
        hex_text(&genesis[0].digest().0),
        "d76fce0472f7c0ff55c43802a2ca6182392d99a238a25e6ae5c6fecac449f425"
    );
    assert_eq!(genesis[2].round(), 0);
    assert_eq!(genesis[2].author(), author(2));
    assert_ne!(genesis[0].digest(), genesis[1].digest());
}

#[test]
fn digest_covers_ancestors_and_transactions() {
    let parent = genesis_blocks(&make_test_committee(0, 4))[1].reference();
    let block = Block {
        epoch: 1,
        round: 7,
        author: author(2),
        timestamp_ms: 99,
        ancestors: vec![parent],
        transactions: vec![Transaction(vec![1, 2]), Transaction(Vec::new())],
    };
    let bytes = encode_block(&block);
    assert_eq!(
        hex_text(&bytes),
        "0700000002000000010000000000000063000000000000009d0e38e81faa2de4e0bc26df6467a9b5\
         30281c72f0e640775a992dd831b18c450200000002000000010200000000"
    );
    let hashed: [u8; 32] = Sha3_256::digest(&bytes).into();
    let verified = VerifiedBlock::new_verified(block);
    assert_eq!(verified.digest().0, hashed);
    assert_eq!(
        hex_text(&verified.digest().0),
        "cd6630b43982e4dd02dad9e5f5b649d0026fdd0071423f441203e8169fa1c5df"
    );
    assert_eq!(verified.epoch(), 1);
    assert_eq!(verified.timestamp_ms(), 99);
    assert_eq!(verified.ancestors(), &[parent]);
    assert_eq!(verified.transactions().len(), 2);
    assert_eq!(verified.slot(), Slot::new_for_test(7, 2));
}

#[test]
fn split_transactions_encode_differently() {
    let one = TestBlock::new(1, 0).set_transactions(vec![Transaction(vec![1, 2])]).build();
    let two = TestBlock::new(1, 0)
        .set_transactions(vec![Transaction(vec![1]), Transaction(vec![2])])
        .build();
    assert_ne!(one.reference(), two.reference());
    assert!(one != two);
}

#[test]
fn commit_digest_is_sha3_of_index_and_leader() {
    let leader = BlockRef::new(3, author(1), BlockDigest([7; 32]));
    let mut bytes = vec![5, 0, 0, 0, 3, 0, 0, 0, 1, 0, 0, 0];
    bytes.extend([7; 32]);
    let hashed: [u8; 32] = Sha3_256::digest(&bytes).into();
    assert_eq!(derive_commit_digest(5, &leader), CommitDigest(hashed));
    assert_ne!(derive_commit_digest(6, &leader), CommitDigest(hashed));
}

#[test]
fn digest_is_that_of_the_contents() {
    let block = VerifiedBlock::new_verified(Block { round: 6, ..Block::default() });
    let hashed: [u8; 32] =
        Sha3_256::digest(encode_block(&Block { round: 6, ..Block::default() })).into();
    assert_eq!(block.digest(), BlockDigest(hashed));
    assert_eq!(BlockDigest::default(), BlockDigest([0; 32]));
}

#[test]
fn blocks_and_defaults() {
    let block = Block {
        round: 4,
        transactions: vec![Transaction(vec![3])],
        ancestors: vec![BlockRef::default()],
        ..Block::default()
    };
    assert_eq!(encode_block(&block.clone()), encode_block(&block));
    assert_eq!(block.slot(), Slot::new_for_test(4, 0));
    assert_eq!(BlockRef::default(), BlockRef::new(0, author(0), BlockDigest([0; 32])));
    assert_eq!(Slot::from(BlockRef::default()), Slot::default());
    assert_eq!(CommitRef::default(), CommitRef::new(0, CommitDigest([0; 32])));
}

#[test]
fn references_are_ordered_by_round_author_digest() {
    let at = |round, a, d| BlockRef::new(round, author(a), BlockDigest([d; 32]));
    assert_eq!(at(1, 5, 9).placement(&at(2, 0, 0)), Placement::Before);
    assert_eq!(at(2, 1, 0).placement(&at(2, 0, 9)), Placement::After);
    assert_eq!(at(2, 1, 3).placement(&at(2, 1, 4)), Placement::Before);
    assert_eq!(at(2, 1, 3).placement(&at(2, 1, 3)), Placement::Same);
    assert!(at(2, 1, 3) < at(2, 1, 4));
}

#[test]
fn own_ancestor_comes_first() {
    let genesis = genesis_blocks(&make_test_committee(0, 4));
    let refs = references(&genesis);
    let block = TestBlock::new(1, 2).set_ancestors(refs.clone()).build();
    let authors: Vec<usize> = block.ancestors().iter().map(|r| r.author.value()).collect();
    assert_eq!(authors, vec![2, 0, 1, 3]);
    let raw = TestBlock::new(1, 2).set_ancestors_raw(refs.clone()).build();
    assert_eq!(raw.ancestors(), &refs[..]);
}

#[test]
fn texts_are_as_documented() {
    let r = BlockRef::new(3, author(1), BlockDigest([0xab; 32]));
    assert_eq!(r.to_text(), "B3([1],abababab)");
    assert_eq!(author(12).to_text(), "[12]");
    assert_eq!(Slot::new_for_test(7, 2).to_text(), "[2]7");
    assert_eq!(refs_text(&[r, r]), "B3([1],abababab), B3([1],abababab)");
    let commit = CommitRef::new(4, CommitDigest([1; 32]));
    assert_eq!(commit.to_text(), "C4(01010101)");
    assert_eq!(LeaderStatus::Skip(Slot::new_for_test(6, 2)).to_text(), "Skip([2]6)");
    assert_eq!(LeaderStatus::Undecided(Slot::new_for_test(6, 2)).to_text(), "Undecided([2]6)");
    let block = VerifiedBlock::new_verified(Block {
        round: 3,
        author: author(1),
        ..Block::default()
    });
    let name = format!("B3([1],{})", hex_text(&block.digest().0[..4]));
    assert_eq!(LeaderStatus::Commit(block.clone()).to_text(), format!("Commit({name})"));
    assert_eq!(block.to_text(), name);
    assert_eq!(block.to_detailed_text(), format!("{name}([];0t)"));
    let subdag = CommittedSubDag::new(r, vec![block], 5, commit);
    assert_eq!(subdag.to_text(), format!("C4(01010101)@B3([1],abababab) [{name}]"));
    assert_eq!(decimal_text(u64::MAX), "18446744073709551615");
    assert_eq!(decimal_text(0), "0");
    assert_eq!(hex_text(&[0, 15, 255]), "000fff");
    assert_eq!(comma_joined_text(&Vec::new()), "");
}

#[test]
fn committee_thresholds() {
    // Total, quorum and validity for sizes 1 to 8.
    for (n, quorum, validity) in
        [(1, 1, 1), (2, 2, 1), (3, 3, 1), (4, 3, 2), (5, 4, 2), (6, 5, 2), (7, 5, 3), (8, 6, 3)]
    {
        let committee = make_test_committee(0, n);
        assert_eq!(committee.total_stake(), n as u64);
        assert_eq!(committee.quorum_threshold(), quorum);
        assert_eq!(committee.validity_threshold(), validity);
        assert!(committee.reached_quorum(quorum) && !committee.reached_quorum(quorum - 1));
        assert!(committee.reached_validity(validity) && !committee.reached_validity(validity - 1));
        // Two quorums share more than may be faulty.
        assert!(2 * quorum - n as u64 >= validity);
    }
}

#[test]
fn committee_with_unequal_stake() {
    let committee = Committee::new(9, vec![member(10), member(1), member(2)]);
    assert_eq!(committee.epoch(), 9);
    assert_eq!(committee.size(), 3);
    assert_eq!(committee.total_stake(), 13);
    assert_eq!(committee.quorum_threshold(), 9);
    assert_eq!(committee.validity_threshold(), 5);
    assert_eq!(committee.stake(author(2)), 2);
    assert_eq!(committee.authority(author(0)).stake, 10);
    assert_eq!(committee.to_authority_index(2), Some(author(2)));
    assert_eq!(committee.to_authority_index(3), None);
    assert!(committee.is_valid_index(author(2)));
    assert!(!committee.is_valid_index(author(3)));
    let listed: Vec<u64> = committee.authorities().iter().map(|(_, a)| a.stake).collect();
    assert_eq!(listed, vec![10, 1, 2]);
}

#[test]
fn aggregator_reports_the_threshold_once() {
    let committee = make_test_committee(0, 4);
    let mut votes: StakeAggregator<QuorumThreshold> = StakeAggregator::new();
    assert!(!votes.add(author(0), &committee));
    assert!(!votes.add(author(0), &committee));
    assert!(!votes.add(author(1), &committee));
    assert!(votes.add(author(2), &committee));
    assert!(!votes.add(author(3), &committee));
    assert_eq!(votes.stake(), 4);
    votes.clear();
    assert_eq!(votes.stake(), 0);
    let mut valid: StakeAggregator<ValidityThreshold> = StakeAggregator::new();
    assert!(!valid.add(author(3), &committee));
    assert!(valid.add(author(1), &committee));
    assert_eq!(QuorumThreshold::threshold(&committee), 3);
    assert!(ValidityThreshold::is_threshold(&committee, 2));
}

#[test]
fn soft_commit_fires_once() {
    let committee = make_test_committee(0, 4);
    let mut tracker = SoftCommitTracker::new();
    let leader = BlockRef::new(3, author(3), BlockDigest([1; 32]));
    assert!(!tracker.add_vote(leader, author(0), &committee));
    assert!(!tracker.add_vote(leader, author(0), &committee));
    assert!(!tracker.add_vote(leader, author(1), &committee));
    assert!(!tracker.is_soft_committed(&leader));
    assert!(tracker.add_vote(leader, author(2), &committee));
    assert!(tracker.is_soft_committed(&leader));
    assert!(!tracker.add_vote(leader, author(3), &committee));
    assert!(SoftCommitTracker::is_leader_round(6));
    assert!(!SoftCommitTracker::is_leader_round(7));
    assert!(!SoftCommitTracker::is_leader_round(0));
    assert_eq!(SoftCommitTracker::leader_at_round(6, 4), author(2));
}

#[test]
fn decided_leaders() {
    let slot = Slot::new_for_test(6, 2);
    let block = TestBlock::new(6, 2).build();
    let commit = LeaderStatus::Commit(block.clone());
    assert!(commit.is_decided());
    assert_eq!(commit.round(), 6);
    let decided = commit.into_decided_leader(true).unwrap();
    assert_eq!(decided.slot(), slot);
    assert_eq!(decided.round(), 6);
    assert_eq!(decided.authority(), author(2));
    assert!(matches!(&decided, DecidedLeader::Commit(b, true) if *b == block));
    assert!(decided.into_committed_block().unwrap() == block);
    let skip = LeaderStatus::Skip(slot).into_decided_leader(false).unwrap();
    assert!(skip.into_committed_block().is_none());
    assert!(LeaderStatus::Undecided(slot).into_decided_leader(true).is_none());
    assert!(!LeaderStatus::Undecided(slot).is_decided());
}

#[test]
fn sub_dag_is_sorted_by_round_then_author() {
    let mut blocks: Vec<VerifiedBlock> = [(2, 1), (1, 3), (2, 0), (1, 0)]
        .iter()
        .map(|&(round, a)| TestBlock::new(round, a).build())
        .collect();
    sort_sub_dag_blocks(&mut blocks);
    let order: Vec<(u32, usize)> = blocks.iter().map(|b| (b.round(), b.author().value())).collect();
    assert_eq!(order, vec![(1, 0), (1, 3), (2, 0), (2, 1)]);
}
