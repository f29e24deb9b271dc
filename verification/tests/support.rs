use std::collections::HashMap;
use std::sync::Arc;

use rand::rngs::StdRng;
use rand::{RngCore, SeedableRng};

use dual_optimistic::committee::AuthorityIndex;
use dual_optimistic::context::Context;
use dual_optimistic::node_config::{parse_number, split_peers, NodeConfig, NodeVars, NumberError};
use dual_optimistic::shadow_state::ShadowDb;
use dual_optimistic::shared::{
    AccountDiff, BlockDigest, BlockRef as SharedRef, ConsensusEvent, OurCommittedSubDag, StateDiff,
};
use dual_optimistic::sim::network::SimulatedNetwork;
use dual_optimistic::sim::node::{FakeClock, SimulatedNode};
use dual_optimistic::testkit::network::SimulatedNetwork as PartitionTable;
use dual_optimistic::testkit::observe::{has_hard_commit, has_soft_commit};
use dual_optimistic::testkit::timeline::{CommitTimeline, CommitTimestamps};
use dual_optimistic::text::decimal_text;
use dual_optimistic::types::{genesis_blocks, BlockRef, Slot};

fn diff(commit_index: u64) -> StateDiff {
    StateDiff {
        round: 3 * commit_index,
        commit_index,
        is_optimistic: true,
        changes: HashMap::new(),
    }
}

#[test]
fn commit_drops_earlier_speculation() {
    let mut db = ShadowDb::new();
    for index in 1..=4 {
        db.stage(diff(index));
    }
    assert!(db.commit(diff(2)).is_ok());
    assert!(db.speculative(1).is_none());
    assert!(db.speculative(2).is_none());
    assert_eq!(db.speculative(3).unwrap().round, 9);
    assert_eq!(db.canonical().len(), 1);
    assert_eq!(db.canonical()[0].commit_index, 2);
    db.discard(3);
    assert!(db.speculative(3).is_none());
    assert!(db.speculative(4).is_some());
    db.discard(77);
    assert_eq!(db.canonical().len(), 1);
    assert!(ShadowDb::default().canonical().is_empty());
}

#[test]
fn blank_account_diff() {
    let blank = AccountDiff::default();
    assert!(blank.balance.is_none() && blank.nonce.is_none() && blank.code.is_none());
    assert!(blank.storage.is_empty());
}

#[test]
fn partitions_work_both_ways() {
    let mut network = SimulatedNetwork::new(4);
    assert_eq!(network.recipients(1), vec![0, 2, 3]);
    network.partition(1, 3);
    assert!(network.is_partitioned(1, 3) && network.is_partitioned(3, 1));
    assert_eq!(network.recipients(1), vec![0, 2]);
    assert_eq!(network.recipients(3), vec![0, 2]);
    assert_eq!(network.recipients(0), vec![1, 2, 3]);
    network.partition(3, 1);
    network.heal(3, 1);
    assert!(!network.is_partitioned(1, 3) && !network.is_partitioned(3, 1));
    assert_eq!(network.recipients(1), vec![0, 2, 3]);
}

#[test]
fn groups_are_cut_off_one_way() {
    let mut table = PartitionTable::new(5);
    table.partition(&[0, 1], &[3, 4]);
    assert!(!table.reaches(0, 3) && !table.reaches(1, 4));
    assert!(table.reaches(3, 0));
    assert!(table.reaches(0, 1) && table.reaches(2, 3) && table.reaches(0, 2));
    table.heal_partitions();
    assert!(table.reaches(0, 3) && table.reaches(1, 4));
}

#[test]
fn fake_clock_counts_from_one() {
    let mut clock = FakeClock::new();
    assert_eq!(clock.now_ms(), 1);
    assert_eq!(clock.now_ms(), 2);
    assert_eq!(clock.now_ms(), 3);
}

fn sim_node(index: usize, seed: u64) -> SimulatedNode {
    SimulatedNode::new(index, seed, Arc::new(Context::new_for_test(4)))
}

#[test]
fn randomness_follows_seed_and_index() {
    let mut node = sim_node(2, 40);
    let mut expected = StdRng::seed_from_u64(42);
    for _ in 0..5 {
        assert_eq!(node.next_random(), expected.next_u64());
    }
    // Mixing wraps around.
    let mut wrapped = sim_node(3, u64::MAX);
    let mut from_two = StdRng::seed_from_u64(2);
    assert_eq!(wrapped.next_random(), from_two.next_u64());
    assert_ne!(sim_node(0, 7).next_random(), sim_node(1, 7).next_random());
    assert_eq!(sim_node(0, 7).next_random(), sim_node(0, 7).next_random());
}

#[test]
fn simulated_node_starts_afresh() {
    let mut node = sim_node(2, 1);
    assert_eq!(node.node.last_decided(), Slot::new_for_test(0, 0));
    assert!(node.conflict.is_none() && node.drain_events().is_empty());
}

#[test]
fn test_context_names_its_members() {
    let context = Context::new_for_test(11);
    let committee = &context.committee;
    let names: Vec<String> = (0..11)
        .map(|i| committee.authority(AuthorityIndex::new_for_test(i)).hostname.clone())
        .collect();
    assert_eq!(names[0], "node-0");
    assert_eq!(names[10], "node-10");
}

#[test]
fn simulated_nodes_reach_a_commit() {
    let n = 4;
    let network = SimulatedNetwork::new(n);
    let mut nodes: Vec<SimulatedNode> = (0..n).map(|i| sim_node(i, 1)).collect();
    let committee = Context::new_for_test(n).committee;
    let mut prev: Vec<BlockRef> =
        genesis_blocks(&committee).iter().map(|b| b.reference()).collect();
    for round in 1..=5 {
        let mut inboxes = vec![Vec::new(); n];
        let mut next = Vec::new();
        for i in 0..n {
            let block = nodes[i].build_block(round, prev.clone());
            assert_eq!(block.timestamp_ms(), round as u64);
            assert_eq!(block.author().value(), i);
            next.push(block.reference());
            for to in network.recipients(i) {
                inboxes[to].push(block.clone());
            }
        }
        for (i, inbox) in inboxes.into_iter().enumerate() {
            nodes[i].process_inbox(inbox);
            assert!(nodes[i].conflict.is_none());
        }
        prev = next;
    }
    for node in &mut nodes {
        let events = node.drain_events();
        assert!(has_soft_commit(&events, 3) && has_hard_commit(&events, 3));
        assert!(!has_soft_commit(&events, 6) && !has_hard_commit(&events, 5));
        assert!(node.drain_events().is_empty());
    }
}

#[test]
fn events_are_told_apart() {
    let at = |round| SharedRef { round, author: 0, digest: BlockDigest([0; 32]) };
    let soft = ConsensusEvent::SoftCommit { round: 3, leader: at(3), txs: Vec::new() };
    let hard = ConsensusEvent::HardCommit {
        subdag: OurCommittedSubDag {
            leader: at(6),
            blocks: Vec::new(),
            timestamp_ms: 0,
            commit_index: 2,
        },
    };
    let events = vec![soft, hard];
    assert!(has_soft_commit(&events, 3) && !has_soft_commit(&events, 6));
    assert!(has_hard_commit(&events, 6) && !has_hard_commit(&events, 3));
    assert!(!has_soft_commit(&[], 3));
}

#[test]
fn timeline_averages() {
    let mut timeline = CommitTimeline::default();
    assert_eq!(timeline.measure_delta(), 0);
    assert_eq!(timeline.measure_pipeline_gain(), 0);
    timeline.record_hard_commit(3, 1_000);
    assert_eq!(timeline.measure_delta(), 0);
    timeline.record_hard_commit(9, 1_101);
    timeline.record_hard_commit(6, 4_000);
    timeline.record_hard_commit(12, 1_500);
    // Spread of 3000 over three intervals.
    assert_eq!(timeline.measure_delta(), 1_000);
    timeline.record_soft_commit(3, 900);
    timeline.record_soft_commit(6, 3_955);
    // Seen after its hard commit.
    timeline.record_soft_commit(9, 2_000);
    // No hard commit.
    timeline.record_soft_commit(15, 5);
    timeline.record_exec_done(3, 950);
    assert_eq!(timeline.measure_pipeline_gain(), 145 / 3);
    assert_eq!(
        timeline.entries[&3],
        CommitTimestamps {
            soft_commit_at: Some(900),
            hard_commit_at: Some(1_000),
            execution_done_at: Some(950),
        }
    );
    assert_eq!(
        timeline.entries[&15],
        CommitTimestamps { soft_commit_at: Some(5), ..CommitTimestamps::default() }
    );
}

#[test]
fn numbers_are_read_as_by_std() {
    for text in [
        "", "+", "-", "0", "+7", "-7", "65535", "65536", "007", "12a", " 1", "99999999999999999999",
        "99999999999999999999x", "1x99999999999999999999", "++1", "18446744073709551615", "é",
    ] {
        match (parse_number(text, u64::MAX), text.parse::<u64>()) {
            (Ok(a), Ok(b)) => assert_eq!(a, b),
            (Err(a), Err(b)) => assert_eq!(a.text(), format!("{b}")),
            (a, b) => panic!("{text}: {a:?} {b:?}"),
        }
        match (parse_number(text, u16::MAX as u64), text.parse::<u16>()) {
            (Ok(a), Ok(b)) => assert_eq!(a, b as u64),
            (Err(a), Err(b)) => assert_eq!(a.text(), format!("{b}")),
            (a, b) => panic!("{text}: {a:?} {b:?}"),
        }
    }
    assert_eq!(parse_number("", 5), Err(NumberError::Empty));
    assert_eq!(parse_number("x", 5), Err(NumberError::InvalidDigit));
    assert_eq!(parse_number("6", 5), Err(NumberError::PosOverflow));
}

#[test]
fn reading_undoes_writing() {
    for n in [0, 9, 10, 8545, 65535, u64::MAX] {
        assert_eq!(parse_number(&decimal_text(n), u64::MAX), Ok(n));
    }
}

#[test]
fn peers_are_split_at_commas() {
    assert!(split_peers("").is_empty());
    assert!(split_peers(",,").is_empty());
    assert_eq!(split_peers("a:1"), vec!["a:1"]);
    assert_eq!(split_peers(",a:1,,b:2, c ,"), vec!["a:1", "b:2", " c "]);
}

fn unset() -> NodeVars {
    NodeVars {
        node_index: None,
        committee_size: None,
        consensus_port: None,
        rpc_port: None,
        health_port: None,
        peers: None,
    }
}

#[test]
fn configuration_has_defaults() {
    let config = NodeConfig::from_vars(&unset()).unwrap();
    assert_eq!(config.node_index, 0);
    assert_eq!(config.committee_size, 4);
    assert_eq!(config.consensus_port, 9000);
    assert_eq!(config.rpc_port, 8545);
    assert_eq!(config.health_port, 9001);
    assert!(config.peers.is_empty());
}

#[test]
fn configuration_is_read() {
    let set = |s: &str| Some(String::from(s));
    let config = NodeConfig::from_vars(&NodeVars {
        node_index: set("2"),
        committee_size: set("7"),
        consensus_port: set("1"),
        rpc_port: set("65535"),
        health_port: set("+80"),
        peers: set("x:1,y:2"),
    })
    .unwrap();
    assert_eq!(config.node_index, 2);
    assert_eq!(config.committee_size, 7);
    assert_eq!(config.consensus_port, 1);
    assert_eq!(config.rpc_port, 65535);
    assert_eq!(config.health_port, 80);
    assert_eq!(config.peers, vec!["x:1", "y:2"]);

    let wrong = |vars: NodeVars| NodeConfig::from_vars(&vars).unwrap_err();
    assert_eq!(
        wrong(NodeVars { node_index: set("x"), rpc_port: set(""), ..unset() }),
        "invalid NODE_INDEX: invalid digit found in string"
    );
    assert_eq!(
        wrong(NodeVars { committee_size: set(""), ..unset() }),
        "invalid COMMITTEE_SIZE: cannot parse integer from empty string"
    );
    assert_eq!(
        wrong(NodeVars { consensus_port: set("65536"), ..unset() }),
        "invalid CONSENSUS_PORT: number too large to fit in target type"
    );
    assert_eq!(
        wrong(NodeVars { rpc_port: set("-1"), ..unset() }),
        "invalid RPC_PORT: invalid digit found in string"
    );
    assert_eq!(
        wrong(NodeVars { health_port: set("1e3"), ..unset() }),
        "invalid HEALTH_PORT: invalid digit found in string"
    );
}
