//! What the consensus pipeline as a whole keeps.

use vstd::prelude::*;

use crate::block_manager::{by_round, fit, law_offers_keep_whole, round_rank, whole, Intake};
use crate::causal::{
    complete, cone, expand, has_ref, history_present, keyed, lemma_expand_left, points_back, walk,
    walk_left, Store,
};
use crate::commit::{sub_dag_rank, DecidedLeader};
use crate::committee::Committee;
use crate::dag_state::DagModel;
use crate::linearizer::{law_commit_covers_history, sealed, sub_dag};
use crate::node::{
    block_view, commits_sound, dag_after, hard_event, hard_events, last_after,
    lemma_commit_keeps_sound, lemma_growth_keeps_closed, node_options, soft_event, txs_of,
    votes_after, votes_with_all, BlockView, EventView, NodeModel,
};
use crate::soft_commit::SoftVotes;
use crate::stable_sort::{lemma_sorted_by_rank, placed, sorted_by_rank};
use crate::types::{BlockRef, Round, Slot, VerifiedBlock};
use crate::universal_committer::{
    decisions, law_decisions_follow_slots, law_single_committer_ascends, open_slots,
};

verus! {

/// All transactions of the blocks that an event shows, block by block.
pub open spec fn shown_txs(blocks: Seq<BlockView>) -> Seq<Seq<u8>>
    decreases blocks.len(),
{
    if blocks.len() == 0 {
        Seq::empty()
    } else {
        shown_txs(blocks.drop_last()) + blocks.last().txs
    }
}

/// All transactions that an event carries.
pub open spec fn event_txs(event: EventView) -> Seq<Seq<u8>> {
    match event {
        EventView::SoftCommit { txs, .. } => txs,
        EventView::HardCommit { blocks, .. } => shown_txs(blocks),
    }
}

proof fn lemma_shown_txs(blocks: Seq<VerifiedBlock>)
    ensures
        shown_txs(blocks.map_values(|b: VerifiedBlock| block_view(b))) == txs_of(blocks),
    decreases blocks.len(),
{
    let shown = blocks.map_values(|b: VerifiedBlock| block_view(b));
    if blocks.len() > 0 {
        lemma_shown_txs(blocks.drop_last());
        assert(shown.drop_last() =~= blocks.drop_last().map_values(
            |b: VerifiedBlock| block_view(b),
        ));
    }
}

proof fn lemma_txs_push(blocks: Seq<VerifiedBlock>, b: VerifiedBlock)
    ensures
        txs_of(blocks.push(b)) == txs_of(blocks) + b.payload(),
{
    assert(blocks.push(b).drop_last() =~= blocks);
}

proof fn lemma_concat_multiset(a: Seq<Seq<u8>>, b: Seq<Seq<u8>>)
    ensures
        (a + b).to_multiset() == a.to_multiset().add(b.to_multiset()),
{
    vstd::seq_lib::lemma_multiset_commutative(a, b);
}

proof fn lemma_txs_placed(blocks: Seq<VerifiedBlock>, b: VerifiedBlock, rank: spec_fn(VerifiedBlock) -> nat)
    ensures
        txs_of(placed(blocks, b, rank)).to_multiset() == txs_of(blocks).to_multiset().add(
            b.payload().to_multiset(),
        ),
    decreases blocks.len(),
{
    if blocks.len() == 0 || rank(blocks.last()) <= rank(b) {
        lemma_txs_push(blocks, b);
        lemma_concat_multiset(txs_of(blocks), b.payload());
    } else {
        let front = blocks.drop_last();
        let last = blocks.last();
        lemma_txs_placed(front, b, rank);
        let inner = placed(front, b, rank);
        lemma_txs_push(inner, last);
        lemma_concat_multiset(txs_of(inner), last.payload());
        assert(blocks =~= front.push(last));
        lemma_txs_push(front, last);
        lemma_concat_multiset(txs_of(front), last.payload());
        assert(txs_of(placed(blocks, b, rank)).to_multiset() =~= txs_of(
            blocks,
        ).to_multiset().add(b.payload().to_multiset()));
    }
}

proof fn lemma_txs_sorted(blocks: Seq<VerifiedBlock>, rank: spec_fn(VerifiedBlock) -> nat)
    ensures
        txs_of(sorted_by_rank(blocks, rank)).to_multiset() == txs_of(blocks).to_multiset(),
    decreases blocks.len(),
{
    if blocks.len() > 0 {
        let front = blocks.drop_last();
        let last = blocks.last();
        lemma_txs_sorted(front, rank);
        lemma_txs_placed(sorted_by_rank(front, rank), last, rank);
        assert(blocks =~= front.push(last));
        lemma_txs_push(front, last);
        lemma_concat_multiset(txs_of(front), last.payload());
    }
}

/// `more` holds every block of `less`, unchanged.
pub open spec fn extends(less: Store, more: Store) -> bool {
    forall|r: BlockRef| #[trigger]
        less.contains_key(r) ==> more.contains_key(r) && more[r] == less[r]
}

proof fn lemma_expand_extends(
    less: Store,
    more: Store,
    done: Set<BlockRef>,
    stack: Seq<VerifiedBlock>,
    parents: Seq<BlockRef>,
    floor: Round,
)
    requires
        extends(less, more),
        forall|p: BlockRef| #[trigger] parents.contains(p) && p.round > floor ==> less.contains_key(p),
    ensures
        expand(less, done, stack, parents, floor) == expand(more, done, stack, parents, floor),
    decreases parents.len(),
{
    if parents.len() > 0 {
        assert forall|p: BlockRef| #[trigger]
            parents.drop_last().contains(p) && p.round > floor implies less.contains_key(p) by {
            assert(parents[parents.drop_last().index_of(p)] == p);
            assert(parents.contains(p));
        }
        lemma_expand_extends(less, more, done, stack, parents.drop_last(), floor);
        assert(parents[parents.len() - 1] == parents.last());
        assert(parents.contains(parents.last()));
    }
}

proof fn lemma_walk_extends(
    less: Store,
    more: Store,
    done: Set<BlockRef>,
    stack: Seq<VerifiedBlock>,
)
    requires
        complete(less),
        more.dom().finite(),
        extends(less, more),
        forall|i: int|
            0 <= i < stack.len() ==> history_present(#[trigger] stack[i], less),
    ensures
        walk(less, done, stack, 0) == walk(more, done, stack, 0),
    decreases walk_left(less, done, stack),
{
    if stack.len() > 0 {
        let b = stack.last();
        let under = stack.drop_last();
        assert(stack[stack.len() - 1] == b);
        lemma_expand_extends(less, more, done, under, b.parents(), 0);
        lemma_expand_left(less, done, under, b.parents(), 0);
        let (d, s) = expand(less, done, under, b.parents(), 0);
        lemma_expand_stored(less, done, under, b.parents(), 0);
        assert forall|i: int| 0 <= i < s.len() implies history_present(#[trigger] s[i], less) by {
            if i < under.len() {
                assert(s[i] == stack[i]);
            }
        }
        lemma_walk_extends(less, more, d, s);
    }
}

proof fn lemma_expand_stored(
    stored: Store,
    done: Set<BlockRef>,
    stack: Seq<VerifiedBlock>,
    parents: Seq<BlockRef>,
    floor: Round,
)
    requires
        keyed(stored),
    ensures
        ({
            let (d, s) = expand(stored, done, stack, parents, floor);
            &&& s.len() >= stack.len()
            &&& forall|i: int| 0 <= i < stack.len() ==> #[trigger] s[i] == stack[i]
            &&& forall|i: int|
                stack.len() <= i < s.len() ==> {
                    let r = (#[trigger] s[i]).spec_ref();
                    stored.contains_key(r) && stored[r] == s[i]
                }
        }),
    decreases parents.len(),
{
    if parents.len() > 0 {
        lemma_expand_stored(stored, done, stack, parents.drop_last(), floor);
    }
}

/// The uncommitted history of a stored leader does not change as the DAG grows.
pub proof fn law_history_is_fixed(before: DagModel, after: DagModel, leader: VerifiedBlock)
    requires
        complete(before.stored),
        after.stored.dom().finite(),
        extends(before.stored, after.stored),
        after.committed == before.committed,
        before.stored.contains_key(leader.spec_ref()),
        before.stored[leader.spec_ref()] == leader,
    ensures
        cone(before.stored, before.committed, leader, 0) == cone(
            after.stored,
            after.committed,
            leader,
            0,
        ),
{
    let stack = seq![leader];
    assert(history_present(leader, before.stored));
    assert forall|i: int| 0 <= i < stack.len() implies history_present(
        #[trigger] stack[i],
        before.stored,
    ) by {
        assert(stack[i] == leader);
    }
    lemma_walk_extends(
        before.stored,
        after.stored,
        before.committed.insert(leader.spec_ref()),
        stack,
    );
}

/// If nothing is committed between the soft commit of a leader and its hard commit, both
/// carry the same transactions, as often each, however much the DAG has grown.
pub proof fn law_soft_and_hard_carry_the_same_txs(
    before: DagModel,
    after: DagModel,
    leader: VerifiedBlock,
)
    requires
        complete(before.stored),
        after.stored.dom().finite(),
        extends(before.stored, after.stored),
        after.committed == before.committed,
        before.stored.contains_key(leader.spec_ref()),
        before.stored[leader.spec_ref()] == leader,
        !before.committed.contains(leader.spec_ref()),
    ensures
        event_txs(soft_event(before, leader.spec_ref())).to_multiset() == event_txs(
            hard_event(after, leader),
        ).to_multiset(),
{
    law_history_is_fixed(before, after, leader);
    lemma_shown_txs(sub_dag(after, leader));
    lemma_txs_sorted(cone(after.stored, after.committed, leader, 0), sub_dag_rank());
}

/// Whether `decided` can be carried out one after the other after `last`: the slots ascend
/// by round, and what is committed is stored.
pub open spec fn in_turn(dag: DagModel, last: Slot, decided: Seq<DecidedLeader>) -> bool {
    &&& forall|k: int|
        0 <= k < decided.len() ==> last.round < (#[trigger] decided[k]).spec_slot().round
    &&& forall|k: int, j: int|
        0 <= k < j < decided.len() ==> (#[trigger] decided[k]).spec_slot().round < (
        #[trigger] decided[j]).spec_slot().round
    &&& forall|k: int|
        #![trigger decided[k]]
        0 <= k < decided.len() ==> (decided[k] matches DecidedLeader::Commit(b, _)
            ==> dag.stored.contains_key(b.spec_ref()) && dag.stored[b.spec_ref()] == b)
}

/// The leaders that a sound node decides come in turn, after the one decided last.
pub proof fn law_decided_in_turn(node: NodeModel, committee: Committee)
    requires
        node.sound(committee),
    ensures
        decisions(committee, seq![node_options()], node.intake.dag, node.last) matches Ok(decided)
            ==> in_turn(node.intake.dag, node.last, decided),
{
    let dag = node.intake.dag;
    let n = committee.members().len();
    law_decisions_follow_slots(committee, seq![node_options()], dag, node.last);
    law_single_committer_ascends(node_options(), n, dag.highest, node.last);
    let slots = open_slots(seq![node_options()], n, dag.highest, node.last);
    match decisions(committee, seq![node_options()], dag, node.last) {
        Err(_) => {},
        Ok(decided) => {
            assert forall|k: int, j: int| 0 <= k < j < decided.len() implies (
            #[trigger] decided[k]).spec_slot().round < (#[trigger] decided[j]).spec_slot().round by {
                assert(slots[k].slot.round < slots[j].slot.round);
            }
            assert forall|k: int| 0 <= k < decided.len() implies node.last.round < (
            #[trigger] decided[k]).spec_slot().round by {
                assert(node.last.round < slots[k].slot.round);
            }
        },
    }
}

pub proof fn lemma_in_turn_prefix(dag: DagModel, last: Slot, decided: Seq<DecidedLeader>)
    requires
        in_turn(dag, last, decided),
        decided.len() > 0,
    ensures
        in_turn(dag, last, decided.drop_last()),
        last_after(last, decided.drop_last()).round < decided.last().spec_slot().round,
{
    let front = decided.drop_last();
    assert forall|k: int| 0 <= k < front.len() implies #[trigger] front[k] == decided[k] by {}
    assert(decided[decided.len() - 1] == decided.last());
    if front.len() > 0 {
        assert(front.last() == decided[decided.len() - 2]);
        assert(decided[decided.len() - 2].spec_slot().round < decided[decided.len()
            - 1].spec_slot().round);
    }
}

/// Carrying out leaders in turn keeps the DAG sound, stores nothing and loses nothing.
pub proof fn law_commits_keep_sound(
    dag: DagModel,
    last: Slot,
    decided: Seq<DecidedLeader>,
    committee: Committee,
)
    requires
        commits_sound(dag, last, committee),
        in_turn(dag, last, decided),
    ensures
        commits_sound(dag_after(dag, decided), last_after(last, decided), committee),
        dag_after(dag, decided).stored == dag.stored,
        dag.committed.subset_of(dag_after(dag, decided).committed),
    decreases decided.len(),
{
    if decided.len() > 0 {
        let front = decided.drop_last();
        lemma_in_turn_prefix(dag, last, decided);
        law_commits_keep_sound(dag, last, front, committee);
        let mid = dag_after(dag, front);
        assert(decided[decided.len() - 1] == decided.last());
        match decided.last() {
            DecidedLeader::Commit(leader, _) => {
                lemma_commit_keeps_sound(mid, last_after(last, front), leader, committee);
                assert forall|x: BlockRef| dag.committed.contains(x) implies dag_after(
                    dag,
                    decided,
                ).committed.contains(x) by {
                    assert(mid.committed.contains(x));
                    assert(sealed(mid, leader).committed.contains(x));
                }
            },
            DecidedLeader::Skip(_) => {},
        }
    }
}

/// Hard commits are numbered without a gap, and their timestamps never fall.
pub proof fn law_hard_commits_are_sequential(
    dag: DagModel,
    last: Slot,
    decided: Seq<DecidedLeader>,
    committee: Committee,
)
    requires
        commits_sound(dag, last, committee),
        in_turn(dag, last, decided),
    ensures
        ({
            let events = hard_events(dag, decided);
            let after = dag_after(dag, decided);
            &&& after.last_index == dag.last_index + events.len()
            &&& after.last_timestamp >= dag.last_timestamp
            &&& forall|k: int|
                #![trigger events[k]]
                0 <= k < events.len() ==> {
                    &&& events[k] is HardCommit
                    &&& events[k]->commit_index == dag.last_index + 1 + k
                    &&& dag.last_timestamp <= events[k]->timestamp_ms <= after.last_timestamp
                }
            &&& forall|k: int, j: int|
                0 <= k < j < events.len() ==> (#[trigger] events[k])->timestamp_ms <= (
                #[trigger] events[j])->timestamp_ms
        }),
    decreases decided.len(),
{
    if decided.len() > 0 {
        let front = decided.drop_last();
        lemma_in_turn_prefix(dag, last, decided);
        law_hard_commits_are_sequential(dag, last, front, committee);
        law_commits_keep_sound(dag, last, front, committee);
        let mid = dag_after(dag, front);
        assert(mid.last_index <= last_after(last, front).round);
        let before = hard_events(dag, front);
        let events = hard_events(dag, decided);
        match decided.last() {
            DecidedLeader::Commit(leader, _) => {
                assert(events == before.push(hard_event(mid, leader)));
                assert forall|k: int|
                    #![trigger events[k]]
                    0 <= k < events.len() implies {
                    &&& events[k] is HardCommit
                    &&& events[k]->commit_index == dag.last_index + 1 + k
                    &&& dag.last_timestamp <= events[k]->timestamp_ms <= dag_after(
                        dag,
                        decided,
                    ).last_timestamp
                } by {
                    if k < before.len() {
                        assert(events[k] == before[k]);
                    }
                }
                assert forall|k: int, j: int| 0 <= k < j < events.len() implies (
                #[trigger] events[k])->timestamp_ms <= (#[trigger] events[j])->timestamp_ms by {
                    assert(events[k] == before[k]);
                    if j < before.len() {
                        assert(events[j] == before[j]);
                    }
                }
            },
            DecidedLeader::Skip(_) => {},
        }
    }
}

/// No block is committed by two leaders that are carried out one after the other.
pub proof fn law_no_block_committed_twice(
    dag: DagModel,
    last: Slot,
    decided: Seq<DecidedLeader>,
    committee: Committee,
    i: int,
    j: int,
    one: VerifiedBlock,
    other: VerifiedBlock,
    x: BlockRef,
)
    requires
        commits_sound(dag, last, committee),
        in_turn(dag, last, decided),
        0 <= i < j < decided.len(),
        decided[i] matches DecidedLeader::Commit(b, _) && b == one,
        decided[j] matches DecidedLeader::Commit(b, _) && b == other,
    ensures
        !(has_ref(sub_dag(dag_after(dag, decided.take(i)), one), x) && has_ref(
            sub_dag(dag_after(dag, decided.take(j)), other),
            x,
        )),
{
    let at_i = dag_after(dag, decided.take(i));
    let at_j = dag_after(dag, decided.take(j));
    lemma_in_turn_take(dag, last, decided, i);
    lemma_in_turn_take(dag, last, decided, j);
    law_commits_keep_sound(dag, last, decided.take(i), committee);
    law_commits_keep_sound(dag, last, decided.take(j), committee);
    lemma_last_in_turn(dag, last, decided, i);
    lemma_last_in_turn(dag, last, decided, j);
    assert(!at_i.committed.contains(one.spec_ref()));
    assert(!at_j.committed.contains(other.spec_ref()));
    law_commit_covers_history(at_i, one);
    law_commit_covers_history(at_j, other);
    lemma_committed_stays(dag, last, decided, committee, i + 1, j);
    let next = dag_after(dag, decided.take(i + 1));
    assert(decided.take(i + 1).drop_last() =~= decided.take(i));
    assert(decided.take(i + 1).last() == decided[i]);
    assert(next.committed == sealed(at_i, one).committed);
    if has_ref(sub_dag(at_i, one), x) {
        assert(next.committed.contains(x));
        assert(at_j.committed.contains(x));
    }
}

/// A hard commit only brings blocks that were not committed before the call, and they stay
/// committed after it: together with the law that a node never forgets, no block is ever
/// committed by two calls.
pub proof fn law_hard_commits_are_fresh(
    dag: DagModel,
    last: Slot,
    decided: Seq<DecidedLeader>,
    committee: Committee,
    i: int,
    leader: VerifiedBlock,
    x: BlockRef,
)
    requires
        commits_sound(dag, last, committee),
        in_turn(dag, last, decided),
        0 <= i < decided.len(),
        decided[i] matches DecidedLeader::Commit(b, _) && b == leader,
        has_ref(sub_dag(dag_after(dag, decided.take(i)), leader), x),
    ensures
        !dag.committed.contains(x),
        dag_after(dag, decided).committed.contains(x),
{
    let here = dag_after(dag, decided.take(i));
    lemma_in_turn_take(dag, last, decided, i);
    law_commits_keep_sound(dag, last, decided.take(i), committee);
    lemma_last_in_turn(dag, last, decided, i);
    assert(!here.committed.contains(leader.spec_ref()));
    law_commit_covers_history(here, leader);
    assert(decided.take(i + 1).drop_last() =~= decided.take(i));
    assert(decided.take(i + 1).last() == decided[i]);
    let next = dag_after(dag, decided.take(i + 1));
    assert(next.committed == sealed(here, leader).committed);
    lemma_committed_stays(dag, last, decided, committee, i + 1, decided.len() as int);
    assert(decided.take(decided.len() as int) =~= decided);
}

proof fn lemma_in_turn_take(dag: DagModel, last: Slot, decided: Seq<DecidedLeader>, n: int)
    requires
        in_turn(dag, last, decided),
        0 <= n <= decided.len(),
    ensures
        in_turn(dag, last, decided.take(n)),
{
    let front = decided.take(n);
    assert forall|k: int| 0 <= k < front.len() implies #[trigger] front[k] == decided[k] by {}
}

proof fn lemma_last_in_turn(dag: DagModel, last: Slot, decided: Seq<DecidedLeader>, n: int)
    requires
        in_turn(dag, last, decided),
        0 <= n < decided.len(),
    ensures
        last_after(last, decided.take(n)).round < decided[n].spec_slot().round,
{
    if n > 0 {
        assert(decided.take(n).last() == decided[n - 1]);
    }
}

proof fn lemma_committed_stays(
    dag: DagModel,
    last: Slot,
    decided: Seq<DecidedLeader>,
    committee: Committee,
    a: int,
    b: int,
)
    requires
        commits_sound(dag, last, committee),
        in_turn(dag, last, decided),
        0 <= a <= b <= decided.len(),
    ensures
        dag_after(dag, decided.take(a)).committed.subset_of(
            dag_after(dag, decided.take(b)).committed,
        ),
    decreases b - a,
{
    if a < b {
        lemma_committed_stays(dag, last, decided, committee, a, b - 1);
        let mid = dag_after(dag, decided.take(b - 1));
        assert(decided.take(b).drop_last() =~= decided.take(b - 1));
        assert(decided.take(b).last() == decided[b - 1]);
        match decided[b - 1] {
            DecidedLeader::Commit(leader, _) => {
                assert(mid.committed.subset_of(sealed(mid, leader).committed));
            },
            DecidedLeader::Skip(_) => {},
        }
    }
}

proof fn lemma_dag_after_grows(dag: DagModel, decided: Seq<DecidedLeader>)
    ensures
        dag_after(dag, decided).stored == dag.stored,
        dag.committed.subset_of(dag_after(dag, decided).committed),
    decreases decided.len(),
{
    if decided.len() > 0 {
        lemma_dag_after_grows(dag, decided.drop_last());
    }
}

/// What a node may be handed it may be handed by round.
pub proof fn lemma_sorted_fit(node: NodeModel, blocks: Seq<VerifiedBlock>, committee: Committee)
    requires
        forall|i: int| 0 <= i < blocks.len() ==> node.admits(#[trigger] blocks[i], committee),
    ensures
        forall|i: int|
            0 <= i < by_round(blocks).len() ==> fit(
                node.intake.dag,
                committee,
                #[trigger] by_round(blocks)[i],
            ) && points_back(by_round(blocks)[i]),
{
    let sorted = by_round(blocks);
    lemma_sorted_by_rank(blocks, round_rank());
    assert forall|i: int| 0 <= i < sorted.len() implies fit(
        node.intake.dag,
        committee,
        #[trigger] sorted[i],
    ) && points_back(sorted[i]) by {
        assert(sorted.contains(sorted[i]));
        let k = blocks.index_of(sorted[i]);
        assert(node.admits(blocks[k], committee));
    }
}

/// A node never forgets: whatever blocks it is handed, the blocks it holds stay as they are,
/// and what it has committed stays committed.
pub proof fn law_node_never_forgets(
    node: NodeModel,
    blocks: Seq<VerifiedBlock>,
    committee: Committee,
)
    requires
        node.sound(committee),
        forall|i: int| 0 <= i < blocks.len() ==> node.admits(#[trigger] blocks[i], committee),
    ensures
        extends(
            node.intake.dag.stored,
            node.accept(blocks, committee).node.intake.dag.stored,
        ),
        node.intake.dag.committed.subset_of(
            node.accept(blocks, committee).node.intake.dag.committed,
        ),
{
    let sorted = by_round(blocks);
    lemma_sorted_fit(node, blocks, committee);
    law_offers_keep_whole(node.intake, sorted, committee);
    let intake = node.intake.offer_all(sorted, committee);
    match decisions(committee, seq![node_options()], intake.dag, node.last) {
        Err(_) => {},
        Ok(decided) => {
            lemma_dag_after_grows(intake.dag, decided);
        },
    }
}

/// Counting the first `n` ancestors of a block keeps exactly the leaders with a quorum of votes
/// soft-committed.
proof fn lemma_votes_after_settled(
    votes: SoftVotes,
    committee: Committee,
    block: VerifiedBlock,
    n: int,
)
    requires
        votes.settled(committee),
    ensures
        votes_after(votes, committee, block, n).settled(committee),
    decreases n,
{
    if 0 < n <= block.parents().len() {
        lemma_votes_after_settled(votes, committee, block, n - 1);
        let before = votes_after(votes, committee, block, n - 1);
        let p = block.parents()[n - 1];
        let voter = block.block().author;
        let after = before.vote(p, voter, committee);
        assert forall|leader: BlockRef| #[trigger]
            after.committed.contains(leader) <==> committee.is_quorum(after.voters(leader)) by {
            assert(before.committed.contains(leader) <==> committee.is_quorum(
                before.voters(leader),
            ));
        }
    }
}

proof fn lemma_all_votes_settled(
    votes: SoftVotes,
    committee: Committee,
    blocks: Seq<VerifiedBlock>,
)
    requires
        votes.settled(committee),
    ensures
        votes_with_all(votes, committee, blocks).settled(committee),
    decreases blocks.len(),
{
    if blocks.len() > 0 {
        lemma_all_votes_settled(votes, committee, blocks.drop_last());
        lemma_votes_after_settled(
            votes_with_all(votes, committee, blocks.drop_last()),
            committee,
            blocks.last(),
            blocks.last().parents().len() as int,
        );
    }
}

/// Whatever blocks a sound node is handed, it stays sound.
pub proof fn law_node_stays_sound(
    node: NodeModel,
    blocks: Seq<VerifiedBlock>,
    committee: Committee,
)
    requires
        node.sound(committee),
        forall|i: int| 0 <= i < blocks.len() ==> node.admits(#[trigger] blocks[i], committee),
    ensures
        node.accept(blocks, committee).node.sound(committee),
        node.intake.offer_all(by_round(blocks), committee).dag.valid(committee),
{
    let sorted = by_round(blocks);
    lemma_sorted_fit(node, blocks, committee);
    law_offers_keep_whole(node.intake, sorted, committee);
    let intake = node.intake.offer_all(sorted, committee);
    let accepted = node.intake.accepted_from_all(sorted, committee);
    let votes = votes_with_all(node.votes, committee, accepted);
    lemma_growth_keeps_closed(node.intake, intake, accepted);
    lemma_all_votes_settled(node.votes, committee, accepted);
    let taken = NodeModel { intake, votes, last: node.last };
    assert(taken.sound(committee));
    match decisions(committee, seq![node_options()], intake.dag, node.last) {
        Err(_) => {},
        Ok(decided) => {
            let n = committee.members().len();
            law_decided_in_turn(taken, committee);
            law_commits_keep_sound(intake.dag, node.last, decided, committee);
            law_decisions_follow_slots(committee, seq![node_options()], intake.dag, node.last);
            law_single_committer_ascends(node_options(), n, intake.dag.highest, node.last);
            if decided.len() > 0 {
                let slots = open_slots(seq![node_options()], n, intake.dag.highest, node.last);
                assert(decided[decided.len() - 1].spec_slot() == slots[decided.len() - 1].slot);
            }
            let end = Intake { dag: dag_after(intake.dag, decided), pool: intake.pool };
            assert(end.known() == intake.known());
            assert forall|r: BlockRef| #[trigger] end.pool.waiting.contains_key(r) implies
                intake.pool.waiting.contains_key(r) by {}
            assert(end.settled(committee));
            assert(whole(end));
        },
    }
}

} // verus!
