//! What a node reports depends on nothing but the blocks it is handed.

use vstd::prelude::*;

use crate::base_committer::{
    anchor_from, backed, backed_leaders, blamed, certified_by, certified_leaders, certifies,
    directly, first_at_slot, from_anchor, supported, supported_via, supporters_among, voters_among,
    votes, BaseCommitterOptions,
};
use crate::block_manager::{by_round, Intake};
use crate::causal::{cone, expand, leads_to, lemma_expand_left, walk, walk_left, Store};
use crate::commit::{DecidedLeader, LeaderStatus};
use crate::committee::{AuthorityIndex, Committee};
use crate::dag_state::{has_block_of, is_initial, DagModel};
use crate::linearizer::sub_dag;
use crate::node::{
    all_soft_events, committed_with, dag_after, hard_event, hard_events, node_options, soft_event,
    soft_events, votes_with_all, EventView, NodeModel,
};
use crate::node_laws::law_node_stays_sound;
use crate::ordered::{in_order, lemma_orderable};
use crate::soft_commit::SoftVotes;
use crate::types::{
    block_preimage, is_genesis_of, BlockRef, Round, Slot, VerifiedBlock, GENESIS_ROUND,
};
use crate::universal_committer::{decide, decisions, open_slots, statuses, statuses_of, Elected};

verus! {

/// Whether two stores hold the same blocks, except that two genesis blocks under one reference
/// need only both be without ancestors.
pub open spec fn alike(a: Store, b: Store) -> bool {
    &&& a.dom() == b.dom()
    &&& forall|r: BlockRef| #[trigger]
        a.contains_key(r) ==> a[r] == b[r] || (r.round == 0 && rootless(a[r], b[r]))
}

/// Neither block has ancestors.
pub open spec fn rootless(x: VerifiedBlock, y: VerifiedBlock) -> bool {
    x.parents().len() == 0 && y.parents().len() == 0
}

/// Whether two DAGs differ in their genesis blocks at most.
pub open spec fn alike_dags(a: DagModel, b: DagModel) -> bool {
    &&& alike(a.stored, b.stored)
    &&& b == (DagModel { stored: b.stored, ..a })
}

/// Genesis blocks that are stored are committed.
spec fn genesis_done(dag: DagModel) -> bool {
    &&& dag.stored.dom().finite()
    &&& forall|r: BlockRef| #[trigger]
        dag.stored.contains_key(r) && r.round == 0 ==> dag.committed.contains(r)
}

proof fn lemma_leads_alike(a: Store, b: Store, block: VerifiedBlock, x: BlockRef)
    requires
        alike(a, b),
    ensures
        leads_to(a, block, x) == leads_to(b, block, x),
    decreases block.block().round,
{
    if leads_to(a, block, x) && !block.parents().contains(x) {
        let p = choose|p: BlockRef| #[trigger]
            block.parents().contains(p) && a.contains_key(p) && a[p].block().round
                < block.block().round && leads_to(a, a[p], x);
        assert(a[p].parents().len() > 0);
        assert(b.dom().contains(p));
        lemma_leads_alike(a, b, a[p], x);
    }
    if leads_to(b, block, x) && !block.parents().contains(x) {
        let p = choose|p: BlockRef| #[trigger]
            block.parents().contains(p) && b.contains_key(p) && b[p].block().round
                < block.block().round && leads_to(b, b[p], x);
        assert(b[p].parents().len() > 0);
        assert(a.dom().contains(p));
        lemma_leads_alike(a, b, b[p], x);
    }
}

proof fn lemma_expand_alike(
    a: Store,
    b: Store,
    done: Set<BlockRef>,
    stack: Seq<VerifiedBlock>,
    parents: Seq<BlockRef>,
    floor: Round,
)
    requires
        alike(a, b),
    ensures
        expand(a, done, stack, parents, floor) == expand(b, done, stack, parents, floor),
    decreases parents.len(),
{
    if parents.len() > 0 {
        lemma_expand_alike(a, b, done, stack, parents.drop_last(), floor);
        let p = parents.last();
        assert(a.contains_key(p) <==> b.contains_key(p)) by {
            assert(a.dom().contains(p) <==> b.dom().contains(p));
        }
    }
}

proof fn lemma_walk_alike(
    a: Store,
    b: Store,
    done: Set<BlockRef>,
    stack: Seq<VerifiedBlock>,
    floor: Round,
)
    requires
        alike(a, b),
        a.dom().finite(),
    ensures
        walk(a, done, stack, floor) == walk(b, done, stack, floor),
    decreases walk_left(a, done, stack),
{
    if stack.len() > 0 {
        let parents = stack.last().parents();
        let under = stack.drop_last();
        lemma_expand_alike(a, b, done, under, parents, floor);
        lemma_expand_left(a, done, under, parents, floor);
        let (d, s) = expand(a, done, under, parents, floor);
        lemma_walk_alike(a, b, d, s, floor);
    }
}

proof fn lemma_supported_alike(a: Store, b: Store, slot: Slot, block: VerifiedBlock)
    requires
        alike(a, b),
    ensures
        supported(a, slot, block) == supported(b, slot, block),
    decreases block.block().round, block.parents().len() + 1,
{
    if block.block().round >= slot.round && first_at_slot(block.parents(), slot, 0) is None {
        lemma_supported_via_alike(a, b, slot, block, 0);
    }
}

proof fn lemma_supported_via_alike(a: Store, b: Store, slot: Slot, block: VerifiedBlock, i: int)
    requires
        alike(a, b),
        0 <= i,
    ensures
        supported_via(a, slot, block, i) == supported_via(b, slot, block, i),
    decreases block.block().round, block.parents().len() - i,
{
    if i < block.parents().len() {
        let p = block.parents()[i];
        assert(a.dom().contains(p) <==> b.dom().contains(p));
        if p.round > slot.round && a.contains_key(p) && a[p].block().round
            < block.block().round {
            assert(a[p] == b[p]);
            lemma_supported_alike(a, b, slot, a[p]);
        }
        lemma_supported_via_alike(a, b, slot, block, i + 1);
    }
}

proof fn lemma_votes_alike(a: Store, b: Store, r: BlockRef, leader: VerifiedBlock)
    requires
        alike(a, b),
    ensures
        votes(a, r, leader) == votes(b, r, leader),
{
    assert(a.dom().contains(r) <==> b.dom().contains(r));
    if a.contains_key(r) {
        let slot = leader.spec_ref().slot();
        lemma_supported_alike(a, b, slot, a[r]);
        if rootless(a[r], b[r]) {
            assert(first_at_slot(a[r].parents(), slot, 0) is None);
            assert(first_at_slot(b[r].parents(), slot, 0) is None);
            assert(supported_via(a, slot, a[r], 0) is None);
            assert(supported_via(b, slot, b[r], 0) is None);
        }
    }
}

/// Alike blocks certify the same leaders.
proof fn lemma_certifies_alike(
    committee: Committee,
    a: Store,
    b: Store,
    x: VerifiedBlock,
    y: VerifiedBlock,
    leader: VerifiedBlock,
)
    requires
        alike(a, b),
        x == y || rootless(x, y),
    ensures
        certifies(committee, a, x, leader) == certifies(committee, b, y, leader),
{
    let n = x.parents().len() as int;
    assert(x.parents().len() == y.parents().len());
    let left = voters_among(a, x, leader, n);
    let right = voters_among(b, y, leader, n);
    assert forall|v: AuthorityIndex| left.contains(v) <==> right.contains(v) by {
        if left.contains(v) {
            let i = choose|i: int|
                0 <= i < n && i < x.parents().len() && (#[trigger] x.parents()[i]).author == v
                    && votes(a, x.parents()[i], leader);
            lemma_votes_alike(a, b, x.parents()[i], leader);
            assert(y.parents()[i].author == v);
        }
        if right.contains(v) {
            let i = choose|i: int|
                0 <= i < n && i < y.parents().len() && (#[trigger] y.parents()[i]).author == v
                    && votes(b, y.parents()[i], leader);
            lemma_votes_alike(a, b, y.parents()[i], leader);
            assert(x.parents()[i].author == v);
        }
    }
    assert(left =~= right);
}

proof fn lemma_open_alike(a: DagModel, b: DagModel, slot: Slot, round: Round)
    requires
        alike_dags(a, b),
        genesis_done(a),
    ensures
        a.open_at_slot(slot) == b.open_at_slot(slot),
        a.open_at_round(round) == b.open_at_round(round),
{
    let at_slot = a.open_refs_at_slot(slot);
    let at_round = a.open_refs_at_round(round);
    assert forall|r: BlockRef| a.stored.contains_key(r) <==> b.stored.contains_key(r) by {
        assert(a.stored.dom().contains(r) <==> b.stored.dom().contains(r));
    }
    assert(at_slot =~= b.open_refs_at_slot(slot));
    assert(at_round =~= b.open_refs_at_round(round));
    lemma_fetched_alike(a, b, at_slot);
    lemma_fetched_alike(a, b, at_round);
}

proof fn lemma_fetched_alike(a: DagModel, b: DagModel, refs: Set<BlockRef>)
    requires
        alike_dags(a, b),
        genesis_done(a),
        forall|r: BlockRef| #[trigger]
            refs.contains(r) ==> a.stored.contains_key(r) && !a.committed.contains(r),
    ensures
        a.fetched(in_order(refs)) == b.fetched(in_order(refs)),
{
    assert(refs.subset_of(a.stored.dom()));
    vstd::set_lib::lemma_set_subset_finite(a.stored.dom(), refs);
    lemma_orderable(refs);
    let list = in_order(refs);
    assert forall|i: int| 0 <= i < list.len() implies a.stored[#[trigger] list[i]]
        == b.stored[list[i]] by {
        assert(list.to_set().contains(list[i]));
        assert(a.stored.contains_key(list[i]));
    }
    assert(a.fetched(list) =~= b.fetched(list));
}

proof fn lemma_backed_alike(
    committee: Committee,
    a: DagModel,
    b: DagModel,
    round: Round,
    leader: VerifiedBlock,
)
    requires
        alike_dags(a, b),
        genesis_done(a),
    ensures
        backed(committee, a, round, leader) == backed(committee, b, round, leader),
{
    lemma_open_alike(a, b, leader.spec_ref().slot(), round);
    let blocks = a.open_at_round(round);
    let n = blocks.len() as int;
    let left = supporters_among(committee, a.stored, blocks, leader, n);
    let right = supporters_among(committee, b.stored, blocks, leader, n);
    assert forall|x: VerifiedBlock| #[trigger]
        certifies(committee, a.stored, x, leader) == certifies(committee, b.stored, x, leader) by {
        lemma_certifies_alike(committee, a.stored, b.stored, x, x, leader);
    }
    assert forall|v: AuthorityIndex| left.contains(v) <==> right.contains(v) by {
        if left.contains(v) {
            let i = choose|i: int|
                0 <= i < n && i < blocks.len() && (#[trigger] blocks[i]).block().author == v
                    && certifies(committee, a.stored, blocks[i], leader);
            assert(certifies(committee, b.stored, blocks[i], leader));
        }
        if right.contains(v) {
            let i = choose|i: int|
                0 <= i < n && i < blocks.len() && (#[trigger] blocks[i]).block().author == v
                    && certifies(committee, b.stored, blocks[i], leader);
            assert(certifies(committee, a.stored, blocks[i], leader));
        }
    }
    assert(left =~= right);
}

proof fn lemma_directly_alike(
    committee: Committee,
    options: BaseCommitterOptions,
    a: DagModel,
    b: DagModel,
    slot: Slot,
)
    requires
        alike_dags(a, b),
        genesis_done(a),
    ensures
        directly(committee, options, a, slot) == directly(committee, options, b, slot),
{
    let round = options.decision_round_of(options.wave_of(slot.round)) as Round;
    let next = (slot.round + 1) as Round;
    lemma_open_alike(a, b, slot, next);
    assert(blamed(committee, a, next, slot.authority) == blamed(
        committee,
        b,
        next,
        slot.authority,
    ));
    let leaders = a.open_at_slot(slot);
    assert forall|l: VerifiedBlock| #[trigger]
        backed(committee, a, round, l) == backed(committee, b, round, l) by {
        lemma_backed_alike(committee, a, b, round, l);
    }
    assert((|l: VerifiedBlock| backed(committee, a, round, l)) =~= (|l: VerifiedBlock|
        backed(committee, b, round, l)));
    assert(backed_leaders(committee, a, round, leaders) == backed_leaders(
        committee,
        b,
        round,
        leaders,
    ));
}

proof fn lemma_from_anchor_alike(
    committee: Committee,
    options: BaseCommitterOptions,
    a: DagModel,
    b: DagModel,
    anchor: VerifiedBlock,
    slot: Slot,
)
    requires
        alike_dags(a, b),
        genesis_done(a),
    ensures
        from_anchor(committee, options, a, anchor, slot) == from_anchor(
            committee,
            options,
            b,
            anchor,
            slot,
        ),
{
    let round = options.decision_round_of(options.wave_of(slot.round)) as Round;
    lemma_open_alike(a, b, slot, round);
    let refs = a.ancestor_refs(anchor, round);
    assert forall|r: BlockRef| refs.contains(r) <==> b.ancestor_refs(anchor, round).contains(
        r,
    ) by {
        assert(a.stored.dom().contains(r) <==> b.stored.dom().contains(r));
        lemma_leads_alike(a.stored, b.stored, anchor, r);
    }
    assert(refs =~= b.ancestor_refs(anchor, round));
    assert(refs.subset_of(a.stored.dom()));
    vstd::set_lib::lemma_set_subset_finite(a.stored.dom(), refs);
    lemma_orderable(refs);
    let list = in_order(refs);
    let left = a.ancestors(anchor, round);
    let right = b.ancestors(anchor, round);
    assert forall|i: int| 0 <= i < list.len() implies #[trigger] left[i] == right[i] || rootless(
        left[i],
        right[i],
    ) by {
        assert(list.to_set().contains(list[i]));
        assert(a.stored.contains_key(list[i]));
    }
    let leaders = a.open_at_slot(slot);
    assert forall|l: VerifiedBlock| #[trigger]
        certified_by(committee, a.stored, left, l) == certified_by(
            committee,
            b.stored,
            right,
            l,
        ) by {
        assert forall|i: int| 0 <= i < list.len() implies certifies(
            committee,
            a.stored,
            #[trigger] left[i],
            l,
        ) == certifies(committee, b.stored, right[i], l) by {
            lemma_certifies_alike(committee, a.stored, b.stored, left[i], right[i], l);
        }
        if certified_by(committee, a.stored, left, l) {
            let i = choose|i: int|
                0 <= i < left.len() && certifies(committee, a.stored, #[trigger] left[i], l);
            assert(certifies(committee, b.stored, right[i], l));
        }
        if certified_by(committee, b.stored, right, l) {
            let i = choose|i: int|
                0 <= i < right.len() && certifies(committee, b.stored, #[trigger] right[i], l);
            assert(certifies(committee, a.stored, left[i], l));
        }
    }
    assert((|l: VerifiedBlock| certified_by(committee, a.stored, left, l)) =~= (|l: VerifiedBlock|
        certified_by(committee, b.stored, right, l)));
    assert(certified_leaders(committee, a.stored, left, leaders) == certified_leaders(
        committee,
        b.stored,
        right,
        leaders,
    ));
}

proof fn lemma_statuses_alike(
    committee: Committee,
    committers: Seq<BaseCommitterOptions>,
    a: DagModel,
    b: DagModel,
    slots: Seq<Elected>,
)
    requires
        alike_dags(a, b),
        genesis_done(a),
    ensures
        statuses(committee, committers, a, slots) == statuses(committee, committers, b, slots),
    decreases slots.len(),
{
    if slots.len() > 0 {
        lemma_statuses_alike(committee, committers, a, b, slots.skip(1));
        if let Ok(later) = statuses(committee, committers, a, slots.skip(1)) {
            let options = committers[slots[0].committer];
            let slot = slots[0].slot;
            let known = statuses_of(later);
            lemma_directly_alike(committee, options, a, b, slot);
            if let Some(LeaderStatus::Commit(anchor)) = anchor_from(
                known,
                slot.round + options.wave_length,
                0,
            ) {
                lemma_from_anchor_alike(committee, options, a, b, anchor, slot);
            }
            assert(decide(committee, options, a, slot, known) == decide(
                committee,
                options,
                b,
                slot,
                known,
            ));
        }
    }
}

/// Alike DAGs have the same leaders decided.
proof fn lemma_decisions_alike(
    committee: Committee,
    committers: Seq<BaseCommitterOptions>,
    a: DagModel,
    b: DagModel,
    last: Slot,
)
    requires
        alike_dags(a, b),
        genesis_done(a),
    ensures
        decisions(committee, committers, a, last) == decisions(committee, committers, b, last),
{
    lemma_statuses_alike(
        committee,
        committers,
        a,
        b,
        open_slots(committers, committee.members().len(), a.highest, last),
    );
}

/// Alike DAGs commit the same blocks, report the same, and are alike afterwards.
proof fn lemma_commits_alike(a: DagModel, b: DagModel, decided: Seq<DecidedLeader>)
    requires
        alike_dags(a, b),
        a.stored.dom().finite(),
    ensures
        alike_dags(dag_after(a, decided), dag_after(b, decided)),
        dag_after(a, decided).stored == a.stored,
        hard_events(a, decided) == hard_events(b, decided),
    decreases decided.len(),
{
    if decided.len() > 0 {
        let front = decided.drop_last();
        lemma_commits_alike(a, b, front);
        if let DecidedLeader::Commit(leader, _) = decided.last() {
            let left = dag_after(a, front);
            let right = dag_after(b, front);
            lemma_walk_alike(
                left.stored,
                right.stored,
                left.committed.insert(leader.spec_ref()),
                seq![leader],
                0,
            );
            assert(cone(left.stored, left.committed, leader, 0) == cone(
                right.stored,
                right.committed,
                leader,
                0,
            ));
            assert(sub_dag(left, leader) == sub_dag(right, leader));
            assert(hard_event(left, leader) == hard_event(right, leader));
            assert(committed_with(right, leader) == (DagModel {
                stored: right.stored,
                ..committed_with(left, leader)
            }));
        }
    }
}

proof fn lemma_soft_event_alike(a: DagModel, b: DagModel, leader: BlockRef)
    requires
        alike_dags(a, b),
        genesis_done(a),
    ensures
        soft_event(a, leader) == soft_event(b, leader),
{
    assert(a.stored.dom().contains(leader) <==> b.stored.dom().contains(leader));
    if a.stored.contains_key(leader) && !a.committed.contains(leader) {
        let block = a.stored[leader];
        assert(b.stored[leader] == block);
        lemma_walk_alike(
            a.stored,
            b.stored,
            a.committed.insert(block.spec_ref()),
            seq![block],
            0,
        );
    }
    assert(a.causal(leader, 0) == b.causal(leader, 0));
}

proof fn lemma_soft_events_alike(
    votes: SoftVotes,
    a: DagModel,
    b: DagModel,
    committee: Committee,
    block: VerifiedBlock,
    n: int,
)
    requires
        alike_dags(a, b),
        genesis_done(a),
    ensures
        soft_events(votes, a, committee, block, n) == soft_events(votes, b, committee, block, n),
    decreases n,
{
    if 0 < n <= block.parents().len() {
        lemma_soft_events_alike(votes, a, b, committee, block, n - 1);
        lemma_soft_event_alike(a, b, block.parents()[n - 1]);
    }
}

proof fn lemma_all_soft_events_alike(
    votes: SoftVotes,
    a: DagModel,
    b: DagModel,
    committee: Committee,
    blocks: Seq<VerifiedBlock>,
)
    requires
        alike_dags(a, b),
        genesis_done(a),
    ensures
        all_soft_events(votes, a, committee, blocks) == all_soft_events(
            votes,
            b,
            committee,
            blocks,
        ),
    decreases blocks.len(),
{
    if blocks.len() > 0 {
        lemma_all_soft_events_alike(votes, a, b, committee, blocks.drop_last());
        lemma_soft_events_alike(
            votes_with_all(votes, committee, blocks.drop_last()),
            a,
            b,
            committee,
            blocks.last(),
            blocks.last().parents().len() as int,
        );
    }
}

proof fn lemma_accept_alike(
    a: DagModel,
    b: DagModel,
    blocks: Seq<VerifiedBlock>,
    committee: Committee,
)
    requires
        alike_dags(a, b),
    ensures
        alike_dags(a.accept_all(blocks, committee), b.accept_all(blocks, committee)),
    decreases blocks.len(),
{
    if blocks.len() > 0 {
        lemma_accept_alike(a, b, blocks.drop_last(), committee);
        let left = a.accept_all(blocks.drop_last(), committee).stored;
        let right = b.accept_all(blocks.drop_last(), committee).stored;
        let r = blocks.last().spec_ref();
        let x = left.insert(r, blocks.last());
        let y = right.insert(r, blocks.last());
        assert(x.dom() =~= left.dom().insert(r));
        assert(y.dom() =~= right.dom().insert(r));
        assert forall|o: BlockRef| #[trigger] x.contains_key(o) implies x[o] == y[o] || (o.round
            == 0 && rootless(x[o], y[o])) by {
            if o != r {
                assert(left.contains_key(o));
            }
        }
        assert(alike(x, y));
    }
}

proof fn lemma_offers_alike(
    a: Intake,
    b: Intake,
    blocks: Seq<VerifiedBlock>,
    committee: Committee,
)
    requires
        alike_dags(a.dag, b.dag),
        a.pool == b.pool,
    ensures
        alike_dags(a.offer_all(blocks, committee).dag, b.offer_all(blocks, committee).dag),
        a.offer_all(blocks, committee).pool == b.offer_all(blocks, committee).pool,
        a.accepted_from_all(blocks, committee) == b.accepted_from_all(blocks, committee),
    decreases blocks.len(),
{
    if blocks.len() > 0 {
        lemma_offers_alike(a, b, blocks.drop_last(), committee);
        let left = a.offer_all(blocks.drop_last(), committee);
        let right = b.offer_all(blocks.drop_last(), committee);
        let block = blocks.last();
        assert(left.known() == right.known());
        assert(left.dag.stored.dom().contains(block.spec_ref())
            <==> right.dag.stored.dom().contains(block.spec_ref()));
        assert(left.batch(block) == right.batch(block));
        lemma_accept_alike(left.dag, right.dag, left.batch(block), committee);
    }
}

/// Whether two nodes differ in their genesis blocks at most.
pub open spec fn alike_nodes(a: NodeModel, b: NodeModel) -> bool {
    &&& alike_dags(a.intake.dag, b.intake.dag)
    &&& a.intake.pool == b.intake.pool
    &&& a.votes == b.votes
    &&& a.last == b.last
}

/// Handed the same blocks, two nodes that hold the same report the same events and the same
/// conflict, and hold the same afterwards.
pub proof fn law_same_blocks_same_events(
    a: NodeModel,
    b: NodeModel,
    blocks: Seq<VerifiedBlock>,
    committee: Committee,
)
    requires
        a.sound(committee),
        alike_nodes(a, b),
        forall|i: int| 0 <= i < blocks.len() ==> a.admits(#[trigger] blocks[i], committee),
    ensures
        a.accept(blocks, committee).events == b.accept(blocks, committee).events,
        a.accept(blocks, committee).conflict == b.accept(blocks, committee).conflict,
        alike_nodes(a.accept(blocks, committee).node, b.accept(blocks, committee).node),
{
    let sorted = by_round(blocks);
    law_node_stays_sound(a, blocks, committee);
    lemma_offers_alike(a.intake, b.intake, sorted, committee);
    let left = a.intake.offer_all(sorted, committee);
    let right = b.intake.offer_all(sorted, committee);
    let accepted = a.intake.accepted_from_all(sorted, committee);
    lemma_all_soft_events_alike(a.votes, left.dag, right.dag, committee, accepted);
    lemma_decisions_alike(committee, seq![node_options()], left.dag, right.dag, a.last);
    if let Ok(decided) = decisions(committee, seq![node_options()], left.dag, a.last) {
        lemma_commits_alike(left.dag, right.dag, decided);
    }
}

/// Whether `node` is as it was created.
pub open spec fn is_fresh(node: NodeModel, committee: Committee) -> bool {
    &&& is_initial(node.intake.dag, committee)
    &&& node.intake.pool.waiting == Map::<BlockRef, VerifiedBlock>::empty()
    &&& node.intake.pool.missing == Set::<BlockRef>::empty()
    &&& node.votes == SoftVotes::none()
    &&& node.last == (Slot { round: GENESIS_ROUND, authority: AuthorityIndex(0) })
}

/// There is one reference to the genesis block of an authority.
proof fn lemma_one_genesis_ref(x: VerifiedBlock, y: VerifiedBlock, committee: Committee, i: int)
    requires
        is_genesis_of(x, committee, i),
        is_genesis_of(y, committee, i),
    ensures
        x.spec_ref() == y.spec_ref(),
{
    assert(x.block().ancestors@ =~= y.block().ancestors@);
    assert(x.block().transactions@ =~= y.block().transactions@);
    assert(block_preimage(x.block()) == block_preimage(y.block()));
    assert(x.spec_digest().0 =~= y.spec_digest().0);
}

/// Two new nodes of one committee hold the same.
pub proof fn law_fresh_nodes_are_alike(a: NodeModel, b: NodeModel, committee: Committee)
    requires
        is_fresh(a, committee),
        is_fresh(b, committee),
    ensures
        alike_nodes(a, b),
{
    let left = a.intake.dag;
    let right = b.intake.dag;
    lemma_same_genesis(left, right, committee);
    lemma_same_genesis(right, left, committee);
    assert(left.stored.dom() =~= right.stored.dom());
    assert(left.last_digest.0 =~= right.last_digest.0);
    assert(a.intake.pool =~= b.intake.pool);
}

proof fn lemma_same_genesis(a: DagModel, b: DagModel, committee: Committee)
    requires
        is_initial(a, committee),
        is_initial(b, committee),
    ensures
        forall|r: BlockRef| #[trigger]
            a.stored.contains_key(r) ==> b.stored.contains_key(r) && r.round == 0 && rootless(
                a.stored[r],
                b.stored[r],
            ),
{
    assert forall|r: BlockRef| #[trigger] a.stored.contains_key(r) implies b.stored.contains_key(r)
        && r.round == 0 && rootless(a.stored[r], b.stored[r]) by {
        let i = r.author.0 as int;
        assert(has_block_of(b, i));
        let o = choose|o: BlockRef| #[trigger] b.stored.contains_key(o) && o.author.0 == i;
        lemma_one_genesis_ref(a.stored[r], b.stored[o], committee, i);
        assert(o == r);
    }
}

/// The node once it has been handed `batches` one after the other.
pub open spec fn after_batches(
    node: NodeModel,
    batches: Seq<Seq<VerifiedBlock>>,
    committee: Committee,
) -> NodeModel
    decreases batches.len(),
{
    if batches.len() == 0 {
        node
    } else {
        after_batches(node, batches.drop_last(), committee).accept(batches.last(), committee).node
    }
}

/// The events that a node reports when it is handed `batches` one after the other.
pub open spec fn events_of_batches(
    node: NodeModel,
    batches: Seq<Seq<VerifiedBlock>>,
    committee: Committee,
) -> Seq<EventView>
    decreases batches.len(),
{
    if batches.len() == 0 {
        Seq::empty()
    } else {
        events_of_batches(node, batches.drop_last(), committee) + after_batches(
            node,
            batches.drop_last(),
            committee,
        ).accept(batches.last(), committee).events
    }
}

/// Whether a node may be handed `batches` one after the other.
pub open spec fn admits_batches(
    node: NodeModel,
    batches: Seq<Seq<VerifiedBlock>>,
    committee: Committee,
) -> bool
    decreases batches.len(),
{
    batches.len() > 0 ==> {
        let before = after_batches(node, batches.drop_last(), committee);
        &&& admits_batches(node, batches.drop_last(), committee)
        &&& forall|i: int|
            0 <= i < batches.last().len() ==> before.admits(
                #[trigger] batches.last()[i],
                committee,
            )
    }
}

/// Handed the same batches in the same order, two new nodes of one committee report the same
/// events in the same order.
pub proof fn law_replay_gives_the_same_events(
    a: NodeModel,
    b: NodeModel,
    batches: Seq<Seq<VerifiedBlock>>,
    committee: Committee,
)
    requires
        is_fresh(a, committee),
        is_fresh(b, committee),
        a.sound(committee),
        admits_batches(a, batches, committee),
    ensures
        events_of_batches(a, batches, committee) == events_of_batches(b, batches, committee),
        alike_nodes(
            after_batches(a, batches, committee),
            after_batches(b, batches, committee),
        ),
        after_batches(a, batches, committee).sound(committee),
    decreases batches.len(),
{
    if batches.len() == 0 {
        law_fresh_nodes_are_alike(a, b, committee);
    } else {
        let front = batches.drop_last();
        law_replay_gives_the_same_events(a, b, front, committee);
        let left = after_batches(a, front, committee);
        let right = after_batches(b, front, committee);
        law_same_blocks_same_events(left, right, batches.last(), committee);
        law_node_stays_sound(left, batches.last(), committee);
    }
}

} // verus!
