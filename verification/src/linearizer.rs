//! Turning committed leaders into ordered sub-DAGs.

use std::sync::Arc;

use vstd::prelude::*;

use crate::causal::{
    closed_above, complete, cone, distinct, expand, fresh, has_ref, history_present, keyed,
    layered, lemma_cone, lemma_expand_left, lemma_walk, points_back, walk, walk_left, within,
};
use crate::commit::{
    refs_of, round_then_author, sort_sub_dag_blocks, sub_dag_rank, CommitRef, CommittedSubDag,
};
use crate::committee::Committee;
use crate::context::Context;
use crate::dag_state::{commit_preimage, derive_commit_digest, DagModel, DagState};
use crate::hashing::sha3_256;
use crate::stable_sort::{lemma_sorted_by_rank, sorted_by_rank};
use crate::types::{BlockRef, BlockTimestampMs, Round, VerifiedBlock};

verus! {

/// The blocks that committing `leader` commits, by round and author.
pub open spec fn sub_dag(dag: DagModel, leader: VerifiedBlock) -> Seq<VerifiedBlock> {
    sorted_by_rank(cone(dag.stored, dag.committed, leader, 0), sub_dag_rank())
}

/// Whether the uncommitted history of `leader` lacks nothing: all that its blocks list above
/// the genesis round is committed or stored.
pub open spec fn history_stored(dag: DagModel, leader: VerifiedBlock) -> bool {
    let walked = cone(dag.stored, dag.committed, leader, 0);
    forall|k: int, p: BlockRef|
        0 <= k < walked.len() && #[trigger] walked[k].parents().contains(p) && p.round > 0
            && !dag.committed.contains(p) ==> dag.stored.contains_key(p)
}

/// The timestamp of the next commit: that of its leader, unless the last one was later.
pub open spec fn commit_timestamp(dag: DagModel, leader: VerifiedBlock) -> BlockTimestampMs {
    if leader.block().timestamp_ms > dag.last_timestamp {
        leader.block().timestamp_ms
    } else {
        dag.last_timestamp
    }
}

/// The DAG with the uncommitted history of `leader` marked as committed.
pub open spec fn sealed(dag: DagModel, leader: VerifiedBlock) -> DagModel {
    DagModel {
        committed: dag.committed.union(
            refs_of(cone(dag.stored, dag.committed, leader, 0)).to_set(),
        ),
        ..dag
    }
}

/// Whether `subdag` is the next commit of `dag`, led by `leader`.
pub open spec fn is_commit_of(
    subdag: CommittedSubDag,
    dag: DagModel,
    leader: VerifiedBlock,
) -> bool {
    &&& subdag.leader == leader.spec_ref()
    &&& subdag.blocks@ == sub_dag(dag, leader)
    &&& subdag.timestamp_ms == commit_timestamp(dag, leader)
    &&& subdag.commit_ref.index == dag.last_index + 1
    &&& subdag.commit_ref.digest.0@ == sha3_256(
        commit_preimage((dag.last_index + 1) as u32, leader.spec_ref()),
    )
}

/// Expands committed leader blocks into ordered [`CommittedSubDag`] values.
#[derive(Debug)]
pub struct Linearizer {
    pub(crate) context: Arc<Context>,
}

impl Clone for Linearizer {
    fn clone(&self) -> (r: Self)
        ensures
            r == *self,
    {
        Linearizer { context: self.context.clone() }
    }
}

impl Linearizer {
    pub open(crate) spec fn spec_committee(&self) -> Committee {
        *self.context.committee
    }

    pub fn new(context: Arc<Context>) -> (r: Self)
        requires
            context.wf(),
        ensures
            r.spec_committee() == *context.committee,
    {
        Linearizer { context }
    }

    /// Collect the sub-DAG anchored at `leader_block` and produce a [`CommittedSubDag`].
    pub fn commit_leader(&mut self, dag: &mut DagState, leader_block: VerifiedBlock) -> (r:
        CommittedSubDag)
        requires
            old(dag).wf(),
            leader_block.block().round > 0,
            history_stored(old(dag)@, leader_block),
            !old(dag)@.committed.contains(leader_block.spec_ref()),
            old(dag)@.last_index < u32::MAX,
        ensures
            final(dag).wf(),
            final(dag).spec_committee() == old(dag).spec_committee(),
            *final(self) == *old(self),
            is_commit_of(r, old(dag)@, leader_block),
            final(dag)@ == sealed(old(dag)@, leader_block).record(r),
    {
        let next_index: u32 = dag.last_commit_index() + 1;
        let last_commit_timestamp = dag.last_commit_timestamp_ms();
        let timestamp_ms: BlockTimestampMs = if leader_block.timestamp_ms()
            > last_commit_timestamp {
            leader_block.timestamp_ms()
        } else {
            last_commit_timestamp
        };
        let leader_ref = leader_block.reference();
        let to_commit = Linearizer::linearize_sub_dag(leader_block, dag);
        let digest = derive_commit_digest(next_index, &leader_ref);
        let commit_ref = CommitRef::new(next_index, digest);
        let subdag = CommittedSubDag::new(leader_ref, to_commit, timestamp_ms, commit_ref);
        dag.record_commit(&subdag);
        subdag
    }

    /// Collects all uncommitted causal ancestors of `leader_block` above the
    /// garbage-collection round, marks them as committed and sorts them.
    fn linearize_sub_dag(leader_block: VerifiedBlock, dag: &mut DagState) -> (r: Vec<VerifiedBlock>)
        requires
            old(dag).wf(),
            leader_block.block().round > 0,
            history_stored(old(dag)@, leader_block),
            !old(dag)@.committed.contains(leader_block.spec_ref()),
        ensures
            final(dag).wf(),
            final(dag).spec_committee() == old(dag).spec_committee(),
            r@ == sub_dag(old(dag)@, leader_block),
            final(dag)@ == sealed(old(dag)@, leader_block),
    {
        let gc_round: Round = dag.gc_round();
        let leader_ref = leader_block.reference();
        let ghost stored = dag@.stored;
        let ghost start = dag@;
        let ghost expected = cone(stored, start.committed, leader_block, 0);
        dag.set_committed(&leader_ref);
        let mut buffer: Vec<VerifiedBlock> = Vec::new();
        buffer.push(leader_block);
        let mut to_commit: Vec<VerifiedBlock> = Vec::new();
        proof {
            assert(buffer@ =~= seq![leader_block]);
            assert(to_commit@ + walk(stored, dag@.committed, buffer@, 0) =~= expected);
            assert(buffer@[0].spec_ref() == leader_ref);
            assert(has_ref(buffer@, leader_ref));
        }
        while buffer.len() > 0
            invariant
                gc_round == 0,
                dag.wf(),
                dag.spec_committee() == old(dag).spec_committee(),
                dag@ == (DagModel { committed: dag@.committed, ..start }),
                stored == start.stored,
                to_commit@ + walk(stored, dag@.committed, buffer@, 0) == expected,
                forall|x: BlockRef| #[trigger]
                    dag@.committed.contains(x) <==> start.committed.contains(x) || has_ref(
                        to_commit@,
                        x,
                    ) || has_ref(buffer@, x),
            decreases walk_left(stored, dag@.committed, buffer@),
        {
            let ghost done = dag@.committed;
            let ghost whole = buffer@;
            let ghost under = buffer@.drop_last();
            let ghost before = to_commit@;
            let block = buffer.pop().unwrap();
            let ghost (d, s) = expand(stored, done, under, block.parents(), 0);
            proof {
                lemma_expand_left(stored, done, under, block.parents(), 0);
                assert(walk(stored, done, whole, 0) == seq![block] + walk(stored, d, s, 0));
            }
            to_commit.push(block.clone());
            let ancestors = block.ancestors();
            let mut i: usize = 0;
            proof {
                assert(ancestors@.take(0) =~= Seq::<BlockRef>::empty());
                assert forall|x: BlockRef| #[trigger] dag@.committed.contains(x)
                    <==> start.committed.contains(x) || has_ref(to_commit@, x) || has_ref(
                    buffer@,
                    x,
                ) by {
                    lemma_has_ref_push(before, block, x);
                    lemma_has_ref_push(under, block, x);
                    assert(under.push(block) =~= whole);
                    assert(before.push(block) =~= to_commit@);
                }
            }
            while i < ancestors.len()
                invariant
                    gc_round == 0,
                    dag.wf(),
                    dag.spec_committee() == old(dag).spec_committee(),
                    stored == start.stored,
                    dag@ == (DagModel { committed: dag@.committed, ..start }),
                    i <= ancestors@.len(),
                    (dag@.committed, buffer@) == expand(
                        stored,
                        done,
                        under,
                        ancestors@.take(i as int),
                        0,
                    ),
                    forall|x: BlockRef| #[trigger]
                        dag@.committed.contains(x) <==> start.committed.contains(x) || has_ref(
                            to_commit@,
                            x,
                        ) || has_ref(buffer@, x),
                decreases ancestors@.len() - i,
            {
                let ancestor_ref = ancestors[i];
                let ghost marked = dag@.committed;
                let ghost stacked = buffer@;
                proof {
                    let now = ancestors@.take(i + 1);
                    assert(now.drop_last() =~= ancestors@.take(i as int));
                    assert(now.last() == ancestor_ref);
                }
                if ancestor_ref.round > gc_round && !dag.is_committed(&ancestor_ref) {
                    match dag.get_block(&ancestor_ref) {
                        Some(ancestor) => {
                            assert(ancestor.spec_ref() == ancestor_ref);
                            dag.set_committed(&ancestor_ref);
                            buffer.push(ancestor);
                            proof {
                                assert forall|x: BlockRef| #[trigger] dag@.committed.contains(x)
                                    <==> start.committed.contains(x) || has_ref(to_commit@, x)
                                    || has_ref(buffer@, x) by {
                                    lemma_has_ref_push(stacked, ancestor, x);
                                    assert(stacked.push(ancestor) =~= buffer@);
                                    assert(marked.contains(x) <==> start.committed.contains(x)
                                        || has_ref(to_commit@, x) || has_ref(stacked, x));
                                }
                            }
                        },
                        None => {},
                    }
                }
                i += 1;
            }
            proof {
                assert(ancestors@.take(ancestors@.len() as int) =~= ancestors@);
                assert(to_commit@ + walk(stored, d, s, 0) =~= expected);
            }
        }
        proof {
            assert(to_commit@ =~= expected);
            let refs = refs_of(expected).to_set();
            assert forall|x: BlockRef| #[trigger] dag@.committed.contains(x)
                <==> start.committed.union(refs).contains(x) by {
                assert(!has_ref(buffer@, x));
                if has_ref(expected, x) {
                    let k = choose|k: int|
                        0 <= k < expected.len() && (#[trigger] expected[k]).spec_ref() == x;
                    assert(refs_of(expected)[k] == x);
                }
                if refs.contains(x) {
                    let k = refs_of(expected).index_of(x);
                    assert(expected[k].spec_ref() == x);
                }
            }
            assert(dag@.committed =~= start.committed.union(refs));
        }
        sort_sub_dag_blocks(&mut to_commit);
        to_commit
    }
}

proof fn lemma_has_ref_push(blocks: Seq<VerifiedBlock>, b: VerifiedBlock, x: BlockRef)
    ensures
        has_ref(blocks.push(b), x) <==> has_ref(blocks, x) || b.spec_ref() == x,
{
    let all = blocks.push(b);
    if has_ref(blocks, x) {
        let k = choose|k: int| 0 <= k < blocks.len() && (#[trigger] blocks[k]).spec_ref() == x;
        assert(all[k].spec_ref() == x);
    }
    assert(all[blocks.len() as int] == b);
    if has_ref(all, x) {
        let k = choose|k: int| 0 <= k < all.len() && (#[trigger] all[k]).spec_ref() == x;
        if k < blocks.len() {
            assert(blocks[k].spec_ref() == x);
        }
    }
}

/// A store without gaps lacks nothing of the history of any leader in it.
pub proof fn lemma_history_stored(dag: DagModel, leader: VerifiedBlock)
    requires
        complete(dag.stored),
        dag.stored.contains_key(leader.spec_ref()),
        dag.stored[leader.spec_ref()] == leader,
        leader.block().round > 0,
        !dag.committed.contains(leader.spec_ref()),
    ensures
        history_stored(dag, leader),
{
    let walked = cone(dag.stored, dag.committed, leader, 0);
    lemma_cone(dag.stored, dag.committed, leader, 0);
    assert forall|k: int, p: BlockRef|
        0 <= k < walked.len() && #[trigger] walked[k].parents().contains(p) && p.round > 0
            && !dag.committed.contains(p) implies dag.stored.contains_key(p) by {
        assert(fresh(dag.stored, dag.committed, walked[k], 0));
        assert(history_present(walked[k], dag.stored));
    }
}

/// In a committed sub-DAG every ancestor comes before its descendants.
pub proof fn law_sub_dag_in_causal_order(dag: DagModel, leader: VerifiedBlock, i: int, j: int)
    requires
        dag.stored.dom().finite(),
        keyed(dag.stored),
        layered(dag.stored),
        dag.stored.contains_key(leader.spec_ref()),
        dag.stored[leader.spec_ref()] == leader,
        leader.block().round > 0,
        !dag.committed.contains(leader.spec_ref()),
        0 <= i < sub_dag(dag, leader).len(),
        0 <= j < sub_dag(dag, leader).len(),
        sub_dag(dag, leader)[i].parents().contains(sub_dag(dag, leader)[j].spec_ref()),
    ensures
        j < i,
{
    let walked = cone(dag.stored, dag.committed, leader, 0);
    let out = sub_dag(dag, leader);
    lemma_cone(dag.stored, dag.committed, leader, 0);
    lemma_sorted_by_rank(walked, sub_dag_rank());
    assert(out.contains(out[i]));
    let k = walked.index_of(out[i]);
    assert(fresh(dag.stored, dag.committed, walked[k], 0));
    assert(points_back(out[i]));
    assert(out[j].block().round < out[i].block().round);
    if i < j {
        assert(sub_dag_rank()(out[i]) <= sub_dag_rank()(out[j]));
        assert(round_then_author(out[j]) < round_then_author(out[i]));
    }
}

/// A sub-DAG has the references of the walk it is sorted from.
proof fn lemma_sub_dag_refs(dag: DagModel, leader: VerifiedBlock)
    ensures
        forall|x: BlockRef| #[trigger]
            has_ref(sub_dag(dag, leader), x) <==> has_ref(
                cone(dag.stored, dag.committed, leader, 0),
                x,
            ),
{
    let walked = cone(dag.stored, dag.committed, leader, 0);
    let out = sub_dag(dag, leader);
    lemma_sorted_by_rank(walked, sub_dag_rank());
    assert forall|x: BlockRef| #[trigger] has_ref(out, x) <==> has_ref(walked, x) by {
        if has_ref(out, x) {
            let k = choose|k: int| 0 <= k < out.len() && (#[trigger] out[k]).spec_ref() == x;
            assert(out.contains(out[k]));
            let m = walked.index_of(out[k]);
            assert(walked[m].spec_ref() == x);
        }
        if has_ref(walked, x) {
            let k = choose|k: int|
                0 <= k < walked.len() && (#[trigger] walked[k]).spec_ref() == x;
            assert(walked.contains(walked[k]));
            assert(out.contains(walked[k]));
            let m = out.index_of(walked[k]);
            assert(out[m].spec_ref() == x);
        }
    }
}

/// A commit holds its leader, no block twice and none that was committed before, and marks
/// exactly its own blocks as committed. Its index follows the last one, and its timestamp is the
/// later of its leader's and the last one.
pub proof fn law_commit_marks_its_blocks(dag: DagModel, leader: VerifiedBlock)
    requires
        dag.stored.dom().finite(),
        keyed(dag.stored),
        !dag.committed.contains(leader.spec_ref()),
    ensures
        distinct(sub_dag(dag, leader)),
        has_ref(sub_dag(dag, leader), leader.spec_ref()),
        forall|x: BlockRef| #[trigger]
            has_ref(sub_dag(dag, leader), x) ==> !dag.committed.contains(x),
        forall|x: BlockRef| #[trigger]
            sealed(dag, leader).committed.contains(x) <==> dag.committed.contains(x) || has_ref(
                sub_dag(dag, leader),
                x,
            ),
        forall|subdag: CommittedSubDag| #[trigger]
            is_commit_of(subdag, dag, leader) ==> {
                let after = sealed(dag, leader).record(subdag);
                &&& subdag.blocks@ == sub_dag(dag, leader)
                &&& after.last_index == subdag.commit_ref.index == dag.last_index + 1
                &&& after.last_timestamp == subdag.timestamp_ms
                &&& after.last_timestamp >= dag.last_timestamp
                &&& after.last_timestamp >= leader.block().timestamp_ms
                &&& after.last_timestamp == dag.last_timestamp || after.last_timestamp
                    == leader.block().timestamp_ms
            },
{
    let walked = cone(dag.stored, dag.committed, leader, 0);
    let out = sub_dag(dag, leader);
    let stack = seq![leader];
    lemma_walk(dag.stored, dag.committed.insert(leader.spec_ref()), stack, 0);
    lemma_sub_dag_refs(dag, leader);
    lemma_sorted_by_rank(walked, sub_dag_rank());
    assert(stack[0] == leader);
    assert(has_ref(walked, leader.spec_ref()));
    assert forall|x: BlockRef| #[trigger] has_ref(out, x) implies !dag.committed.contains(x) by {
        assert(has_ref(walked, x));
        let k = choose|k: int| 0 <= k < walked.len() && (#[trigger] walked[k]).spec_ref() == x;
        assert(stack.contains(walked[k]) || fresh(
            dag.stored,
            dag.committed.insert(leader.spec_ref()),
            walked[k],
            0,
        ));
    }
    assert forall|x: BlockRef| #[trigger] sealed(dag, leader).committed.contains(x)
        <==> dag.committed.contains(x) || has_ref(walked, x) by {
        let refs = refs_of(walked);
        if has_ref(walked, x) {
            let k = choose|k: int|
                0 <= k < walked.len() && (#[trigger] walked[k]).spec_ref() == x;
            assert(refs[k] == x);
        }
        if refs.to_set().contains(x) {
            let k = refs.index_of(x);
            assert(walked[k].spec_ref() == x);
        }
    }
    lemma_same_multiset_distinct(walked, out);
}

/// A commit covers exactly the stored history of its leader above the genesis round that was
/// not committed before, each block once, the leader included; all of it is committed then,
/// and whatever is committed again lacks no ancestor.
pub proof fn law_commit_covers_history(dag: DagModel, leader: VerifiedBlock)
    requires
        dag.stored.dom().finite(),
        keyed(dag.stored),
        layered(dag.stored),
        closed_above(dag.stored, dag.committed, 0),
        dag.stored.contains_key(leader.spec_ref()),
        dag.stored[leader.spec_ref()] == leader,
        leader.block().round > 0,
        !dag.committed.contains(leader.spec_ref()),
    ensures
        distinct(sub_dag(dag, leader)),
        forall|x: BlockRef| #[trigger]
            has_ref(sub_dag(dag, leader), x) <==> dag.stored.contains_key(x) && x.round > 0
                && !dag.committed.contains(x) && within(dag.stored, leader, x),
        forall|x: BlockRef| #[trigger]
            sealed(dag, leader).committed.contains(x) <==> dag.committed.contains(x) || has_ref(
                sub_dag(dag, leader),
                x,
            ),
        closed_above(dag.stored, sealed(dag, leader).committed, 0),
{
    lemma_cone(dag.stored, dag.committed, leader, 0);
    law_commit_marks_its_blocks(dag, leader);
    lemma_sub_dag_refs(dag, leader);
}

/// Of two sequences with the same members, as often each, one is free of repeated references
/// if the other is.
proof fn lemma_same_multiset_distinct(a: Seq<VerifiedBlock>, b: Seq<VerifiedBlock>)
    requires
        distinct(a),
        a.to_multiset() == b.to_multiset(),
    ensures
        distinct(b),
{
    broadcast use vstd::seq_lib::group_to_multiset_ensures;

    assert(a.no_duplicates()) by {
        assert forall|i: int, j: int|
            0 <= i < a.len() && 0 <= j < a.len() && i != j implies a[i] != a[j] by {
            if i < j {
                assert(a[i].spec_ref() != a[j].spec_ref());
            } else {
                assert(a[j].spec_ref() != a[i].spec_ref());
            }
        }
    }
    a.lemma_multiset_has_no_duplicates();
    b.lemma_multiset_has_no_duplicates_conv();
    assert forall|i: int, j: int| 0 <= i < j < b.len() implies (#[trigger] b[i]).spec_ref() != (
    #[trigger] b[j]).spec_ref() by {
        assert(b.contains(b[i]) && b.contains(b[j]));
        assert(b.to_multiset().count(b[i]) > 0);
        assert(b.to_multiset().count(b[j]) > 0);
        assert(a.contains(b[i]) && a.contains(b[j]));
        let k = a.index_of(b[i]);
        let m = a.index_of(b[j]);
        assert(b[i] != b[j]);
        if k < m {
            assert(a[k].spec_ref() != a[m].spec_ref());
        } else {
            assert(a[m].spec_ref() != a[k].spec_ref());
        }
    }
}

/// What a soft commit of a leader announces is what a hard commit of it on the same DAG
/// commits: the same blocks, as often each.
pub proof fn law_soft_announces_what_hard_commits(dag: DagModel, leader: VerifiedBlock)
    requires
        dag.stored.contains_key(leader.spec_ref()),
        dag.stored[leader.spec_ref()] == leader,
        !dag.committed.contains(leader.spec_ref()),
    ensures
        dag.causal(leader.spec_ref(), 0).to_multiset() == sub_dag(dag, leader).to_multiset(),
{
    lemma_sorted_by_rank(cone(dag.stored, dag.committed, leader, 0), sub_dag_rank());
}

} // verus!
