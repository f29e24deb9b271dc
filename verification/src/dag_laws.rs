//! What holds of a DAG over many calls.

use vstd::prelude::*;

use crate::causal::{distinct, has_ref, leads_to, Store};
use crate::commit::{refs_of, CommittedSubDag};
use crate::committee::{stake_of, stake_total, AuthorityIndex, Committee};
use crate::dag_state::{
    authors_at, has_author_at, has_block_of, is_initial, lemma_accept_keeps_clock, DagModel,
};
use crate::hashing::{le_bytes, sha3_256};
use crate::linearizer::{history_stored, is_commit_of, law_commit_marks_its_blocks, sealed};
use crate::ordered::in_order;
use crate::threshold_clock::ClockState;
use crate::types::{BlockRef, Round, Slot, VerifiedBlock};

verus! {

/// The last of `blocks` with the reference `r`.
pub open spec fn last_with(blocks: Seq<VerifiedBlock>, r: BlockRef) -> VerifiedBlock
    recommends
        has_ref(blocks, r),
    decreases blocks.len(),
{
    if blocks.len() == 0 || blocks.last().spec_ref() == r {
        blocks.last()
    } else {
        last_with(blocks.drop_last(), r)
    }
}

proof fn lemma_has_ref_last(blocks: Seq<VerifiedBlock>, r: BlockRef)
    requires
        blocks.len() > 0,
    ensures
        has_ref(blocks, r) <==> has_ref(blocks.drop_last(), r) || blocks.last().spec_ref() == r,
{
    let front = blocks.drop_last();
    if has_ref(front, r) {
        let k = choose|k: int| 0 <= k < front.len() && (#[trigger] front[k]).spec_ref() == r;
        assert(blocks[k].spec_ref() == r);
    }
    if has_ref(blocks, r) {
        let k = choose|k: int| 0 <= k < blocks.len() && (#[trigger] blocks[k]).spec_ref() == r;
        if k < front.len() {
            assert(front[k].spec_ref() == r);
        }
    }
}

/// Accepting `blocks` adds exactly them: a block is stored if and only if it was before or is
/// one of them; the highest round is the greatest of the old one and theirs; and what has been
/// committed stays as it is.
pub proof fn law_accept_adds_the_blocks(
    dag: DagModel,
    blocks: Seq<VerifiedBlock>,
    committee: Committee,
)
    ensures
        ({
            let after = dag.accept_all(blocks, committee);
            &&& forall|r: BlockRef| #[trigger]
                after.stored.contains_key(r) <==> dag.stored.contains_key(r) || has_ref(blocks, r)
            &&& forall|r: BlockRef| #[trigger]
                after.stored.contains_key(r) ==> after.stored[r] == if has_ref(blocks, r) {
                    last_with(blocks, r)
                } else {
                    dag.stored[r]
                }
            &&& after.highest >= dag.highest
            &&& forall|i: int|
                0 <= i < blocks.len() ==> after.highest >= (#[trigger] blocks[i]).block().round
            &&& after.highest == dag.highest || exists|i: int|
                0 <= i < blocks.len() && after.highest == (#[trigger] blocks[i]).block().round
            &&& after.committed == dag.committed
            &&& after.last_index == dag.last_index
            &&& after.last_digest == dag.last_digest
            &&& after.last_timestamp == dag.last_timestamp
            &&& after.last_round == dag.last_round
        }),
    decreases blocks.len(),
{
    if blocks.len() > 0 {
        let front = blocks.drop_last();
        law_accept_adds_the_blocks(dag, front, committee);
        let before = dag.accept_all(front, committee);
        let after = dag.accept_all(blocks, committee);
        assert forall|r: BlockRef| #[trigger] after.stored.contains_key(r)
            <==> dag.stored.contains_key(r) || has_ref(blocks, r) by {
            lemma_has_ref_last(blocks, r);
            assert(before.stored.contains_key(r) <==> dag.stored.contains_key(r) || has_ref(
                front,
                r,
            ));
        }
        assert forall|r: BlockRef| #[trigger] after.stored.contains_key(r) implies after.stored[r]
            == if has_ref(blocks, r) {
            last_with(blocks, r)
        } else {
            dag.stored[r]
        } by {
            lemma_has_ref_last(blocks, r);
            if blocks.last().spec_ref() != r {
                assert(before.stored.contains_key(r));
            }
        }
        assert forall|i: int| 0 <= i < blocks.len() implies after.highest >= (
        #[trigger] blocks[i]).block().round by {
            if i < front.len() {
                assert(front[i] == blocks[i]);
            }
        }
        if after.highest != dag.highest {
            if after.highest == before.highest {
                let i = choose|i: int|
                    0 <= i < front.len() && before.highest == (#[trigger] front[i]).block().round;
                assert(blocks[i] == front[i]);
            } else {
                assert(blocks[blocks.len() - 1] == blocks.last());
            }
        }
    } else {
        assert forall|r: BlockRef| !has_ref(blocks, r) by {}
    }
}

/// Whether the clock has counted `r`: it has left its round, or counts its author there.
spec fn counted(clock: ClockState, r: BlockRef, committee: Committee) -> bool {
    ||| r.round < clock.round
    ||| r.round == clock.round && clock.voters.contains(r.author) && !committee.is_quorum(
        clock.voters,
    )
}

proof fn lemma_counted(
    dag: DagModel,
    blocks: Seq<VerifiedBlock>,
    committee: Committee,
    i: int,
)
    requires
        forall|j: int| 0 <= j < blocks.len() ==> (#[trigger] blocks[j]).block().round < u32::MAX,
        0 <= i < blocks.len(),
    ensures
        counted(dag.accept_all(blocks, committee).clock, blocks[i].spec_ref(), committee),
    decreases blocks.len(),
{
    let front = blocks.drop_last();
    assert forall|j: int| 0 <= j < front.len() implies (#[trigger] front[j]).block().round
        < u32::MAX by {
        assert(front[j] == blocks[j]);
    }
    assert(blocks[blocks.len() - 1].block().round < u32::MAX);
    if i < front.len() {
        lemma_counted(dag, front, committee, i);
    }
}

proof fn lemma_counted_stays(dag: DagModel, blocks: Seq<VerifiedBlock>, committee: Committee)
    requires
        forall|j: int|
            0 <= j < blocks.len() ==> counted(
                dag.clock,
                (#[trigger] blocks[j]).spec_ref(),
                committee,
            ),
    ensures
        dag.accept_all(blocks, committee).clock == dag.clock,
    decreases blocks.len(),
{
    if blocks.len() > 0 {
        let front = blocks.drop_last();
        assert forall|j: int| 0 <= j < front.len() implies counted(
            dag.clock,
            (#[trigger] front[j]).spec_ref(),
            committee,
        ) by {
            assert(front[j] == blocks[j]);
        }
        lemma_counted_stays(dag, front, committee);
        let r = blocks.last().spec_ref();
        assert(counted(dag.clock, blocks[blocks.len() - 1].spec_ref(), committee));
        if r.round == dag.clock.round {
            assert(dag.clock.voters_with(r) =~= dag.clock.voters);
        }
    }
}

/// Accepting the same blocks once more leaves the DAG as it is.
pub proof fn law_accepting_again_changes_nothing(
    dag: DagModel,
    blocks: Seq<VerifiedBlock>,
    committee: Committee,
)
    requires
        forall|j: int| 0 <= j < blocks.len() ==> (#[trigger] blocks[j]).block().round < u32::MAX,
    ensures
        dag.accept_all(blocks, committee).accept_all(blocks, committee) == dag.accept_all(
            blocks,
            committee,
        ),
{
    let once = dag.accept_all(blocks, committee);
    let twice = once.accept_all(blocks, committee);
    law_accept_adds_the_blocks(dag, blocks, committee);
    law_accept_adds_the_blocks(once, blocks, committee);
    assert forall|j: int| 0 <= j < blocks.len() implies counted(
        once.clock,
        (#[trigger] blocks[j]).spec_ref(),
        committee,
    ) by {
        lemma_counted(dag, blocks, committee, j);
    }
    lemma_counted_stays(once, blocks, committee);
    assert forall|r: BlockRef| #[trigger] twice.stored.contains_key(r)
        <==> once.stored.contains_key(r) by {}
    assert forall|r: BlockRef| #[trigger] twice.stored.contains_key(r) implies twice.stored[r]
        == once.stored[r] by {
        assert(once.stored.contains_key(r));
    }
    assert(twice.stored =~= once.stored);
    assert(twice =~= once);
}

/// Whatever the order in which blocks arrive, the clock shows round 1 as long as there is only
/// genesis, then the highest round, and the round after it once the authorities with a block
/// there are a quorum. It never goes back.
pub proof fn law_clock_follows_highest_round(
    dag: DagModel,
    blocks: Seq<VerifiedBlock>,
    committee: Committee,
)
    requires
        dag.valid(committee),
        dag.clock == dag.due_clock(committee),
        forall|j: int| 0 <= j < blocks.len() ==> dag.admits(#[trigger] blocks[j], committee),
    ensures
        ({
            let after = dag.accept_all(blocks, committee);
            &&& after.valid(committee)
            &&& after.clock == after.due_clock(committee)
            &&& after.highest <= after.clock.round <= after.highest + 1
            &&& after.clock.round >= dag.clock.round >= 1
        }),
    decreases blocks.len(),
{
    if blocks.len() > 0 {
        let front = blocks.drop_last();
        let last = blocks.last();
        assert forall|j: int| 0 <= j < front.len() implies dag.admits(
            #[trigger] front[j],
            committee,
        ) by {
            assert(front[j] == blocks[j]);
        }
        assert(dag.admits(blocks[blocks.len() - 1], committee));
        law_clock_follows_highest_round(dag, front, committee);
        law_accept_adds_the_blocks(dag, front, committee);
        let before = dag.accept_all(front, committee);
        assert(before.admits(last, committee));
        lemma_accept_keeps_clock(before, last, committee);
        let after = dag.accept_all(blocks, committee);
        assert(after.stored.dom() =~= before.stored.dom().insert(last.spec_ref()));
        assert forall|r: BlockRef| #[trigger] after.stored.contains_key(r) implies {
            &&& committee.has(r.author)
            &&& r.round <= after.highest
            &&& r.round == 0 ==> after.committed.contains(r)
            &&& after.stored[r].spec_ref() == r
        } by {
            if r != last.spec_ref() {
                assert(before.stored.contains_key(r));
            } else if r.round == 0 {
                assert(before.stored.contains_key(r));
            }
        }
    }
}

/// One change to a DAG.
pub enum DagStep {
    /// Blocks are accepted.
    Accept(Seq<VerifiedBlock>),
    /// A leader is committed, with this commit as the result.
    Commit(VerifiedBlock, CommittedSubDag),
}

impl DagStep {
    /// The DAG once the step is taken on `dag`.
    pub open spec fn taken(self, dag: DagModel, committee: Committee) -> DagModel {
        match self {
            DagStep::Accept(blocks) => dag.accept_all(blocks, committee),
            DagStep::Commit(leader, subdag) => sealed(dag, leader).record(subdag),
        }
    }

    /// Whether the step can be taken on `dag`.
    pub open spec fn possible(self, dag: DagModel, committee: Committee) -> bool {
        match self {
            DagStep::Accept(blocks) => forall|j: int|
                0 <= j < blocks.len() ==> dag.admits(#[trigger] blocks[j], committee),
            DagStep::Commit(leader, subdag) => {
                &&& leader.block().round > 0
                &&& history_stored(dag, leader)
                &&& !dag.committed.contains(leader.spec_ref())
                &&& dag.last_index < u32::MAX
                &&& is_commit_of(subdag, dag, leader)
            },
        }
    }
}

/// The DAG once `steps` are taken one after the other.
pub open spec fn after_steps(dag: DagModel, steps: Seq<DagStep>, committee: Committee) -> DagModel
    decreases steps.len(),
{
    if steps.len() == 0 {
        dag
    } else {
        steps.last().taken(after_steps(dag, steps.drop_last(), committee), committee)
    }
}

/// Whether each of `steps` can be taken on what those before it give.
pub open spec fn all_possible(dag: DagModel, steps: Seq<DagStep>, committee: Committee) -> bool
    decreases steps.len(),
{
    steps.len() > 0 ==> {
        &&& all_possible(dag, steps.drop_last(), committee)
        &&& steps.last().possible(after_steps(dag, steps.drop_last(), committee), committee)
    }
}

/// The commits among `steps`, in order.
pub open spec fn commits_of(steps: Seq<DagStep>) -> Seq<CommittedSubDag>
    decreases steps.len(),
{
    if steps.len() == 0 {
        Seq::empty()
    } else {
        let before = commits_of(steps.drop_last());
        match steps.last() {
            DagStep::Accept(_) => before,
            DagStep::Commit(_, subdag) => before.push(subdag),
        }
    }
}

/// Whether one of `commits` holds the block with the reference `x`.
pub open spec fn holds_ref(commits: Seq<CommittedSubDag>, x: BlockRef) -> bool {
    exists|j: int| 0 <= j < commits.len() && has_ref((#[trigger] commits[j]).blocks@, x)
}

/// However blocks are accepted and leaders committed on a DAG that starts from genesis: the
/// commits are numbered from 1 without a gap, and the last number is their count; their
/// timestamps never decrease; what is committed is genesis and what the commits hold; and no
/// block occurs in two of them or twice in one. The clock shows what the blocks of the highest
/// round make it due to show.
pub proof fn law_commits_in_sequence(dag: DagModel, steps: Seq<DagStep>, committee: Committee)
    requires
        is_initial(dag, committee),
        dag.valid(committee),
        all_possible(dag, steps, committee),
    ensures
        ({
            let end = after_steps(dag, steps, committee);
            let commits = commits_of(steps);
            &&& end.valid(committee)
            &&& end.clock == end.due_clock(committee)
            &&& end.last_index == commits.len()
            &&& forall|j: int|
                0 <= j < commits.len() ==> (#[trigger] commits[j]).commit_ref.index == j + 1
            &&& forall|i: int, j: int|
                0 <= i <= j < commits.len() ==> (#[trigger] commits[i]).timestamp_ms <= (
                #[trigger] commits[j]).timestamp_ms
            &&& end.last_timestamp == if commits.len() == 0 {
                0
            } else {
                commits.last().timestamp_ms
            }
            &&& forall|x: BlockRef| #[trigger]
                end.committed.contains(x) <==> dag.stored.contains_key(x) || holds_ref(commits, x)
            &&& forall|j: int| 0 <= j < commits.len() ==> distinct((#[trigger] commits[j]).blocks@)
            &&& forall|i: int, j: int, x: BlockRef|
                0 <= i < j < commits.len() && #[trigger] has_ref(commits[i].blocks@, x)
                    ==> !#[trigger] has_ref(commits[j].blocks@, x)
        }),
    decreases steps.len(),
{
    let commits = commits_of(steps);
    if steps.len() == 0 {
        assert forall|x: BlockRef| !holds_ref(commits, x) by {}
    } else {
        let front = steps.drop_last();
        law_commits_in_sequence(dag, front, committee);
        let before = after_steps(dag, front, committee);
        let end = after_steps(dag, steps, committee);
        let earlier = commits_of(front);
        match steps.last() {
            DagStep::Accept(blocks) => {
                law_clock_follows_highest_round(before, blocks, committee);
                law_accept_adds_the_blocks(before, blocks, committee);
            },
            DagStep::Commit(leader, subdag) => {
                law_commit_marks_its_blocks(before, leader);
                assert(is_commit_of(subdag, before, leader));
                let last = earlier.len() as int;
                assert(commits[last] == subdag);
                assert forall|x: BlockRef| #[trigger] holds_ref(commits, x) <==> holds_ref(
                    earlier,
                    x,
                ) || has_ref(subdag.blocks@, x) by {
                    if holds_ref(earlier, x) {
                        let j = choose|j: int|
                            0 <= j < earlier.len() && has_ref((#[trigger] earlier[j]).blocks@, x);
                        assert(commits[j] == earlier[j]);
                    }
                    if has_ref(subdag.blocks@, x) {
                        assert(has_ref(commits[last].blocks@, x));
                    }
                    if holds_ref(commits, x) {
                        let j = choose|j: int|
                            0 <= j < commits.len() && has_ref((#[trigger] commits[j]).blocks@, x);
                        if j < last {
                            assert(earlier[j] == commits[j]);
                        }
                    }
                }
                assert forall|i: int, j: int, x: BlockRef|
                    0 <= i < j < commits.len() && #[trigger] has_ref(
                        commits[i].blocks@,
                        x,
                    ) implies !#[trigger] has_ref(commits[j].blocks@, x) by {
                    assert(earlier[i] == commits[i]);
                    if j == last {
                        assert(holds_ref(earlier, x));
                        assert(before.committed.contains(x));
                    } else {
                        assert(earlier[j] == commits[j]);
                    }
                }
                assert forall|i: int, j: int| 0 <= i <= j < commits.len() implies (
                #[trigger] commits[i]).timestamp_ms <= (#[trigger] commits[j]).timestamp_ms by {
                    if i < last {
                        assert(earlier[i] == commits[i]);
                        assert(earlier[i].timestamp_ms <= earlier[last - 1].timestamp_ms);
                        if j < last {
                            assert(earlier[j] == commits[j]);
                        }
                    }
                }
            },
        }
    }
}

/// Which blocks of a slot or a round are open: exactly the stored ones that are not committed, in
/// the order of their references.
pub proof fn law_open_blocks(dag: DagModel, slot: Slot, round: Round, committee: Committee)
    requires
        dag.valid(committee),
    ensures
        forall|b: VerifiedBlock| #[trigger]
            dag.open_at_slot(slot).contains(b) <==> dag.stored.contains_key(b.spec_ref())
                && dag.stored[b.spec_ref()] == b && !dag.committed.contains(b.spec_ref())
                && b.block().round == slot.round && b.block().author == slot.authority,
        forall|b: VerifiedBlock| #[trigger]
            dag.open_at_round(round).contains(b) <==> dag.stored.contains_key(b.spec_ref())
                && dag.stored[b.spec_ref()] == b && !dag.committed.contains(b.spec_ref())
                && b.block().round == round,
        forall|i: int, j: int|
            0 <= i < j < dag.open_at_slot(slot).len() ==> (#[trigger] dag.open_at_slot(
                slot,
            )[i]).spec_ref().precedes((#[trigger] dag.open_at_slot(slot)[j]).spec_ref()),
        forall|i: int, j: int|
            0 <= i < j < dag.open_at_round(round).len() ==> (#[trigger] dag.open_at_round(
                round,
            )[i]).spec_ref().precedes((#[trigger] dag.open_at_round(round)[j]).spec_ref()),
{
    lemma_fetched_blocks(dag, dag.open_refs_at_slot(slot), committee);
    lemma_fetched_blocks(dag, dag.open_refs_at_round(round), committee);
}

/// Which ancestors of a block at a round there are: exactly the stored ones that it leads to, in the
/// order of their references.
pub proof fn law_ancestors_at_round(
    dag: DagModel,
    block: VerifiedBlock,
    round: Round,
    committee: Committee,
)
    requires
        dag.valid(committee),
    ensures
        forall|b: VerifiedBlock| #[trigger]
            dag.ancestors(block, round).contains(b) <==> dag.stored.contains_key(b.spec_ref())
                && dag.stored[b.spec_ref()] == b && b.block().round == round && leads_to(
                dag.stored,
                block,
                b.spec_ref(),
            ),
        forall|i: int, j: int|
            0 <= i < j < dag.ancestors(block, round).len() ==> (#[trigger] dag.ancestors(
                block,
                round,
            )[i]).spec_ref().precedes((#[trigger] dag.ancestors(block, round)[j]).spec_ref()),
{
    lemma_fetched_blocks(dag, dag.ancestor_refs(block, round), committee);
}

proof fn lemma_fetched_blocks(dag: DagModel, refs: Set<BlockRef>, committee: Committee)
    requires
        dag.valid(committee),
        forall|r: BlockRef| #[trigger] refs.contains(r) ==> dag.stored.contains_key(r),
    ensures
        ({
            let out = dag.fetched(in_order(refs));
            &&& forall|b: VerifiedBlock| #[trigger]
                out.contains(b) <==> refs.contains(b.spec_ref()) && dag.stored[b.spec_ref()] == b
            &&& forall|i: int, j: int|
                0 <= i < j < out.len() ==> (#[trigger] out[i]).spec_ref().precedes(
                    (#[trigger] out[j]).spec_ref(),
                )
        }),
{
    assert(refs.subset_of(dag.stored.dom()));
    dag.lemma_fetched(refs);
    let out = dag.fetched(in_order(refs));
    assert forall|b: VerifiedBlock| #[trigger] out.contains(b) <==> refs.contains(b.spec_ref())
        && dag.stored[b.spec_ref()] == b by {
        if out.contains(b) {
            let i = out.index_of(b);
            assert(refs.contains(out[i].spec_ref()));
        }
        if refs.contains(b.spec_ref()) && dag.stored[b.spec_ref()] == b {
            assert(has_ref(out, b.spec_ref()));
            let i = choose|i: int|
                0 <= i < out.len() && (#[trigger] out[i]).spec_ref() == b.spec_ref();
            assert(out[i] == b);
        }
    }
    assert forall|i: int, j: int| 0 <= i < j < out.len() implies (
    #[trigger] out[i]).spec_ref().precedes((#[trigger] out[j]).spec_ref()) by {
        assert(refs_of(out)[i].precedes(refs_of(out)[j]));
    }
}

/// Whether `who` are the authors of the stored blocks at `round`.
pub open spec fn are_authors_at(stored: Store, round: Round, who: Set<AuthorityIndex>) -> bool {
    &&& forall|r: BlockRef| #[trigger]
        stored.contains_key(r) && r.round == round ==> who.contains(r.author)
    &&& forall|a: AuthorityIndex| #[trigger]
        who.contains(a) ==> exists|r: BlockRef| #[trigger]
            stored.contains_key(r) && r.round == round && r.author == a
}

/// What the clock of a DAG shows: round 1 as long as there is only genesis; then the round after the
/// highest one if the authors of the blocks there hold all stake but what may be faulty, and else
/// the highest one.
pub proof fn law_clock_round(
    dag: DagModel,
    blocks: Seq<VerifiedBlock>,
    committee: Committee,
    who: Set<AuthorityIndex>,
)
    requires
        is_initial(dag, committee),
        dag.valid(committee),
        forall|j: int| 0 <= j < blocks.len() ==> dag.admits(#[trigger] blocks[j], committee),
        are_authors_at(
            dag.accept_all(blocks, committee).stored,
            dag.accept_all(blocks, committee).highest,
            who,
        ),
    ensures
        ({
            let after = dag.accept_all(blocks, committee);
            let total = stake_total(committee.members());
            let quorum = stake_of(committee.members(), who) >= total - (total - 1) / 3;
            &&& after.highest == 0 ==> after.clock.round == 1
            &&& after.highest > 0 && total > 0 ==> after.clock.round == if quorum {
                after.highest + 1
            } else {
                after.highest as int
            }
        }),
{
    law_clock_follows_highest_round(dag, blocks, committee);
    let after = dag.accept_all(blocks, committee);
    let authors = authors_at(after.stored, after.highest);
    assert forall|a: AuthorityIndex| authors.contains(a) <==> who.contains(a) by {
        if who.contains(a) {
            assert(has_author_at(after.stored, after.highest, a));
        }
    }
    assert(authors =~= who);
}

/// Which blocks are admitted: those by a member, below the last round, and not of the genesis round
/// unless stored already.
pub proof fn law_who_is_admitted(dag: DagModel, block: VerifiedBlock, committee: Committee)
    ensures
        dag.admits(block, committee) <==> block.block().author.0 < committee.members().len()
            && block.block().round < u32::MAX && (block.block().round > 0
            || dag.stored.contains_key(block.spec_ref())),
{
}

/// A recorded commit is the last one, in index, digest, timestamp and leader round, and changes
/// nothing else.
pub proof fn law_recorded_commit_is_the_last(dag: DagModel, subdag: CommittedSubDag)
    ensures
        dag.record(subdag).last_index == subdag.commit_ref.index,
        dag.record(subdag).last_digest == subdag.commit_ref.digest,
        dag.record(subdag).last_timestamp == subdag.timestamp_ms,
        dag.record(subdag).last_round == subdag.leader.round,
        dag.record(subdag).stored == dag.stored,
        dag.record(subdag).committed == dag.committed,
        dag.record(subdag).clock == dag.clock,
        dag.record(subdag).highest == dag.highest,
{
}

/// What a new DAG holds: for each member one block of the genesis round without ancestors, nothing
/// else, all of it committed; and it stands at the beginning in every other respect.
pub proof fn law_new_dag_holds_genesis(dag: DagModel, committee: Committee, r: BlockRef, i: int)
    requires
        is_initial(dag, committee),
    ensures
        dag.stored.contains_key(r) ==> r.round == 0 && r.author.0 < committee.members().len()
            && dag.stored[r].parents().len() == 0,
        0 <= i < committee.members().len() ==> exists|x: BlockRef| #[trigger]
            dag.stored.contains_key(x) && x.author.0 == i,
        dag.committed.contains(r) <==> dag.stored.contains_key(r),
        dag.clock.round == 1,
        dag.clock.voters == Set::<AuthorityIndex>::empty(),
        dag.highest == 0,
        dag.last_index == 0,
        dag.last_timestamp == 0,
        dag.last_round == 0,
{
    if 0 <= i < committee.members().len() {
        assert(has_block_of(dag, i));
    }
}

/// A commit names its leader, and its digest is that of its index and its leader: index and round in
/// four bytes each, the author in four, and the leader's digest.
pub proof fn law_commit_digest(subdag: CommittedSubDag, dag: DagModel, leader: VerifiedBlock)
    requires
        is_commit_of(subdag, dag, leader),
        dag.last_index < u32::MAX,
    ensures
        subdag.leader == leader.spec_ref(),
        subdag.commit_ref.digest.0@ == sha3_256(
            le_bytes(subdag.commit_ref.index as nat, 4) + le_bytes(
                leader.block().round as nat,
                4,
            ) + le_bytes(leader.block().author.0 as nat, 4) + leader.spec_digest().0@,
        ),
{
}

} // verus!
