//! Suspending blocks until their causal history is available.

use std::sync::Arc;

use vstd::prelude::*;

use crate::causal::{complete, distinct, has_ref, history_present, points_back};
use crate::commit::refs_of;
use crate::committee::Committee;
use crate::context::Context;
use crate::dag_state::{lemma_accept_concat, DagModel, DagState};
use crate::ordered::{in_order, lemma_orderable, ordered, RefMap, RefSet};
use crate::stable_sort::{lemma_sorted_by_rank, sort_by_rank, sorted_by_rank};
use crate::types::{
    lemma_precedes_irreflexive, lemma_precedes_transitive, BlockRef, Round, VerifiedBlock,
    GENESIS_ROUND,
};

verus! {

/// Blocks by reference.
pub type Waiting = Map<BlockRef, VerifiedBlock>;

/// The ancestors of `b` that are not known. Those of the genesis round always are.
pub open spec fn lacks(b: VerifiedBlock, known: Set<BlockRef>) -> Set<BlockRef> {
    Set::new(|p: BlockRef| b.parents().contains(p) && p.round > GENESIS_ROUND && !known.contains(p))
}

/// Whether all ancestors of `b` are known.
pub open spec fn supplied(b: VerifiedBlock, known: Set<BlockRef>) -> bool {
    forall|p: BlockRef| #[trigger]
        b.parents().contains(p) && p.round > GENESIS_ROUND ==> known.contains(p)
}

/// Whether the block that waits under `r` waits for nothing any more.
pub open spec fn ready(waiting: Waiting, known: Set<BlockRef>, r: BlockRef) -> bool {
    waiting.contains_key(r) && supplied(waiting[r], known)
}

/// Whether `r` is the first in reference order that is ready.
pub open spec fn leads_ready(waiting: Waiting, known: Set<BlockRef>, r: BlockRef) -> bool {
    &&& ready(waiting, known, r)
    &&& forall|o: BlockRef| #[trigger] ready(waiting, known, o) && o != r ==> r.precedes(o)
}

/// The first block in reference order that is ready.
pub open spec fn first_ready(waiting: Waiting, known: Set<BlockRef>) -> BlockRef {
    choose|r: BlockRef| leads_ready(waiting, known, r)
}

/// The blocks that can be released, each once its whole history is known or released
/// before it: again and again the first one that is ready.
pub open spec fn released(waiting: Waiting, known: Set<BlockRef>) -> Seq<VerifiedBlock>
    decreases waiting.dom().len(),
    when waiting.dom().finite()
{
    let r = first_ready(waiting, known);
    if ready(waiting, known, r) {
        seq![waiting[r]] + released(waiting.remove(r), known.insert(r))
    } else {
        Seq::empty()
    }
}

/// The blocks that go on waiting after the release.
pub open spec fn unreleased(waiting: Waiting, known: Set<BlockRef>) -> Waiting
    decreases waiting.dom().len(),
    when waiting.dom().finite()
{
    let r = first_ready(waiting, known);
    if ready(waiting, known, r) {
        unreleased(waiting.remove(r), known.insert(r))
    } else {
        waiting
    }
}

/// What a block manager holds back.
#[verifier::ext_equal]
pub struct Pool {
    /// The suspended blocks.
    pub waiting: Waiting,
    /// References found missing and not fetched since.
    pub missing: Set<BlockRef>,
}

/// A DAG and the blocks held back from it.
#[verifier::ext_equal]
pub struct Intake {
    pub dag: DagModel,
    pub pool: Pool,
}

impl Intake {
    /// The references that are stored.
    pub open spec fn known(self) -> Set<BlockRef> {
        self.dag.stored.dom()
    }

    /// Whether `block` can be accepted at once.
    pub open spec fn acceptable(self, block: VerifiedBlock) -> bool {
        !self.dag.stored.contains_key(block.spec_ref()) && supplied(block, self.known())
    }

    /// The blocks that enter the DAG with `block`: itself, and whatever waited for it.
    pub open spec fn batch(self, block: VerifiedBlock) -> Seq<VerifiedBlock> {
        seq![block] + released(
            self.pool.waiting.remove(block.spec_ref()),
            self.known().insert(block.spec_ref()),
        )
    }

    /// The state once `block` and whatever waited for it are in the DAG.
    pub open spec fn let_in(self, block: VerifiedBlock, committee: Committee) -> Intake {
        Intake {
            dag: self.dag.accept_all(self.batch(block), committee),
            pool: Pool {
                waiting: unreleased(
                    self.pool.waiting.remove(block.spec_ref()),
                    self.known().insert(block.spec_ref()),
                ),
                missing: self.pool.missing.remove(block.spec_ref()),
            },
        }
    }

    /// The references that suspending `block` finds missing.
    pub open spec fn unfetched(self, block: VerifiedBlock) -> Set<BlockRef> {
        lacks(block, self.known()).difference(
            self.pool.waiting.dom().insert(block.spec_ref()),
        )
    }

    /// The state once `block` is suspended.
    pub open spec fn suspend(self, block: VerifiedBlock) -> Intake {
        Intake {
            dag: self.dag,
            pool: Pool {
                waiting: self.pool.waiting.insert(block.spec_ref(), block),
                missing: self.pool.missing.remove(block.spec_ref()).union(self.unfetched(block)),
            },
        }
    }

    /// The state once `block` has been offered: a stored block changes nothing, one whose
    /// history is stored is let in, any other is suspended.
    pub open spec fn offer(self, block: VerifiedBlock, committee: Committee) -> Intake {
        if self.dag.stored.contains_key(block.spec_ref()) {
            self
        } else if supplied(block, self.known()) {
            self.let_in(block, committee)
        } else {
            self.suspend(block)
        }
    }

    /// The blocks that enter the DAG when `block` is offered.
    pub open spec fn accepted_from(self, block: VerifiedBlock) -> Seq<VerifiedBlock> {
        if self.acceptable(block) {
            self.batch(block)
        } else {
            Seq::empty()
        }
    }

    /// The references reported missing when `block` is offered.
    pub open spec fn missing_from(self, block: VerifiedBlock) -> Set<BlockRef> {
        if self.dag.stored.contains_key(block.spec_ref()) || supplied(block, self.known()) {
            Set::empty()
        } else {
            self.unfetched(block)
        }
    }

    /// The state once `blocks` have been offered one after the other.
    pub open spec fn offer_all(self, blocks: Seq<VerifiedBlock>, committee: Committee) -> Intake
        decreases blocks.len(),
    {
        if blocks.len() == 0 {
            self
        } else {
            self.offer_all(blocks.drop_last(), committee).offer(blocks.last(), committee)
        }
    }

    /// The blocks that enter the DAG when `blocks` are offered one after the other.
    pub open spec fn accepted_from_all(
        self,
        blocks: Seq<VerifiedBlock>,
        committee: Committee,
    ) -> Seq<VerifiedBlock>
        decreases blocks.len(),
    {
        if blocks.len() == 0 {
            Seq::empty()
        } else {
            self.accepted_from_all(blocks.drop_last(), committee) + self.offer_all(
                blocks.drop_last(),
                committee,
            ).accepted_from(blocks.last())
        }
    }

    /// The references reported missing when `blocks` are offered one after the other.
    pub open spec fn missing_from_all(
        self,
        blocks: Seq<VerifiedBlock>,
        committee: Committee,
    ) -> Set<BlockRef>
        decreases blocks.len(),
    {
        if blocks.len() == 0 {
            Set::empty()
        } else {
            self.missing_from_all(blocks.drop_last(), committee).union(
                self.offer_all(blocks.drop_last(), committee).missing_from(blocks.last()),
            )
        }
    }

    /// The state once `block`, known to be committed, has been taken in.
    pub open spec fn take(self, block: VerifiedBlock, committee: Committee) -> Intake {
        if self.dag.stored.contains_key(block.spec_ref()) {
            self
        } else {
            self.let_in(block, committee)
        }
    }

    /// The blocks that enter the DAG when the committed `block` is taken in.
    pub open spec fn taken_from(self, block: VerifiedBlock) -> Seq<VerifiedBlock> {
        if self.dag.stored.contains_key(block.spec_ref()) {
            Seq::empty()
        } else {
            self.batch(block)
        }
    }

    /// The state once `blocks`, known to be committed, have been taken in.
    pub open spec fn take_all(self, blocks: Seq<VerifiedBlock>, committee: Committee) -> Intake
        decreases blocks.len(),
    {
        if blocks.len() == 0 {
            self
        } else {
            self.take_all(blocks.drop_last(), committee).take(blocks.last(), committee)
        }
    }

    /// The blocks that enter the DAG when the committed `blocks` are taken in.
    pub open spec fn taken_from_all(
        self,
        blocks: Seq<VerifiedBlock>,
        committee: Committee,
    ) -> Seq<VerifiedBlock>
        decreases blocks.len(),
    {
        if blocks.len() == 0 {
            Seq::empty()
        } else {
            self.taken_from_all(blocks.drop_last(), committee) + self.take_all(
                blocks.drop_last(),
                committee,
            ).taken_from(blocks.last())
        }
    }

    /// What holds between two calls: every waiting block is fit for the DAG but lacks some
    /// ancestor, what it lacks is waiting too or has been found missing, and nothing that
    /// is stored or waiting counts as missing.
    pub open spec fn settled(self, committee: Committee) -> bool {
        &&& self.pool.waiting.dom().finite()
        &&& forall|r: BlockRef| #[trigger]
            self.pool.waiting.contains_key(r) ==> {
                let b = self.pool.waiting[r];
                &&& b.spec_ref() == r
                &&& committee.has(r.author)
                &&& 0 < r.round < u32::MAX
                &&& !self.dag.stored.contains_key(r)
                &&& !supplied(b, self.known())
                &&& lacks(b, self.known()).subset_of(
                    self.pool.missing.union(self.pool.waiting.dom()),
                )
                &&& !self.pool.missing.contains(r)
            }
        &&& forall|r: BlockRef| #[trigger]
            self.pool.missing.contains(r) ==> !self.dag.stored.contains_key(r)
    }
}

/// Round of a block as a sorting rank.
pub open spec fn round_rank() -> spec_fn(VerifiedBlock) -> nat {
    |b: VerifiedBlock| b.block().round as nat
}

/// `blocks` by ascending round, those of one round in the order given.
pub open spec fn by_round(blocks: Seq<VerifiedBlock>) -> Seq<VerifiedBlock> {
    sorted_by_rank(blocks, round_rank())
}

/// The references under which a block is ready.
spec fn ready_set(waiting: Waiting, known: Set<BlockRef>) -> Set<BlockRef> {
    Set::new(|r: BlockRef| ready(waiting, known, r))
}

proof fn lemma_supplied(b: VerifiedBlock, known: Set<BlockRef>)
    ensures
        supplied(b, known) <==> lacks(b, known) == Set::<BlockRef>::empty(),
{
    if supplied(b, known) {
        assert(lacks(b, known) =~= Set::<BlockRef>::empty());
    }
    if lacks(b, known) == Set::<BlockRef>::empty() {
        assert forall|p: BlockRef| #[trigger]
            b.parents().contains(p) && p.round > GENESIS_ROUND implies known.contains(p) by {
            assert(!lacks(b, known).contains(p));
        }
    }
}

proof fn lemma_lacks_less(b: VerifiedBlock, known: Set<BlockRef>, r: BlockRef)
    ensures
        lacks(b, known.insert(r)) == lacks(b, known).remove(r),
{
    assert(lacks(b, known.insert(r)) =~= lacks(b, known).remove(r));
}

/// The first reference that is ready is the only one that leads all others.
proof fn lemma_first_ready(waiting: Waiting, known: Set<BlockRef>, r: BlockRef)
    requires
        leads_ready(waiting, known, r),
    ensures
        first_ready(waiting, known) == r,
{
    let chosen = first_ready(waiting, known);
    assert(leads_ready(waiting, known, chosen));
    if chosen != r {
        lemma_precedes_transitive(r, chosen, r);
        lemma_precedes_irreflexive(r);
    }
}

/// A block and the ancestors it waits for.
#[derive(Debug)]
pub struct SuspendedBlock {
    pub(crate) block: VerifiedBlock,
    pub(crate) missing_ancestors: RefSet,
}

impl SuspendedBlock {
    pub(crate) fn new(block: VerifiedBlock, missing_ancestors: RefSet) -> (r: Self)
        ensures
            r.block == block,
            r.missing_ancestors == missing_ancestors,
    {
        SuspendedBlock { block, missing_ancestors }
    }
}

/// What became of one block.
#[derive(Debug)]
pub enum TryAcceptResult {
    Accepted(VerifiedBlock),
    Suspended(RefSet),
    Processed,
}

/// Whether `block` may be offered: by a member, not of the genesis round unless it is a
/// genesis block, and below the last round number.
pub open spec fn fit(dag: DagModel, committee: Committee, block: VerifiedBlock) -> bool {
    dag.admits(block, committee)
}

/// Suspends incoming blocks until their full causal history is available, then returns
/// them in causally-ordered batches as they are added to the DAG.
#[derive(Debug)]
pub struct BlockManager {
    pub(crate) context: Arc<Context>,
    // Blocks waiting for missing ancestors.
    pub(crate) suspended_blocks: RefMap<SuspendedBlock>,
    // Missing ancestor -> suspended blocks that need it.
    pub(crate) missing_ancestors: RefMap<RefSet>,
    // The missing ancestors not yet fetched, that is, not suspended either.
    pub(crate) missing_blocks: RefSet,
}

impl View for BlockManager {
    type V = Pool;

    open(crate) spec fn view(&self) -> Pool {
        Pool { waiting: self.waiting(), missing: self.missing_blocks@ }
    }
}

impl BlockManager {
    pub open(crate) spec fn spec_committee(&self) -> Committee {
        *self.context.committee
    }

    pub open(crate) spec fn waiting(&self) -> Waiting {
        Map::new(
            |r: BlockRef| self.suspended_blocks@.contains_key(r),
            |r: BlockRef| self.suspended_blocks@[r].block,
        )
    }

    /// The suspended blocks registered as waiting for `a`.
    pub(crate) open(crate) spec fn registered(&self, a: BlockRef) -> Set<BlockRef> {
        if self.missing_ancestors@.contains_key(a) {
            self.missing_ancestors@[a]@
        } else {
            Set::empty()
        }
    }

    /// Each suspended block records what it lacks, and is registered for exactly that.
    pub(crate) open(crate) spec fn tracks(&self, known: Set<BlockRef>) -> bool {
        &&& self.suspended_blocks.wf()
        &&& self.missing_ancestors.wf()
        &&& self.missing_blocks.wf()
        &&& forall|r: BlockRef| #[trigger]
            self.suspended_blocks@.contains_key(r) ==> {
                let s = self.suspended_blocks@[r];
                &&& s.missing_ancestors.wf()
                &&& s.missing_ancestors@ == lacks(s.block, known)
                &&& s.block.spec_ref() == r
            }
        &&& forall|a: BlockRef| #[trigger]
            self.missing_ancestors@.contains_key(a) ==> self.missing_ancestors@[a].wf()
        &&& forall|a: BlockRef, r: BlockRef| #[trigger]
            self.registered(a).contains(r) <==> self.needs(r, a, known)
    }

    /// Whether the block suspended under `r` lacks `a`.
    pub(crate) open(crate) spec fn needs(
        &self,
        r: BlockRef,
        a: BlockRef,
        known: Set<BlockRef>,
    ) -> bool {
        &&& self.suspended_blocks@.contains_key(r)
        &&& lacks(self.suspended_blocks@[r].block, known).contains(a)
    }

    /// The suspended blocks are in order.
    pub open(crate) spec fn kept(&self) -> bool {
        &&& self.context.wf()
        &&& self.suspended_blocks.wf()
    }

    /// What each suspended block lacks is tracked.
    pub open(crate) spec fn keeps_track(&self, dag: DagModel) -> bool {
        self.tracks(dag.stored.dom())
    }

    pub open spec fn wf(&self, dag: DagModel) -> bool {
        &&& self.kept()
        &&& self.keeps_track(dag)
        &&& (Intake { dag, pool: self@ }).settled(self.spec_committee())
    }

    pub fn new(context: Arc<Context>) -> (r: Self)
        requires
            context.wf(),
        ensures
            r@.waiting == Map::<BlockRef, VerifiedBlock>::empty(),
            r@.missing == Set::<BlockRef>::empty(),
            r.spec_committee() == *context.committee,
            forall|dag: DagModel| #[trigger] r.wf(dag),
    {
        let r = BlockManager {
            context,
            suspended_blocks: RefMap::new(),
            missing_ancestors: RefMap::new(),
            missing_blocks: RefSet::new(),
        };
        proof {
            assert(r@.waiting =~= Map::<BlockRef, VerifiedBlock>::empty());
            assert(r@.waiting.dom() =~= Set::<BlockRef>::empty());
        }
        r
    }

    /// Notes that `arrived` is present: those that waited for it wait for it no longer, and
    /// those that wait for nothing else go to `ready`.
    fn mark_present(
        &mut self,
        arrived: BlockRef,
        ready_refs: &mut RefSet,
        Ghost(known): Ghost<Set<BlockRef>>,
    )
        requires
            old(self).tracks(known),
            old(ready_refs).wf(),
            old(ready_refs)@ == ready_set(old(self).waiting(), known),
        ensures
            final(self).tracks(known.insert(arrived)),
            final(self).waiting() == old(self).waiting(),
            final(self).context == old(self).context,
            final(self).missing_blocks == old(self).missing_blocks,
            final(ready_refs).wf(),
            final(ready_refs)@ == ready_set(final(self).waiting(), known.insert(arrived)),
    {
        let ghost now = known.insert(arrived);
        let children = match self.missing_ancestors.remove(&arrived) {
            Some(children) => children,
            None => RefSet::new(),
        };
        let ghost refs = children.seq();
        proof {
            assert(children@ =~= old(self).registered(arrived));
        }
        let mut i: usize = 0;
        assert(self.waiting() =~= old(self).waiting());
        assert forall|r: BlockRef| #[trigger] ready_refs@.contains(r) <==> ready(
            self.waiting(),
            known,
            r,
        ) by {}
        while i < children.as_slice().len()
            invariant
                refs == children.seq(),
                children.wf(),
                i <= refs.len(),
                now == known.insert(arrived),
                old(self).tracks(known),
                children@ == old(self).registered(arrived),
                self.context == old(self).context,
                self.missing_blocks == old(self).missing_blocks,
                self.missing_ancestors@ == old(self).missing_ancestors@.remove(arrived),
                self.missing_ancestors.wf(),
                self.suspended_blocks.wf(),
                self.waiting() == old(self).waiting(),
                forall|r: BlockRef| #[trigger]
                    self.suspended_blocks@.contains_key(r)
                        <==> old(self).suspended_blocks@.contains_key(r),
                forall|r: BlockRef| #[trigger]
                    self.suspended_blocks@.contains_key(r) ==> {
                        let s = self.suspended_blocks@[r];
                        &&& s.missing_ancestors.wf()
                        &&& s.missing_ancestors@ == if refs.take(i as int).contains(r) {
                            lacks(s.block, now)
                        } else {
                            lacks(s.block, known)
                        }
                        &&& s.block == old(self).suspended_blocks@[r].block
                    },
                ready_refs.wf(),
                forall|r: BlockRef| #[trigger]
                    ready_refs@.contains(r) <==> ready(self.waiting(), known, r) || (
                    refs.take(i as int).contains(r) && ready(self.waiting(), now, r)),
            decreases refs.len() - i,
        {
            let child_ref = children.as_slice()[i];
            let ghost before = self.suspended_blocks@;
            proof {
                assert(refs[i as int] == child_ref);
                assert(children@.contains(child_ref));
                assert(old(self).needs(child_ref, arrived, known));
            }
            let ghost taken = refs.take(i as int);
            let ghost taking = refs.take(i + 1);
            proof {
                assert(taking =~= taken.push(child_ref));
                assert forall|r: BlockRef| #[trigger]
                    taking.contains(r) <==> taken.contains(r) || r == child_ref by {
                    if taken.contains(r) {
                        assert(taking[taken.index_of(r)] == r);
                    }
                    assert(taking[i as int] == child_ref);
                }
                crate::ordered::lemma_ordered_distinct(refs);
                if taken.contains(child_ref) {
                    let m = taken.index_of(child_ref);
                    assert(refs[m] == refs[i as int]);
                }
            }
            match self.suspended_blocks.remove(&child_ref) {
                Some(suspended) => {
                    let mut suspended = suspended;
                    suspended.missing_ancestors.remove(&arrived);
                    proof {
                        lemma_lacks_less(suspended.block, known, arrived);
                        lemma_supplied(suspended.block, now);
                        assert(self.waiting().dom() =~= old(self).waiting().dom().remove(
                            child_ref,
                        ));
                    }
                    if suspended.missing_ancestors.is_empty() {
                        ready_refs.insert(child_ref);
                    }
                    self.suspended_blocks.insert(child_ref, suspended);
                    proof {
                        assert(self.waiting() =~= old(self).waiting());
                        assert(ready(self.waiting(), now, child_ref) == supplied(
                            suspended.block,
                            now,
                        ));
                        assert(!supplied(suspended.block, known)) by {
                            lemma_supplied(suspended.block, known);
                            assert(lacks(suspended.block, known).contains(arrived));
                        }
                    }
                },
                None => {},
            }
            i += 1;
        }
        proof {
            assert(refs.take(refs.len() as int) =~= refs);
            assert forall|r: BlockRef| #[trigger]
                self.suspended_blocks@.contains_key(r) implies {
                let s = self.suspended_blocks@[r];
                &&& s.missing_ancestors.wf()
                &&& s.missing_ancestors@ == lacks(s.block, now)
                &&& s.block.spec_ref() == r
            } by {
                let s = self.suspended_blocks@[r];
                if !refs.contains(r) {
                    assert(!children@.contains(r));
                    assert(!old(self).registered(arrived).contains(r));
                    assert(!old(self).needs(r, arrived, known));
                    lemma_lacks_less(s.block, known, arrived);
                    assert(lacks(s.block, known).remove(arrived) =~= lacks(s.block, known));
                }
            }
            assert forall|a: BlockRef, r: BlockRef| #[trigger]
                self.registered(a).contains(r) <==> self.needs(r, a, now) by {
                if self.suspended_blocks@.contains_key(r) {
                    lemma_lacks_less(self.suspended_blocks@[r].block, known, arrived);
                }
                if a != arrived {
                    assert(self.registered(a) == old(self).registered(a));
                    assert(old(self).registered(a).contains(r) <==> old(self).needs(r, a, known));
                }
            }
            assert forall|r: BlockRef| #[trigger] ready_refs@.contains(r) <==> ready(
                self.waiting(),
                now,
                r,
            ) by {
                if self.waiting().contains_key(r) {
                    let b = self.waiting()[r];
                    lemma_lacks_less(b, known, arrived);
                    lemma_supplied(b, known);
                    lemma_supplied(b, now);
                    if lacks(b, known) == Set::<BlockRef>::empty() {
                        assert(lacks(b, now) =~= Set::<BlockRef>::empty());
                    }
                    if !refs.contains(r) {
                        assert(!children@.contains(r));
                        assert(!old(self).needs(r, arrived, known));
                        assert(lacks(b, now) =~= lacks(b, known));
                    }
                }
            }
            assert(ready_refs@ =~= ready_set(self.waiting(), now));
        }
    }

    /// Releases the blocks that were waiting for `newly_accepted`, which `dag` has just
    /// stored, and those that waited for them in turn. Each one is added to `dag`.
    fn try_unsuspend_children_blocks(
        &mut self,
        dag: &mut DagState,
        newly_accepted: BlockRef,
        Ghost(known): Ghost<Set<BlockRef>>,
    ) -> (r: Vec<VerifiedBlock>)
        requires
            old(dag).wf(),
            old(self).spec_committee() == old(dag).spec_committee(),
            old(self).tracks(known),
            old(dag)@.stored.dom() == known.insert(newly_accepted),
            forall|x: BlockRef| #[trigger]
                old(self).waiting().contains_key(x) ==> {
                    let b = old(self).waiting()[x];
                    &&& old(self).spec_committee().has(x.author)
                    &&& 0 < x.round < u32::MAX
                    &&& !old(dag)@.stored.contains_key(x)
                    &&& !supplied(b, known)
                },
        ensures
            final(dag).wf(),
            final(dag).spec_committee() == old(dag).spec_committee(),
            final(self).context == old(self).context,
            final(self).missing_blocks == old(self).missing_blocks,
            r@ == released(old(self).waiting(), old(dag)@.stored.dom()),
            final(dag)@ == old(dag)@.accept_all(r@, old(dag).spec_committee()),
            final(self).waiting() == unreleased(old(self).waiting(), old(dag)@.stored.dom()),
            final(self).tracks(final(dag)@.stored.dom()),
            old(self).waiting().dom().finite(),
            forall|x: BlockRef| #[trigger]
                final(self).waiting().contains_key(x) ==> {
                    &&& old(self).waiting().contains_key(x)
                    &&& final(self).waiting()[x] == old(self).waiting()[x]
                    &&& !final(dag)@.stored.contains_key(x)
                    &&& !supplied(final(self).waiting()[x], final(dag)@.stored.dom())
                },
            forall|x: BlockRef| #[trigger]
                old(self).waiting().contains_key(x) ==> final(self).waiting().contains_key(x)
                    || final(dag)@.stored.contains_key(x),
            forall|x: BlockRef| #[trigger]
                final(dag)@.stored.contains_key(x) ==> old(dag)@.stored.contains_key(x) || old(
                    self,
                ).waiting().contains_key(x),
            forall|x: BlockRef| #[trigger]
                old(dag)@.stored.contains_key(x) ==> final(dag)@.stored.contains_key(x),
    {
        let ghost committee = dag.spec_committee();
        let ghost known0 = dag@.stored.dom();
        let ghost waiting0 = self.waiting();
        let mut ready_refs = RefSet::new();
        proof {
            assert(ready_refs@ =~= ready_set(self.waiting(), known));
        }
        self.mark_present(newly_accepted, &mut ready_refs, Ghost(known));
        let mut out: Vec<VerifiedBlock> = Vec::new();
        proof {
            self.suspended_blocks.lemma_positions();
            assert(self.waiting().dom() =~= self.suspended_blocks@.dom());
        }
        loop
            invariant
                self.tracks(dag@.stored.dom()),
                self.context == old(self).context,
                self.missing_blocks == old(self).missing_blocks,
                dag.wf(),
                dag.spec_committee() == committee,
                self.spec_committee() == committee,
                self.waiting().dom().finite(),
                ready_refs.wf(),
                ready_refs@ == ready_set(self.waiting(), dag@.stored.dom()),
                dag@ == old(dag)@.accept_all(out@, committee),
                out@ + released(self.waiting(), dag@.stored.dom()) == released(waiting0, known0),
                unreleased(self.waiting(), dag@.stored.dom()) == unreleased(waiting0, known0),
                forall|x: BlockRef| #[trigger]
                    self.waiting().contains_key(x) ==> {
                        &&& waiting0.contains_key(x)
                        &&& self.waiting()[x] == waiting0[x]
                        &&& committee.has(x.author)
                        &&& 0 < x.round < u32::MAX
                        &&& !dag@.stored.contains_key(x)
                    },
                forall|x: BlockRef| #[trigger]
                    waiting0.contains_key(x) ==> self.waiting().contains_key(x)
                        || dag@.stored.contains_key(x),
                forall|x: BlockRef| #[trigger]
                    dag@.stored.contains_key(x) ==> known0.contains(x) || waiting0.contains_key(x),
                forall|x: BlockRef| #[trigger] known0.contains(x) ==> dag@.stored.contains_key(x),
            ensures
                ready_refs@ == Set::<BlockRef>::empty(),
                released(self.waiting(), dag@.stored.dom()).len() == 0,
                unreleased(self.waiting(), dag@.stored.dom()) == self.waiting(),
            decreases self.waiting().dom().len(),
        {
            let ghost waiting = self.waiting();
            let ghost known_now = dag@.stored.dom();
            let ghost queued = ready_refs@;
            let child_ref = match ready_refs.pop_first() {
                None => {
                    proof {
                        let r = first_ready(waiting, known_now);
                        assert(!queued.contains(r));
                    }
                    break;
                },
                Some(child_ref) => child_ref,
            };
            proof {
                assert(queued.contains(child_ref));
                assert(ready(waiting, known_now, child_ref));
                assert forall|o: BlockRef| #[trigger]
                    ready(waiting, known_now, o) && o != child_ref implies child_ref.precedes(
                    o,
                ) by {
                    assert(queued.contains(o));
                }
                lemma_first_ready(waiting, known_now, child_ref);
            }
            let ghost suspended_before = self.suspended_blocks@;
            let ghost entry = *self;
            match self.suspended_blocks.remove(&child_ref) {
                Some(suspended) => {
                    let block = suspended.block;
                    proof {
                        assert(suspended_before.contains_key(child_ref));
                        assert(block == waiting[child_ref]);
                        assert(block.spec_ref() == child_ref);
                        assert(self.waiting() =~= waiting.remove(child_ref));
                        lemma_supplied(block, known_now);
                        assert forall|a: BlockRef, r: BlockRef| #[trigger]
                            self.registered(a).contains(r) <==> self.needs(r, a, known_now) by {
                            assert(self.registered(a) == entry.registered(a));
                            assert(entry.registered(a).contains(r) <==> entry.needs(
                                r,
                                a,
                                known_now,
                            ));
                            if r == child_ref {
                                assert(!lacks(block, known_now).contains(a));
                            }
                        }
                        assert(self.tracks(known_now));
                        assert forall|r: BlockRef| #[trigger]
                            ready_refs@.contains(r) <==> ready(self.waiting(), known_now, r) by {}
                        assert(ready_refs@ =~= ready_set(self.waiting(), known_now));
                        assert(self.waiting().dom() =~= waiting.dom().remove(child_ref));
                    }
                    let ghost dag_before = dag@;
                    let ghost out_before = out@;
                    out.push(block.clone());
                    dag.accept_one(block);
                    proof {
                        assert(out@.drop_last() =~= out_before);
                        assert(out@.last() == block);
                        assert(dag@.stored.dom() =~= known_now.insert(child_ref));
                        assert(released(waiting, known_now) =~= seq![block] + released(
                            waiting.remove(child_ref),
                            known_now.insert(child_ref),
                        ));
                        assert(out@ + released(self.waiting(), dag@.stored.dom()) =~= out_before
                            + released(waiting, known_now));
                    }
                    self.mark_present(child_ref, &mut ready_refs, Ghost(known_now));
                },
                None => {
                    assert(false);
                },
            }
        }
        proof {
            assert(out@ =~= out@ + released(self.waiting(), dag@.stored.dom()));
            assert forall|x: BlockRef| #[trigger]
                self.waiting().contains_key(x) implies !supplied(
                self.waiting()[x],
                dag@.stored.dom(),
            ) by {
                assert(!ready_refs@.contains(x));
            }
        }
        out
    }

    /// Drops the block suspended under `r`, if there is one.
    fn forget(&mut self, r: &BlockRef, Ghost(known): Ghost<Set<BlockRef>>)
        requires
            old(self).tracks(known),
        ensures
            final(self).tracks(known),
            final(self).waiting() == old(self).waiting().remove(*r),
            final(self).context == old(self).context,
            final(self).missing_blocks == old(self).missing_blocks,
    {
        match self.suspended_blocks.remove(r) {
            None => {
                assert(self.waiting() =~= old(self).waiting().remove(*r));
                assert(self.suspended_blocks@ =~= old(self).suspended_blocks@);
                proof {
                    assert forall|a: BlockRef, x: BlockRef| #[trigger]
                        self.registered(a).contains(x) <==> self.needs(x, a, known) by {
                        assert(old(self).registered(a).contains(x) <==> old(self).needs(
                            x,
                            a,
                            known,
                        ));
                    }
                }
            },
            Some(suspended) => {
                let ghost refs = suspended.missing_ancestors.seq();
                let mut i: usize = 0;
                while i < suspended.missing_ancestors.as_slice().len()
                    invariant
                        refs == suspended.missing_ancestors.seq(),
                        i <= refs.len(),
                        self.context == old(self).context,
                        self.missing_blocks == old(self).missing_blocks,
                        self.suspended_blocks@ == old(self).suspended_blocks@.remove(*r),
                        self.suspended_blocks.wf(),
                        self.missing_ancestors.wf(),
                        forall|a: BlockRef| #[trigger]
                            self.missing_ancestors@.contains_key(a)
                                ==> self.missing_ancestors@[a].wf(),
                        forall|a: BlockRef| #[trigger]
                            self.registered(a) == if refs.take(i as int).contains(a) {
                                old(self).registered(a).remove(*r)
                            } else {
                                old(self).registered(a)
                            },
                    decreases refs.len() - i,
                {
                    let a = suspended.missing_ancestors.as_slice()[i];
                    let ghost taken = refs.take(i as int);
                    let ghost taking = refs.take(i + 1);
                    let ghost before = *self;
                    proof {
                        assert(taking =~= taken.push(a));
                        assert forall|x: BlockRef| #[trigger]
                            taking.contains(x) <==> taken.contains(x) || x == a by {
                            if taken.contains(x) {
                                assert(taking[taken.index_of(x)] == x);
                            }
                            assert(taking[i as int] == a);
                        }
                    }
                    match self.missing_ancestors.remove(&a) {
                        Some(children) => {
                            let mut children = children;
                            children.remove(r);
                            self.missing_ancestors.insert(a, children);
                            assert(self.registered(a) == before.registered(a).remove(*r));
                        },
                        None => {
                            assert(self.registered(a) =~= before.registered(a).remove(*r));
                        },
                    }
                    proof {
                        assert forall|x: BlockRef| #[trigger]
                            self.registered(x) == if taking.contains(x) {
                                old(self).registered(x).remove(*r)
                            } else {
                                old(self).registered(x)
                            } by {
                            if x != a {
                                assert(self.registered(x) == before.registered(x));
                            } else {
                                assert(before.registered(a) == if taken.contains(a) {
                                    old(self).registered(a).remove(*r)
                                } else {
                                    old(self).registered(a)
                                });
                                assert(before.registered(a).remove(*r) =~= old(self).registered(
                                    a,
                                ).remove(*r));
                            }
                        }
                    }
                    i += 1;
                }
                proof {
                    assert(refs.take(refs.len() as int) =~= refs);
                    assert(self.waiting() =~= old(self).waiting().remove(*r));
                    assert forall|a: BlockRef, x: BlockRef| #[trigger]
                        self.registered(a).contains(x) <==> self.needs(x, a, known) by {
                        assert(old(self).registered(a).contains(x) <==> old(self).needs(
                            x,
                            a,
                            known,
                        ));
                        if x == *r && !refs.contains(a) {
                            assert(!suspended.missing_ancestors@.contains(a));
                        }
                    }
                }
            },
        }
    }

    /// Takes `block` out of whatever the manager holds of it.
    fn take_out(&mut self, block_ref: &BlockRef, Ghost(known): Ghost<Set<BlockRef>>)
        requires
            old(self).tracks(known),
        ensures
            final(self).tracks(known),
            final(self).context == old(self).context,
            final(self)@ == (Pool {
                waiting: old(self)@.waiting.remove(*block_ref),
                missing: old(self)@.missing.remove(*block_ref),
            }),
    {
        self.forget(block_ref, Ghost(known));
        let ghost entry = *self;
        self.missing_blocks.remove(block_ref);
        proof {
            assert(self.waiting() =~= entry.waiting());
            assert forall|a: BlockRef, r: BlockRef| #[trigger]
                self.registered(a).contains(r) <==> self.needs(r, a, known) by {
                assert(entry.registered(a).contains(r) <==> entry.needs(r, a, known));
            }
        }
    }

    /// Accepts a block that is known to be committed, whatever its ancestors.
    fn try_accept_one_committed_block(&mut self, dag: &DagState, block: VerifiedBlock) -> (r:
        TryAcceptResult)
        requires
            dag.wf(),
            old(self).wf(dag@),
        ensures
            final(self).context == old(self).context,
            match r {
                TryAcceptResult::Processed => {
                    &&& dag@.stored.contains_key(block.spec_ref())
                    &&& *final(self) == *old(self)
                },
                TryAcceptResult::Suspended(_) => false,
                TryAcceptResult::Accepted(b) => {
                    &&& b == block
                    &&& !dag@.stored.contains_key(block.spec_ref())
                    &&& final(self).tracks(dag@.stored.dom())
                    &&& final(self)@ == (Pool {
                        waiting: old(self)@.waiting.remove(block.spec_ref()),
                        missing: old(self)@.missing.remove(block.spec_ref()),
                    })
                },
            },
    {
        let block_ref = block.reference();
        if dag.contains_block(&block_ref) {
            return TryAcceptResult::Processed;
        }
        self.take_out(&block_ref, Ghost(dag@.stored.dom()));
        TryAcceptResult::Accepted(block)
    }

    /// The ancestors of `block` that `dag` does not hold.
    fn lacking(&self, dag: &DagState, block: &VerifiedBlock) -> (r: RefSet)
        requires
            dag.wf(),
        ensures
            r.wf(),
            r@ == lacks(*block, dag@.stored.dom()),
    {
        let gc_round: Round = dag.gc_round();
        let ghost known = dag@.stored.dom();
        let ancestors = block.ancestors();
        let mut missing = RefSet::new();
        let mut i: usize = 0;
        while i < ancestors.len()
            invariant
                dag.wf(),
                known == dag@.stored.dom(),
                ancestors@ == block.parents(),
                gc_round == 0,
                i <= ancestors@.len(),
                missing.wf(),
                forall|p: BlockRef| #[trigger]
                    missing@.contains(p) <==> ancestors@.take(i as int).contains(p) && p.round > 0
                        && !known.contains(p),
            decreases ancestors@.len() - i,
        {
            let ancestor_ref = ancestors[i];
            proof {
                let taken = ancestors@.take(i as int);
                let taking = ancestors@.take(i + 1);
                assert(taking =~= taken.push(ancestor_ref));
                assert forall|x: BlockRef| #[trigger]
                    taking.contains(x) <==> taken.contains(x) || x == ancestor_ref by {
                    if taken.contains(x) {
                        assert(taking[taken.index_of(x)] == x);
                    }
                    assert(taking[i as int] == ancestor_ref);
                }
            }
            // Genesis blocks are always present, and so is what lies below the horizon.
            if ancestor_ref.round != GENESIS_ROUND && ancestor_ref.round > gc_round {
                if !dag.contains_block(&ancestor_ref) {
                    missing.insert(ancestor_ref);
                }
            }
            i += 1;
        }
        proof {
            assert(ancestors@.take(ancestors@.len() as int) =~= ancestors@);
            assert(missing@ =~= lacks(*block, known));
        }
        missing
    }

    /// Tries one block: stored already, fit to be accepted, or suspended for what it lacks.
    fn try_accept_one_block(&mut self, dag: &DagState, block: VerifiedBlock) -> (r: TryAcceptResult)
        requires
            dag.wf(),
            old(self).wf(dag@),
            old(self).spec_committee() == dag.spec_committee(),
            fit(dag@, dag.spec_committee(), block),
        ensures
            final(self).context == old(self).context,
            match r {
                TryAcceptResult::Processed => {
                    &&& dag@.stored.contains_key(block.spec_ref())
                    &&& *final(self) == *old(self)
                },
                TryAcceptResult::Suspended(missing) => {
                    let before = Intake { dag: dag@, pool: old(self)@ };
                    &&& !dag@.stored.contains_key(block.spec_ref())
                    &&& !supplied(block, dag@.stored.dom())
                    &&& missing.wf()
                    &&& missing@ == before.unfetched(block)
                    &&& final(self).wf(dag@)
                    &&& (Intake { dag: dag@, pool: final(self)@ }) == before.suspend(block)
                },
                TryAcceptResult::Accepted(b) => {
                    &&& b == block
                    &&& !dag@.stored.contains_key(block.spec_ref())
                    &&& supplied(block, dag@.stored.dom())
                    &&& final(self).tracks(dag@.stored.dom())
                    &&& final(self)@ == (Pool {
                        waiting: old(self)@.waiting.remove(block.spec_ref()),
                        missing: old(self)@.missing.remove(block.spec_ref()),
                    })
                },
            },
    {
        let block_ref = block.reference();
        // Already in the DAG?
        if dag.contains_block(&block_ref) {
            return TryAcceptResult::Processed;
        }
        let ghost known = dag@.stored.dom();
        let ghost before = Intake { dag: dag@, pool: self@ };
        self.take_out(&block_ref, Ghost(known));
        let missing = self.lacking(dag, &block);
        proof {
            lemma_supplied(block, known);
        }
        if missing.is_empty() {
            return TryAcceptResult::Accepted(block);
        }
        // Register this block as needing its missing ancestors.
        let ghost entry = *self;
        let ghost refs = missing.seq();
        let mut unfetched = RefSet::new();
        let mut i: usize = 0;
        while i < missing.as_slice().len()
            invariant
                refs == missing.seq(),
                i <= refs.len(),
                self.context == entry.context,
                self.suspended_blocks == entry.suspended_blocks,
                self.suspended_blocks.wf(),
                self.missing_ancestors.wf(),
                self.missing_blocks.wf(),
                unfetched.wf(),
                forall|a: BlockRef| #[trigger]
                    self.missing_ancestors@.contains_key(a) ==> self.missing_ancestors@[a].wf(),
                forall|a: BlockRef| #[trigger]
                    self.registered(a) == if refs.take(i as int).contains(a) {
                        entry.registered(a).insert(block_ref)
                    } else {
                        entry.registered(a)
                    },
                forall|a: BlockRef| #[trigger]
                    unfetched@.contains(a) <==> refs.take(i as int).contains(a)
                        && !entry.suspended_blocks@.contains_key(a) && a != block_ref,
                self.missing_blocks@ == entry.missing_blocks@.union(unfetched@),
            decreases refs.len() - i,
        {
            let a = missing.as_slice()[i];
            let ghost taken = refs.take(i as int);
            let ghost taking = refs.take(i + 1);
            let ghost step = *self;
            proof {
                assert(taking =~= taken.push(a));
                assert forall|x: BlockRef| #[trigger]
                    taking.contains(x) <==> taken.contains(x) || x == a by {
                    if taken.contains(x) {
                        assert(taking[taken.index_of(x)] == x);
                    }
                    assert(taking[i as int] == a);
                }
            }
            let mut children = match self.missing_ancestors.remove(&a) {
                Some(children) => children,
                None => RefSet::new(),
            };
            assert(children@ =~= step.registered(a));
            children.insert(block_ref);
            self.missing_ancestors.insert(a, children);
            if a != block_ref && !self.suspended_blocks.contains_key(&a) {
                unfetched.insert(a);
                self.missing_blocks.insert(a);
            }
            proof {
                assert forall|x: BlockRef| #[trigger]
                    self.registered(x) == if taking.contains(x) {
                        entry.registered(x).insert(block_ref)
                    } else {
                        entry.registered(x)
                    } by {
                    assert(step.registered(x) == if taken.contains(x) {
                        entry.registered(x).insert(block_ref)
                    } else {
                        entry.registered(x)
                    });
                    if x == a {
                        assert(self.registered(a) =~= entry.registered(a).insert(block_ref));
                    } else {
                        assert(self.registered(x) == step.registered(x));
                    }
                }
                assert(self.missing_blocks@ =~= entry.missing_blocks@.union(unfetched@));
            }
            i += 1;
        }
        let ghost filled = *self;
        self.suspended_blocks.insert(block_ref, SuspendedBlock::new(block, missing));
        proof {
            assert(refs.take(refs.len() as int) =~= refs);
            assert(entry.waiting() == before.pool.waiting.remove(block_ref));
            assert forall|k: BlockRef| k != block_ref implies #[trigger] self.waiting().contains_key(
                k,
            ) == before.pool.waiting.contains_key(k) by {
                assert(entry.waiting().contains_key(k) == before.pool.waiting.remove(
                    block_ref,
                ).contains_key(k));
            }
            assert forall|k: BlockRef| k != block_ref && self.waiting().contains_key(k) implies
                #[trigger] self.waiting()[k] == before.pool.waiting[k] by {
                assert(entry.waiting().contains_key(k));
                assert(entry.waiting()[k] == before.pool.waiting.remove(block_ref)[k]);
            }
            assert(self.waiting() =~= before.pool.waiting.insert(block_ref, block));
            assert forall|a: BlockRef| #[trigger]
                unfetched@.contains(a) <==> before.unfetched(block).contains(a) by {
                assert(missing@.contains(a) <==> refs.contains(a));
                assert(entry.waiting().contains_key(a) <==> before.pool.waiting.remove(
                    block_ref,
                ).contains_key(a));
                assert(entry.waiting().contains_key(a)
                    <==> entry.suspended_blocks@.contains_key(a));
            }
            assert(unfetched@ =~= before.unfetched(block));
            assert(self.missing_blocks@ =~= before.pool.missing.remove(block_ref).union(
                before.unfetched(block),
            ));
            assert forall|a: BlockRef, r: BlockRef| #[trigger]
                self.registered(a).contains(r) <==> self.needs(r, a, known) by {
                assert(self.registered(a) == filled.registered(a));
                assert(entry.registered(a).contains(r) <==> entry.needs(r, a, known));
                assert(missing@.contains(a) <==> refs.contains(a));
                if r == block_ref {
                    assert(!entry.waiting().contains_key(r));
                }
            }
            assert(self.tracks(known));
            let after = Intake { dag: dag@, pool: self@ };
            assert(after == before.suspend(block));
            assert(after.pool.waiting.dom() =~= before.pool.waiting.dom().insert(block_ref));
            assert forall|r: BlockRef| #[trigger] after.pool.waiting.contains_key(r) implies {
                let b = after.pool.waiting[r];
                &&& b.spec_ref() == r
                &&& dag.spec_committee().has(r.author)
                &&& 0 < r.round < u32::MAX
                &&& !after.dag.stored.contains_key(r)
                &&& !supplied(b, after.known())
                &&& lacks(b, after.known()).subset_of(
                    after.pool.missing.union(after.pool.waiting.dom()),
                )
                &&& !after.pool.missing.contains(r)
            } by {
                let b = after.pool.waiting[r];
                if r != block_ref {
                    assert(before.pool.waiting.contains_key(r));
                    assert(before.pool.waiting[r] == b);
                    assert(!before.unfetched(block).contains(r));
                    assert forall|a: BlockRef| lacks(b, known).contains(a) implies
                        after.pool.missing.union(after.pool.waiting.dom()).contains(a) by {
                        assert(before.pool.missing.union(before.pool.waiting.dom()).contains(a));
                    }
                }
            }
        }
        TryAcceptResult::Suspended(unfetched)
    }

    /// Adds `block` to `dag` together with all that waited for it.
    fn let_block_in(
        &mut self,
        dag: &mut DagState,
        block: VerifiedBlock,
        Ghost(before): Ghost<Intake>,
    ) -> (r: Vec<VerifiedBlock>)
        requires
            old(dag).wf(),
            old(self).context.wf(),
            old(self).spec_committee() == old(dag).spec_committee(),
            before.dag == old(dag)@,
            before.settled(old(dag).spec_committee()),
            fit(old(dag)@, old(dag).spec_committee(), block),
            !old(dag)@.stored.contains_key(block.spec_ref()),
            old(self).tracks(old(dag)@.stored.dom()),
            old(self)@ == (Pool {
                waiting: before.pool.waiting.remove(block.spec_ref()),
                missing: before.pool.missing.remove(block.spec_ref()),
            }),
        ensures
            final(dag).wf(),
            final(dag).spec_committee() == old(dag).spec_committee(),
            final(self).context == old(self).context,
            final(self).wf(final(dag)@),
            (Intake { dag: final(dag)@, pool: final(self)@ }) == before.let_in(
                block,
                old(dag).spec_committee(),
            ),
            r@ == before.batch(block),
            forall|x: BlockRef| #[trigger]
                before.dag.stored.contains_key(x) ==> final(dag)@.stored.contains_key(x),
    {
        let block_ref = block.reference();
        let ghost known = dag@.stored.dom();
        let ghost committee = dag.spec_committee();
        let mut out: Vec<VerifiedBlock> = Vec::new();
        out.push(block.clone());
        dag.accept_one(block);
        let ghost dag1 = dag@;
        proof {
            assert(dag1.stored.dom() =~= known.insert(block_ref));
            assert forall|x: BlockRef| #[trigger]
                before.dag.stored.contains_key(x) implies dag1.stored.contains_key(x) by {}
            assert(self.waiting() == before.pool.waiting.remove(block_ref));
        }
        let ghost entry = *self;
        let children = self.try_unsuspend_children_blocks(dag, block_ref, Ghost(known));
        let ghost first = out@;
        let mut children = children;
        let ghost rest = children@;
        out.append(&mut children);
        proof {
            assert(out@ =~= first + rest);
            assert(first =~= seq![block]);
            assert(out@ =~= before.batch(block));
            lemma_accept_concat(before.dag, first, rest, committee);
            assert(first.drop_last() =~= Seq::<VerifiedBlock>::empty());
            assert(before.dag.accept_all(first, committee) == before.dag.accept_all(
                first.drop_last(),
                committee,
            ).accept(first.last(), committee));
            assert(before.dag.accept_all(first, committee) == dag1);
            assert(self.missing_blocks@ == before.pool.missing.remove(block_ref));
            let after = Intake { dag: dag@, pool: self@ };
            assert(after == before.let_in(block, committee));
            assert forall|x: BlockRef| #[trigger]
                before.dag.stored.contains_key(x) implies after.dag.stored.contains_key(x) by {
                assert(dag1.stored.contains_key(x));
            }
            self.suspended_blocks.lemma_positions();
            assert(self.waiting().dom() =~= self.suspended_blocks@.dom());
            assert forall|r: BlockRef| #[trigger] after.pool.waiting.contains_key(r) implies {
                let b = after.pool.waiting[r];
                &&& b.spec_ref() == r
                &&& committee.has(r.author)
                &&& 0 < r.round < u32::MAX
                &&& !after.dag.stored.contains_key(r)
                &&& !supplied(b, after.known())
                &&& lacks(b, after.known()).subset_of(
                    after.pool.missing.union(after.pool.waiting.dom()),
                )
                &&& !after.pool.missing.contains(r)
            } by {
                let b = after.pool.waiting[r];
                assert(before.pool.waiting.contains_key(r));
                assert(before.pool.waiting[r] == b);
                assert forall|a: BlockRef| lacks(b, after.known()).contains(a) implies
                    after.pool.missing.union(after.pool.waiting.dom()).contains(a) by {
                    assert(!after.dag.stored.contains_key(a));
                    assert(!dag1.stored.contains_key(a));
                    assert(lacks(b, known).contains(a));
                    assert(before.pool.missing.union(before.pool.waiting.dom()).contains(a));
                    if before.pool.waiting.contains_key(a) {
                        assert(entry.waiting().contains_key(a));
                    }
                }
            }
            assert forall|r: BlockRef| #[trigger]
                after.pool.missing.contains(r) implies !after.dag.stored.contains_key(r) by {
                assert(before.pool.missing.contains(r));
                if after.dag.stored.contains_key(r) {
                    if !dag1.stored.contains_key(r) {
                        assert(entry.waiting().contains_key(r));
                        assert(before.pool.waiting.contains_key(r));
                    }
                }
            }
        }
        out
    }

    /// Takes in `blocks` by ascending round.
    fn try_accept_blocks_internal(
        &mut self,
        dag: &mut DagState,
        blocks: Vec<VerifiedBlock>,
        committed: bool,
    ) -> (r: (Vec<VerifiedBlock>, RefSet))
        requires
            old(dag).wf(),
            old(self).wf(old(dag)@),
            old(self).spec_committee() == old(dag).spec_committee(),
            forall|i: int|
                0 <= i < blocks@.len() ==> fit(
                    old(dag)@,
                    old(dag).spec_committee(),
                    #[trigger] blocks@[i],
                ),
        ensures
            final(dag).wf(),
            final(dag).spec_committee() == old(dag).spec_committee(),
            final(self).spec_committee() == old(self).spec_committee(),
            final(self).wf(final(dag)@),
            r.1.wf(),
            ({
                let before = Intake { dag: old(dag)@, pool: old(self)@ };
                let after = Intake { dag: final(dag)@, pool: final(self)@ };
                let sorted = by_round(blocks@);
                let committee = old(dag).spec_committee();
                if committed {
                    &&& after == before.take_all(sorted, committee)
                    &&& r.0@ == before.taken_from_all(sorted, committee)
                    &&& r.1@ == Set::<BlockRef>::empty()
                } else {
                    &&& after == before.offer_all(sorted, committee)
                    &&& r.0@ == before.accepted_from_all(sorted, committee)
                    &&& r.1@ == before.missing_from_all(sorted, committee)
                }
            }),
    {
        let ghost before = Intake { dag: dag@, pool: self@ };
        let ghost committee = dag.spec_committee();
        let ghost given = blocks@;
        let mut blocks = blocks;
        let rank = |b: &VerifiedBlock| -> (k: u64)
            ensures
                k == b.block().round,
            { b.round() as u64 };
        sort_by_rank(&mut blocks, rank, Ghost(round_rank()));
        let ghost sorted = by_round(given);
        proof {
            lemma_sorted_by_rank(given, round_rank());
            assert forall|i: int| 0 <= i < blocks@.len() implies fit(
                before.dag,
                committee,
                #[trigger] blocks@[i],
            ) by {
                assert(sorted.contains(blocks@[i]));
                let k = given.index_of(blocks@[i]);
                assert(given[k] == blocks@[i]);
            }
        }
        let mut accepted_blocks: Vec<VerifiedBlock> = Vec::new();
        let mut missing_blocks_out = RefSet::new();
        let mut i: usize = 0;
        assert(sorted.take(0) =~= Seq::<VerifiedBlock>::empty());
        while i < blocks.len()
            invariant
                blocks@ == sorted,
                i <= sorted.len(),
                dag.wf(),
                dag.spec_committee() == committee,
                self.spec_committee() == committee,
                self.wf(dag@),
                missing_blocks_out.wf(),
                forall|j: int|
                    0 <= j < sorted.len() ==> fit(dag@, committee, #[trigger] sorted[j]),
                committed ==> {
                    &&& (Intake { dag: dag@, pool: self@ }) == before.take_all(
                        sorted.take(i as int),
                        committee,
                    )
                    &&& accepted_blocks@ == before.taken_from_all(
                        sorted.take(i as int),
                        committee,
                    )
                    &&& missing_blocks_out@ == Set::<BlockRef>::empty()
                },
                !committed ==> {
                    &&& (Intake { dag: dag@, pool: self@ }) == before.offer_all(
                        sorted.take(i as int),
                        committee,
                    )
                    &&& accepted_blocks@ == before.accepted_from_all(
                        sorted.take(i as int),
                        committee,
                    )
                    &&& missing_blocks_out@ == before.missing_from_all(
                        sorted.take(i as int),
                        committee,
                    )
                },
            decreases sorted.len() - i,
        {
            let block = blocks[i].clone();
            let ghost here = Intake { dag: dag@, pool: self@ };
            let ghost accepted0 = accepted_blocks@;
            let ghost missing0 = missing_blocks_out@;
            proof {
                let now = sorted.take(i + 1);
                assert(now.drop_last() =~= sorted.take(i as int));
                assert(now.last() == block);
                assert(fit(dag@, committee, sorted[i as int]));
            }
            let result = if committed {
                self.try_accept_one_committed_block(dag, block)
            } else {
                self.try_accept_one_block(dag, block)
            };
            match result {
                TryAcceptResult::Accepted(block) => {
                    let mut batch = self.let_block_in(dag, block, Ghost(here));
                    accepted_blocks.append(&mut batch);
                    assert(accepted_blocks@ =~= accepted0 + here.batch(block));
                    assert(missing_blocks_out@ =~= missing0.union(Set::empty()));
                },
                TryAcceptResult::Suspended(missing) => {
                    missing_blocks_out.extend(missing.as_slice());
                    assert(missing.seq().to_set() =~= missing@);
                    assert(accepted_blocks@ =~= accepted0 + Seq::<VerifiedBlock>::empty());
                },
                TryAcceptResult::Processed => {
                    assert(accepted_blocks@ =~= accepted0 + Seq::<VerifiedBlock>::empty());
                    assert(missing_blocks_out@ =~= missing0.union(Set::empty()));
                },
            }
            i += 1;
        }
        assert(sorted.take(sorted.len() as int) =~= sorted);
        (accepted_blocks, missing_blocks_out)
    }

    /// Try to accept `blocks`. Returns the accepted blocks and the references found missing.
    pub fn try_accept_blocks(&mut self, dag: &mut DagState, blocks: Vec<VerifiedBlock>) -> (r: (
        Vec<VerifiedBlock>,
        RefSet,
    ))
        requires
            old(dag).wf(),
            old(self).wf(old(dag)@),
            old(self).spec_committee() == old(dag).spec_committee(),
            forall|i: int|
                0 <= i < blocks@.len() ==> fit(
                    old(dag)@,
                    old(dag).spec_committee(),
                    #[trigger] blocks@[i],
                ),
        ensures
            final(dag).wf(),
            final(dag).spec_committee() == old(dag).spec_committee(),
            final(self).spec_committee() == old(self).spec_committee(),
            final(self).wf(final(dag)@),
            r.1.wf(),
            ({
                let before = Intake { dag: old(dag)@, pool: old(self)@ };
                let after = Intake { dag: final(dag)@, pool: final(self)@ };
                let sorted = by_round(blocks@);
                let committee = old(dag).spec_committee();
                &&& after == before.offer_all(sorted, committee)
                &&& r.0@ == before.accepted_from_all(sorted, committee)
                &&& r.1@ == before.missing_from_all(sorted, committee)
            }),
    {
        self.try_accept_blocks_internal(dag, blocks, false)
    }

    /// Accept blocks that are known to be committed (no missing-ancestor tracking).
    pub fn try_accept_committed_blocks(&mut self, dag: &mut DagState, blocks: Vec<VerifiedBlock>) -> (r:
        Vec<VerifiedBlock>)
        requires
            old(dag).wf(),
            old(self).wf(old(dag)@),
            old(self).spec_committee() == old(dag).spec_committee(),
            forall|i: int|
                0 <= i < blocks@.len() ==> fit(
                    old(dag)@,
                    old(dag).spec_committee(),
                    #[trigger] blocks@[i],
                ),
        ensures
            final(dag).wf(),
            final(dag).spec_committee() == old(dag).spec_committee(),
            final(self).spec_committee() == old(self).spec_committee(),
            final(self).wf(final(dag)@),
            ({
                let before = Intake { dag: old(dag)@, pool: old(self)@ };
                let after = Intake { dag: final(dag)@, pool: final(self)@ };
                let sorted = by_round(blocks@);
                let committee = old(dag).spec_committee();
                &&& after == before.take_all(sorted, committee)
                &&& r@ == before.taken_from_all(sorted, committee)
            }),
    {
        let (accepted, _missing) = self.try_accept_blocks_internal(dag, blocks, true);
        accepted
    }

    /// Those of `block_refs` above the genesis round that are neither stored nor suspended.
    /// They count as missing from now on.
    pub fn try_find_blocks(&mut self, dag: &DagState, block_refs: Vec<BlockRef>) -> (r: RefSet)
        requires
            dag.wf(),
            old(self).wf(dag@),
        ensures
            final(self).wf(dag@),
            final(self).spec_committee() == old(self).spec_committee(),
            r.wf(),
            forall|x: BlockRef| #[trigger]
                r@.contains(x) <==> block_refs@.contains(x) && x.round > 0
                    && !dag@.stored.contains_key(x) && !old(self)@.waiting.contains_key(x),
            final(self)@.waiting == old(self)@.waiting,
            final(self)@.missing == old(self)@.missing.union(r@),
    {
        let gc_round: Round = dag.gc_round();
        let ghost known = dag@.stored.dom();
        let mut missing = RefSet::new();
        let mut i: usize = 0;
        while i < block_refs.len()
            invariant
                dag.wf(),
                gc_round == 0,
                known == dag@.stored.dom(),
                i <= block_refs@.len(),
                missing.wf(),
                self.context == old(self).context,
                self.suspended_blocks == old(self).suspended_blocks,
                self.suspended_blocks.wf(),
                self.missing_blocks.wf(),
                self.missing_blocks@ == old(self).missing_blocks@.union(missing@),
                self.missing_ancestors.wf(),
                forall|a: BlockRef| #[trigger]
                    self.missing_ancestors@.contains_key(a) ==> self.missing_ancestors@[a].wf(),
                forall|a: BlockRef| #[trigger] self.registered(a) == old(self).registered(a),
                forall|x: BlockRef| #[trigger]
                    missing@.contains(x) <==> block_refs@.take(i as int).contains(x) && x.round > 0
                        && !known.contains(x) && !old(self).suspended_blocks@.contains_key(x),
            decreases block_refs@.len() - i,
        {
            let block_ref = block_refs[i];
            let ghost step = *self;
            proof {
                let taken = block_refs@.take(i as int);
                let taking = block_refs@.take(i + 1);
                assert(taking =~= taken.push(block_ref));
                assert forall|x: BlockRef| #[trigger]
                    taking.contains(x) <==> taken.contains(x) || x == block_ref by {
                    if taken.contains(x) {
                        assert(taking[taken.index_of(x)] == x);
                    }
                    assert(taking[i as int] == block_ref);
                }
            }
            if block_ref.round > gc_round && !dag.contains_block(&block_ref)
                && !self.suspended_blocks.contains_key(&block_ref) {
                missing.insert(block_ref);
                self.missing_blocks.insert(block_ref);
                if !self.missing_ancestors.contains_key(&block_ref) {
                    self.missing_ancestors.insert(block_ref, RefSet::new());
                }
                proof {
                    assert(self.missing_blocks@ =~= old(self).missing_blocks@.union(missing@));
                    assert forall|a: BlockRef| #[trigger]
                        self.registered(a) == old(self).registered(a) by {
                        assert(step.registered(a) == old(self).registered(a));
                        assert(self.registered(a) =~= step.registered(a));
                    }
                }
            }
            i += 1;
        }
        proof {
            assert(block_refs@.take(block_refs@.len() as int) =~= block_refs@);
            assert(self.waiting() =~= old(self).waiting());
            assert forall|a: BlockRef, r: BlockRef| #[trigger]
                self.registered(a).contains(r) <==> self.needs(r, a, known) by {
                assert(old(self).registered(a).contains(r) <==> old(self).needs(r, a, known));
            }
            assert forall|x: BlockRef| old(self)@.waiting.contains_key(x)
                == old(self).suspended_blocks@.contains_key(x) by {}
            let before = Intake { dag: dag@, pool: old(self)@ };
            let after = Intake { dag: dag@, pool: self@ };
            assert forall|r: BlockRef| #[trigger] after.pool.waiting.contains_key(r) implies {
                let b = after.pool.waiting[r];
                &&& b.spec_ref() == r
                &&& self.spec_committee().has(r.author)
                &&& 0 < r.round < u32::MAX
                &&& !after.dag.stored.contains_key(r)
                &&& !supplied(b, after.known())
                &&& lacks(b, after.known()).subset_of(
                    after.pool.missing.union(after.pool.waiting.dom()),
                )
                &&& !after.pool.missing.contains(r)
            } by {
                assert(before.pool.waiting.contains_key(r));
                assert(before.pool.waiting[r] == after.pool.waiting[r]);
                assert forall|a: BlockRef| lacks(after.pool.waiting[r], known).contains(a) implies
                    after.pool.missing.union(after.pool.waiting.dom()).contains(a) by {
                    assert(before.pool.missing.union(before.pool.waiting.dom()).contains(a));
                }
            }
            assert forall|r: BlockRef| #[trigger]
                after.pool.missing.contains(r) implies !after.dag.stored.contains_key(r) by {
                if !missing@.contains(r) {
                    assert(before.pool.missing.contains(r));
                }
            }
        }
        missing
    }

    /// The references found missing and not fetched since.
    pub fn missing_blocks(&self) -> (r: &RefSet)
        ensures
            r@ == self@.missing,
    {
        &self.missing_blocks
    }

    pub fn suspended_blocks_count(&self) -> (r: usize)
        requires
            self.kept(),
        ensures
            r == self@.waiting.dom().len(),
    {
        assert(self.waiting().dom() =~= self.suspended_blocks@.dom());
        self.suspended_blocks.len()
    }

    /// The highest round among the accepted blocks.
    pub fn highest_received_round(&self, dag: &DagState) -> (r: Round)
        ensures
            r == dag@.highest,
    {
        dag.highest_accepted_round()
    }
}

/// Whether every ancestor of `blocks[k]` is known or comes before it in `blocks`.
pub open spec fn preceded(blocks: Seq<VerifiedBlock>, known: Set<BlockRef>, k: int) -> bool {
    forall|p: BlockRef| #[trigger]
        blocks[k].parents().contains(p) && p.round > GENESIS_ROUND ==> known.contains(p)
            || has_ref(blocks.take(k), p)
}

/// Whether `blocks` can be accepted in this order without ever lacking an ancestor.
pub open spec fn causal_order(blocks: Seq<VerifiedBlock>, known: Set<BlockRef>) -> bool {
    forall|k: int| 0 <= k < blocks.len() ==> #[trigger] preceded(blocks, known, k)
}

proof fn lemma_causal_cons(first: VerifiedBlock, rest: Seq<VerifiedBlock>, known: Set<BlockRef>)
    requires
        supplied(first, known),
        causal_order(rest, known.insert(first.spec_ref())),
    ensures
        causal_order(seq![first] + rest, known),
{
    let all = seq![first] + rest;
    assert forall|k: int| 0 <= k < all.len() implies #[trigger] preceded(all, known, k) by {
        assert forall|p: BlockRef| #[trigger]
            all[k].parents().contains(p) && p.round > GENESIS_ROUND implies known.contains(p)
            || has_ref(all.take(k), p) by {
            if k > 0 {
                assert(all[k] == rest[k - 1]);
                assert(preceded(rest, known.insert(first.spec_ref()), k - 1));
                assert(rest[k - 1].parents().contains(p));
                if p == first.spec_ref() {
                    assert(all.take(k)[0].spec_ref() == p);
                } else if !known.contains(p) {
                    let front = rest.take(k - 1);
                    let i = choose|i: int|
                        0 <= i < front.len() && (#[trigger] front[i]).spec_ref() == p;
                    assert(all.take(k)[i + 1].spec_ref() == p);
                }
            }
        }
    }
}

/// Released blocks were waiting, come in causal order, and none of them twice.
pub proof fn lemma_released(waiting: Waiting, known: Set<BlockRef>)
    requires
        waiting.dom().finite(),
        forall|r: BlockRef| #[trigger] waiting.contains_key(r) ==> waiting[r].spec_ref() == r,
    ensures
        ({
            let out = released(waiting, known);
            &&& causal_order(out, known)
            &&& distinct(out)
            &&& forall|k: int|
                0 <= k < out.len() ==> {
                    let r = (#[trigger] out[k]).spec_ref();
                    &&& waiting.contains_key(r)
                    &&& waiting[r] == out[k]
                }
            &&& forall|r: BlockRef| #[trigger]
                unreleased(waiting, known).contains_key(r) ==> waiting.contains_key(r)
                    && unreleased(waiting, known)[r] == waiting[r]
            &&& unreleased(waiting, known).dom().finite()
            &&& forall|r: BlockRef| #[trigger]
                waiting.contains_key(r) ==> (unreleased(waiting, known).contains_key(r)
                    <==> !has_ref(out, r))
        }),
    decreases waiting.dom().len(),
{
    let r = first_ready(waiting, known);
    if ready(waiting, known, r) {
        let less = waiting.remove(r);
        assert(less.dom() =~= waiting.dom().remove(r));
        lemma_released(less, known.insert(r));
        let rest = released(less, known.insert(r));
        let out = released(waiting, known);
        assert(out == seq![waiting[r]] + rest);
        assert forall|x: BlockRef| #[trigger]
            waiting.contains_key(x) implies (unreleased(waiting, known).contains_key(x)
            <==> !has_ref(out, x)) by {
            lemma_has_ref_concat(seq![waiting[r]], rest, x);
            assert(seq![waiting[r]][0] == waiting[r]);
            if x == r {
                assert(seq![waiting[r]][0].spec_ref() == r);
                assert(has_ref(seq![waiting[r]], r));
                assert(!less.contains_key(r));
            } else {
                assert(less.contains_key(x));
            }
        }
        lemma_causal_cons(waiting[r], rest, known);
        assert forall|k: int| 0 <= k < out.len() implies {
            let x = (#[trigger] out[k]).spec_ref();
            &&& waiting.contains_key(x)
            &&& waiting[x] == out[k]
        } by {
            if k > 0 {
                assert(out[k] == rest[k - 1]);
            }
        }
        assert forall|i: int, j: int| 0 <= i < j < out.len() implies (
        #[trigger] out[i]).spec_ref() != (#[trigger] out[j]).spec_ref() by {
            assert(out[j] == rest[j - 1]);
            assert(less.contains_key(rest[j - 1].spec_ref()));
            if i > 0 {
                assert(out[i] == rest[i - 1]);
            }
        }
    }
}

/// Nothing that could be released goes on waiting.
proof fn lemma_unreleased_lacks(
    waiting: Waiting,
    known: Set<BlockRef>,
    all: Set<BlockRef>,
    r: BlockRef,
)
    requires
        waiting.dom().finite(),
        forall|x: BlockRef| #[trigger] waiting.contains_key(x) ==> waiting[x].spec_ref() == x,
        forall|x: BlockRef| #[trigger]
            all.contains(x) <==> known.contains(x) || has_ref(released(waiting, known), x),
        unreleased(waiting, known).contains_key(r),
    ensures
        !supplied(waiting[r], all),
    decreases waiting.dom().len(),
{
    let first = first_ready(waiting, known);
    lemma_released(waiting, known);
    if ready(waiting, known, first) {
        let less = waiting.remove(first);
        assert(less.dom() =~= waiting.dom().remove(first));
        let rest = released(less, known.insert(first));
        let head = seq![waiting[first]];
        assert forall|x: BlockRef| #[trigger] all.contains(x) <==> known.insert(first).contains(x)
            || has_ref(rest, x) by {
            lemma_has_ref_concat(head, rest, x);
            assert(head[0].spec_ref() == first);
            if has_ref(head, x) {
                let k = choose|k: int| 0 <= k < head.len() && (#[trigger] head[k]).spec_ref() == x;
                assert(x == first);
            }
        }
        lemma_released(less, known.insert(first));
        assert(less.contains_key(r));
        lemma_unreleased_lacks(less, known.insert(first), all, r);
    } else {
        assert(released(waiting, known) =~= Seq::<VerifiedBlock>::empty());
        assert forall|x: BlockRef| #[trigger] all.contains(x) implies known.contains(x) by {
            assert(!has_ref(released(waiting, known), x));
        }
        if supplied(waiting[r], all) {
            assert forall|p: BlockRef| #[trigger]
                waiting[r].parents().contains(p) && p.round > GENESIS_ROUND implies known.contains(
                p,
            ) by {
                assert(all.contains(p));
            }
            assert(ready(waiting, known, r));
            lemma_some_first_ready(waiting, known, r);
        }
    }
}

/// A batch that enters the DAG is in causal order: every ancestor is stored before.
pub proof fn law_batches_are_causal(intake: Intake, block: VerifiedBlock, committee: Committee)
    requires
        intake.settled(committee),
    ensures
        causal_order(intake.accepted_from(block), intake.known()),
        distinct(intake.accepted_from(block)),
{
    if intake.acceptable(block) {
        let r = block.spec_ref();
        let less = intake.pool.waiting.remove(r);
        assert(less.dom() =~= intake.pool.waiting.dom().remove(r));
        lemma_released(less, intake.known().insert(r));
        let rest = released(less, intake.known().insert(r));
        lemma_causal_cons(block, rest, intake.known());
        let out = intake.batch(block);
        assert forall|i: int, j: int| 0 <= i < j < out.len() implies (
        #[trigger] out[i]).spec_ref() != (#[trigger] out[j]).spec_ref() by {
            assert(out[j] == rest[j - 1]);
            assert(less.contains_key(rest[j - 1].spec_ref()));
            if i > 0 {
                assert(out[i] == rest[i - 1]);
            }
        }
    }
}

/// Blocks that wait and point back are released in ascending reference order.
pub proof fn law_released_in_order(waiting: Waiting, known: Set<BlockRef>)
    requires
        waiting.dom().finite(),
        forall|r: BlockRef| #[trigger]
            waiting.contains_key(r) ==> waiting[r].spec_ref() == r && points_back(waiting[r]),
    ensures
        ordered(refs_of(released(waiting, known))),
    decreases waiting.dom().len(),
{
    let r = first_ready(waiting, known);
    if ready(waiting, known, r) {
        let less = waiting.remove(r);
        assert(less.dom() =~= waiting.dom().remove(r));
        lemma_some_first_ready(waiting, known, r);
        law_released_in_order(less, known.insert(r));
        lemma_released(less, known.insert(r));
        let rest = released(less, known.insert(r));
        let out = released(waiting, known);
        let refs = refs_of(out);
        assert forall|i: int, j: int| 0 <= i < j < refs.len() implies (
        #[trigger] refs[i]).precedes(#[trigger] refs[j]) by {
            assert(out[j] == rest[j - 1]);
            assert(refs[j] == refs_of(rest)[j - 1]);
            if i > 0 {
                assert(refs[i] == refs_of(rest)[i - 1]);
            } else {
                lemma_follows(waiting, known, r, j - 1);
            }
        }
    }
}

proof fn lemma_follows(waiting: Waiting, known: Set<BlockRef>, r: BlockRef, k: int)
    requires
        waiting.dom().finite(),
        forall|x: BlockRef| #[trigger]
            waiting.contains_key(x) ==> waiting[x].spec_ref() == x && points_back(waiting[x]),
        leads_ready(waiting, known, r),
        ordered(refs_of(released(waiting.remove(r), known.insert(r)))),
        0 <= k < released(waiting.remove(r), known.insert(r)).len(),
    ensures
        r.precedes(released(waiting.remove(r), known.insert(r))[k].spec_ref()),
{
    let less = waiting.remove(r);
    let now = known.insert(r);
    assert(less.dom() =~= waiting.dom().remove(r));
    lemma_released(less, now);
    let rest = released(less, now);
    let next = first_ready(less, now);
    assert(rest[0] == less[next]);
    assert(ready(less, now, next));
    assert(next != r);
    if !ready(waiting, known, next) {
        let b = waiting[next];
        let p = choose|p: BlockRef| #[trigger]
            b.parents().contains(p) && p.round > GENESIS_ROUND && !known.contains(p);
        assert(now.contains(p));
        assert(p == r);
        assert(r.round < next.round);
    }
    assert(r.precedes(next));
    if k > 0 {
        let refs = refs_of(rest);
        assert(refs[0].precedes(refs[k]));
        lemma_precedes_transitive(r, refs[0], refs[k]);
    }
}

/// If anything is ready, something is first among what is ready.
proof fn lemma_some_first_ready(waiting: Waiting, known: Set<BlockRef>, r: BlockRef)
    requires
        waiting.dom().finite(),
        ready(waiting, known, r),
    ensures
        leads_ready(waiting, known, first_ready(waiting, known)),
{
    let all = ready_set(waiting, known);
    assert(all.subset_of(waiting.dom()));
    vstd::set_lib::lemma_set_subset_finite(waiting.dom(), all);
    lemma_orderable(all);
    let refs = in_order(all);
    assert(all.contains(r));
    assert(refs.to_set().contains(r));
    let first = refs[0];
    assert(refs.to_set().contains(first));
    assert forall|o: BlockRef| #[trigger]
        ready(waiting, known, o) && o != first implies first.precedes(o) by {
        assert(refs.to_set().contains(o));
        let i = refs.index_of(o);
        assert(refs[0].precedes(refs[i]));
    }
    assert(leads_ready(waiting, known, first));
}

/// The stored blocks lack no history, and whatever waits points back.
pub open spec fn whole(intake: Intake) -> bool {
    &&& complete(intake.dag.stored)
    &&& forall|r: BlockRef| #[trigger]
        intake.pool.waiting.contains_key(r) ==> points_back(intake.pool.waiting[r])
}

/// Accepting blocks in causal order keeps the history whole.
pub proof fn lemma_accept_complete(
    dag: DagModel,
    blocks: Seq<VerifiedBlock>,
    committee: Committee,
)
    requires
        complete(dag.stored),
        causal_order(blocks, dag.stored.dom()),
        forall|k: int| 0 <= k < blocks.len() ==> points_back(#[trigger] blocks[k]),
    ensures
        complete(dag.accept_all(blocks, committee).stored),
        forall|r: BlockRef| #[trigger]
            dag.accept_all(blocks, committee).stored.contains_key(r)
                <==> dag.stored.contains_key(r) || has_ref(blocks, r),
        forall|r: BlockRef|
            !has_ref(blocks, r) ==> #[trigger] dag.accept_all(blocks, committee).stored[r]
                == dag.stored[r],
        dag.accept_all(blocks, committee).committed == dag.committed,
        dag.accept_all(blocks, committee).last_index == dag.last_index,
    decreases blocks.len(),
{
    if blocks.len() > 0 {
        let front = blocks.drop_last();
        let last = blocks.last();
        assert forall|k: int| 0 <= k < front.len() implies #[trigger] preceded(
            front,
            dag.stored.dom(),
            k,
        ) by {
            assert(preceded(blocks, dag.stored.dom(), k));
            assert(front.take(k) =~= blocks.take(k));
            assert(front[k] == blocks[k]);
        }
        assert forall|k: int| 0 <= k < front.len() implies points_back(#[trigger] front[k]) by {
            assert(front[k] == blocks[k]);
        }
        lemma_accept_complete(dag, front, committee);
        let mid = dag.accept_all(front, committee).stored;
        let end = dag.accept_all(blocks, committee).stored;
        assert(end == mid.insert(last.spec_ref(), last));
        assert(end.dom() =~= mid.dom().insert(last.spec_ref()));
        assert(preceded(blocks, dag.stored.dom(), blocks.len() - 1));
        assert(blocks.take(blocks.len() - 1) =~= front);
        assert(blocks[blocks.len() - 1] == last);
        assert forall|p: BlockRef| #[trigger]
            last.parents().contains(p) && p.round > 0 implies end.contains_key(p) by {
            assert(blocks[blocks.len() - 1].parents().contains(p));
            assert(mid.contains_key(p));
        }
        assert forall|r: BlockRef| #[trigger] end.contains_key(r) implies points_back(end[r])
            && history_present(end[r], end) by {
            if r != last.spec_ref() {
                assert(mid.contains_key(r));
                assert(history_present(mid[r], mid));
                assert forall|p: BlockRef| #[trigger]
                    end[r].parents().contains(p) && p.round > 0 implies end.contains_key(p) by {
                    assert(mid[r].parents().contains(p));
                }
            }
        }
        assert forall|r: BlockRef| #[trigger] end.contains_key(r) <==> dag.stored.contains_key(r)
            || has_ref(blocks, r) by {
            if has_ref(front, r) {
                let i = choose|i: int|
                    0 <= i < front.len() && (#[trigger] front[i]).spec_ref() == r;
                assert(blocks[i].spec_ref() == r);
            }
            if has_ref(blocks, r) {
                let i = choose|i: int|
                    0 <= i < blocks.len() && (#[trigger] blocks[i]).spec_ref() == r;
                if i < front.len() {
                    assert(front[i].spec_ref() == r);
                }
            }
            if end.contains_key(r) && r == last.spec_ref() {
                assert(blocks[blocks.len() - 1].spec_ref() == r);
            }
        }
        assert forall|r: BlockRef| !has_ref(blocks, r) implies #[trigger] end[r]
            == dag.stored[r] by {
            assert(blocks[blocks.len() - 1] == last);
            if has_ref(front, r) {
                let i = choose|i: int|
                    0 <= i < front.len() && (#[trigger] front[i]).spec_ref() == r;
                assert(blocks[i].spec_ref() == r);
            }
            assert(mid[r] == dag.stored[r]);
        }
    } else {
        assert forall|r: BlockRef| !has_ref(blocks, r) by {}
    }
}

/// Offering a block that points back keeps the history whole, loses no stored block,
/// and stores every block that it reports as accepted.
pub proof fn law_offer_keeps_whole(intake: Intake, block: VerifiedBlock, committee: Committee)
    requires
        intake.settled(committee),
        whole(intake),
        points_back(block),
    ensures
        whole(intake.offer(block, committee)),
        forall|r: BlockRef| #[trigger]
            intake.offer(block, committee).dag.stored.contains_key(r)
                <==> intake.dag.stored.contains_key(r) || has_ref(intake.accepted_from(block), r),
        forall|r: BlockRef| #[trigger]
            intake.dag.stored.contains_key(r) ==> intake.offer(block, committee).dag.stored[r]
                == intake.dag.stored[r],
        intake.offer(block, committee).dag.committed == intake.dag.committed,
        intake.offer(block, committee).dag.last_index == intake.dag.last_index,
{
    let after = intake.offer(block, committee);
    let r = block.spec_ref();
    if intake.acceptable(block) {
        law_batches_are_causal(intake, block, committee);
        let less = intake.pool.waiting.remove(r);
        assert(less.dom() =~= intake.pool.waiting.dom().remove(r));
        lemma_released(less, intake.known().insert(r));
        let out = intake.batch(block);
        let rest = released(less, intake.known().insert(r));
        assert forall|k: int| 0 <= k < out.len() implies points_back(#[trigger] out[k]) by {
            if k > 0 {
                assert(out[k] == rest[k - 1]);
                assert(less.contains_key(rest[k - 1].spec_ref()));
            }
        }
        lemma_accept_complete(intake.dag, out, committee);
        assert forall|x: BlockRef| #[trigger] intake.dag.stored.contains_key(x) implies !has_ref(
            out,
            x,
        ) by {
            if has_ref(out, x) {
                let k = choose|k: int| 0 <= k < out.len() && (#[trigger] out[k]).spec_ref() == x;
                if k > 0 {
                    assert(out[k] == rest[k - 1]);
                    assert(less.contains_key(rest[k - 1].spec_ref()));
                    assert(intake.pool.waiting.contains_key(x));
                }
            }
        }
        assert forall|x: BlockRef| #[trigger] after.pool.waiting.contains_key(x) implies points_back(
            after.pool.waiting[x],
        ) by {
            assert(less.contains_key(x));
        }
    } else {
        assert forall|x: BlockRef| !has_ref(intake.accepted_from(block), x) by {}
    }
}

/// Accepting admissible blocks keeps the DAG valid.
pub proof fn lemma_accept_valid(dag: DagModel, blocks: Seq<VerifiedBlock>, committee: Committee)
    requires
        dag.valid(committee),
        forall|k: int| 0 <= k < blocks.len() ==> dag.admits(#[trigger] blocks[k], committee),
    ensures
        dag.accept_all(blocks, committee).valid(committee),
        forall|r: BlockRef| #[trigger]
            dag.accept_all(blocks, committee).stored.contains_key(r)
                <==> dag.stored.contains_key(r) || has_ref(blocks, r),
    decreases blocks.len(),
{
    if blocks.len() > 0 {
        let front = blocks.drop_last();
        let last = blocks.last();
        assert(blocks[blocks.len() - 1] == last);
        assert forall|k: int| 0 <= k < front.len() implies dag.admits(
            #[trigger] front[k],
            committee,
        ) by {
            assert(front[k] == blocks[k]);
        }
        lemma_accept_valid(dag, front, committee);
        let mid = dag.accept_all(front, committee);
        let end = dag.accept_all(blocks, committee);
        lemma_keeps_committed(dag, front, committee);
        assert(end.stored.dom() =~= mid.stored.dom().insert(last.spec_ref()));
        assert(dag.admits(last, committee));
        assert forall|r: BlockRef| #[trigger] end.stored.contains_key(r)
            <==> dag.stored.contains_key(r) || has_ref(blocks, r) by {
            lemma_has_ref_concat(front, seq![last], r);
            assert(front + seq![last] =~= blocks);
            assert(seq![last][0] == last);
            if r == last.spec_ref() {
                assert(seq![last][0].spec_ref() == r);
                assert(has_ref(seq![last], r));
            }
        }
    } else {
        assert forall|r: BlockRef| !has_ref(blocks, r) by {}
    }
}

proof fn lemma_keeps_committed(dag: DagModel, blocks: Seq<VerifiedBlock>, committee: Committee)
    ensures
        dag.accept_all(blocks, committee).committed == dag.committed,
    decreases blocks.len(),
{
    if blocks.len() > 0 {
        lemma_keeps_committed(dag, blocks.drop_last(), committee);
    }
}

/// Letting in a block that fits, with all that waited for it, keeps the DAG valid and the pool
/// settled.
pub proof fn lemma_let_in_keeps_settled(intake: Intake, block: VerifiedBlock, committee: Committee)
    requires
        intake.settled(committee),
        intake.dag.valid(committee),
        fit(intake.dag, committee, block),
        !intake.dag.stored.contains_key(block.spec_ref()),
    ensures
        intake.let_in(block, committee).settled(committee),
        intake.let_in(block, committee).dag.valid(committee),
{
    let after = intake.let_in(block, committee);
    let r = block.spec_ref();
    let known = intake.known();
    let less = intake.pool.waiting.remove(r);
    let now = known.insert(r);
    assert(less.dom() =~= intake.pool.waiting.dom().remove(r));
    lemma_released(less, now);
    let rest = released(less, now);
    let out = intake.batch(block);
    assert forall|k: int| 0 <= k < out.len() implies intake.dag.admits(
        #[trigger] out[k],
        committee,
    ) by {
        if k > 0 {
            assert(out[k] == rest[k - 1]);
            assert(less.contains_key(rest[k - 1].spec_ref()));
            assert(intake.pool.waiting.contains_key(rest[k - 1].spec_ref()));
        }
    }
    lemma_accept_valid(intake.dag, out, committee);
    let all = after.known();
    assert forall|x: BlockRef| #[trigger] all.contains(x) <==> now.contains(x) || has_ref(
        rest,
        x,
    ) by {
        lemma_has_ref_concat(seq![block], rest, x);
        assert(seq![block][0].spec_ref() == r);
        assert(after.dag.stored.contains_key(x) <==> intake.dag.stored.contains_key(x)
            || has_ref(out, x));
        if has_ref(seq![block], x) {
            let k = choose|k: int|
                0 <= k < seq![block].len() && (#[trigger] seq![block][k]).spec_ref() == x;
            assert(x == r);
        }
        if x == r {
            assert(has_ref(seq![block], r));
        }
    }
    assert forall|x: BlockRef| #[trigger] after.pool.waiting.contains_key(x) implies {
        let b = after.pool.waiting[x];
        &&& b.spec_ref() == x
        &&& committee.has(x.author)
        &&& 0 < x.round < u32::MAX
        &&& !after.dag.stored.contains_key(x)
        &&& !supplied(b, after.known())
        &&& lacks(b, after.known()).subset_of(
            after.pool.missing.union(after.pool.waiting.dom()),
        )
        &&& !after.pool.missing.contains(x)
    } by {
        let b = after.pool.waiting[x];
        assert(less.contains_key(x));
        assert(intake.pool.waiting.contains_key(x));
        lemma_unreleased_lacks(less, now, all, x);
        assert(!all.contains(x));
        assert forall|a: BlockRef| lacks(b, after.known()).contains(a) implies
            after.pool.missing.union(after.pool.waiting.dom()).contains(a) by {
            assert(!all.contains(a));
            assert(!now.contains(a));
            assert(lacks(b, known).contains(a));
            assert(intake.pool.missing.union(intake.pool.waiting.dom()).contains(a));
            if intake.pool.waiting.contains_key(a) {
                assert(less.contains_key(a));
            }
        }
    }
    assert forall|x: BlockRef| #[trigger]
        after.pool.missing.contains(x) implies !after.dag.stored.contains_key(x) by {
        assert(intake.pool.missing.contains(x));
        if all.contains(x) {
            if has_ref(rest, x) {
                let k = choose|k: int|
                    0 <= k < rest.len() && (#[trigger] rest[k]).spec_ref() == x;
                assert(less.contains_key(x));
                assert(intake.pool.waiting.contains_key(x));
            }
        }
    }
}

/// Offering a block that fits keeps the DAG valid and the pool settled.
pub proof fn law_offer_keeps_settled(intake: Intake, block: VerifiedBlock, committee: Committee)
    requires
        intake.settled(committee),
        intake.dag.valid(committee),
        fit(intake.dag, committee, block),
    ensures
        intake.offer(block, committee).settled(committee),
        intake.offer(block, committee).dag.valid(committee),
{
    let after = intake.offer(block, committee);
    let r = block.spec_ref();
    let known = intake.known();
    if intake.dag.stored.contains_key(r) {
    } else if supplied(block, known) {
        lemma_let_in_keeps_settled(intake, block, committee);
    } else {
        assert(after.pool.waiting.dom() =~= intake.pool.waiting.dom().insert(r));
        assert forall|x: BlockRef| #[trigger] after.pool.waiting.contains_key(x) implies {
            let b = after.pool.waiting[x];
            &&& b.spec_ref() == x
            &&& committee.has(x.author)
            &&& 0 < x.round < u32::MAX
            &&& !after.dag.stored.contains_key(x)
            &&& !supplied(b, after.known())
            &&& lacks(b, after.known()).subset_of(
                after.pool.missing.union(after.pool.waiting.dom()),
            )
            &&& !after.pool.missing.contains(x)
        } by {
            let b = after.pool.waiting[x];
            if x != r {
                assert(intake.pool.waiting.contains_key(x));
                assert forall|a: BlockRef| lacks(b, known).contains(a) implies
                    after.pool.missing.union(after.pool.waiting.dom()).contains(a) by {
                    assert(intake.pool.missing.union(intake.pool.waiting.dom()).contains(a));
                }
            }
        }
    }
}

/// What changes when blocks are taken in: stored blocks stay as they are, every accepted
/// block is stored, and nothing is committed by it.
pub open spec fn grows(before: Intake, after: Intake, accepted: Seq<VerifiedBlock>) -> bool {
    &&& forall|r: BlockRef| #[trigger]
        after.dag.stored.contains_key(r) <==> before.dag.stored.contains_key(r) || has_ref(
            accepted,
            r,
        )
    &&& forall|r: BlockRef| #[trigger]
        before.dag.stored.contains_key(r) ==> after.dag.stored[r] == before.dag.stored[r]
    &&& after.dag.committed == before.dag.committed
    &&& after.dag.last_index == before.dag.last_index
}

/// Offering a batch keeps every intermediate state settled and the history whole.
pub proof fn law_offers_keep_whole(intake: Intake, blocks: Seq<VerifiedBlock>, committee: Committee)
    requires
        intake.settled(committee),
        intake.dag.valid(committee),
        whole(intake),
        forall|i: int|
            0 <= i < blocks.len() ==> fit(intake.dag, committee, #[trigger] blocks[i]) && points_back(
                blocks[i],
            ),
    ensures
        intake.offer_all(blocks, committee).settled(committee),
        intake.offer_all(blocks, committee).dag.valid(committee),
        whole(intake.offer_all(blocks, committee)),
        grows(
            intake,
            intake.offer_all(blocks, committee),
            intake.accepted_from_all(blocks, committee),
        ),
    decreases blocks.len(),
{
    if blocks.len() > 0 {
        let front = blocks.drop_last();
        let last = blocks.last();
        assert forall|i: int| 0 <= i < front.len() implies fit(
            intake.dag,
            committee,
            #[trigger] front[i],
        ) && points_back(front[i]) by {
            assert(front[i] == blocks[i]);
        }
        law_offers_keep_whole(intake, front, committee);
        let mid = intake.offer_all(front, committee);
        let end = intake.offer_all(blocks, committee);
        assert(blocks[blocks.len() - 1] == last);
        law_offer_keeps_whole(mid, last, committee);
        assert(fit(mid.dag, committee, last));
        law_offer_keeps_settled(mid, last, committee);
        let first = intake.accepted_from_all(front, committee);
        let second = mid.accepted_from(last);
        assert(intake.accepted_from_all(blocks, committee) == first + second);
        assert forall|r: BlockRef| #[trigger] end.dag.stored.contains_key(r)
            <==> intake.dag.stored.contains_key(r) || has_ref(first + second, r) by {
            lemma_has_ref_concat(first, second, r);
            assert(mid.dag.stored.contains_key(r) <==> intake.dag.stored.contains_key(r)
                || has_ref(first, r));
        }
        assert forall|r: BlockRef| #[trigger] intake.dag.stored.contains_key(r) implies
            end.dag.stored[r] == intake.dag.stored[r] by {
            assert(mid.dag.stored.contains_key(r));
        }
    } else {
        assert forall|r: BlockRef| !has_ref(intake.accepted_from_all(blocks, committee), r) by {}
    }
}

/// Concatenation holds the references of both parts.
pub proof fn lemma_has_ref_concat(a: Seq<VerifiedBlock>, b: Seq<VerifiedBlock>, r: BlockRef)
    ensures
        has_ref(a + b, r) <==> has_ref(a, r) || has_ref(b, r),
{
    let all = a + b;
    if has_ref(a, r) {
        let k = choose|k: int| 0 <= k < a.len() && (#[trigger] a[k]).spec_ref() == r;
        assert(all[k].spec_ref() == r);
    }
    if has_ref(b, r) {
        let k = choose|k: int| 0 <= k < b.len() && (#[trigger] b[k]).spec_ref() == r;
        assert(all[a.len() + k].spec_ref() == r);
    }
    if has_ref(all, r) {
        let k = choose|k: int| 0 <= k < all.len() && (#[trigger] all[k]).spec_ref() == r;
        if k < a.len() {
            assert(a[k].spec_ref() == r);
        } else {
            assert(b[k - a.len()].spec_ref() == r);
        }
    }
}

} // verus!
