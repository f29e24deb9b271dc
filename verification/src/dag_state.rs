//! The in-memory DAG of accepted blocks and what has been committed of it.

use std::sync::Arc;

use vstd::prelude::*;

use crate::causal::{
    complete, cone, expand, has_ref, history_present, keyed, layered, leads_to, lemma_expand_left,
    lemma_leads_down, points_back, walk, walk_left, Store,
};
use crate::commit::{CommitDigest, CommitIndex, CommittedSubDag, GENESIS_COMMIT_INDEX, refs_of};
use crate::committee::{lemma_stake_monotone, AuthorityIndex, Committee};
use crate::context::Context;
use crate::hashing::{le_bytes, push_all, push_le, sha3_256, sha3_256_digest};
use crate::ordered::{in_order, lemma_in_order, lemma_orderable, ordered, RefMap, RefSet};
use crate::threshold_clock::{ClockState, ThresholdClock};
use crate::types::{
    genesis_blocks, is_genesis_of, BlockRef, BlockTimestampMs, Round, Slot, VerifiedBlock,
    lemma_precedes_irreflexive, lemma_precedes_transitive,
};

verus! {

/// Whether a block of `author` at `round` is stored.
pub open spec fn has_author_at(stored: Store, round: Round, author: AuthorityIndex) -> bool {
    exists|r: BlockRef| #[trigger]
        stored.contains_key(r) && r.round == round && r.author == author
}

/// The authorities with a stored block at `round`.
pub open spec fn authors_at(stored: Store, round: Round) -> Set<AuthorityIndex> {
    Set::new(|a: AuthorityIndex| has_author_at(stored, round, a))
}

/// What a DAG holds.
#[verifier::ext_equal]
pub struct DagModel {
    /// All blocks, those of genesis included.
    pub stored: Store,
    /// References that have been linearised into a commit, and those of genesis.
    pub committed: Set<BlockRef>,
    /// The clock that decides the next proposal round.
    pub clock: ClockState,
    /// Highest round among the accepted blocks.
    pub highest: Round,
    pub last_index: CommitIndex,
    pub last_digest: CommitDigest,
    pub last_timestamp: BlockTimestampMs,
    /// Round of the leader committed last, 0 if there is none.
    pub last_round: Round,
}

impl DagModel {
    /// The DAG once `block` is accepted.
    pub open spec fn accept(self, block: VerifiedBlock, committee: Committee) -> DagModel {
        DagModel {
            stored: self.stored.insert(block.spec_ref(), block),
            clock: self.clock.after(block.spec_ref(), committee),
            highest: if block.block().round > self.highest {
                block.block().round
            } else {
                self.highest
            },
            ..self
        }
    }

    /// The DAG once `blocks` are accepted one after the other.
    pub open spec fn accept_all(self, blocks: Seq<VerifiedBlock>, committee: Committee) -> DagModel
        decreases blocks.len(),
    {
        if blocks.len() == 0 {
            self
        } else {
            self.accept_all(blocks.drop_last(), committee).accept(blocks.last(), committee)
        }
    }

    /// Whether `block` may be accepted: by a member, not of the genesis round unless it is
    /// a genesis block, and below the last round number.
    pub open spec fn admits(self, block: VerifiedBlock, committee: Committee) -> bool {
        &&& committee.has(block.block().author)
        &&& block.block().round > 0 || self.stored.contains_key(block.spec_ref())
        &&& block.block().round < u32::MAX
    }

    /// The DAG once the commit `subdag` is recorded.
    pub open spec fn record(self, subdag: CommittedSubDag) -> DagModel {
        DagModel {
            last_index: subdag.commit_ref.index,
            last_digest: subdag.commit_ref.digest,
            last_timestamp: subdag.timestamp_ms,
            last_round: subdag.leader.round,
            ..self
        }
    }

    /// The blocks with these references.
    pub open spec fn fetched(self, refs: Seq<BlockRef>) -> Seq<VerifiedBlock> {
        refs.map_values(|r: BlockRef| self.stored[r])
    }

    /// References of the uncommitted blocks in `slot`.
    pub open spec fn open_refs_at_slot(self, slot: Slot) -> Set<BlockRef> {
        Set::new(
            |r: BlockRef|
                self.stored.contains_key(r) && !self.committed.contains(r) && r.slot() == slot,
        )
    }

    /// References of the uncommitted blocks at `round`.
    pub open spec fn open_refs_at_round(self, round: Round) -> Set<BlockRef> {
        Set::new(
            |r: BlockRef|
                self.stored.contains_key(r) && !self.committed.contains(r) && r.round == round,
        )
    }

    /// The uncommitted blocks in `slot`, in reference order.
    pub open spec fn open_at_slot(self, slot: Slot) -> Seq<VerifiedBlock> {
        self.fetched(in_order(self.open_refs_at_slot(slot)))
    }

    /// The uncommitted blocks at `round`, in reference order.
    pub open spec fn open_at_round(self, round: Round) -> Seq<VerifiedBlock> {
        self.fetched(in_order(self.open_refs_at_round(round)))
    }

    /// References of the stored ancestors of `block` at `round`.
    pub open spec fn ancestor_refs(self, block: VerifiedBlock, round: Round) -> Set<BlockRef> {
        Set::new(
            |r: BlockRef|
                self.stored.contains_key(r) && r.round == round && leads_to(self.stored, block, r),
        )
    }

    /// The stored ancestors of `block` at `round`, in reference order.
    pub open spec fn ancestors(self, block: VerifiedBlock, round: Round) -> Seq<VerifiedBlock> {
        self.fetched(in_order(self.ancestor_refs(block, round)))
    }

    /// Fetching a set of stored references in order gives exactly those blocks, in order.
    pub proof fn lemma_fetched(self, s: Set<BlockRef>)
        requires
            self.stored.dom().finite(),
            keyed(self.stored),
            s.subset_of(self.stored.dom()),
        ensures
            ({
                let out = self.fetched(in_order(s));
                &&& ordered(refs_of(out))
                &&& refs_of(out) == in_order(s)
                &&& forall|i: int|
                    0 <= i < out.len() ==> {
                        let r = (#[trigger] out[i]).spec_ref();
                        &&& s.contains(r)
                        &&& self.stored.contains_key(r)
                        &&& self.stored[r] == out[i]
                    }
                &&& forall|r: BlockRef| #[trigger] s.contains(r) ==> has_ref(out, r)
            }),
    {
        vstd::set_lib::lemma_set_subset_finite(self.stored.dom(), s);
        lemma_orderable(s);
        let refs = in_order(s);
        let out = self.fetched(refs);
        assert forall|i: int| 0 <= i < out.len() implies {
            let r = (#[trigger] out[i]).spec_ref();
            &&& s.contains(r)
            &&& self.stored.contains_key(r)
            &&& self.stored[r] == out[i]
            &&& r == refs[i]
        } by {
            assert(refs.to_set().contains(refs[i]));
            assert(self.stored.contains_key(refs[i]));
        }
        assert(refs_of(out) =~= refs);
        assert forall|r: BlockRef| #[trigger] s.contains(r) implies has_ref(out, r) by {
            assert(refs.to_set().contains(r));
            let i = refs.index_of(r);
            assert(out[i].spec_ref() == r);
        }
    }

    /// The uncommitted causal history of `leader` above `floor`; nothing if the leader is
    /// unknown or committed.
    pub open spec fn causal(self, leader: BlockRef, floor: Round) -> Seq<VerifiedBlock> {
        if self.stored.contains_key(leader) && !self.committed.contains(leader) {
            cone(self.stored, self.committed, self.stored[leader], floor)
        } else {
            Seq::empty()
        }
    }

    /// What the clock shows, whatever the order in which the blocks came: round 1 as long as
    /// there is only genesis, then the highest round, and the round after it once the
    /// authorities with a block there are a quorum.
    pub open spec fn due_clock(self, committee: Committee) -> ClockState {
        let authors = authors_at(self.stored, self.highest);
        if self.highest == 0 {
            ClockState::at(1)
        } else if committee.is_quorum(authors) {
            ClockState::at((self.highest + 1) as Round)
        } else {
            ClockState { round: self.highest, voters: authors }
        }
    }

    /// Blocks are stored under their references, by members, within the rounds seen; the
    /// genesis round is committed.
    pub open spec fn valid(self, committee: Committee) -> bool {
        &&& self.stored.dom().finite()
        &&& keyed(self.stored)
        &&& forall|r: BlockRef| #[trigger]
            self.stored.contains_key(r) ==> {
                &&& committee.has(r.author)
                &&& r.round <= self.highest
                &&& r.round == 0 ==> self.committed.contains(r)
            }
        &&& self.highest < u32::MAX
    }
}

/// Accepting a block leaves the clock at what it is due to show.
pub proof fn lemma_accept_keeps_clock(dag: DagModel, block: VerifiedBlock, committee: Committee)
    requires
        dag.valid(committee),
        dag.admits(block, committee),
        dag.clock == dag.due_clock(committee),
    ensures
        dag.accept(block, committee).clock == dag.accept(block, committee).due_clock(committee),
{
    let after = dag.accept(block, committee);
    let r = block.spec_ref();
    let top = dag.highest;
    assert forall|round: Round, a: AuthorityIndex| #[trigger]
        has_author_at(after.stored, round, a) <==> has_author_at(dag.stored, round, a) || (r.round == round
            && r.author == a) by {
        if has_author_at(dag.stored, round, a) {
            let x = choose|x: BlockRef| #[trigger]
                dag.stored.contains_key(x) && x.round == round && x.author == a;
            assert(after.stored.contains_key(x));
        }
        if r.round == round && r.author == a {
            assert(after.stored.contains_key(r));
        }
        if has_author_at(after.stored, round, a) && !(r.round == round && r.author == a) {
            let x = choose|x: BlockRef| #[trigger]
                after.stored.contains_key(x) && x.round == round && x.author == a;
            assert(dag.stored.contains_key(x));
        }
    }
    if r.round < top || r.round == 0 {
        assert(authors_at(after.stored, top) =~= authors_at(dag.stored, top));
    } else if r.round == top {
        assert(authors_at(after.stored, top) =~= authors_at(dag.stored, top).insert(r.author));
        lemma_stake_monotone(
            committee.members(),
            authors_at(dag.stored, top),
            authors_at(dag.stored, top).insert(r.author),
        );
    } else {
        assert forall|a: AuthorityIndex| !has_author_at(dag.stored, r.round, a) by {}
        assert(authors_at(after.stored, r.round) =~= Set::<AuthorityIndex>::empty().insert(r.author));
        assert(dag.clock.voters_with(r) =~= Set::<AuthorityIndex>::empty().insert(r.author));
    }
}

/// Accepting two batches is accepting them as one.
pub proof fn lemma_accept_concat(
    dag: DagModel,
    first: Seq<VerifiedBlock>,
    second: Seq<VerifiedBlock>,
    committee: Committee,
)
    ensures
        dag.accept_all(first + second, committee) == dag.accept_all(first, committee).accept_all(
            second,
            committee,
        ),
    decreases second.len(),
{
    if second.len() == 0 {
        assert(first + second =~= first);
    } else {
        lemma_accept_concat(dag, first, second.drop_last(), committee);
        assert((first + second).drop_last() =~= first + second.drop_last());
    }
}

/// The bytes that a commit digest is computed over.
pub open spec fn commit_preimage(index: CommitIndex, leader: BlockRef) -> Seq<u8> {
    le_bytes(index as nat, 4) + le_bytes(leader.round as nat, 4) + le_bytes(
        leader.author.0 as nat,
        4,
    ) + leader.digest.0@
}

/// Compute a commit digest from the sequential index and the leader. This is deterministic
/// but not tied to block content.
pub fn derive_commit_digest(index: CommitIndex, leader: &BlockRef) -> (r: CommitDigest)
    ensures
        r.0@ == sha3_256(commit_preimage(index, *leader)),
{
    let mut bytes: Vec<u8> = Vec::new();
    push_le(&mut bytes, index as u64, 4);
    push_le(&mut bytes, leader.round as u64, 4);
    push_le(&mut bytes, leader.author.0 as u64, 4);
    push_all(&mut bytes, leader.digest.0.as_slice());
    assert(bytes@ =~= commit_preimage(index, *leader));
    CommitDigest(sha3_256_digest(&bytes))
}

/// Whether `x` is among `linked` or an ancestor of a stored block among `linked` that comes
/// from a later round.
spec fn linked_to(stored: Store, linked: Set<BlockRef>, x: BlockRef) -> bool {
    ||| linked.contains(x)
    ||| exists|t: BlockRef| #[trigger]
        linked.contains(t) && stored.contains_key(t) && leads_to(stored, stored[t], x)
}

proof fn lemma_linked_start(stored: Store, b: VerifiedBlock, x: BlockRef)
    requires
        keyed(stored),
        points_back(b),
    ensures
        leads_to(stored, b, x) == linked_to(stored, b.parents().to_set(), x),
{
    let linked = b.parents().to_set();
    if leads_to(stored, b, x) && !b.parents().contains(x) {
        let p = choose|p: BlockRef| #[trigger]
            b.parents().contains(p) && stored.contains_key(p) && stored[p].block().round
                < b.block().round && leads_to(stored, stored[p], x);
        assert(linked.contains(p));
    }
    if linked_to(stored, linked, x) && !linked.contains(x) {
        let t = choose|t: BlockRef| #[trigger]
            linked.contains(t) && stored.contains_key(t) && leads_to(stored, stored[t], x);
        assert(b.parents().contains(t));
        assert(stored[t].spec_ref() == t);
    }
}

proof fn lemma_linked_step(
    stored: Store,
    before: Set<BlockRef>,
    top: BlockRef,
    after: Set<BlockRef>,
    round: Round,
)
    requires
        keyed(stored),
        layered(stored),
        before.contains(top),
        stored.contains_key(top),
        top.round > round,
        after == before.remove(top).union(stored[top].parents().to_set()),
    ensures
        forall|x: BlockRef|
            x.round == round ==> #[trigger] linked_to(stored, after, x) == linked_to(
                stored,
                before,
                x,
            ),
{
    assert forall|x: BlockRef| x.round == round implies #[trigger] linked_to(stored, after, x)
        == linked_to(stored, before, x) by {
        lemma_linked_start(stored, stored[top], x);
        let parents = stored[top].parents().to_set();
        if linked_to(stored, after, x) {
            if after.contains(x) {
                if !before.contains(x) {
                    assert(parents.contains(x));
                    assert(leads_to(stored, stored[top], x));
                }
            } else {
                let t = choose|t: BlockRef| #[trigger]
                    after.contains(t) && stored.contains_key(t) && leads_to(stored, stored[t], x);
                if !before.contains(t) {
                    assert(parents.contains(t));
                    assert(leads_to(stored, stored[top], x));
                }
            }
        }
        if linked_to(stored, before, x) {
            if before.contains(x) {
                assert(after.contains(x));
            } else {
                let t = choose|t: BlockRef| #[trigger]
                    before.contains(t) && stored.contains_key(t) && leads_to(stored, stored[t], x);
                if t == top {
                    if parents.contains(x) {
                        assert(after.contains(x));
                    } else {
                        let p = choose|p: BlockRef| #[trigger]
                            parents.contains(p) && stored.contains_key(p) && leads_to(
                                stored,
                                stored[p],
                                x,
                            );
                        assert(after.contains(p));
                    }
                } else {
                    assert(after.contains(t));
                }
            }
        }
    }
}

proof fn lemma_linked_drop(stored: Store, before: Set<BlockRef>, top: BlockRef, round: Round)
    requires
        !stored.contains_key(top),
        top.round > round,
    ensures
        forall|x: BlockRef|
            x.round == round ==> #[trigger] linked_to(stored, before.remove(top), x) == linked_to(
                stored,
                before,
                x,
            ),
{
    let after = before.remove(top);
    assert forall|x: BlockRef| x.round == round implies #[trigger] linked_to(stored, after, x)
        == linked_to(stored, before, x) by {
        if linked_to(stored, before, x) {
            if before.contains(x) {
                assert(after.contains(x));
            } else {
                let t = choose|t: BlockRef| #[trigger]
                    before.contains(t) && stored.contains_key(t) && leads_to(stored, stored[t], x);
                assert(after.contains(t));
            }
        }
    }
}

/// Whether `u` is `t` or precedes it.
spec fn up_to(u: BlockRef, t: BlockRef) -> bool {
    u == t || u.precedes(t)
}

/// The stored references up to some stored member of `linked`.
spec fn at_or_below(stored: Store, linked: Set<BlockRef>) -> Set<BlockRef> {
    stored.dom().filter(
        |u: BlockRef|
            exists|t: BlockRef|
                linked.contains(t) && stored.contains_key(t) && #[trigger] up_to(u, t),
    )
}

proof fn lemma_below_shrinks(
    stored: Store,
    before: Set<BlockRef>,
    top: BlockRef,
    after: Set<BlockRef>,
)
    requires
        keyed(stored),
        layered(stored),
        stored.dom().finite(),
        before.contains(top),
        stored.contains_key(top),
        forall|x: BlockRef| #[trigger] before.contains(x) && x != top ==> x.precedes(top),
        after == before.remove(top).union(stored[top].parents().to_set()),
    ensures
        at_or_below(stored, after).len() < at_or_below(stored, before).len(),
{
    let more = at_or_below(stored, before);
    let less = at_or_below(stored, after);
    assert forall|x: BlockRef| #[trigger] after.contains(x) implies x.precedes(top) by {
        if !before.remove(top).contains(x) {
            assert(stored[top].parents().contains(x));
            assert(stored[top].spec_ref() == top);
        }
    }
    assert forall|u: BlockRef| #[trigger] less.contains(u) implies more.contains(u) && u != top by {
        let t = choose|t: BlockRef|
            after.contains(t) && stored.contains_key(t) && #[trigger] up_to(u, t);
        assert(t.precedes(top));
        lemma_precedes_irreflexive(top);
        if u != t {
            lemma_precedes_transitive(u, t, top);
        }
        assert(up_to(u, top));
    }
    assert(up_to(top, top));
    assert(more.contains(top));
    assert(less.subset_of(more.remove(top)));
    vstd::set_lib::lemma_len_subset(less, more.remove(top));
}

proof fn lemma_set_top(refs: Seq<BlockRef>)
    requires
        ordered(refs),
        refs.len() > 0,
    ensures
        forall|x: BlockRef| #[trigger]
            refs.to_set().contains(x) ==> x == refs.last() || x.precedes(refs.last()),
{
    assert forall|x: BlockRef| #[trigger] refs.to_set().contains(x) implies x == refs.last()
        || x.precedes(refs.last()) by {
        let i = refs.index_of(x);
        if i < refs.len() - 1 {
            assert(refs[i].precedes(refs[refs.len() - 1]));
        }
    }
}

/// In-memory DAG state.
#[derive(Debug)]
pub struct DagState {
    pub(crate) context: Arc<Context>,
    // All blocks, genesis included.
    pub(crate) blocks: RefMap<VerifiedBlock>,
    // References that have already been linearised, and those of genesis.
    pub(crate) committed: RefSet,
    // Drives the "advance to next proposal round" logic.
    pub(crate) threshold_clock: ThresholdClock,
    // Highest round seen in accepted blocks.
    pub(crate) highest_accepted_round: Round,
    pub(crate) last_commit_index: CommitIndex,
    pub(crate) last_commit_digest: CommitDigest,
    pub(crate) last_commit_timestamp_ms: BlockTimestampMs,
    pub(crate) last_commit_round: Round,
}

impl View for DagState {
    type V = DagModel;

    open(crate) spec fn view(&self) -> DagModel {
        DagModel {
            stored: self.blocks@,
            committed: self.committed@,
            clock: self.threshold_clock@,
            highest: self.highest_accepted_round,
            last_index: self.last_commit_index,
            last_digest: self.last_commit_digest,
            last_timestamp: self.last_commit_timestamp_ms,
            last_round: self.last_commit_round,
        }
    }
}

/// Whether `m` holds a block of the authority at position `i`.
pub open spec fn has_block_of(m: DagModel, i: int) -> bool {
    exists|r: BlockRef| #[trigger] m.stored.contains_key(r) && r.author.0 == i
}

/// Whether `m` holds the genesis blocks of `committee` and nothing else.
pub open spec fn is_initial(m: DagModel, committee: Committee) -> bool {
    &&& forall|r: BlockRef| #[trigger]
        m.stored.contains_key(r) ==> {
            &&& committee.has(r.author)
            &&& m.stored[r].spec_ref() == r
            &&& is_genesis_of(m.stored[r], committee, r.author.0 as int)
        }
    &&& forall|i: int| 0 <= i < committee.members().len() ==> #[trigger] has_block_of(m, i)
    &&& m.committed == m.stored.dom()
    &&& m.clock == ClockState::at(1)
    &&& m.highest == 0
    &&& m.last_index == GENESIS_COMMIT_INDEX
    &&& m.last_digest.0@ == Seq::new(32, |i: int| 0u8)
    &&& m.last_timestamp == 0
    &&& m.last_round == 0
}

impl DagState {
    pub open(crate) spec fn spec_committee(&self) -> Committee {
        *self.context.committee
    }

    pub open(crate) spec fn wf(&self) -> bool {
        &&& self.context.wf()
        &&& self.blocks.wf()
        &&& self.committed.wf()
        &&& self.threshold_clock.wf()
        &&& self.threshold_clock.committee() == self.spec_committee()
        &&& self@.valid(self.spec_committee())
        &&& self@.clock == self@.due_clock(self.spec_committee())
    }

    /// The DAG of genesis blocks. All of them are considered committed, so that no
    /// commit reaches into them.
    pub fn new(context: Arc<Context>) -> (r: Self)
        requires
            context.wf(),
        ensures
            r.wf(),
            r.spec_committee() == *context.committee,
            is_initial(r@, *context.committee),
            complete(r@.stored),
    {
        let genesis = genesis_blocks(&context.committee);
        let mut blocks: RefMap<VerifiedBlock> = RefMap::new();
        let mut committed = RefSet::new();
        let mut i: usize = 0;
        let ghost committee = context.spec_committee();
        while i < genesis.len()
            invariant
                i <= genesis@.len() == committee.members().len(),
                forall|j: int|
                    0 <= j < genesis@.len() ==> is_genesis_of(
                        #[trigger] genesis@[j],
                        committee,
                        j,
                    ),
                blocks.wf(),
                committed.wf(),
                committed@ == blocks@.dom(),
                forall|r: BlockRef| #[trigger]
                    blocks@.contains_key(r) ==> {
                        &&& r.author.0 < i
                        &&& blocks@[r].spec_ref() == r
                        &&& is_genesis_of(blocks@[r], committee, r.author.0 as int)
                    },
                forall|j: int|
                    0 <= j < i ==> blocks@.contains_key((#[trigger] genesis@[j]).spec_ref()),
            decreases genesis@.len() - i,
        {
            let block_ref = genesis[i].reference();
            assert(is_genesis_of(genesis@[i as int], committee, i as int));
            committed.insert(block_ref);
            blocks.insert(block_ref, genesis[i].clone());
            i += 1;
            assert(committed@ =~= blocks@.dom());
        }
        let threshold_clock = ThresholdClock::new(1, context.clone());
        let r = DagState {
            context,
            blocks,
            committed,
            threshold_clock,
            highest_accepted_round: 0,
            last_commit_index: GENESIS_COMMIT_INDEX,
            last_commit_digest: CommitDigest::default(),
            last_commit_timestamp_ms: 0,
            last_commit_round: 0,
        };
        proof {
            r.blocks.lemma_positions();
            assert forall|k: int| 0 <= k < committee.members().len() implies
                #[trigger] has_block_of(r@, k) by {
                assert(is_genesis_of(genesis@[k], committee, k));
                assert(r@.stored.contains_key(genesis@[k].spec_ref()));
            }
            assert forall|x: BlockRef| #[trigger] r@.stored.contains_key(x) implies points_back(
                r@.stored[x],
            ) && history_present(r@.stored[x], r@.stored) by {
                assert(r@.stored[x].parents().len() == 0);
            }
        }
        r
    }

    /// Insert one block into the local DAG and advance the threshold clock.
    pub fn accept_one(&mut self, block: VerifiedBlock)
        requires
            old(self).wf(),
            old(self)@.admits(block, old(self).spec_committee()),
        ensures
            final(self).wf(),
            final(self).spec_committee() == old(self).spec_committee(),
            final(self)@ == old(self)@.accept(block, old(self).spec_committee()),
    {
        proof {
            lemma_accept_keeps_clock(self@, block, self.spec_committee());
        }
        let block_ref = block.reference();
        self.threshold_clock.add_block(block_ref);
        if block.round() > self.highest_accepted_round {
            self.highest_accepted_round = block.round();
        }
        self.blocks.insert(block_ref, block);
        proof {
            self.blocks.lemma_positions();
        }
        assert(self@ =~= old(self)@.accept(block, old(self).spec_committee()));
    }

    /// Insert `blocks` into the local DAG, advancing the threshold clock for each block.
    pub fn accept_blocks(&mut self, blocks: Vec<VerifiedBlock>)
        requires
            old(self).wf(),
            forall|i: int|
                0 <= i < blocks@.len() ==> old(self)@.admits(
                    #[trigger] blocks@[i],
                    old(self).spec_committee(),
                ),
        ensures
            final(self).wf(),
            final(self).spec_committee() == old(self).spec_committee(),
            final(self)@ == old(self)@.accept_all(blocks@, old(self).spec_committee()),
    {
        let mut i: usize = 0;
        let ghost committee = self.spec_committee();
        assert(blocks@.take(0) =~= Seq::<VerifiedBlock>::empty());
        while i < blocks.len()
            invariant
                i <= blocks@.len(),
                self.wf(),
                self.spec_committee() == committee,
                self@ == old(self)@.accept_all(blocks@.take(i as int), committee),
                forall|j: int|
                    0 <= j < blocks@.len() ==> self@.admits(#[trigger] blocks@[j], committee),
            decreases blocks@.len() - i,
        {
            let block = blocks[i].clone();
            self.accept_one(block);
            i += 1;
            proof {
                let now = blocks@.take(i as int);
                assert(now.drop_last() =~= blocks@.take(i - 1));
                assert(now.last() == block);
            }
        }
        assert(blocks@.take(blocks@.len() as int) =~= blocks@);
    }

    /// Returns a single block by reference.
    pub fn get_block(&self, block_ref: &BlockRef) -> (r: Option<VerifiedBlock>)
        requires
            self.wf(),
        ensures
            r == self@.stored.get(*block_ref),
    {
        match self.blocks.get(block_ref) {
            Some(block) => Some(block.clone()),
            None => None,
        }
    }

    /// Batch block lookup; result indices correspond to `refs` indices.
    pub fn get_blocks(&self, refs: &[BlockRef]) -> (r: Vec<Option<VerifiedBlock>>)
        requires
            self.wf(),
        ensures
            r@ == refs@.map_values(|x: BlockRef| self@.stored.get(x)),
    {
        let mut out: Vec<Option<VerifiedBlock>> = Vec::new();
        let mut i: usize = 0;
        while i < refs.len()
            invariant
                self.wf(),
                i <= refs@.len(),
                out@.len() == i,
                forall|j: int| 0 <= j < i ==> #[trigger] out@[j] == self@.stored.get(refs@[j]),
            decreases refs@.len() - i,
        {
            out.push(self.get_block(&refs[i]));
            i += 1;
        }
        assert(out@ =~= refs@.map_values(|x: BlockRef| self@.stored.get(x)));
        out
    }

    /// Returns true if the block is stored (accepted or genesis).
    pub fn contains_block(&self, block_ref: &BlockRef) -> (r: bool)
        requires
            self.wf(),
        ensures
            r == self@.stored.contains_key(*block_ref),
    {
        self.blocks.contains_key(block_ref)
    }

    /// Batch existence check; result indices correspond to `refs` indices.
    pub fn contains_blocks(&self, refs: Vec<BlockRef>) -> (r: Vec<bool>)
        requires
            self.wf(),
        ensures
            r@ == refs@.map_values(|x: BlockRef| self@.stored.contains_key(x)),
    {
        let mut out: Vec<bool> = Vec::new();
        let mut i: usize = 0;
        while i < refs.len()
            invariant
                self.wf(),
                i <= refs@.len(),
                out@.len() == i,
                forall|j: int|
                    0 <= j < i ==> #[trigger] out@[j] == self@.stored.contains_key(refs@[j]),
            decreases refs@.len() - i,
        {
            out.push(self.contains_block(&refs[i]));
            i += 1;
        }
        assert(out@ =~= refs@.map_values(|x: BlockRef| self@.stored.contains_key(x)));
        out
    }

    /// Uncommitted blocks at `round`, of one authority if `only` names one.
    fn open_blocks(&self, round: Round, only: Option<AuthorityIndex>) -> (r: Vec<VerifiedBlock>)
        requires
            self.wf(),
        ensures
            ordered(refs_of(r@)),
            r@ == self@.fetched(refs_of(r@)),
            forall|x: BlockRef| #[trigger]
                refs_of(r@).contains(x) <==> self@.stored.contains_key(x)
                    && !self@.committed.contains(x) && x.round == round && (only matches Some(a)
                    ==> x.author == a),
    {
        let mut out: Vec<VerifiedBlock> = Vec::new();
        let start: usize = self.blocks.first_from(round);
        let mut i: usize = start;
        let ghost keys = self.blocks.key_seq();
        proof {
            self.blocks.lemma_positions();
        }
        while i < self.blocks.len() && self.blocks.key_at(i).round == round
            invariant
                self.wf(),
                keys == self.blocks.key_seq(),
                start <= i <= keys.len(),
                ordered(refs_of(out@)),
                forall|k: int| start <= k < i ==> (#[trigger] keys[k]).round == round,
                forall|j: int|
                    0 <= j < out@.len() ==> {
                        let x = (#[trigger] out@[j]).spec_ref();
                        &&& self@.stored.contains_key(x)
                        &&& out@[j] == self@.stored[x]
                        &&& !self@.committed.contains(x)
                        &&& x.round == round
                        &&& only matches Some(a) ==> x.author == a
                        &&& i < keys.len() ==> x.precedes(keys[i as int])
                    },
                forall|k: int|
                    start <= k < i && !self@.committed.contains(#[trigger] keys[k]) && (
                    only matches Some(a) ==> keys[k].author == a) ==> refs_of(out@).contains(
                        keys[k],
                    ),
            decreases keys.len() - i,
        {
            let key = self.blocks.key_at(i);
            let wanted = match only {
                Some(a) => key.author == a,
                None => true,
            };
            let ghost before = out@;
            proof {
                self.blocks.lemma_positions();
            }
            if wanted && !self.committed.contains(&key) {
                let block = self.blocks.value_at(i).clone();
                out.push(block);
                assert(refs_of(out@) =~= refs_of(before).push(key));
            }
            proof {
                let old_refs = refs_of(before);
                let new_refs = refs_of(out@);
                assert forall|k: int| start <= k < i + 1 && !self@.committed.contains(
                    #[trigger] keys[k],
                ) && (only matches Some(a) ==> keys[k].author == a) implies new_refs.contains(
                    keys[k],
                ) by {
                    if k < i {
                        let m = old_refs.index_of(keys[k]);
                        assert(new_refs[m] == keys[k]);
                    } else {
                        assert(new_refs[new_refs.len() - 1] == keys[k]);
                    }
                }
                if i + 1 < keys.len() {
                    let next = keys[i + 1];
                    assert(key.precedes(next));
                    assert forall|j: int| 0 <= j < out@.len() implies (
                    #[trigger] out@[j]).spec_ref().precedes(next) by {
                        if j < before.len() {
                            lemma_precedes_transitive(before[j].spec_ref(), key, next);
                        }
                    }
                }
            }
            i += 1;
        }
        proof {
            self.blocks.lemma_positions();
            let refs = refs_of(out@);
            assert(out@ =~= self@.fetched(refs));
            assert forall|x: BlockRef| #[trigger] refs.contains(x) <==> self@.stored.contains_key(x)
                && !self@.committed.contains(x) && x.round == round && (only matches Some(a)
                ==> x.author == a) by {
                if refs.contains(x) {
                    let j = refs.index_of(x);
                    assert(out@[j].spec_ref() == x);
                }
                if self@.stored.contains_key(x) && !self@.committed.contains(x) && x.round == round
                    && (only matches Some(a) ==> x.author == a) {
                    assert(keys.to_set().contains(x));
                    let k = keys.index_of(x);
                    assert(keys[k] == x);
                    if k >= i {
                        if k > i {
                            assert(keys[i as int].precedes(keys[k]));
                        }
                        assert(keys[i as int].round >= round);
                    }
                }
            }
        }
        out
    }

    /// All uncommitted blocks in a specific slot (round, authority), in reference order.
    pub fn get_uncommitted_blocks_at_slot(&self, slot: Slot) -> (r: Vec<VerifiedBlock>)
        requires
            self.wf(),
        ensures
            r@ == self@.open_at_slot(slot),
    {
        let r = self.open_blocks(slot.round, Some(slot.authority));
        proof {
            assert forall|x: BlockRef| #[trigger]
                refs_of(r@).contains(x) <==> self@.open_refs_at_slot(slot).contains(x) by {}
            lemma_in_order(refs_of(r@), self@.open_refs_at_slot(slot));
        }
        r
    }

    /// All uncommitted blocks at a specific round, in reference order.
    pub fn get_uncommitted_blocks_at_round(&self, round: Round) -> (r: Vec<VerifiedBlock>)
        requires
            self.wf(),
        ensures
            r@ == self@.open_at_round(round),
    {
        let r = self.open_blocks(round, None);
        proof {
            assert forall|x: BlockRef| #[trigger]
                refs_of(r@).contains(x) <==> self@.open_refs_at_round(round).contains(x) by {}
            lemma_in_order(refs_of(r@), self@.open_refs_at_round(round));
        }
        r
    }

    /// All ancestors of `later_block` (transitively) that sit at `earlier_round`, in
    /// reference order.
    pub fn ancestors_at_round(
        &self,
        later_block: &VerifiedBlock,
        earlier_round: Round,
    ) -> (r: Vec<VerifiedBlock>)
        requires
            self.wf(),
            layered(self@.stored),
            points_back(*later_block),
        ensures
            r@ == self@.ancestors(*later_block, earlier_round),
    {
        let ghost stored = self@.stored;
        let mut linked = RefSet::new();
        linked.extend(later_block.ancestors());
        proof {
            assert(linked@ =~= later_block.parents().to_set());
            assert forall|x: BlockRef| x.round == earlier_round implies #[trigger] leads_to(
                stored,
                *later_block,
                x,
            ) == linked_to(stored, linked@, x) by {
                lemma_linked_start(stored, *later_block, x);
            }
        }
        loop
            invariant
                self.wf(),
                stored == self@.stored,
                layered(stored),
                keyed(stored),
                stored.dom().finite(),
                linked.wf(),
                forall|x: BlockRef|
                    x.round == earlier_round ==> #[trigger] leads_to(stored, *later_block, x)
                        == linked_to(stored, linked@, x),
            ensures
                forall|x: BlockRef| #[trigger]
                    linked@.contains(x) ==> x.round <= earlier_round,
            decreases at_or_below(stored, linked@).len(), linked@.len(),
        {
            let ghost before = linked@;
            let top = match linked.last() {
                None => {
                    break;
                },
                Some(top) => top,
            };
            proof {
                lemma_set_top(linked.seq());
            }
            if top.round <= earlier_round {
                assert forall|x: BlockRef| #[trigger]
                    linked@.contains(x) implies x.round <= earlier_round by {
                    assert(x == top || x.precedes(top));
                }
                break;
            }
            linked.pop_last();
            let ghost popped = linked@;
            proof {
                linked.lemma_finite();
            }
            match self.blocks.get(&top) {
                Some(block) => {
                    linked.extend(block.ancestors());
                    proof {
                        lemma_linked_step(stored, before, top, linked@, earlier_round);
                        lemma_below_shrinks(stored, before, top, linked@);
                    }
                },
                None => {
                    proof {
                        lemma_linked_drop(stored, before, top, earlier_round);
                        assert(at_or_below(stored, popped) =~= at_or_below(stored, before));
                    }
                },
            }
        }
        let mut out: Vec<VerifiedBlock> = Vec::new();
        let mut i: usize = 0;
        let ghost refs = linked.seq();
        while i < linked.as_slice().len()
            invariant
                self.wf(),
                stored == self@.stored,
                refs == linked.seq(),
                ordered(refs),
                i <= refs.len(),
                ordered(refs_of(out@)),
                forall|j: int|
                    0 <= j < out@.len() ==> {
                        let x = (#[trigger] out@[j]).spec_ref();
                        &&& stored.contains_key(x)
                        &&& out@[j] == stored[x]
                        &&& x.round == earlier_round
                        &&& refs.take(i as int).contains(x)
                    },
                forall|k: int|
                    0 <= k < i && (#[trigger] refs[k]).round == earlier_round
                        && stored.contains_key(refs[k]) ==> refs_of(out@).contains(refs[k]),
            decreases refs.len() - i,
        {
            let key = linked.as_slice()[i];
            let ghost before = out@;
            if key.round == earlier_round {
                match self.blocks.get(&key) {
                    Some(block) => {
                        out.push(block.clone());
                        assert(refs_of(out@) =~= refs_of(before).push(key));
                    },
                    None => {},
                }
            }
            proof {
                let old_refs = refs_of(before);
                let new_refs = refs_of(out@);
                assert(refs.take(i + 1)[i as int] == key);
                assert forall|j: int| 0 <= j < before.len() implies {
                    let x = (#[trigger] before[j]).spec_ref();
                    &&& refs.take(i + 1).contains(x)
                    &&& x.precedes(key)
                } by {
                    let x = before[j].spec_ref();
                    let m = refs.take(i as int).index_of(x);
                    assert(refs.take(i + 1)[m] == x);
                    assert(refs[m].precedes(refs[i as int]));
                }
                assert forall|k: int|
                    0 <= k < i + 1 && (#[trigger] refs[k]).round == earlier_round
                        && stored.contains_key(refs[k]) implies new_refs.contains(refs[k]) by {
                    if k < i {
                        let m = old_refs.index_of(refs[k]);
                        assert(new_refs[m] == refs[k]);
                    } else {
                        assert(new_refs[new_refs.len() - 1] == refs[k]);
                    }
                }
            }
            i += 1;
        }
        proof {
            let found = refs_of(out@);
            let wanted = self@.ancestor_refs(*later_block, earlier_round);
            assert(out@ =~= self@.fetched(found));
            assert forall|x: BlockRef| #[trigger] found.contains(x) <==> wanted.contains(x) by {
                if x.round == earlier_round {
                    assert(leads_to(stored, *later_block, x) == linked_to(stored, linked@, x));
                    if linked_to(stored, linked@, x) && !linked@.contains(x) {
                        let t = choose|t: BlockRef| #[trigger]
                            linked@.contains(t) && stored.contains_key(t) && leads_to(
                                stored,
                                stored[t],
                                x,
                            );
                        lemma_leads_down(stored, stored[t], x);
                        assert(stored[t].spec_ref() == t);
                    }
                }
                if found.contains(x) {
                    let j = found.index_of(x);
                    assert(out@[j].spec_ref() == x);
                    let m = refs.take(i as int).index_of(x);
                    assert(refs[m] == x);
                    assert(linked@.contains(x));
                }
                if wanted.contains(x) {
                    assert(linked@.contains(x));
                    let m = refs.index_of(x);
                    assert(refs[m] == x);
                }
            }
            lemma_in_order(found, wanted);
        }
        out
    }

    /// Read-only causal traversal anchored at `leader_ref`.
    ///
    /// Returns all blocks in the causal cone of `leader_ref` that are above `gc_round` and
    /// have not yet been committed, in the order of a depth-first walk. Returns nothing if
    /// the leader block is not found or is already committed.
    pub fn get_causal_blocks(&self, leader_ref: &BlockRef, gc_round: Round) -> (r: Vec<
        VerifiedBlock,
    >)
        requires
            self.wf(),
            leader_ref.round > gc_round,
        ensures
            r@ == self@.causal(*leader_ref, gc_round),
    {
        let ghost stored = self@.stored;
        let leader = match self.get_block(leader_ref) {
            None => {
                return Vec::new();
            },
            Some(leader) => leader,
        };
        if self.is_committed(leader_ref) {
            return Vec::new();
        }
        let ghost expected = self@.causal(*leader_ref, gc_round);
        let mut visited = RefSet::new();
        visited.insert(*leader_ref);
        let mut stack: Vec<VerifiedBlock> = Vec::new();
        stack.push(leader);
        let mut result: Vec<VerifiedBlock> = Vec::new();
        proof {
            assert(self@.committed.union(visited@) =~= self@.committed.insert(*leader_ref));
            assert(stack@ =~= seq![leader]);
        }
        while stack.len() > 0
            invariant
                self.wf(),
                stored == self@.stored,
                visited.wf(),
                result@ + walk(stored, self@.committed.union(visited@), stack@, gc_round)
                    == expected,
            decreases walk_left(stored, self@.committed.union(visited@), stack@),
        {
            let ghost done = self@.committed.union(visited@);
            let ghost rest = walk(stored, done, stack@, gc_round);
            let ghost under = stack@.drop_last();
            let block = stack.pop().unwrap();
            let ghost (d, s) = expand(stored, done, under, block.parents(), gc_round);
            proof {
                lemma_expand_left(stored, done, under, block.parents(), gc_round);
                assert(rest == seq![block] + walk(stored, d, s, gc_round));
            }
            result.push(block.clone());
            let ancestors = block.ancestors();
            let mut i: usize = 0;
            assert(ancestors@.take(0) =~= Seq::<BlockRef>::empty());
            while i < ancestors.len()
                invariant
                    self.wf(),
                    stored == self@.stored,
                    visited.wf(),
                    i <= ancestors@.len(),
                    (self@.committed.union(visited@), stack@) == expand(
                        stored,
                        done,
                        under,
                        ancestors@.take(i as int),
                        gc_round,
                    ),
                decreases ancestors@.len() - i,
            {
                let ancestor_ref = ancestors[i];
                let ghost seen = visited@;
                let ghost before = ancestors@.take(i as int);
                let ghost now = ancestors@.take(i + 1);
                assert(now.drop_last() =~= before);
                assert(now.last() == ancestor_ref);
                if ancestor_ref.round > gc_round && !self.is_committed(&ancestor_ref) {
                    match self.get_block(&ancestor_ref) {
                        Some(ancestor_block) => {
                            if visited.insert(ancestor_ref) {
                                stack.push(ancestor_block);
                                assert(self@.committed.union(visited@) =~= self@.committed.union(
                                    seen,
                                ).insert(ancestor_ref));
                            } else {
                                assert(visited@ =~= seen);
                            }
                        },
                        None => {},
                    }
                }
                i += 1;
            }
            proof {
                assert(ancestors@.take(ancestors@.len() as int) =~= ancestors@);
                assert(result@ + walk(stored, d, s, gc_round) =~= expected);
            }
        }
        assert(result@ =~= expected);
        result
    }

    /// Mark a block as committed. Returns `false` if it was already committed.
    pub fn set_committed(&mut self, block_ref: &BlockRef) -> (r: bool)
        requires
            old(self).wf(),
        ensures
            final(self).wf(),
            final(self).spec_committee() == old(self).spec_committee(),
            final(self)@ == (DagModel {
                committed: old(self)@.committed.insert(*block_ref),
                ..old(self)@
            }),
            r == !old(self)@.committed.contains(*block_ref),
    {
        self.committed.insert(*block_ref)
    }

    /// Returns `true` if the block has already been committed.
    pub fn is_committed(&self, block_ref: &BlockRef) -> (r: bool)
        requires
            self.wf(),
        ensures
            r == self@.committed.contains(*block_ref),
    {
        self.committed.contains(block_ref)
    }

    /// Record the completion of a commit, updating the running commit state.
    pub fn record_commit(&mut self, subdag: &CommittedSubDag)
        requires
            old(self).wf(),
            subdag.commit_ref.index == old(self)@.last_index + 1,
        ensures
            final(self).wf(),
            final(self).spec_committee() == old(self).spec_committee(),
            final(self)@ == old(self)@.record(*subdag),
    {
        self.last_commit_index = subdag.commit_ref.index;
        self.last_commit_digest = subdag.commit_ref.digest;
        self.last_commit_timestamp_ms = subdag.timestamp_ms;
        self.last_commit_round = subdag.leader.round;
    }

    pub fn last_commit_index(&self) -> (r: CommitIndex)
        ensures
            r == self@.last_index,
    {
        self.last_commit_index
    }

    pub fn last_commit_digest(&self) -> (r: CommitDigest)
        ensures
            r == self@.last_digest,
    {
        self.last_commit_digest
    }

    pub fn last_commit_timestamp_ms(&self) -> (r: BlockTimestampMs)
        ensures
            r == self@.last_timestamp,
    {
        self.last_commit_timestamp_ms
    }

    pub fn highest_accepted_round(&self) -> (r: Round)
        ensures
            r == self@.highest,
    {
        self.highest_accepted_round
    }

    /// Returns the current proposal round from the threshold clock.
    pub fn threshold_clock_round(&self) -> (r: Round)
        ensures
            r == self@.clock.round,
            self.wf() ==> r == self@.due_clock(self.spec_committee()).round,
    {
        self.threshold_clock.get_round()
    }

    /// Round of the leader committed last, 0 if there is none.
    pub fn last_commit_round(&self) -> (r: Round)
        ensures
            r == self@.last_round,
    {
        self.last_commit_round
    }

    /// Garbage-collection round. Always 0: nothing is collected.
    pub fn gc_round(&self) -> (r: Round)
        ensures
            r == 0,
    {
        0
    }

    pub fn committee(&self) -> (r: &Arc<Committee>)
        ensures
            **r == self.spec_committee(),
    {
        &self.context.committee
    }
}

} // verus!
