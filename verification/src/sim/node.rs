//! A consensus node with a simulated clock and reproducible randomness.

use std::sync::Arc;

use rand::rngs::StdRng;
use rand::{RngCore, SeedableRng};
use vstd::prelude::*;

use crate::base_committer::ConflictingLeaders;
use crate::committee::{AuthorityIndex, Committee};
use crate::context::Context;
use crate::dag_state::is_initial;
use crate::node::{views_of, ConsensusNode, EventView, NodeModel, NodeStep};
use crate::node_laws::law_node_never_forgets;
use crate::shared::ConsensusEvent;
use crate::soft_commit::SoftVotes;
use crate::stable_sort::{lemma_sorted_by_rank, sorted_by_rank};
use crate::types::{
    ancestor_rank, block_digest, law_own_ancestors_first, BlockRef, Round, Slot, TestBlock,
    VerifiedBlock, GENESIS_ROUND,
};

verus! {

/// Clock that moves on by one millisecond each time it is read, starting at 1.
#[derive(Debug)]
pub struct FakeClock {
    pub(crate) counter: u64,
}

impl FakeClock {
    /// The time read last, 0 at first.
    pub open(crate) spec fn reading(&self) -> u64 {
        self.counter
    }

    pub fn new() -> (r: Self)
        ensures
            r.reading() == 0,
    {
        FakeClock { counter: 0 }
    }

    /// The next time in milliseconds.
    pub fn now_ms(&mut self) -> (r: u64)
        requires
            old(self).reading() < u64::MAX,
        ensures
            r == old(self).reading() + 1,
            final(self).reading() == r,
    {
        self.counter = self.counter + 1;
        self.counter
    }
}

/// `rand::rngs::StdRng`, a pseudo-random number generator.
#[verifier::external_type_specification]
#[verifier::external_body]
pub struct ExStdRng(StdRng);

/// The word that `rng` gives on its `k`-th draw from now, counting from 0.
pub uninterp spec fn word_at(rng: StdRng, k: nat) -> u64;

/// The word that a generator with this seed gives on its `k`-th draw, counting from 0.
pub uninterp spec fn seeded_word(seed: u64, k: nat) -> u64;

/// Calls `<StdRng as SeedableRng>::seed_from_u64`. What the generator will give depends on
/// the seed alone.
#[verifier::external_body]
fn seeded_rng(seed: u64) -> (r: StdRng)
    ensures
        forall|k: nat| #[trigger] word_at(r, k) == seeded_word(seed, k),
{
    StdRng::seed_from_u64(seed)
}

/// Calls `<StdRng as RngCore>::next_u64`. It gives the word that is due and moves the
/// generator on to the one after it.
#[verifier::external_body]
fn draw(rng: &mut StdRng) -> (r: u64)
    ensures
        r == word_at(*old(rng), 0),
        forall|k: nat| #[trigger] word_at(*final(rng), k) == word_at(*old(rng), k + 1),
{
    rng.next_u64()
}

/// Whether `block` is what the author builds at `round` on `ancestors` at time `now`.
pub open spec fn is_built_on(
    block: VerifiedBlock,
    round: Round,
    author: AuthorityIndex,
    ancestors: Seq<BlockRef>,
    now: u64,
) -> bool {
    &&& block.block().epoch == 0
    &&& block.block().round == round
    &&& block.block().author == author
    &&& block.block().timestamp_ms == now
    &&& block.block().ancestors@ == sorted_by_rank(ancestors, ancestor_rank(author))
    &&& block.block().transactions@.len() == 0
    &&& block.spec_digest().0@ == block_digest(block.block())
}

/// What a node does with `blocks` handed over one at a time. It stops at the first conflict.
pub open spec fn accept_each(
    node: NodeModel,
    blocks: Seq<VerifiedBlock>,
    committee: Committee,
) -> NodeStep
    decreases blocks.len(),
{
    if blocks.len() == 0 {
        NodeStep { node, events: Seq::empty(), conflict: None }
    } else {
        let before = accept_each(node, blocks.drop_last(), committee);
        if before.conflict is Some {
            before
        } else {
            let step = before.node.accept(seq![blocks.last()], committee);
            NodeStep {
                node: step.node,
                events: before.events + step.events,
                conflict: step.conflict,
            }
        }
    }
}

/// A [`ConsensusNode`] with simulation utilities.
pub struct SimulatedNode {
    /// Index of this node in the simulated network.
    pub index: usize,
    /// Seeded generator; reproducible across runs with the same seed.
    pub rng: StdRng,
    /// Deterministic clock.
    pub clock: FakeClock,
    /// The underlying consensus engine.
    pub node: ConsensusNode,
    /// Events not yet drained.
    pub events: Vec<ConsensusEvent>,
    /// The slot, if any, at which deciding leaders last had to stop because of a conflict.
    pub conflict: Option<ConflictingLeaders>,
}

impl SimulatedNode {
    /// The engine is in order and has this node as a member of its committee.
    pub open spec fn wf(&self) -> bool {
        &&& self.node.wf()
        &&& self.index <= u32::MAX
        &&& self.node.spec_committee().has(AuthorityIndex(self.index as u32))
    }

    /// Whether everything but the engine and its output is as in `before`.
    pub open spec fn keeps(&self, before: SimulatedNode) -> bool {
        &&& self.index == before.index
        &&& self.rng == before.rng
        &&& self.node.spec_committee() == before.node.spec_committee()
    }

    /// Whether the engine has moved on from `before` by `step`.
    pub open spec fn follows(&self, before: SimulatedNode, step: NodeStep) -> bool {
        &&& self.node@ == step.node
        &&& views_of(self.events@) == views_of(before.events@) + step.events
        &&& self.conflict == step.conflict
    }

    /// Creates a node. The seed is mixed with the index, so that each node of a simulation
    /// has randomness of its own.
    pub fn new(index: usize, seed: u64, context: Arc<Context>) -> (r: Self)
        requires
            context.wf(),
            index <= u32::MAX,
            context.spec_committee().has(AuthorityIndex(index as u32)),
        ensures
            r.wf(),
            r.index == index,
            r.node.spec_committee() == context.spec_committee(),
            is_initial(r.node@.intake.dag, context.spec_committee()),
            r.node@.intake.pool.waiting == Map::<BlockRef, VerifiedBlock>::empty(),
            r.node@.intake.pool.missing == Set::<BlockRef>::empty(),
            r.node@.votes == SoftVotes::none(),
            r.node@.last == (Slot { round: GENESIS_ROUND, authority: AuthorityIndex(0) }),
            r.clock.reading() == 0,
            r.events@.len() == 0,
            r.conflict is None,
            forall|k: nat| #[trigger]
                word_at(r.rng, k) == seeded_word(seed.wrapping_add(index as u64), k),
    {
        SimulatedNode {
            index,
            rng: seeded_rng(seed.wrapping_add(index as u64)),
            clock: FakeClock::new(),
            node: ConsensusNode::new(context),
            events: Vec::new(),
            conflict: None,
        }
    }

    /// Hands one block to the engine.
    fn accept(&mut self, block: VerifiedBlock)
        requires
            old(self).wf(),
            old(self).node@.admits(block, old(self).node.spec_committee()),
        ensures
            final(self).wf(),
            final(self).keeps(*old(self)),
            final(self).clock == old(self).clock,
            final(self).follows(
                *old(self),
                old(self).node@.accept(seq![block], old(self).node.spec_committee()),
            ),
    {
        let mut outcome = self.node.accept_block(block);
        let ghost before = self.events@;
        let ghost fresh = outcome.events@;
        self.events.append(&mut outcome.events);
        self.conflict = outcome.conflict;
        proof {
            assert(self.events@ =~= before + fresh);
            assert(views_of(self.events@) =~= views_of(before) + views_of(fresh));
        }
    }

    /// Builds a block at `round` on `ancestors`, with the time from the clock, accepts it
    /// locally and returns it.
    pub fn build_block(&mut self, round: Round, ancestors: Vec<BlockRef>) -> (r: VerifiedBlock)
        requires
            old(self).wf(),
            0 < round < u32::MAX,
            ancestors@.len() > 0,
            forall|i: int| 0 <= i < ancestors@.len() ==> (#[trigger] ancestors@[i]).round < round,
            old(self).clock.reading() < u64::MAX,
        ensures
            final(self).wf(),
            final(self).keeps(*old(self)),
            final(self).clock.reading() == old(self).clock.reading() + 1,
            is_built_on(
                r,
                round,
                AuthorityIndex(old(self).index as u32),
                ancestors@,
                final(self).clock.reading(),
            ),
            final(self).follows(
                *old(self),
                old(self).node@.accept(seq![r], old(self).node.spec_committee()),
            ),
    {
        let ghost given = ancestors@;
        let now = self.clock.now_ms();
        let block = TestBlock::new(round, self.index as u32).set_ancestors(
            ancestors,
        ).set_timestamp_ms(now).build();
        proof {
            lemma_sorted_by_rank(given, ancestor_rank(block.block().author));
            assert forall|p: BlockRef| #[trigger] block.parents().contains(p) implies p.round
                < round by {
                assert(given.contains(p));
                let i = given.index_of(p);
                assert(given[i].round < round);
            }
        }
        self.accept(block.clone());
        block
    }

    /// The next word of the node's generator.
    pub fn next_random(&mut self) -> (r: u64)
        ensures
            r == word_at(old(self).rng, 0),
            forall|k: nat| #[trigger] word_at(final(self).rng, k) == word_at(old(self).rng, k + 1),
            *final(self) == (SimulatedNode { rng: final(self).rng, ..*old(self) }),
    {
        draw(&mut self.rng)
    }

    /// Takes all pending events, oldest first.
    pub fn drain_events(&mut self) -> (r: Vec<ConsensusEvent>)
        ensures
            r@ == old(self).events@,
            final(self).events@.len() == 0,
            *final(self) == (SimulatedNode { events: final(self).events, ..*old(self) }),
    {
        let mut out: Vec<ConsensusEvent> = Vec::new();
        out.append(&mut self.events);
        assert(out@ =~= old(self).events@);
        out
    }

    /// Accepts the blocks waiting in the inbox one at a time, up to the first conflict.
    pub fn process_inbox(&mut self, inbox: Vec<VerifiedBlock>)
        requires
            old(self).wf(),
            forall|i: int|
                0 <= i < inbox@.len() ==> old(self).node@.admits(
                    #[trigger] inbox@[i],
                    old(self).node.spec_committee(),
                ),
        ensures
            final(self).wf(),
            final(self).keeps(*old(self)),
            final(self).clock == old(self).clock,
            inbox@.len() > 0 ==> final(self).follows(
                *old(self),
                accept_each(old(self).node@, inbox@, old(self).node.spec_committee()),
            ),
            inbox@.len() == 0 ==> *final(self) == *old(self),
    {
        let ghost start = *self;
        let ghost committee = self.node.spec_committee();
        let mut i: usize = 0;
        proof {
            assert(inbox@.take(0) =~= Seq::<VerifiedBlock>::empty());
            assert(views_of(self.events@) =~= views_of(start.events@) + Seq::<EventView>::empty());
        }
        while i < inbox.len()
            invariant
                i <= inbox@.len(),
                start == *old(self),
                self.wf(),
                self.keeps(start),
                self.clock == start.clock,
                committee == start.node.spec_committee(),
                i == 0 ==> *self == start,
                i > 0 ==> self.conflict == accept_each(
                    start.node@,
                    inbox@.take(i as int),
                    committee,
                ).conflict,
                ({
                    let step = accept_each(start.node@, inbox@.take(i as int), committee);
                    &&& self.node@ == step.node
                    &&& views_of(self.events@) == views_of(start.events@) + step.events
                    &&& step.conflict is None
                }),
                forall|k: int|
                    0 <= k < inbox@.len() ==> self.node@.admits(#[trigger] inbox@[k], committee),
            decreases inbox@.len() - i,
        {
            let ghost before = *self;
            let ghost step = accept_each(start.node@, inbox@.take(i as int), committee);
            let block = inbox[i].clone();
            proof {
                let longer = inbox@.take(i + 1);
                assert(longer.drop_last() =~= inbox@.take(i as int));
                assert(longer.last() == block);
                law_node_never_forgets(before.node@, seq![block], committee);
            }
            self.accept(block);
            proof {
                let next = before.node@.accept(seq![block], committee);
                assert(views_of(self.events@) =~= views_of(start.events@) + (step.events
                    + next.events));
                assert forall|k: int| 0 <= k < inbox@.len() implies self.node@.admits(
                    #[trigger] inbox@[k],
                    committee,
                ) by {
                    assert(before.node@.admits(inbox@[k], committee));
                }
            }
            if self.conflict.is_some() {
                proof {
                    lemma_stops_at_conflict(start.node@, inbox@, committee, i + 1);
                }
                return;
            }
            i += 1;
        }
        assert(inbox@.take(inbox@.len() as int) =~= inbox@);
    }
}

/// Once there is a conflict, the blocks that follow change nothing.
proof fn lemma_stops_at_conflict(
    node: NodeModel,
    blocks: Seq<VerifiedBlock>,
    committee: Committee,
    n: int,
)
    requires
        0 <= n <= blocks.len(),
        accept_each(node, blocks.take(n), committee).conflict is Some,
    ensures
        accept_each(node, blocks, committee) == accept_each(node, blocks.take(n), committee),
    decreases blocks.len(),
{
    if n == blocks.len() {
        assert(blocks.take(n) =~= blocks);
    } else {
        assert(blocks.drop_last().take(n) =~= blocks.take(n));
        lemma_stops_at_conflict(node, blocks.drop_last(), committee, n);
    }
}

/// A run of draws is reproducible: where each generator is the one before it after a draw,
/// and the first is fresh from `seed`, the `i`-th draw is the `i`-th word of the seed.
pub proof fn law_draws_follow_seed(rngs: Seq<StdRng>, seed: u64, i: int)
    requires
        0 <= i < rngs.len(),
        forall|k: nat| #[trigger] word_at(rngs[0], k) == seeded_word(seed, k),
        forall|j: int, k: nat|
            0 <= j < rngs.len() - 1 ==> #[trigger] word_at(rngs[j + 1], k) == word_at(
                rngs[j],
                k + 1,
            ),
    ensures
        forall|k: nat| #[trigger] word_at(rngs[i], k) == seeded_word(seed, i as nat + k),
    decreases i,
{
    if i > 0 {
        law_draws_follow_seed(rngs, seed, i - 1);
        assert forall|k: nat| #[trigger] word_at(rngs[i], k) == seeded_word(
            seed,
            i as nat + k,
        ) by {
            assert(word_at(rngs[(i - 1) + 1], k) == word_at(rngs[i - 1], k + 1));
        }
    }
}

/// Blocks are handed over one at a time: nothing changes nothing, one block does what a batch of it
/// alone does, and what follows goes on from there, unless there was a conflict, in which case
/// nothing follows.
pub proof fn law_handed_over_one_by_one(
    node: NodeModel,
    first: Seq<VerifiedBlock>,
    second: Seq<VerifiedBlock>,
    block: VerifiedBlock,
    committee: Committee,
)
    ensures
        accept_each(node, Seq::empty(), committee) == (NodeStep {
            node,
            events: Seq::empty(),
            conflict: None,
        }),
        accept_each(node, seq![block], committee) == node.accept(seq![block], committee),
        ({
            let before = accept_each(node, first, committee);
            let all = accept_each(node, first + second, committee);
            &&& before.conflict is Some ==> all == before
            &&& before.conflict is None ==> {
                let after = accept_each(before.node, second, committee);
                &&& all.node == after.node
                &&& all.events == before.events + after.events
                &&& all.conflict == after.conflict
            }
        }),
    decreases second.len(),
{
    let one = seq![block];
    assert(one.drop_last() =~= Seq::<VerifiedBlock>::empty());
    assert(accept_each(node, one, committee) =~= node.accept(seq![block], committee));
    let before = accept_each(node, first, committee);
    if second.len() == 0 {
        assert(first + second =~= first);
        assert(before.events + Seq::<EventView>::empty() =~= before.events);
    } else {
        let front = second.drop_last();
        law_handed_over_one_by_one(node, first, front, block, committee);
        assert((first + second).drop_last() =~= first + front);
        assert((first + second).last() == second.last());
        if before.conflict is None {
            let mid = accept_each(before.node, front, committee);
            if mid.conflict is None {
                let step = mid.node.accept(seq![second.last()], committee);
                assert(before.events + (mid.events + step.events) =~= before.events + mid.events
                    + step.events);
            }
        }
    }
}

/// A block is built with the author, round and time it is given, in epoch 0 and without
/// transactions, on the ancestors given: the author's own first, then by author.
pub proof fn law_built_as_asked(
    block: VerifiedBlock,
    round: Round,
    author: AuthorityIndex,
    ancestors: Seq<BlockRef>,
    now: u64,
)
    requires
        is_built_on(block, round, author, ancestors, now),
    ensures
        block.block().epoch == 0,
        block.block().round == round,
        block.block().author == author,
        block.block().timestamp_ms == now,
        block.block().transactions@.len() == 0,
        block.parents().to_multiset() == ancestors.to_multiset(),
        forall|i: int, j: int|
            0 <= i < j < block.parents().len() ==> (#[trigger] block.parents()[i]).author == author
                || (#[trigger] block.parents()[j]).author != author
                && block.parents()[i].author.0 <= block.parents()[j].author.0,
        block.spec_digest().0@ == block_digest(block.block()),
{
    law_own_ancestors_first(author, ancestors, author);
}

/// Whatever a simulated node does with its engine, the events come behind those not yet drained, and
/// index, generator and committee stay as they are.
pub proof fn law_events_come_behind(node: SimulatedNode, before: SimulatedNode, step: NodeStep)
    ensures
        node.follows(before, step) <==> node.node@ == step.node && views_of(node.events@)
            == views_of(before.events@) + step.events && node.conflict == step.conflict,
        node.keeps(before) <==> node.index == before.index && node.rng == before.rng
            && node.node.spec_committee() == before.node.spec_committee(),
{
}

} // verus!
