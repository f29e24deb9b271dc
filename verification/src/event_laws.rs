//! What the events of a node say.

use vstd::prelude::*;

use crate::causal::{
    closed_above, cone, distinct, expand, fresh, has_ref, keyed, layered, leads_to, lemma_cone,
    lemma_expand, lemma_expand_left, lemma_walk, walk, walk_left, within, Store,
};
use crate::commit::{round_then_author, sub_dag_rank};
use crate::committee::Committee;
use crate::dag_state::DagModel;
use crate::linearizer::{law_commit_covers_history, sub_dag};
use crate::node::{hard_event, soft_event, txs_of, views_of, BlockView, EventView};
use crate::shared;
use crate::shared::{ConsensusEvent, EthSignedTx};
use crate::stable_sort::{lemma_sorted_by_rank, of_rank};
use crate::types::{BlockRef, Round, Slot, Transaction, VerifiedBlock};

verus! {

/// The transactions of `blocks`, block after block, each block's in the order in which it lists
/// them.
pub open spec fn listed_txs(blocks: Seq<VerifiedBlock>) -> Seq<Seq<u8>> {
    blocks.map_values(
        |b: VerifiedBlock| b.block().transactions@.map_values(|t: Transaction| t.0@),
    ).flatten()
}

/// The transactions gathered from blocks are those that the blocks list, in their order.
pub proof fn law_txs_in_listed_order(blocks: Seq<VerifiedBlock>)
    ensures
        txs_of(blocks) == listed_txs(blocks),
    decreases blocks.len(),
{
    let lists = blocks.map_values(
        |b: VerifiedBlock| b.block().transactions@.map_values(|t: Transaction| t.0@),
    );
    lists.lemma_flatten_and_flatten_alt_are_equivalent();
    if blocks.len() > 0 {
        let front = blocks.drop_last();
        law_txs_in_listed_order(front);
        let fewer = front.map_values(
            |b: VerifiedBlock| b.block().transactions@.map_values(|t: Transaction| t.0@),
        );
        fewer.lemma_flatten_and_flatten_alt_are_equivalent();
        assert(lists.drop_last() =~= fewer);
        assert(lists.last() =~= blocks.last().payload());
    }
}

/// Whether `blocks[f]` is the first of `blocks` to list `r` as an ancestor.
pub open spec fn found_at(blocks: Seq<VerifiedBlock>, f: int, r: BlockRef) -> bool {
    &&& 0 <= f < blocks.len()
    &&& blocks[f].parents().contains(r)
    &&& forall|g: int| 0 <= g < f ==> !(#[trigger] blocks[g]).parents().contains(r)
}

/// Whether `x` is listed in `parents` before any `y`.
pub open spec fn listed_before(parents: Seq<BlockRef>, x: BlockRef, y: BlockRef) -> bool {
    exists|i: int|
        0 <= i < parents.len() && #[trigger] parents[i] == x && !parents.take(i).contains(y)
}

/// Whether `blocks[i]` may be visited before `blocks[j]`, found at `fi` and `fj`, by a depth-first
/// walk: what is found later is visited earlier, unless the other had been visited by then, and of
/// what one block lists the last is visited first.
pub open spec fn depth_first(blocks: Seq<VerifiedBlock>, i: int, j: int, fi: int, fj: int) -> bool {
    ||| fi > fj
    ||| fi == fj && listed_before(
        blocks[fi].parents(),
        blocks[j].spec_ref(),
        blocks[i].spec_ref(),
    )
    ||| fi < fj && i <= fj
}

/// Whether a block before `blocks[i]` lists it as an ancestor.
pub open spec fn found_before(blocks: Seq<VerifiedBlock>, i: int) -> bool {
    exists|f: int| f < i && #[trigger] found_at(blocks, f, blocks[i].spec_ref())
}

/// Whether `blocks` are in the order of a depth-first walk from the first of them.
pub open spec fn walked_depth_first(blocks: Seq<VerifiedBlock>) -> bool {
    &&& forall|i: int| 0 < i < blocks.len() ==> #[trigger] found_before(blocks, i)
    &&& forall|i: int, j: int, fi: int, fj: int|
        0 < i < j < blocks.len() && #[trigger] found_at(blocks, fi, blocks[i].spec_ref())
            && #[trigger] found_at(blocks, fj, blocks[j].spec_ref()) ==> depth_first(
            blocks,
            i,
            j,
            fi,
            fj,
        )
}

/// Position of `b` on a stack.
spec fn on_stack(stack: Seq<VerifiedBlock>, k: int, r: BlockRef) -> bool {
    0 <= k < stack.len() && stack[k].spec_ref() == r
}

/// The order of a walk that starts from `stack`.
spec fn walk_order(out: Seq<VerifiedBlock>, stack: Seq<VerifiedBlock>) -> bool {
    // Whatever is visited was on the stack or has been found.
    &&& forall|i: int|
        0 <= i < out.len() && !has_ref(stack, (#[trigger] out[i]).spec_ref()) ==> exists|f: int|
            f < i && #[trigger] found_at(out, f, out[i].spec_ref())
    // The stack is taken from its end.
    &&& forall|i: int, j: int, ki: int, kj: int|
        0 <= i < j < out.len() && #[trigger] on_stack(stack, ki, out[i].spec_ref())
            && #[trigger] on_stack(stack, kj, out[j].spec_ref()) ==> ki > kj
    // What is found goes before what lies below.
    &&& forall|i: int, j: int, fj: int|
        0 <= i < j < out.len() && has_ref(stack, (#[trigger] out[i]).spec_ref()) && !has_ref(
            stack,
            out[j].spec_ref(),
        ) && #[trigger] found_at(out, fj, out[j].spec_ref()) ==> i <= fj
    &&& forall|i: int, j: int, fi: int, fj: int|
        0 <= i < j < out.len() && !has_ref(stack, out[i].spec_ref()) && !has_ref(
            stack,
            out[j].spec_ref(),
        ) && #[trigger] found_at(out, fi, out[i].spec_ref()) && #[trigger] found_at(
            out,
            fj,
            out[j].spec_ref(),
        ) ==> depth_first(out, i, j, fi, fj)
}

/// What one block adds to the stack lies there in the order in which the block lists it.
proof fn lemma_expand_order(
    stored: Store,
    done: Set<BlockRef>,
    stack: Seq<VerifiedBlock>,
    parents: Seq<BlockRef>,
    floor: Round,
)
    requires
        keyed(stored),
        distinct(stack),
        forall|i: int| 0 <= i < stack.len() ==> done.contains((#[trigger] stack[i]).spec_ref()),
    ensures
        ({
            let (d, s) = expand(stored, done, stack, parents, floor);
            forall|a: int, b: int|
                stack.len() <= a < b < s.len() ==> listed_before(
                    parents,
                    (#[trigger] s[a]).spec_ref(),
                    (#[trigger] s[b]).spec_ref(),
                )
        }),
    decreases parents.len(),
{
    if parents.len() > 0 {
        let front = parents.drop_last();
        lemma_expand_order(stored, done, stack, front, floor);
        lemma_expand(stored, done, stack, front, floor);
        lemma_expand(stored, done, stack, parents, floor);
        let (d0, s0) = expand(stored, done, stack, front, floor);
        let (d, s) = expand(stored, done, stack, parents, floor);
        let last = parents.last();
        assert forall|a: int, b: int| stack.len() <= a < b < s.len() implies listed_before(
            parents,
            (#[trigger] s[a]).spec_ref(),
            (#[trigger] s[b]).spec_ref(),
        ) by {
            let x = s[a].spec_ref();
            let y = s[b].spec_ref();
            assert(s[a] == s0[a]);
            assert(front.contains(s0[a].spec_ref()));
            if b < s0.len() {
                assert(s[b] == s0[b]);
                assert(listed_before(front, x, y));
                let i = choose|i: int|
                    0 <= i < front.len() && #[trigger] front[i] == x && !front.take(i).contains(y);
                assert(parents[i] == x);
                assert(parents.take(i) =~= front.take(i));
            } else {
                assert(y == last);
                assert(!d0.contains(last));
                let i = front.index_of(x);
                assert(parents[i] == x);
                assert(!parents.take(i).contains(y)) by {
                    if parents.take(i).contains(y) {
                        let k = parents.take(i).index_of(y);
                        assert(front[k] == y);
                        assert(front.contains(last));
                        assert(d0.contains(last));
                    }
                }
            }
        }
    }
}

proof fn lemma_walk_order(
    stored: Store,
    done: Set<BlockRef>,
    stack: Seq<VerifiedBlock>,
    floor: Round,
)
    requires
        stored.dom().finite(),
        keyed(stored),
        distinct(stack),
        forall|i: int| 0 <= i < stack.len() ==> done.contains((#[trigger] stack[i]).spec_ref()),
    ensures
        walk_order(walk(stored, done, stack, floor), stack),
    decreases walk_left(stored, done, stack),
{
    if stack.len() > 0 {
        let b = stack.last();
        let under = stack.drop_last();
        let parents = b.parents();
        assert forall|i: int, j: int| 0 <= i < j < under.len() implies (
        #[trigger] under[i]).spec_ref() != (#[trigger] under[j]).spec_ref() by {
            assert(stack[i].spec_ref() != stack[j].spec_ref());
        }
        assert forall|i: int| 0 <= i < under.len() implies done.contains(
            (#[trigger] under[i]).spec_ref(),
        ) by {
            assert(under[i] == stack[i]);
        }
        let (d, s) = expand(stored, done, under, parents, floor);
        lemma_expand(stored, done, under, parents, floor);
        lemma_expand_order(stored, done, under, parents, floor);
        lemma_expand_left(stored, done, under, parents, floor);
        lemma_walk(stored, d, s, floor);
        lemma_walk(stored, done, stack, floor);
        lemma_walk_order(stored, d, s, floor);
        let rest = walk(stored, d, s, floor);
        let out = walk(stored, done, stack, floor);
        assert(out == seq![b] + rest);
        lemma_walk_step(stored, done, stack, floor, d, s, rest, out);
    }
}

/// One step of a walk keeps the order.
proof fn lemma_walk_step(
    stored: Store,
    done: Set<BlockRef>,
    stack: Seq<VerifiedBlock>,
    floor: Round,
    d: Set<BlockRef>,
    s: Seq<VerifiedBlock>,
    rest: Seq<VerifiedBlock>,
    out: Seq<VerifiedBlock>,
)
    requires
        stack.len() > 0,
        distinct(stack),
        distinct(out),
        distinct(s),
        forall|i: int| 0 <= i < stack.len() ==> done.contains((#[trigger] stack[i]).spec_ref()),
        s.len() >= stack.len() - 1,
        forall|i: int| 0 <= i < stack.len() - 1 ==> #[trigger] s[i] == stack[i],
        forall|i: int|
            stack.len() - 1 <= i < s.len() ==> fresh(stored, done, #[trigger] s[i], floor)
                && stack.last().parents().contains(s[i].spec_ref()),
        forall|p: BlockRef| #[trigger]
            stack.last().parents().contains(p) && p.round > floor && stored.contains_key(p)
                ==> d.contains(p),
        forall|x: BlockRef| #[trigger] d.contains(x) ==> done.contains(x) || has_ref(s, x),
        forall|i: int, j: int|
            stack.len() - 1 <= i < j < s.len() ==> listed_before(
                stack.last().parents(),
                (#[trigger] s[i]).spec_ref(),
                (#[trigger] s[j]).spec_ref(),
            ),
        forall|k: int|
            0 <= k < rest.len() ==> s.contains(#[trigger] rest[k]) || fresh(
                stored,
                d,
                rest[k],
                floor,
            ),
        out == seq![stack.last()] + rest,
        walk_order(rest, s),
    ensures
        walk_order(out, stack),
{
    let b = stack.last();
    let top = stack.len() - 1;
    assert forall|k: int| 0 <= k < rest.len() implies #[trigger] rest[k] == out[k + 1] by {}
    assert(out[0] == b);
    // Where each block of the rest comes from.
    assert forall|i: int| 0 < i < out.len() implies ({
        let r = (#[trigger] out[i]).spec_ref();
        &&& has_ref(stack, r) ==> has_ref(s, r)
        &&& !has_ref(stack, r) && has_ref(s, r) ==> found_at(out, 0, r)
        &&& !has_ref(s, r) ==> !has_ref(stack, r) && !b.parents().contains(r)
    }) by {
        lemma_origin(stored, done, stack, floor, d, s, rest, out, i);
    }
    assert forall|f: int, r: BlockRef| 0 < f && !b.parents().contains(r) implies #[trigger] found_at(
        out,
        f,
        r,
    ) == found_at(rest, f - 1, r) by {
        lemma_found_shift(out, rest, f, r);
    }
    assert forall|i: int|
        0 <= i < out.len() && !has_ref(stack, (#[trigger] out[i]).spec_ref()) implies exists|f: int|
        f < i && #[trigger] found_at(out, f, out[i].spec_ref()) by {
        let r = out[i].spec_ref();
        if i == 0 {
            assert(stack[top].spec_ref() == r);
        } else if has_ref(s, r) {
            assert(found_at(out, 0, r));
        } else {
            assert(rest[i - 1] == out[i]);
            let f = choose|f: int| f < i - 1 && #[trigger] found_at(rest, f, rest[i - 1].spec_ref());
            assert(found_at(out, f + 1, r));
        }
    }
    assert forall|i: int, j: int, ki: int, kj: int|
        0 <= i < j < out.len() && #[trigger] on_stack(stack, ki, out[i].spec_ref())
            && #[trigger] on_stack(stack, kj, out[j].spec_ref()) implies ki > kj by {
        assert(out[i].spec_ref() != out[j].spec_ref());
        if i == 0 {
            if ki < top {
                assert(stack[ki].spec_ref() != stack[top].spec_ref());
            }
        } else {
            assert(out[0].spec_ref() != out[i].spec_ref());
            assert(out[0].spec_ref() != out[j].spec_ref());
            assert(ki < top && kj < top);
            assert(s[ki] == stack[ki] && s[kj] == stack[kj]);
            assert(on_stack(s, ki, rest[i - 1].spec_ref()));
            assert(on_stack(s, kj, rest[j - 1].spec_ref()));
        }
    }
    assert forall|i: int, j: int, fj: int|
        0 <= i < j < out.len() && has_ref(stack, (#[trigger] out[i]).spec_ref()) && !has_ref(
            stack,
            out[j].spec_ref(),
        ) && #[trigger] found_at(out, fj, out[j].spec_ref()) implies i <= fj by {
        let x = out[i].spec_ref();
        let y = out[j].spec_ref();
        if i > 0 {
            lemma_origin(stored, done, stack, floor, d, s, rest, out, i);
            lemma_origin(stored, done, stack, floor, d, s, rest, out, j);
            assert(rest[i - 1] == out[i] && rest[j - 1] == out[j]);
            let ki = choose|k: int| 0 <= k < stack.len() && (#[trigger] stack[k]).spec_ref() == x;
            assert(out[0].spec_ref() != out[i].spec_ref());
            assert(ki < top);
            assert(s[ki] == stack[ki]);
            assert(has_ref(s, x));
            if has_ref(s, y) {
                let kj = choose|k: int| 0 <= k < s.len() && (#[trigger] s[k]).spec_ref() == y;
                if kj < top {
                    assert(stack[kj].spec_ref() == y);
                }
                assert(on_stack(s, ki, rest[i - 1].spec_ref()));
                assert(on_stack(s, kj, rest[j - 1].spec_ref()));
                assert(ki > kj);
            } else {
                assert(fj > 0);
                assert(found_at(rest, fj - 1, rest[j - 1].spec_ref()));
                assert(i - 1 <= fj - 1);
            }
        }
    }
    assert forall|i: int, j: int, fi: int, fj: int|
        0 <= i < j < out.len() && !has_ref(stack, out[i].spec_ref()) && !has_ref(
            stack,
            out[j].spec_ref(),
        ) && #[trigger] found_at(out, fi, out[i].spec_ref()) && #[trigger] found_at(
            out,
            fj,
            out[j].spec_ref(),
        ) implies depth_first(out, i, j, fi, fj) by {
        let x = out[i].spec_ref();
        let y = out[j].spec_ref();
        if i == 0 {
            assert(stack[top].spec_ref() == x);
        }
        lemma_origin(stored, done, stack, floor, d, s, rest, out, i);
        lemma_origin(stored, done, stack, floor, d, s, rest, out, j);
        assert(rest[i - 1] == out[i] && rest[j - 1] == out[j]);
        if has_ref(s, x) {
            assert(found_at(out, 0, x));
            assert(fi == 0) by {
                if fi > 0 {
                    assert(!out[0].parents().contains(x));
                }
            }
            let ki = choose|k: int| 0 <= k < s.len() && (#[trigger] s[k]).spec_ref() == x;
            if ki < top {
                assert(stack[ki].spec_ref() == x);
            }
            if has_ref(s, y) {
                assert(found_at(out, 0, y));
                assert(fj == 0) by {
                    if fj > 0 {
                        assert(!out[0].parents().contains(y));
                    }
                }
                let kj = choose|k: int| 0 <= k < s.len() && (#[trigger] s[k]).spec_ref() == y;
                if kj < top {
                    assert(stack[kj].spec_ref() == y);
                }
                assert(on_stack(s, ki, rest[i - 1].spec_ref()));
                assert(on_stack(s, kj, rest[j - 1].spec_ref()));
                assert(ki > kj);
                assert(listed_before(b.parents(), s[kj].spec_ref(), s[ki].spec_ref()));
            } else {
                assert(fj > 0);
                assert(found_at(rest, fj - 1, rest[j - 1].spec_ref()));
                assert(i - 1 <= fj - 1);
            }
        } else {
            assert(fi > 0);
            assert(found_at(rest, fi - 1, rest[i - 1].spec_ref()));
            if has_ref(s, y) {
                assert(found_at(out, 0, y));
                assert(fj == 0) by {
                    if fj > 0 {
                        assert(!out[0].parents().contains(y));
                    }
                }
            } else {
                assert(fj > 0);
                assert(found_at(rest, fj - 1, rest[j - 1].spec_ref()));
                assert(depth_first(rest, i - 1, j - 1, fi - 1, fj - 1));
            }
        }
    }
}

proof fn lemma_found_shift(out: Seq<VerifiedBlock>, rest: Seq<VerifiedBlock>, f: int, r: BlockRef)
    requires
        out.len() == rest.len() + 1,
        forall|k: int| 0 <= k < rest.len() ==> #[trigger] rest[k] == out[k + 1],
        0 < f,
        !out[0].parents().contains(r),
    ensures
        found_at(out, f, r) == found_at(rest, f - 1, r),
{
    if found_at(out, f, r) {
        assert(rest[f - 1] == out[f]);
        assert forall|g: int| 0 <= g < f - 1 implies !(#[trigger] rest[g]).parents().contains(r) by {
            assert(!out[g + 1].parents().contains(r));
        }
    }
    if found_at(rest, f - 1, r) {
        assert(rest[f - 1] == out[f]);
        assert forall|g: int| 0 <= g < f implies !(#[trigger] out[g]).parents().contains(r) by {
            if g > 0 {
                assert(!rest[g - 1].parents().contains(r));
            }
        }
    }
}

proof fn lemma_origin(
    stored: Store,
    done: Set<BlockRef>,
    stack: Seq<VerifiedBlock>,
    floor: Round,
    d: Set<BlockRef>,
    s: Seq<VerifiedBlock>,
    rest: Seq<VerifiedBlock>,
    out: Seq<VerifiedBlock>,
    i: int,
)
    requires
        stack.len() > 0,
        distinct(out),
        forall|i: int| 0 <= i < stack.len() ==> done.contains((#[trigger] stack[i]).spec_ref()),
        s.len() >= stack.len() - 1,
        forall|i: int| 0 <= i < stack.len() - 1 ==> #[trigger] s[i] == stack[i],
        forall|i: int|
            stack.len() - 1 <= i < s.len() ==> fresh(stored, done, #[trigger] s[i], floor)
                && stack.last().parents().contains(s[i].spec_ref()),
        forall|p: BlockRef| #[trigger]
            stack.last().parents().contains(p) && p.round > floor && stored.contains_key(p)
                ==> d.contains(p),
        forall|k: int|
            0 <= k < rest.len() ==> s.contains(#[trigger] rest[k]) || fresh(
                stored,
                d,
                rest[k],
                floor,
            ),
        out == seq![stack.last()] + rest,
        0 < i < out.len(),
    ensures
        ({
            let r = out[i].spec_ref();
            &&& has_ref(stack, r) ==> has_ref(s, r)
            &&& !has_ref(stack, r) && has_ref(s, r) ==> found_at(out, 0, r)
            &&& !has_ref(s, r) ==> !has_ref(stack, r) && !stack.last().parents().contains(r)
        }),
{
    let r = out[i].spec_ref();
    let b = stack.last();
    let top = stack.len() - 1;
    assert(out[0] == b);
    assert(out[0].spec_ref() != out[i].spec_ref());
    assert(rest[i - 1] == out[i]);
    if has_ref(stack, r) {
        let k = choose|k: int| 0 <= k < stack.len() && (#[trigger] stack[k]).spec_ref() == r;
        assert(k < top);
        assert(s[k] == stack[k]);
    }
    if has_ref(s, r) && !has_ref(stack, r) {
        let k = choose|k: int| 0 <= k < s.len() && (#[trigger] s[k]).spec_ref() == r;
        if k < top {
            assert(stack[k].spec_ref() == r);
        }
        assert(b.parents().contains(s[k].spec_ref()));
        assert(found_at(out, 0, r));
    }
    if !has_ref(s, r) {
        if s.contains(rest[i - 1]) {
            let k = s.index_of(rest[i - 1]);
            assert(s[k].spec_ref() == r);
        }
        assert(fresh(stored, d, rest[i - 1], floor));
    }
}

/// Whether `blocks` are exactly the uncommitted stored history of `leader` above the genesis round,
/// the leader included, each block once.
pub open spec fn is_history_of(
    blocks: Seq<VerifiedBlock>,
    dag: DagModel,
    leader: VerifiedBlock,
) -> bool {
    &&& distinct(blocks)
    &&& forall|k: int|
        0 <= k < blocks.len() ==> dag.stored.contains_key((#[trigger] blocks[k]).spec_ref())
            && dag.stored[blocks[k].spec_ref()] == blocks[k]
    &&& forall|x: BlockRef| #[trigger]
        has_ref(blocks, x) <==> dag.stored.contains_key(x) && x.round > 0
            && !dag.committed.contains(x) && (x == leader.spec_ref() || leads_to(
            dag.stored,
            leader,
            x,
        ))
}

/// Whether `r` is what is known outside the consensus layer as `shown`.
pub open spec fn shows(shown: shared::BlockRef, r: BlockRef) -> bool {
    &&& shown.round == r.round
    &&& shown.author == r.author.0
    &&& shown.digest.0 == r.digest.0
}

/// Whether `event` is the soft commit of `leader` with the transactions of `blocks`.
pub open spec fn softly_announces(
    event: EventView,
    leader: BlockRef,
    blocks: Seq<VerifiedBlock>,
) -> bool {
    match event {
        EventView::SoftCommit { round, leader: shown, txs } => {
            &&& round == leader.round
            &&& shows(shown, leader)
            &&& txs == listed_txs(blocks)
        },
        EventView::HardCommit { .. } => false,
    }
}

/// The causal history of a stored leader that is not committed: exactly its uncommitted stored
/// history above the genesis round, the leader first and the rest as a depth-first walk finds it.
/// Of a leader that is unknown or committed it is empty.
pub proof fn law_causal_history(dag: DagModel, leader: BlockRef, committee: Committee)
    requires
        dag.valid(committee),
        layered(dag.stored),
        closed_above(dag.stored, dag.committed, 0),
    ensures
        ({
            let out = dag.causal(leader, 0);
            &&& dag.stored.contains_key(leader) && !dag.committed.contains(leader) ==> {
                &&& is_history_of(out, dag, dag.stored[leader])
                &&& out.len() > 0
                &&& out[0] == dag.stored[leader]
                &&& walked_depth_first(out)
            }
            &&& !(dag.stored.contains_key(leader) && !dag.committed.contains(leader)) ==> out.len()
                == 0
        }),
{
    if dag.stored.contains_key(leader) && !dag.committed.contains(leader) {
        let b = dag.stored[leader];
        assert(b.spec_ref() == leader);
        lemma_cone_is_history(dag, b, committee);
    }
}

proof fn lemma_cone_is_history(dag: DagModel, b: VerifiedBlock, committee: Committee)
    requires
        dag.valid(committee),
        layered(dag.stored),
        closed_above(dag.stored, dag.committed, 0),
        dag.stored.contains_key(b.spec_ref()),
        dag.stored[b.spec_ref()] == b,
        !dag.committed.contains(b.spec_ref()),
    ensures
        ({
            let out = cone(dag.stored, dag.committed, b, 0);
            &&& is_history_of(out, dag, b)
            &&& out.len() > 0
            &&& out[0] == b
            &&& walked_depth_first(out)
        }),
{
    let leader = b.spec_ref();
    let out = cone(dag.stored, dag.committed, b, 0);
    lemma_cone(dag.stored, dag.committed, b, 0);
    let stack = seq![b];
    let done = dag.committed.insert(leader);
    lemma_walk_order(dag.stored, done, stack, 0);
    assert(stack[0] == b);
    assert(out[0] == b) by {
        let (d, s) = expand(dag.stored, done, stack.drop_last(), b.parents(), 0);
        assert(out == seq![b] + walk(dag.stored, d, s, 0));
    }
    assert forall|i: int| 0 < i < out.len() implies !has_ref(
        stack,
        (#[trigger] out[i]).spec_ref(),
    ) by {
        assert(out[0].spec_ref() != out[i].spec_ref());
        if has_ref(stack, out[i].spec_ref()) {
            let k = choose|k: int|
                0 <= k < stack.len() && (#[trigger] stack[k]).spec_ref() == out[i].spec_ref();
        }
    }
    assert forall|x: BlockRef| #[trigger] has_ref(out, x) <==> dag.stored.contains_key(x)
        && x.round > 0 && !dag.committed.contains(x) && (x == leader || leads_to(
        dag.stored,
        b,
        x,
    )) by {
        assert(within(dag.stored, b, x) == (x == leader || leads_to(dag.stored, b, x)));
    }
    assert forall|k: int| 0 <= k < out.len() implies dag.stored.contains_key(
        (#[trigger] out[k]).spec_ref(),
    ) && dag.stored[out[k].spec_ref()] == out[k] by {
        assert(fresh(dag.stored, dag.committed, out[k], 0));
    }
    assert(is_history_of(out, dag, b));
    assert forall|i: int| 0 < i < out.len() implies #[trigger] found_before(out, i) by {
        assert(!has_ref(stack, out[i].spec_ref()));
    }
    assert forall|i: int, j: int, fi: int, fj: int|
        0 < i < j < out.len() && #[trigger] found_at(out, fi, out[i].spec_ref())
            && #[trigger] found_at(out, fj, out[j].spec_ref()) implies depth_first(
        out,
        i,
        j,
        fi,
        fj,
    ) by {
        assert(!has_ref(stack, out[i].spec_ref()));
        assert(!has_ref(stack, out[j].spec_ref()));
    }
}

/// A soft commit names its leader and round, and carries the transactions of the leader's
/// uncommitted history: block after block from the leader on, each block's in the order in which
/// it lists them.
pub proof fn law_soft_commit_carries_history(dag: DagModel, leader: BlockRef, committee: Committee)
    requires
        dag.valid(committee),
        layered(dag.stored),
        closed_above(dag.stored, dag.committed, 0),
    ensures
        dag.stored.contains_key(leader) && !dag.committed.contains(leader) ==> exists|
            blocks: Seq<VerifiedBlock>,
        | #[trigger]
            softly_announces(soft_event(dag, leader), leader, blocks) && is_history_of(
                blocks,
                dag,
                dag.stored[leader],
            ) && blocks.len() > 0 && blocks[0] == dag.stored[leader] && walked_depth_first(blocks),
        !(dag.stored.contains_key(leader) && !dag.committed.contains(leader)) ==> softly_announces(
            soft_event(dag, leader),
            leader,
            Seq::empty(),
        ),
{
    let out = dag.causal(leader, 0);
    law_causal_history(dag, leader, committee);
    law_txs_in_listed_order(out);
    assert(softly_announces(soft_event(dag, leader), leader, out));
    if !(dag.stored.contains_key(leader) && !dag.committed.contains(leader)) {
        assert(out =~= Seq::<VerifiedBlock>::empty());
    }
}

/// Whether `shown` shows `b`: its reference, and its transactions in the order in which it lists
/// them.
pub open spec fn shows_block(shown: BlockView, b: VerifiedBlock) -> bool {
    &&& shows(shown.block_ref, b.spec_ref())
    &&& shown.txs == b.block().transactions@.map_values(|t: Transaction| t.0@)
}

/// Whether `event` is the hard commit of `leader` with `blocks`, after a commit with the given
/// index and timestamp.
pub open spec fn finally_announces(
    event: EventView,
    leader: VerifiedBlock,
    blocks: Seq<VerifiedBlock>,
    last_index: int,
    last_timestamp: u64,
) -> bool {
    match event {
        EventView::SoftCommit { .. } => false,
        EventView::HardCommit { leader: shown, blocks: views, timestamp_ms, commit_index } => {
            &&& shows(shown, leader.spec_ref())
            &&& views.len() == blocks.len()
            &&& forall|k: int|
                0 <= k < views.len() ==> shows_block(#[trigger] views[k], blocks[k])
            &&& commit_index == last_index + 1
            &&& timestamp_ms >= last_timestamp
            &&& timestamp_ms >= leader.block().timestamp_ms
            &&& timestamp_ms == last_timestamp || timestamp_ms == leader.block().timestamp_ms
        },
    }
}

/// Whether `blocks` ascend by round, and within a round by author.
pub open spec fn by_round_then_author(blocks: Seq<VerifiedBlock>) -> bool {
    forall|i: int, j: int|
        0 <= i < j < blocks.len() ==> {
            let x = (#[trigger] blocks[i]).block();
            let y = (#[trigger] blocks[j]).block();
            x.round < y.round || (x.round == y.round && x.author.0 <= y.author.0)
        }
}

/// A sub-DAG is in ascending order of round and author, and blocks of one slot keep the order in
/// which a depth-first walk from the leader finds them.
pub proof fn law_sub_dag_is_sorted(dag: DagModel, leader: VerifiedBlock, slot: Slot)
    ensures
        by_round_then_author(sub_dag(dag, leader)),
        sub_dag(dag, leader).to_multiset() == cone(
            dag.stored,
            dag.committed,
            leader,
            0,
        ).to_multiset(),
        sub_dag(dag, leader).filter(
            |b: VerifiedBlock| b.block().round == slot.round && b.block().author == slot.authority,
        ) == cone(dag.stored, dag.committed, leader, 0).filter(
            |b: VerifiedBlock| b.block().round == slot.round && b.block().author == slot.authority,
        ),
{
    let walked = cone(dag.stored, dag.committed, leader, 0);
    let out = sub_dag(dag, leader);
    lemma_sorted_by_rank(walked, sub_dag_rank());
    assert forall|i: int, j: int| 0 <= i < j < out.len() implies ({
        let x = (#[trigger] out[i]).block();
        let y = (#[trigger] out[j]).block();
        x.round < y.round || (x.round == y.round && x.author.0 <= y.author.0)
    }) by {
        assert(sub_dag_rank()(out[i]) <= sub_dag_rank()(out[j]));
        assert(round_then_author(out[i]) <= round_then_author(out[j]));
    }
    let k = (slot.round as nat) * 0x1_0000_0000 + slot.authority.0 as nat;
    lemma_of_slot(walked, slot);
    lemma_of_slot(out, slot);
    assert(of_rank(out, sub_dag_rank(), k) == of_rank(walked, sub_dag_rank(), k));
}

proof fn lemma_of_slot(blocks: Seq<VerifiedBlock>, slot: Slot)
    ensures
        of_rank(
            blocks,
            sub_dag_rank(),
            (slot.round as nat) * 0x1_0000_0000 + slot.authority.0 as nat,
        ) == blocks.filter(
            |b: VerifiedBlock| b.block().round == slot.round && b.block().author == slot.authority,
        ),
    decreases blocks.len(),
{
    reveal(Seq::filter);
    if blocks.len() > 0 {
        lemma_of_slot(blocks.drop_last(), slot);
        let b = blocks.last();
        let k = (slot.round as nat) * 0x1_0000_0000 + slot.authority.0 as nat;
        assert(sub_dag_rank()(b) == k <==> b.block().round == slot.round && b.block().author
            == slot.authority);
    }
}

/// A hard commit names its leader and shows the leader's uncommitted history, by round and author,
/// each block with its transactions in the order in which it lists them. Its index follows the
/// last one, and its timestamp is the later of its leader's and the last one.
pub proof fn law_hard_commit_shows_history(
    dag: DagModel,
    leader: VerifiedBlock,
    committee: Committee,
)
    requires
        dag.valid(committee),
        layered(dag.stored),
        closed_above(dag.stored, dag.committed, 0),
        dag.stored.contains_key(leader.spec_ref()),
        dag.stored[leader.spec_ref()] == leader,
        !dag.committed.contains(leader.spec_ref()),
    ensures
        exists|blocks: Seq<VerifiedBlock>| #[trigger]
            finally_announces(
                hard_event(dag, leader),
                leader,
                blocks,
                dag.last_index as int,
                dag.last_timestamp,
            ) && is_history_of(blocks, dag, leader) && by_round_then_author(blocks),
{
    let out = sub_dag(dag, leader);
    lemma_cone_is_history(dag, leader, committee);
    law_commit_covers_history(dag, leader);
    law_sub_dag_is_sorted(dag, leader, leader.spec_ref().slot());
    let walked = cone(dag.stored, dag.committed, leader, 0);
    lemma_sorted_by_rank(walked, sub_dag_rank());
    assert forall|k: int| 0 <= k < out.len() implies dag.stored.contains_key(
        (#[trigger] out[k]).spec_ref(),
    ) && dag.stored[out[k].spec_ref()] == out[k] by {
        assert(out.contains(out[k]));
        let i = walked.index_of(out[k]);
        assert(dag.stored[walked[i].spec_ref()] == walked[i]);
    }
    assert forall|x: BlockRef| #[trigger] has_ref(out, x) <==> dag.stored.contains_key(x)
        && x.round > 0 && !dag.committed.contains(x) && (x == leader.spec_ref() || leads_to(
        dag.stored,
        leader,
        x,
    )) by {
        assert(within(dag.stored, leader, x) == (x == leader.spec_ref() || leads_to(
            dag.stored,
            leader,
            x,
        )));
    }
    let views = hard_event(dag, leader)->blocks;
    assert forall|k: int| 0 <= k < views.len() implies shows_block(
        #[trigger] views[k],
        out[k],
    ) by {
        assert(views[k].txs =~= out[k].block().transactions@.map_values(|t: Transaction| t.0@));
    }
    assert(is_history_of(out, dag, leader));
    assert(finally_announces(
        hard_event(dag, leader),
        leader,
        out,
        dag.last_index as int,
        dag.last_timestamp,
    ));
}

/// The causal history above a floor is that of the uncommitted stored blocks above it, the leader
/// first, each block once.
pub proof fn law_causal_history_above(
    dag: DagModel,
    leader: BlockRef,
    floor: Round,
    committee: Committee,
)
    requires
        dag.valid(committee),
        layered(dag.stored),
        closed_above(dag.stored, dag.committed, floor),
        dag.stored.contains_key(leader),
        !dag.committed.contains(leader),
        leader.round > floor,
    ensures
        ({
            let out = dag.causal(leader, floor);
            &&& distinct(out)
            &&& out.len() > 0
            &&& out[0] == dag.stored[leader]
            &&& forall|k: int|
                0 <= k < out.len() ==> dag.stored.contains_key((#[trigger] out[k]).spec_ref())
                    && dag.stored[out[k].spec_ref()] == out[k]
            &&& forall|x: BlockRef| #[trigger]
                has_ref(out, x) <==> dag.stored.contains_key(x) && x.round > floor
                    && !dag.committed.contains(x) && (x == leader || leads_to(
                    dag.stored,
                    dag.stored[leader],
                    x,
                ))
        }),
{
    let b = dag.stored[leader];
    assert(b.spec_ref() == leader);
    let out = cone(dag.stored, dag.committed, b, floor);
    lemma_cone(dag.stored, dag.committed, b, floor);
    let stack = seq![b];
    let done = dag.committed.insert(leader);
    assert(out[0] == b) by {
        assert(stack[0] == b);
        let (d, s) = expand(dag.stored, done, stack.drop_last(), b.parents(), floor);
        assert(out == seq![b] + walk(dag.stored, d, s, floor));
    }
    assert forall|k: int| 0 <= k < out.len() implies dag.stored.contains_key(
        (#[trigger] out[k]).spec_ref(),
    ) && dag.stored[out[k].spec_ref()] == out[k] by {
        assert(fresh(dag.stored, dag.committed, out[k], floor));
    }
    assert forall|x: BlockRef| #[trigger] has_ref(out, x) <==> dag.stored.contains_key(x)
        && x.round > floor && !dag.committed.contains(x) && (x == leader || leads_to(
        dag.stored,
        b,
        x,
    )) by {
        assert(within(dag.stored, b, x) == (x == leader || leads_to(dag.stored, b, x)));
    }
}

/// What is said of an event is what it holds: its round, leader and index as they are, and its
/// transactions byte for byte and in order.
pub proof fn law_views_show_events(event: ConsensusEvent, events: Seq<ConsensusEvent>)
    ensures
        event matches ConsensusEvent::SoftCommit { round, leader, txs } ==> event@
            == (EventView::SoftCommit {
            round,
            leader,
            txs: txs@.map_values(|t: EthSignedTx| t.0@),
        }),
        event matches ConsensusEvent::HardCommit { subdag } ==> {
            &&& event@ is HardCommit
            &&& event@->HardCommit_leader == subdag.leader
            &&& event@->timestamp_ms == subdag.timestamp_ms
            &&& event@->commit_index == subdag.commit_index
            &&& event@->blocks.len() == subdag.blocks@.len()
            &&& forall|k: int|
                0 <= k < subdag.blocks@.len() ==> (#[trigger] event@->blocks[k]).block_ref
                    == subdag.blocks@[k].block_ref && event@->blocks[k].txs
                    == subdag.blocks@[k].txs@.map_values(|t: EthSignedTx| t.0@)
        },
        views_of(events).len() == events.len(),
        forall|k: int| 0 <= k < events.len() ==> #[trigger] views_of(events)[k] == events[k]@,
{
}

} // verus!
