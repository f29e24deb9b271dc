//! Causal links between stored blocks, and the walk along them.

use vstd::prelude::*;

use crate::types::{BlockRef, Round, VerifiedBlock};

verus! {

/// Stored blocks by reference.
pub type Store = Map<BlockRef, VerifiedBlock>;

/// Every block is stored under its own reference.
pub open spec fn keyed(stored: Store) -> bool {
    forall|r: BlockRef| #[trigger] stored.contains_key(r) ==> stored[r].spec_ref() == r
}

/// The ancestors that `b` lists come from earlier rounds.
pub open spec fn points_back(b: VerifiedBlock) -> bool {
    forall|p: BlockRef| #[trigger] b.parents().contains(p) ==> p.round < b.block().round
}

/// Every stored block points back.
pub open spec fn layered(stored: Store) -> bool {
    forall|r: BlockRef| #[trigger] stored.contains_key(r) ==> points_back(stored[r])
}

/// Every ancestor that `b` lists is stored, unless it is of the genesis round.
pub open spec fn history_present(b: VerifiedBlock, stored: Store) -> bool {
    forall|p: BlockRef| #[trigger]
        b.parents().contains(p) && p.round > 0 ==> stored.contains_key(p)
}

/// The stored blocks form a DAG that lacks no history.
pub open spec fn complete(stored: Store) -> bool {
    &&& stored.dom().finite()
    &&& keyed(stored)
    &&& forall|r: BlockRef| #[trigger]
        stored.contains_key(r) ==> points_back(stored[r]) && history_present(stored[r], stored)
}

/// Whether `x` is an ancestor of `b`, directly or through stored blocks.
pub open spec fn leads_to(stored: Store, b: VerifiedBlock, x: BlockRef) -> bool
    decreases b.block().round,
{
    ||| b.parents().contains(x)
    ||| exists|p: BlockRef| #[trigger]
        b.parents().contains(p) && stored.contains_key(p) && stored[p].block().round
            < b.block().round && leads_to(stored, stored[p], x)
}

/// An ancestor of an ancestor is an ancestor.
pub proof fn lemma_leads_further(stored: Store, b: VerifiedBlock, x: BlockRef, y: BlockRef)
    requires
        keyed(stored),
        layered(stored),
        points_back(b),
        leads_to(stored, b, x),
        stored.contains_key(x),
        leads_to(stored, stored[x], y),
    ensures
        leads_to(stored, b, y),
    decreases b.block().round,
{
    if b.parents().contains(x) {
        assert(stored[x].spec_ref() == x);
    } else {
        let p = choose|p: BlockRef| #[trigger]
            b.parents().contains(p) && stored.contains_key(p) && stored[p].block().round
                < b.block().round && leads_to(stored, stored[p], x);
        lemma_leads_further(stored, stored[p], x, y);
    }
}

/// Ancestors come from earlier rounds.
pub proof fn lemma_leads_down(stored: Store, b: VerifiedBlock, x: BlockRef)
    requires
        layered(stored),
        points_back(b),
        leads_to(stored, b, x),
    ensures
        x.round < b.block().round,
    decreases b.block().round,
{
    if !b.parents().contains(x) {
        let p = choose|p: BlockRef| #[trigger]
            b.parents().contains(p) && stored.contains_key(p) && stored[p].block().round
                < b.block().round && leads_to(stored, stored[p], x);
        lemma_leads_down(stored, stored[p], x);
    }
}

/// Marks those of `parents` that are stored, above `floor` and not done yet as done, and
/// puts them on the stack.
pub open spec fn expand(
    stored: Store,
    done: Set<BlockRef>,
    stack: Seq<VerifiedBlock>,
    parents: Seq<BlockRef>,
    floor: Round,
) -> (Set<BlockRef>, Seq<VerifiedBlock>)
    decreases parents.len(),
{
    if parents.len() == 0 {
        (done, stack)
    } else {
        let (d, s) = expand(stored, done, stack, parents.drop_last(), floor);
        let p = parents.last();
        if p.round > floor && stored.contains_key(p) && !d.contains(p) {
            (d.insert(p), s.push(stored[p]))
        } else {
            (d, s)
        }
    }
}

/// How much a walk has left to do.
pub open spec fn walk_left(
    stored: Store,
    done: Set<BlockRef>,
    stack: Seq<VerifiedBlock>,
) -> nat {
    stored.dom().difference(done).len() + stack.len()
}

pub proof fn lemma_expand_left(
    stored: Store,
    done: Set<BlockRef>,
    stack: Seq<VerifiedBlock>,
    parents: Seq<BlockRef>,
    floor: Round,
)
    requires
        stored.dom().finite(),
    ensures
        ({
            let (d, s) = expand(stored, done, stack, parents, floor);
            walk_left(stored, d, s) == walk_left(stored, done, stack)
        }),
    decreases parents.len(),
{
    if parents.len() > 0 {
        lemma_expand_left(stored, done, stack, parents.drop_last(), floor);
        let (d, s) = expand(stored, done, stack, parents.drop_last(), floor);
        let p = parents.last();
        if p.round > floor && stored.contains_key(p) && !d.contains(p) {
            assert(stored.dom().difference(d.insert(p)) =~= stored.dom().difference(d).remove(p));
        }
    }
}

/// The blocks met on a depth-first walk from `stack` along stored ancestors above `floor`
/// that are not done, in the order they are taken off the stack.
pub open spec fn walk(
    stored: Store,
    done: Set<BlockRef>,
    stack: Seq<VerifiedBlock>,
    floor: Round,
) -> Seq<VerifiedBlock>
    decreases walk_left(stored, done, stack),
    when stored.dom().finite()
    via walk_ends
{
    if stack.len() == 0 {
        Seq::empty()
    } else {
        let b = stack.last();
        let (d, s) = expand(stored, done, stack.drop_last(), b.parents(), floor);
        seq![b] + walk(stored, d, s, floor)
    }
}

#[via_fn]
proof fn walk_ends(stored: Store, done: Set<BlockRef>, stack: Seq<VerifiedBlock>, floor: Round) {
    if stack.len() > 0 {
        lemma_expand_left(stored, done, stack.drop_last(), stack.last().parents(), floor);
    }
}

/// The uncommitted causal history of `leader`, itself included, in walk order.
pub open spec fn cone(
    stored: Store,
    committed: Set<BlockRef>,
    leader: VerifiedBlock,
    floor: Round,
) -> Seq<VerifiedBlock> {
    walk(stored, committed.insert(leader.spec_ref()), seq![leader], floor)
}

/// Whether one of `blocks` has the reference `r`.
pub open spec fn has_ref(blocks: Seq<VerifiedBlock>, r: BlockRef) -> bool {
    exists|i: int| 0 <= i < blocks.len() && (#[trigger] blocks[i]).spec_ref() == r
}

/// No two of `blocks` have the same reference.
pub open spec fn distinct(blocks: Seq<VerifiedBlock>) -> bool {
    forall|i: int, j: int|
        0 <= i < j < blocks.len() ==> (#[trigger] blocks[i]).spec_ref() != (
        #[trigger] blocks[j]).spec_ref()
}

/// Whether `b` is a stored block above `floor` that is not done.
pub open spec fn fresh(
    stored: Store,
    done: Set<BlockRef>,
    b: VerifiedBlock,
    floor: Round,
) -> bool {
    let r = b.spec_ref();
    &&& stored.contains_key(r)
    &&& stored[r] == b
    &&& r.round > floor
    &&& !done.contains(r)
}

pub proof fn lemma_expand(
    stored: Store,
    done: Set<BlockRef>,
    stack: Seq<VerifiedBlock>,
    parents: Seq<BlockRef>,
    floor: Round,
)
    requires
        keyed(stored),
        distinct(stack),
        forall|i: int| 0 <= i < stack.len() ==> done.contains((#[trigger] stack[i]).spec_ref()),
    ensures
        ({
            let (d, s) = expand(stored, done, stack, parents, floor);
            &&& s.len() >= stack.len()
            &&& forall|i: int| 0 <= i < stack.len() ==> #[trigger] s[i] == stack[i]
            &&& forall|i: int|
                stack.len() <= i < s.len() ==> fresh(stored, done, #[trigger] s[i], floor)
                    && parents.contains(s[i].spec_ref())
            &&& forall|i: int| 0 <= i < s.len() ==> d.contains((#[trigger] s[i]).spec_ref())
            &&& distinct(s)
            &&& forall|x: BlockRef| #[trigger]
                d.contains(x) ==> done.contains(x) || has_ref(s, x)
            &&& forall|x: BlockRef| #[trigger] done.contains(x) ==> d.contains(x)
            &&& forall|p: BlockRef| #[trigger]
                parents.contains(p) && p.round > floor && stored.contains_key(p) ==> d.contains(p)
        }),
    decreases parents.len(),
{
    if parents.len() > 0 {
        lemma_expand(stored, done, stack, parents.drop_last(), floor);
        let (d0, s0) = expand(stored, done, stack, parents.drop_last(), floor);
        let (d, s) = expand(stored, done, stack, parents, floor);
        let last = parents.last();
        assert forall|p: BlockRef| parents.drop_last().contains(p) implies parents.contains(p) by {
            assert(parents[parents.drop_last().index_of(p)] == p);
        }
        assert(parents[parents.len() - 1] == last);
        if last.round > floor && stored.contains_key(last) && !d0.contains(last) {
            assert(s == s0.push(stored[last]));
            assert(s[s0.len() as int].spec_ref() == last);
            assert forall|x: BlockRef| #[trigger] d.contains(x) implies done.contains(x)
                || has_ref(s, x) by {
                if has_ref(s0, x) {
                    let i = choose|i: int|
                        0 <= i < s0.len() && (#[trigger] s0[i]).spec_ref() == x;
                    assert(s[i].spec_ref() == x);
                }
            }
        }
        assert forall|p: BlockRef| #[trigger]
            parents.contains(p) && p.round > floor && stored.contains_key(p) implies d.contains(
            p,
        ) by {
            let i = parents.index_of(p);
            if i < parents.len() - 1 {
                assert(parents.drop_last()[i] == p);
                assert(parents.drop_last().contains(p));
            }
        }
    }
}

/// What a walk meets: everything on the stack, otherwise only fresh blocks, nothing twice,
/// and of each block met every stored ancestor above the floor that was not done.
pub proof fn lemma_walk(
    stored: Store,
    done: Set<BlockRef>,
    stack: Seq<VerifiedBlock>,
    floor: Round,
)
    requires
        stored.dom().finite(),
        keyed(stored),
        distinct(stack),
        forall|i: int| 0 <= i < stack.len() ==> done.contains((#[trigger] stack[i]).spec_ref()),
    ensures
        ({
            let out = walk(stored, done, stack, floor);
            &&& forall|i: int|
                0 <= i < stack.len() ==> has_ref(out, (#[trigger] stack[i]).spec_ref())
            &&& forall|k: int|
                0 <= k < out.len() ==> stack.contains(#[trigger] out[k]) || fresh(
                    stored,
                    done,
                    out[k],
                    floor,
                )
            &&& distinct(out)
            &&& forall|k: int, p: BlockRef|
                0 <= k < out.len() && #[trigger] out[k].parents().contains(p) && p.round > floor
                    && stored.contains_key(p) ==> done.contains(p) || has_ref(out, p)
        }),
    decreases walk_left(stored, done, stack),
{
    if stack.len() > 0 {
        let b = stack.last();
        let under = stack.drop_last();
        let (d, s) = expand(stored, done, under, b.parents(), floor);
        lemma_expand(stored, done, under, b.parents(), floor);
        lemma_expand_left(stored, done, under, b.parents(), floor);
        lemma_walk(stored, d, s, floor);
        let rest = walk(stored, d, s, floor);
        let out = walk(stored, done, stack, floor);
        assert(out == seq![b] + rest);
        assert(out[0] == b);
        assert forall|k: int| 0 <= k < rest.len() implies #[trigger] rest[k] == out[k + 1] by {}
        assert forall|x: BlockRef| has_ref(rest, x) implies has_ref(out, x) by {
            let k = choose|k: int| 0 <= k < rest.len() && (#[trigger] rest[k]).spec_ref() == x;
            assert(out[k + 1].spec_ref() == x);
        }
        assert forall|x: BlockRef| has_ref(s, x) implies has_ref(rest, x) by {
            let k = choose|k: int| 0 <= k < s.len() && (#[trigger] s[k]).spec_ref() == x;
        }
        assert forall|i: int| 0 <= i < stack.len() implies has_ref(
            out,
            (#[trigger] stack[i]).spec_ref(),
        ) by {
            if i < under.len() {
                assert(s[i] == stack[i]);
                assert(has_ref(s, stack[i].spec_ref()));
            } else {
                assert(out[0].spec_ref() == stack[i].spec_ref());
            }
        }
        assert forall|k: int| 0 <= k < out.len() implies stack.contains(#[trigger] out[k])
            || fresh(stored, done, out[k], floor) by {
            if k == 0 {
                assert(stack[stack.len() - 1] == out[0]);
            } else {
                let x = rest[k - 1];
                if s.contains(x) {
                    let i = s.index_of(x);
                    if i < under.len() {
                        assert(stack[i] == x);
                    }
                }
            }
        }
        assert forall|i: int, j: int| 0 <= i < j < out.len() implies (
        #[trigger] out[i]).spec_ref() != (#[trigger] out[j]).spec_ref() by {
            if i == 0 {
                let x = rest[j - 1];
                if s.contains(x) {
                    let m = s.index_of(x);
                    if m < under.len() {
                        assert(stack[m] == x);
                        assert(stack[stack.len() - 1] == b);
                    }
                } else {
                    assert(done.contains(b.spec_ref()));
                }
            } else {
                assert(rest[i - 1].spec_ref() != rest[j - 1].spec_ref());
            }
        }
        assert forall|k: int, p: BlockRef|
            0 <= k < out.len() && #[trigger] out[k].parents().contains(p) && p.round > floor
                && stored.contains_key(p) implies done.contains(p) || has_ref(out, p) by {
            if k > 0 {
                assert(rest[k - 1].parents().contains(p));
            }
            if d.contains(p) && !done.contains(p) {
                assert(has_ref(s, p));
            }
        }
    }
}

/// Whether `r` is `leader` itself or one of its ancestors.
pub open spec fn within(stored: Store, leader: VerifiedBlock, r: BlockRef) -> bool {
    r == leader.spec_ref() || leads_to(stored, leader, r)
}

proof fn lemma_walk_within(
    stored: Store,
    done: Set<BlockRef>,
    stack: Seq<VerifiedBlock>,
    floor: Round,
    leader: VerifiedBlock,
)
    requires
        stored.dom().finite(),
        keyed(stored),
        layered(stored),
        stored.contains_key(leader.spec_ref()),
        stored[leader.spec_ref()] == leader,
        distinct(stack),
        forall|i: int|
            0 <= i < stack.len() ==> {
                let r = (#[trigger] stack[i]).spec_ref();
                &&& done.contains(r)
                &&& stored.contains_key(r)
                &&& stored[r] == stack[i]
                &&& within(stored, leader, r)
            },
    ensures
        ({
            let out = walk(stored, done, stack, floor);
            forall|k: int|
                0 <= k < out.len() ==> within(stored, leader, (#[trigger] out[k]).spec_ref())
        }),
    decreases walk_left(stored, done, stack),
{
    if stack.len() > 0 {
        let b = stack.last();
        let under = stack.drop_last();
        let (d, s) = expand(stored, done, under, b.parents(), floor);
        lemma_expand(stored, done, under, b.parents(), floor);
        lemma_expand_left(stored, done, under, b.parents(), floor);
        assert(stack[stack.len() - 1] == b);
        assert forall|i: int| 0 <= i < s.len() implies {
            let r = (#[trigger] s[i]).spec_ref();
            &&& d.contains(r)
            &&& stored.contains_key(r)
            &&& stored[r] == s[i]
            &&& within(stored, leader, r)
        } by {
            if i < under.len() {
                assert(s[i] == stack[i]);
            } else {
                let p = s[i].spec_ref();
                assert(b.parents().contains(p));
                if b.spec_ref() != leader.spec_ref() {
                    assert(leads_to(stored, stored[b.spec_ref()], p));
                    lemma_leads_further(stored, leader, b.spec_ref(), p);
                }
            }
        }
        lemma_walk_within(stored, d, s, floor, leader);
        let rest = walk(stored, d, s, floor);
        let out = walk(stored, done, stack, floor);
        assert forall|k: int| 0 <= k < out.len() implies within(
            stored,
            leader,
            (#[trigger] out[k]).spec_ref(),
        ) by {
            if k > 0 {
                assert(out[k] == rest[k - 1]);
            }
        }
    }
}

/// With a committed block all its stored ancestors above `floor` are committed.
pub open spec fn closed_above(stored: Store, committed: Set<BlockRef>, floor: Round) -> bool {
    forall|r: BlockRef, p: BlockRef|
        #![trigger committed.contains(r), stored[r].parents().contains(p)]
        committed.contains(r) && stored.contains_key(r) && stored[r].parents().contains(p)
            && p.round > floor && stored.contains_key(p) ==> committed.contains(p)
}

proof fn lemma_cone_reaches(
    stored: Store,
    committed: Set<BlockRef>,
    out: Seq<VerifiedBlock>,
    floor: Round,
    b: VerifiedBlock,
    x: BlockRef,
)
    requires
        keyed(stored),
        layered(stored),
        closed_above(stored, committed, floor),
        forall|k: int, p: BlockRef|
            0 <= k < out.len() && #[trigger] out[k].parents().contains(p) && p.round > floor
                && stored.contains_key(p) ==> committed.contains(p) || has_ref(out, p),
        forall|k: int|
            0 <= k < out.len() ==> {
                let r = (#[trigger] out[k]).spec_ref();
                &&& stored.contains_key(r)
                &&& stored[r] == out[k]
            },
        stored.contains_key(b.spec_ref()),
        stored[b.spec_ref()] == b,
        committed.contains(b.spec_ref()) || has_ref(out, b.spec_ref()),
        leads_to(stored, b, x),
        stored.contains_key(x),
        x.round > floor,
    ensures
        committed.contains(x) || has_ref(out, x),
    decreases b.block().round,
{
    let p = if b.parents().contains(x) {
        x
    } else {
        choose|p: BlockRef| #[trigger]
            b.parents().contains(p) && stored.contains_key(p) && stored[p].block().round
                < b.block().round && leads_to(stored, stored[p], x)
    };
    if p != x {
        lemma_leads_down(stored, stored[p], x);
        assert(stored[p].spec_ref() == p);
    }
    if has_ref(out, b.spec_ref()) {
        let k = choose|k: int| 0 <= k < out.len() && (#[trigger] out[k]).spec_ref()
            == b.spec_ref();
        assert(out[k].parents().contains(p));
    } else {
        assert(stored[b.spec_ref()].parents().contains(p));
    }
    if p != x {
        lemma_cone_reaches(stored, committed, out, floor, stored[p], x);
    }
}

/// The cone of a leader is exactly its stored, uncommitted history above the floor, each
/// block once; and with the cone committed, the committed blocks again lack no ancestor.
pub proof fn lemma_cone(
    stored: Store,
    committed: Set<BlockRef>,
    leader: VerifiedBlock,
    floor: Round,
)
    requires
        stored.dom().finite(),
        keyed(stored),
        layered(stored),
        stored.contains_key(leader.spec_ref()),
        stored[leader.spec_ref()] == leader,
        leader.block().round > floor,
        !committed.contains(leader.spec_ref()),
    ensures
        ({
            let out = cone(stored, committed, leader, floor);
            &&& distinct(out)
            &&& has_ref(out, leader.spec_ref())
            &&& forall|k: int|
                0 <= k < out.len() ==> fresh(stored, committed, #[trigger] out[k], floor)
                    && within(stored, leader, out[k].spec_ref())
            &&& closed_above(stored, committed, floor) ==> {
                &&& forall|x: BlockRef| #[trigger]
                    has_ref(out, x) <==> stored.contains_key(x) && x.round > floor
                        && !committed.contains(x) && within(stored, leader, x)
                &&& forall|c: Set<BlockRef>|
                    (forall|x: BlockRef| #[trigger]
                        c.contains(x) <==> committed.contains(x) || has_ref(out, x))
                        ==> #[trigger] closed_above(stored, c, floor)
            }
        }),
{
    let done = committed.insert(leader.spec_ref());
    let stack = seq![leader];
    let out = cone(stored, committed, leader, floor);
    lemma_walk(stored, done, stack, floor);
    lemma_walk_within(stored, done, stack, floor, leader);
    assert(stack[0] == leader);
    assert(has_ref(out, leader.spec_ref()));
    assert forall|k: int| 0 <= k < out.len() implies fresh(
        stored,
        committed,
        #[trigger] out[k],
        floor,
    ) && within(stored, leader, out[k].spec_ref()) by {
        if stack.contains(out[k]) {
            assert(out[k] == leader);
        }
    }
    assert forall|k: int, p: BlockRef|
        0 <= k < out.len() && #[trigger] out[k].parents().contains(p) && p.round > floor
            && stored.contains_key(p) implies committed.contains(p) || has_ref(out, p) by {
        assert(done.contains(p) || has_ref(out, p));
    }
    if closed_above(stored, committed, floor) {
        assert forall|x: BlockRef| #[trigger] has_ref(out, x) <==> stored.contains_key(x)
            && x.round > floor && !committed.contains(x) && within(stored, leader, x) by {
            if has_ref(out, x) {
                let k = choose|k: int| 0 <= k < out.len() && (#[trigger] out[k]).spec_ref() == x;
                assert(fresh(stored, committed, out[k], floor));
            }
            if stored.contains_key(x) && x.round > floor && !committed.contains(x) && within(
                stored,
                leader,
                x,
            ) {
                if x != leader.spec_ref() {
                    lemma_cone_reaches(stored, committed, out, floor, leader, x);
                }
            }
        }
        assert forall|c: Set<BlockRef>|
            (forall|x: BlockRef| #[trigger]
                c.contains(x) <==> committed.contains(x) || has_ref(out, x)) implies
            #[trigger] closed_above(stored, c, floor) by {
            assert forall|r: BlockRef, p: BlockRef|
                #![trigger c.contains(r), stored[r].parents().contains(p)]
                c.contains(r) && stored.contains_key(r) && stored[r].parents().contains(p)
                    && p.round > floor && stored.contains_key(p) implies c.contains(p) by {
                if committed.contains(r) {
                    assert(committed.contains(p));
                } else {
                    let k = choose|k: int|
                        0 <= k < out.len() && (#[trigger] out[k]).spec_ref() == r;
                    assert(out[k].parents().contains(p));
                }
            }
        }
    }
}

/// Whether `s` holds the ancestors that each of its stored members of a round below `round` lists.
pub open spec fn holds_ancestors(stored: Store, s: Set<BlockRef>, round: int) -> bool {
    forall|r: BlockRef, p: BlockRef|
        #![trigger s.contains(r), stored[r].parents().contains(p)]
        s.contains(r) && stored.contains_key(r) && stored[r].block().round < round
            && stored[r].parents().contains(p) ==> s.contains(p)
}

/// The ancestors of a block: those that it lists, those of the stored blocks that it lists, and
/// nothing else. They are in every set that holds what the block lists and, with a stored block,
/// what that block lists.
pub proof fn law_ancestors(stored: Store, b: VerifiedBlock, x: BlockRef, s: Set<BlockRef>)
    requires
        keyed(stored),
        layered(stored),
        points_back(b),
    ensures
        b.parents().contains(x) ==> leads_to(stored, b, x),
        forall|p: BlockRef| #[trigger]
            b.parents().contains(p) && stored.contains_key(p) && leads_to(stored, stored[p], x)
                ==> leads_to(stored, b, x),
        leads_to(stored, b, x) && (forall|p: BlockRef| #[trigger]
            b.parents().contains(p) ==> s.contains(p)) && holds_ancestors(
            stored,
            s,
            b.block().round as int,
        ) ==> s.contains(x),
    decreases b.block().round,
{
    assert forall|p: BlockRef| #[trigger]
        b.parents().contains(p) && stored.contains_key(p) && leads_to(
            stored,
            stored[p],
            x,
        ) implies leads_to(stored, b, x) by {
        assert(stored[p].spec_ref() == p);
    }
    if leads_to(stored, b, x) && !b.parents().contains(x) {
        let p = choose|p: BlockRef| #[trigger]
            b.parents().contains(p) && stored.contains_key(p) && stored[p].block().round
                < b.block().round && leads_to(stored, stored[p], x);
        law_ancestors(stored, stored[p], x, s);
        if (forall|q: BlockRef| #[trigger] b.parents().contains(q) ==> s.contains(q))
            && holds_ancestors(stored, s, b.block().round as int) {
            assert(s.contains(p));
            assert forall|q: BlockRef| #[trigger]
                stored[p].parents().contains(q) implies s.contains(q) by {}
            assert(holds_ancestors(stored, s, stored[p].block().round as int));
        }
    }
}

} // verus!
