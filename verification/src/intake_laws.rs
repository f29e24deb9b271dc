//! What becomes of the blocks that are offered to a node.

use vstd::prelude::*;

use crate::block_manager::{
    by_round, fit, lacks, law_batches_are_causal, law_offer_keeps_settled, law_released_in_order,
    lemma_has_ref_concat, lemma_let_in_keeps_settled, lemma_released, preceded, released, round_rank,
    supplied, unreleased, whole, Intake,
};
use crate::causal::{distinct, has_ref};
use crate::commit::refs_of;
use crate::committee::Committee;
use crate::dag_laws::{last_with, law_accept_adds_the_blocks};
use crate::stable_sort::{lemma_sorted_by_rank, of_rank};
use crate::types::{BlockRef, Round, VerifiedBlock};

verus! {

/// Whether `b` lists `p` as an ancestor above the genesis round.
pub open spec fn lists(b: VerifiedBlock, p: BlockRef) -> bool {
    b.parents().contains(p) && p.round > 0
}

/// Whether `b` lists an ancestor that is not stored.
pub open spec fn lacks_some(b: VerifiedBlock, intake: Intake) -> bool {
    exists|p: BlockRef| #[trigger] lists(b, p) && !intake.dag.stored.contains_key(p)
}

/// Whether the blocks `accepted` enter a DAG so that each comes after its ancestors.
pub open spec fn enter_in_causal_order(before: Intake, accepted: Seq<VerifiedBlock>) -> bool {
    forall|k: int, p: BlockRef|
        0 <= k < accepted.len() && #[trigger] lists(accepted[k], p)
            ==> before.dag.stored.contains_key(p) || has_ref(accepted.take(k), p)
}

/// What one step from `before` to `after` accepts: exactly what is stored then and was not before,
/// each block once, as it was `offered` or as it waited.
pub open spec fn accepts_exactly(
    before: Intake,
    after: Intake,
    offered: Seq<VerifiedBlock>,
    accepted: Seq<VerifiedBlock>,
) -> bool {
    &&& distinct(accepted)
    &&& forall|r: BlockRef| #[trigger]
        after.dag.stored.contains_key(r) <==> before.dag.stored.contains_key(r) || has_ref(
            accepted,
            r,
        )
    &&& forall|k: int|
        0 <= k < accepted.len() ==> {
            let r = (#[trigger] accepted[k]).spec_ref();
            &&& !before.dag.stored.contains_key(r)
            &&& after.dag.stored[r] == accepted[k]
            &&& offered.contains(accepted[k]) || (before.pool.waiting.contains_key(r)
                && before.pool.waiting[r] == accepted[k])
        }
}

/// What waits after a step from `before` to `after`: only what waited or was `offered`, each block
/// for want of an ancestor, and whatever it lacks waits itself or counts as missing.
pub open spec fn waits_for_cause(
    before: Intake,
    after: Intake,
    offered: Seq<VerifiedBlock>,
) -> bool {
    &&& forall|r: BlockRef| #[trigger]
        after.pool.waiting.contains_key(r) ==> {
            let b = after.pool.waiting[r];
            &&& b.spec_ref() == r
            &&& !after.dag.stored.contains_key(r)
            &&& lacks_some(b, after)
            &&& offered.contains(b) || (before.pool.waiting.contains_key(r)
                && before.pool.waiting[r] == b)
        }
    &&& forall|r: BlockRef, p: BlockRef|
        #![trigger after.pool.waiting.contains_key(r), lists(after.pool.waiting[r], p)]
        after.pool.waiting.contains_key(r) && lists(after.pool.waiting[r], p)
            && !after.dag.stored.contains_key(p) ==> after.pool.waiting.contains_key(p)
            || after.pool.missing.contains(p)
    &&& forall|r: BlockRef| #[trigger]
        before.pool.waiting.contains_key(r) ==> after.pool.waiting.contains_key(r)
            || after.dag.stored.contains_key(r)
}

/// What counts as missing after a step from `before` to `after` that reported `reported`: what was
/// missing before and what was reported, less what has turned up.
pub open spec fn misses_exactly(before: Intake, after: Intake, reported: Set<BlockRef>) -> bool {
    forall|x: BlockRef| #[trigger]
        after.pool.missing.contains(x) <==> (before.pool.missing.contains(x) || reported.contains(
            x,
        )) && !after.dag.stored.contains_key(x) && !after.pool.waiting.contains_key(x)
}

/// What may be reported missing: ancestors above genesis of offered blocks that were neither
/// stored nor suspended before.
pub open spec fn reports_only_unknown(
    before: Intake,
    offered: Seq<VerifiedBlock>,
    reported: Set<BlockRef>,
) -> bool {
    forall|x: BlockRef| #[trigger]
        reported.contains(x) ==> !before.dag.stored.contains_key(x)
            && !before.pool.waiting.contains_key(x) && listed_by_one(offered, x)
}

/// Whether one of `blocks` lists `x`.
pub open spec fn listed_by_one(blocks: Seq<VerifiedBlock>, x: BlockRef) -> bool {
    exists|i: int| 0 <= i < blocks.len() && lists(#[trigger] blocks[i], x)
}

/// What becomes of a block that is let in, and of those that waited for it.
proof fn lemma_one_let_in(intake: Intake, block: VerifiedBlock, committee: Committee)
    requires
        intake.settled(committee),
        intake.dag.valid(committee),
        fit(intake.dag, committee, block),
        !intake.dag.stored.contains_key(block.spec_ref()),
    ensures
        ({
            let after = intake.let_in(block, committee);
            &&& after.settled(committee)
            &&& after.dag.valid(committee)
            &&& accepts_exactly(intake, after, seq![block], intake.batch(block))
            &&& waits_for_cause(intake, after, seq![block])
            &&& misses_exactly(intake, after, Set::empty())
            &&& after.dag.stored.contains_key(block.spec_ref())
            &&& forall|x: BlockRef| #[trigger]
                intake.dag.stored.contains_key(x) ==> after.dag.stored[x] == intake.dag.stored[x]
        }),
{
    let after = intake.let_in(block, committee);
    let r = block.spec_ref();
    let known = intake.known();
    let one = seq![block];
    assert(one[0] == block);
    assert(one.contains(block));
    lemma_let_in_keeps_settled(intake, block, committee);
    let out = intake.batch(block);
    let less = intake.pool.waiting.remove(r);
    let now = known.insert(r);
    assert(less.dom() =~= intake.pool.waiting.dom().remove(r));
    lemma_released(less, now);
    let rest = released(less, now);
    let left = unreleased(less, now);
    assert(out == seq![block] + rest);
    law_accept_adds_the_blocks(intake.dag, out, committee);
    assert forall|k: int| 0 <= k < out.len() implies {
        let x = (#[trigger] out[k]).spec_ref();
        &&& !intake.dag.stored.contains_key(x)
        &&& after.dag.stored[x] == out[k]
        &&& one.contains(out[k]) || (intake.pool.waiting.contains_key(x)
            && intake.pool.waiting[x] == out[k])
    } by {
        let x = out[k].spec_ref();
        if k == 0 {
            assert(out[0] == block);
        } else {
            assert(out[k] == rest[k - 1]);
            assert(less.contains_key(x));
        }
        assert(has_ref(out, x));
        lemma_last_with_distinct(out, k);
        assert(after.dag.stored.contains_key(x));
    }
    assert(out[0].spec_ref() == r);
    assert(has_ref(out, r));
    assert(after.dag.stored.contains_key(r));
    assert forall|x: BlockRef| #[trigger] after.pool.waiting.contains_key(x) implies lacks_some(
        after.pool.waiting[x],
        after,
    ) && intake.pool.waiting.contains_key(x) && intake.pool.waiting[x]
        == after.pool.waiting[x] by {
        lemma_unsupplied(after.pool.waiting[x], after);
        assert(left.contains_key(x));
        assert(less.contains_key(x));
    }
    lemma_lacking(after, committee);
    assert forall|x: BlockRef| #[trigger] intake.pool.waiting.contains_key(x) implies
        after.pool.waiting.contains_key(x) || after.dag.stored.contains_key(x) by {
        if x != r {
            assert(less.contains_key(x));
            if has_ref(rest, x) {
                lemma_has_ref_concat(seq![block], rest, x);
                assert(has_ref(out, x));
            }
        }
    }
    assert forall|x: BlockRef| #[trigger]
        intake.dag.stored.contains_key(x) implies after.dag.stored[x] == intake.dag.stored[x] by {
        assert(after.dag.stored.contains_key(x));
        if has_ref(out, x) {
            let k = choose|k: int| 0 <= k < out.len() && (#[trigger] out[k]).spec_ref() == x;
            assert(!intake.dag.stored.contains_key(out[k].spec_ref()));
        }
    }
    assert forall|x: BlockRef| #[trigger] after.pool.missing.contains(x) <==> (
    intake.pool.missing.contains(x) || Set::<BlockRef>::empty().contains(x))
        && !after.dag.stored.contains_key(x) && !after.pool.waiting.contains_key(x) by {
        if intake.pool.missing.contains(x) && !after.dag.stored.contains_key(x) {
            assert(x != r);
        }
    }
}

proof fn lemma_one_offer(intake: Intake, block: VerifiedBlock, committee: Committee)
    requires
        intake.settled(committee),
        intake.dag.valid(committee),
        fit(intake.dag, committee, block),
    ensures
        ({
            let after = intake.offer(block, committee);
            let r = block.spec_ref();
            &&& accepts_exactly(intake, after, seq![block], intake.accepted_from(block))
            &&& enter_in_causal_order(intake, intake.accepted_from(block))
            &&& waits_for_cause(intake, after, seq![block])
            &&& misses_exactly(intake, after, intake.missing_from(block))
            &&& reports_only_unknown(intake, seq![block], intake.missing_from(block))
            &&& after.dag.stored.contains_key(r) || after.pool.waiting.contains_key(r)
            &&& forall|p: BlockRef| #[trigger]
                lists(block, p) && !after.dag.stored.contains_key(r)
                    && !intake.dag.stored.contains_key(p) && !intake.pool.waiting.contains_key(p)
                    && p != r ==> intake.missing_from(block).contains(p)
            &&& forall|x: BlockRef| #[trigger]
                intake.dag.stored.contains_key(x) ==> after.dag.stored[x] == intake.dag.stored[x]
        }),
{
    let after = intake.offer(block, committee);
    let r = block.spec_ref();
    let known = intake.known();
    let one = seq![block];
    assert(one[0] == block);
    assert(one.contains(block));
    law_offer_keeps_settled(intake, block, committee);
    let out = intake.accepted_from(block);
    if intake.dag.stored.contains_key(r) {
        assert forall|x: BlockRef| !has_ref(out, x) by {}
        assert forall|x: BlockRef| #[trigger] after.pool.waiting.contains_key(x) implies lacks_some(
            after.pool.waiting[x],
            after,
        ) by {
            lemma_unsupplied(after.pool.waiting[x], after);
        }
        lemma_lacking(after, committee);
    } else if supplied(block, known) {
        lemma_one_let_in(intake, block, committee);
        law_batches_are_causal(intake, block, committee);
        assert forall|k: int, p: BlockRef|
            0 <= k < out.len() && #[trigger] lists(
                out[k],
                p,
            ) implies intake.dag.stored.contains_key(p) || has_ref(out.take(k), p) by {
            assert(preceded(out, known, k));
            assert(out[k].parents().contains(p));
        }
    } else {
        assert(out =~= Seq::<VerifiedBlock>::empty());
        assert forall|x: BlockRef| !has_ref(out, x) by {}
        assert(after.pool.waiting.contains_key(r));
        assert forall|x: BlockRef| #[trigger] after.pool.waiting.contains_key(x) implies lacks_some(
            after.pool.waiting[x],
            after,
        ) by {
            lemma_unsupplied(after.pool.waiting[x], after);
        }
        lemma_lacking(after, committee);
        assert forall|x: BlockRef| #[trigger]
            intake.missing_from(block).contains(x) implies listed_by_one(one, x) by {
            assert(lists(one[0], x));
        }
    }
}

/// A block that waits lacks an ancestor.
proof fn lemma_unsupplied(b: VerifiedBlock, intake: Intake)
    requires
        !supplied(b, intake.known()),
    ensures
        lacks_some(b, intake),
{
    let p = choose|p: BlockRef| #[trigger]
        b.parents().contains(p) && p.round > 0 && !intake.known().contains(p);
    assert(lists(b, p));
}

/// What a waiting block lacks waits or is missing.
proof fn lemma_lacking(intake: Intake, committee: Committee)
    requires
        intake.settled(committee),
    ensures
        forall|r: BlockRef, p: BlockRef|
            #![trigger intake.pool.waiting.contains_key(r), lists(intake.pool.waiting[r], p)]
            intake.pool.waiting.contains_key(r) && lists(intake.pool.waiting[r], p)
                && !intake.dag.stored.contains_key(p) ==> intake.pool.waiting.contains_key(p)
                || intake.pool.missing.contains(p),
{
    assert forall|r: BlockRef, p: BlockRef|
        #![trigger intake.pool.waiting.contains_key(r), lists(intake.pool.waiting[r], p)]
        intake.pool.waiting.contains_key(r) && lists(intake.pool.waiting[r], p)
            && !intake.dag.stored.contains_key(p) implies intake.pool.waiting.contains_key(p)
        || intake.pool.missing.contains(p) by {
        let lacking = lacks(intake.pool.waiting[r], intake.known());
        assert(lacking.contains(p));
        assert(intake.pool.missing.union(intake.pool.waiting.dom()).contains(p));
    }
}

proof fn lemma_last_with_distinct(blocks: Seq<VerifiedBlock>, k: int)
    requires
        distinct(blocks),
        0 <= k < blocks.len(),
    ensures
        last_with(blocks, blocks[k].spec_ref()) == blocks[k],
    decreases blocks.len(),
{
    let end = blocks.len() - 1;
    if k < end {
        assert(blocks[k].spec_ref() != blocks[end].spec_ref());
        let front = blocks.drop_last();
        assert forall|i: int, j: int| 0 <= i < j < front.len() implies (
        #[trigger] front[i]).spec_ref() != (#[trigger] front[j]).spec_ref() by {
            assert(blocks[i].spec_ref() != blocks[j].spec_ref());
        }
        lemma_last_with_distinct(front, k);
    }
}

/// Whether offering `blocks` leaves `blocks[i]` suspended when its turn comes, for want of `p`
/// among others, `p` being neither stored nor suspended at that moment.
pub open spec fn found_lacking(
    intake: Intake,
    blocks: Seq<VerifiedBlock>,
    committee: Committee,
    i: int,
    p: BlockRef,
) -> bool {
    let here = intake.offer_all(blocks.take(i), committee);
    let next = intake.offer_all(blocks.take(i + 1), committee);
    &&& 0 <= i < blocks.len()
    &&& lists(blocks[i], p)
    &&& p != blocks[i].spec_ref()
    &&& next.pool.waiting.contains_key(blocks[i].spec_ref())
    &&& !here.dag.stored.contains_key(p)
    &&& !here.pool.waiting.contains_key(p)
}

/// Every block that is offered is accounted for. It is stored or it waits for want of an ancestor.
/// What is accepted is exactly what is stored and was not before, in causal order. Whatever is
/// found lacking is reported, so that each reference that becomes missing is; and what counts as
/// missing is what was missing or was reported, less what has turned up.
pub proof fn law_offered_blocks_are_accounted_for(
    intake: Intake,
    blocks: Seq<VerifiedBlock>,
    committee: Committee,
)
    requires
        intake.settled(committee),
        intake.dag.valid(committee),
        forall|i: int| 0 <= i < blocks.len() ==> fit(intake.dag, committee, #[trigger] blocks[i]),
    ensures
        ({
            let after = intake.offer_all(blocks, committee);
            let accepted = intake.accepted_from_all(blocks, committee);
            let reported = intake.missing_from_all(blocks, committee);
            &&& forall|i: int|
                0 <= i < blocks.len() ==> after.dag.stored.contains_key(
                    (#[trigger] blocks[i]).spec_ref(),
                ) || after.pool.waiting.contains_key(blocks[i].spec_ref())
            &&& accepts_exactly(intake, after, blocks, accepted)
            &&& enter_in_causal_order(intake, accepted)
            &&& waits_for_cause(intake, after, blocks)
            &&& reports_only_unknown(intake, blocks, reported)
            &&& forall|i: int, p: BlockRef| #[trigger]
                found_lacking(intake, blocks, committee, i, p) ==> reported.contains(p)
            &&& misses_exactly(intake, after, reported)
            &&& forall|x: BlockRef| #[trigger]
                after.pool.missing.contains(x) && !intake.pool.missing.contains(x)
                    ==> reported.contains(x)
            &&& forall|r: BlockRef| #[trigger]
                intake.dag.stored.contains_key(r) ==> after.dag.stored[r] == intake.dag.stored[r]
        }),
{
    lemma_all_offers(intake, blocks, committee);
}

proof fn lemma_all_offers(intake: Intake, blocks: Seq<VerifiedBlock>, committee: Committee)
    requires
        intake.settled(committee),
        intake.dag.valid(committee),
        forall|i: int| 0 <= i < blocks.len() ==> fit(intake.dag, committee, #[trigger] blocks[i]),
    ensures
        ({
            let after = intake.offer_all(blocks, committee);
            let accepted = intake.accepted_from_all(blocks, committee);
            let reported = intake.missing_from_all(blocks, committee);
            &&& after.settled(committee)
            &&& after.dag.valid(committee)
            &&& forall|i: int|
                0 <= i < blocks.len() ==> after.dag.stored.contains_key(
                    (#[trigger] blocks[i]).spec_ref(),
                ) || after.pool.waiting.contains_key(blocks[i].spec_ref())
            &&& accepts_exactly(intake, after, blocks, accepted)
            &&& enter_in_causal_order(intake, accepted)
            &&& waits_for_cause(intake, after, blocks)
            &&& reports_only_unknown(intake, blocks, reported)
            &&& forall|i: int, p: BlockRef| #[trigger]
                found_lacking(intake, blocks, committee, i, p) ==> reported.contains(p)
            &&& misses_exactly(intake, after, reported)
            &&& forall|r: BlockRef| #[trigger]
                intake.dag.stored.contains_key(r) ==> after.dag.stored[r] == intake.dag.stored[r]
        }),
    decreases blocks.len(),
{
    let after = intake.offer_all(blocks, committee);
    let accepted = intake.accepted_from_all(blocks, committee);
    let reported = intake.missing_from_all(blocks, committee);
    if blocks.len() == 0 {
        assert forall|r: BlockRef| !has_ref(accepted, r) by {}
        assert forall|x: BlockRef| #[trigger] after.pool.waiting.contains_key(x) implies lacks_some(
            after.pool.waiting[x],
            after,
        ) by {
            lemma_unsupplied(after.pool.waiting[x], after);
        }
        lemma_lacking(after, committee);
    } else {
        let front = blocks.drop_last();
        let last = blocks.last();
        let end = blocks.len() - 1;
        assert(blocks[end] == last);
        assert forall|i: int| 0 <= i < front.len() implies fit(
            intake.dag,
            committee,
            #[trigger] front[i],
        ) by {
            assert(front[i] == blocks[i]);
        }
        lemma_all_offers(intake, front, committee);
        let mid = intake.offer_all(front, committee);
        let first = intake.accepted_from_all(front, committee);
        let second = mid.accepted_from(last);
        let told = intake.missing_from_all(front, committee);
        assert(fit(mid.dag, committee, last)) by {
            assert(fit(intake.dag, committee, blocks[end]));
        }
        lemma_one_offer(mid, last, committee);
        law_offer_keeps_settled(mid, last, committee);
        assert(accepted == first + second);
        let one = seq![last];
        assert(one[0] == last);
        assert forall|b: VerifiedBlock| #[trigger] one.contains(b) implies blocks.contains(b) by {
            assert(b == last);
            assert(blocks[end] == b);
        }
        assert forall|b: VerifiedBlock| #[trigger] front.contains(b) implies blocks.contains(b) by {
            assert(blocks[front.index_of(b)] == b);
        }
        lemma_accepts_twice(intake, mid, after, front, one, blocks, first, second);
        lemma_waits_twice(intake, mid, after, front, one, blocks);
        lemma_misses_twice(intake, mid, after, front, one, blocks, told, mid.missing_from(last));
        assert(reported =~= told.union(mid.missing_from(last)));
        assert forall|i: int| 0 <= i < blocks.len() implies after.dag.stored.contains_key(
            (#[trigger] blocks[i]).spec_ref(),
        ) || after.pool.waiting.contains_key(blocks[i].spec_ref()) by {
            if i < end {
                assert(front[i] == blocks[i]);
                assert(mid.dag.stored.contains_key(front[i].spec_ref())
                    || mid.pool.waiting.contains_key(front[i].spec_ref()));
            }
        }
        assert forall|i: int, p: BlockRef| #[trigger]
            found_lacking(intake, blocks, committee, i, p) implies reported.contains(p) by {
            if i < end {
                assert(blocks.take(i) =~= front.take(i));
                assert(blocks.take(i + 1) =~= front.take(i + 1));
                assert(front[i] == blocks[i]);
                assert(found_lacking(intake, front, committee, i, p));
            } else {
                assert(blocks.take(i) =~= front);
                assert(blocks.take(i + 1) =~= blocks);
                assert(lists(last, p));
                assert(mid.missing_from(last).contains(p));
            }
        }
        assert forall|r: BlockRef| #[trigger] intake.dag.stored.contains_key(r) implies
            after.dag.stored[r] == intake.dag.stored[r] by {
            assert(mid.dag.stored.contains_key(r));
        }
    }
}

/// Two steps one after the other accept what both accept.
proof fn lemma_accepts_twice(
    before: Intake,
    mid: Intake,
    after: Intake,
    front: Seq<VerifiedBlock>,
    one: Seq<VerifiedBlock>,
    blocks: Seq<VerifiedBlock>,
    first: Seq<VerifiedBlock>,
    second: Seq<VerifiedBlock>,
)
    requires
        accepts_exactly(before, mid, front, first),
        accepts_exactly(mid, after, one, second),
        waits_for_cause(before, mid, front),
        forall|b: VerifiedBlock| #[trigger] one.contains(b) ==> blocks.contains(b),
        forall|b: VerifiedBlock| #[trigger] front.contains(b) ==> blocks.contains(b),
        forall|x: BlockRef| #[trigger]
            mid.dag.stored.contains_key(x) ==> after.dag.stored[x] == mid.dag.stored[x],
    ensures
        accepts_exactly(before, after, blocks, first + second),
        enter_in_causal_order(before, first) && enter_in_causal_order(mid, second)
            ==> enter_in_causal_order(before, first + second),
        forall|r: BlockRef| #[trigger]
            mid.dag.stored.contains_key(r) ==> after.dag.stored.contains_key(r),
        forall|r: BlockRef| #[trigger]
            before.dag.stored.contains_key(r) ==> mid.dag.stored.contains_key(r),
{
    let accepted = first + second;
    assert forall|r: BlockRef| #[trigger] after.dag.stored.contains_key(r)
        <==> before.dag.stored.contains_key(r) || has_ref(accepted, r) by {
        lemma_has_ref_concat(first, second, r);
        assert(mid.dag.stored.contains_key(r) <==> before.dag.stored.contains_key(r) || has_ref(
            first,
            r,
        ));
    }
    assert forall|k: int| 0 <= k < accepted.len() implies {
        let r = (#[trigger] accepted[k]).spec_ref();
        &&& !before.dag.stored.contains_key(r)
        &&& after.dag.stored[r] == accepted[k]
        &&& blocks.contains(accepted[k]) || (before.pool.waiting.contains_key(r)
            && before.pool.waiting[r] == accepted[k])
    } by {
        let r = accepted[k].spec_ref();
        if k < first.len() {
            assert(accepted[k] == first[k]);
            assert(has_ref(first, r));
            assert(mid.dag.stored.contains_key(r));
        } else {
            let j = k - first.len();
            assert(accepted[k] == second[j]);
            assert(!mid.dag.stored.contains_key(r));
            if !one.contains(second[j]) {
                assert(mid.pool.waiting.contains_key(r));
            }
        }
    }
    assert forall|i: int, j: int| 0 <= i < j < accepted.len() implies (
    #[trigger] accepted[i]).spec_ref() != (#[trigger] accepted[j]).spec_ref() by {
        if j < first.len() {
            assert(accepted[i] == first[i] && accepted[j] == first[j]);
        } else {
            assert(accepted[j] == second[j - first.len()]);
            if i < first.len() {
                assert(accepted[i] == first[i]);
                assert(has_ref(first, first[i].spec_ref()));
                assert(mid.dag.stored.contains_key(first[i].spec_ref()));
            } else {
                assert(accepted[i] == second[i - first.len()]);
            }
        }
    }
    assert forall|k: int, p: BlockRef|
        enter_in_causal_order(before, first) && enter_in_causal_order(mid, second) && 0 <= k
            < accepted.len() && #[trigger] lists(
            accepted[k],
            p,
        ) implies before.dag.stored.contains_key(p) || has_ref(accepted.take(k), p) by {
        if k < first.len() {
            assert(accepted[k] == first[k]);
            assert(lists(first[k], p));
            assert(accepted.take(k) =~= first.take(k));
        } else {
            let j = k - first.len();
            assert(accepted[k] == second[j]);
            assert(lists(second[j], p));
            assert(accepted.take(k) =~= first + second.take(j));
            lemma_has_ref_concat(first, second.take(j), p);
            assert(mid.dag.stored.contains_key(p) || has_ref(second.take(j), p));
            if mid.dag.stored.contains_key(p) {
                assert(before.dag.stored.contains_key(p) || has_ref(first, p));
            }
        }
    }
    assert forall|r: BlockRef| #[trigger] mid.dag.stored.contains_key(r) implies
        after.dag.stored.contains_key(r) by {}
    assert forall|r: BlockRef| #[trigger] before.dag.stored.contains_key(r) implies
        mid.dag.stored.contains_key(r) by {}
}

/// After two steps only what waited before or was offered in one of them waits.
proof fn lemma_waits_twice(
    before: Intake,
    mid: Intake,
    after: Intake,
    front: Seq<VerifiedBlock>,
    one: Seq<VerifiedBlock>,
    blocks: Seq<VerifiedBlock>,
)
    requires
        waits_for_cause(before, mid, front),
        waits_for_cause(mid, after, one),
        forall|b: VerifiedBlock| #[trigger] one.contains(b) ==> blocks.contains(b),
        forall|b: VerifiedBlock| #[trigger] front.contains(b) ==> blocks.contains(b),
        forall|r: BlockRef| #[trigger]
            mid.dag.stored.contains_key(r) ==> after.dag.stored.contains_key(r),
    ensures
        waits_for_cause(before, after, blocks),
{
    assert forall|r: BlockRef| #[trigger] after.pool.waiting.contains_key(r) implies ({
        let b = after.pool.waiting[r];
        blocks.contains(b) || (before.pool.waiting.contains_key(r) && before.pool.waiting[r] == b)
    }) by {
        let b = after.pool.waiting[r];
        if !one.contains(b) {
            assert(mid.pool.waiting.contains_key(r) && mid.pool.waiting[r] == b);
        }
    }
    assert forall|r: BlockRef| #[trigger] before.pool.waiting.contains_key(r) implies
        after.pool.waiting.contains_key(r) || after.dag.stored.contains_key(r) by {
        if !mid.dag.stored.contains_key(r) {
            assert(mid.pool.waiting.contains_key(r));
        }
    }
}

/// Two steps report what both report.
proof fn lemma_misses_twice(
    before: Intake,
    mid: Intake,
    after: Intake,
    front: Seq<VerifiedBlock>,
    one: Seq<VerifiedBlock>,
    blocks: Seq<VerifiedBlock>,
    told: Set<BlockRef>,
    more: Set<BlockRef>,
)
    requires
        misses_exactly(before, mid, told),
        misses_exactly(mid, after, more),
        reports_only_unknown(before, front, told),
        reports_only_unknown(mid, one, more),
        waits_for_cause(before, mid, front),
        waits_for_cause(mid, after, one),
        forall|b: VerifiedBlock| #[trigger] one.contains(b) ==> blocks.contains(b),
        forall|b: VerifiedBlock| #[trigger] front.contains(b) ==> blocks.contains(b),
        forall|r: BlockRef| #[trigger]
            mid.dag.stored.contains_key(r) ==> after.dag.stored.contains_key(r),
        forall|r: BlockRef| #[trigger]
            before.dag.stored.contains_key(r) ==> mid.dag.stored.contains_key(r),
    ensures
        misses_exactly(before, after, told.union(more)),
        reports_only_unknown(before, blocks, told.union(more)),
{
    let reported = told.union(more);
    assert forall|x: BlockRef| #[trigger] reported.contains(x) implies
        !before.dag.stored.contains_key(x) && !before.pool.waiting.contains_key(x)
        && listed_by_one(blocks, x) by {
        let list = if told.contains(x) {
            front
        } else {
            one
        };
        assert(told.contains(x) || more.contains(x));
        assert(listed_by_one(list, x));
        let i = choose|i: int| 0 <= i < list.len() && lists(#[trigger] list[i], x);
        assert(list.contains(list[i]));
        assert(one.contains(list[i]) || front.contains(list[i]));
        assert(lists(blocks[blocks.index_of(list[i])], x));
        if before.pool.waiting.contains_key(x) && !mid.dag.stored.contains_key(x) {
            assert(mid.pool.waiting.contains_key(x));
        }
    }
    assert forall|x: BlockRef| #[trigger] after.pool.missing.contains(x) <==> (
    before.pool.missing.contains(x) || reported.contains(x)) && !after.dag.stored.contains_key(x)
        && !after.pool.waiting.contains_key(x) by {
        assert(mid.pool.missing.contains(x) <==> (before.pool.missing.contains(x)
            || told.contains(x)) && !mid.dag.stored.contains_key(x)
            && !mid.pool.waiting.contains_key(x));
        if mid.pool.waiting.contains_key(x) {
            assert(after.pool.waiting.contains_key(x) || after.dag.stored.contains_key(x));
        }
    }
}

/// Picking the blocks of a round by rank picks them by round.
proof fn lemma_of_round(blocks: Seq<VerifiedBlock>, round: Round)
    ensures
        of_rank(blocks, round_rank(), round as nat) == blocks.filter(
            |b: VerifiedBlock| b.block().round == round,
        ),
    decreases blocks.len(),
{
    reveal(Seq::filter);
    if blocks.len() > 0 {
        lemma_of_round(blocks.drop_last(), round);
    }
}

/// Blocks are taken in by ascending round, those of one round in the order given, each as often
/// as it was given.
pub proof fn law_taken_in_by_round(blocks: Seq<VerifiedBlock>, round: Round)
    ensures
        by_round(blocks).to_multiset() == blocks.to_multiset(),
        forall|i: int, j: int|
            0 <= i < j < by_round(blocks).len() ==> (#[trigger] by_round(blocks)[i]).block().round
                <= (#[trigger] by_round(blocks)[j]).block().round,
        by_round(blocks).filter(|b: VerifiedBlock| b.block().round == round) == blocks.filter(
            |b: VerifiedBlock| b.block().round == round,
        ),
{
    lemma_sorted_by_rank(blocks, round_rank());
    lemma_of_round(blocks, round);
    lemma_of_round(by_round(blocks), round);
    assert(of_rank(by_round(blocks), round_rank(), round as nat) == of_rank(
        blocks,
        round_rank(),
        round as nat,
    ));
    assert forall|i: int, j: int| 0 <= i < j < by_round(blocks).len() implies (
    #[trigger] by_round(blocks)[i]).block().round <= (
    #[trigger] by_round(blocks)[j]).block().round by {
        assert(round_rank()(by_round(blocks)[i]) <= round_rank()(by_round(blocks)[j]));
    }
}

/// Blocks known to be committed are all taken in, whatever their ancestors, and with them whatever
/// waited for them alone. What is accepted is exactly what is stored and was not before; what goes
/// on waiting lacks an ancestor still; and nothing that has turned up counts as missing.
pub proof fn law_committed_blocks_are_taken_in(
    intake: Intake,
    blocks: Seq<VerifiedBlock>,
    committee: Committee,
)
    requires
        intake.settled(committee),
        intake.dag.valid(committee),
        forall|i: int| 0 <= i < blocks.len() ==> fit(intake.dag, committee, #[trigger] blocks[i]),
    ensures
        ({
            let after = intake.take_all(blocks, committee);
            &&& forall|i: int|
                0 <= i < blocks.len() ==> after.dag.stored.contains_key(
                    (#[trigger] blocks[i]).spec_ref(),
                )
            &&& accepts_exactly(intake, after, blocks, intake.taken_from_all(blocks, committee))
            &&& waits_for_cause(intake, after, blocks)
            &&& misses_exactly(intake, after, Set::empty())
            &&& forall|r: BlockRef| #[trigger]
                intake.dag.stored.contains_key(r) ==> after.dag.stored[r] == intake.dag.stored[r]
            &&& after.settled(committee)
            &&& after.dag.valid(committee)
        }),
    decreases blocks.len(),
{
    let after = intake.take_all(blocks, committee);
    let accepted = intake.taken_from_all(blocks, committee);
    if blocks.len() == 0 {
        lemma_nothing_happens(intake, blocks, committee);
    } else {
        let front = blocks.drop_last();
        let last = blocks.last();
        let end = blocks.len() - 1;
        assert(blocks[end] == last);
        assert forall|i: int| 0 <= i < front.len() implies fit(
            intake.dag,
            committee,
            #[trigger] front[i],
        ) by {
            assert(front[i] == blocks[i]);
        }
        law_committed_blocks_are_taken_in(intake, front, committee);
        let mid = intake.take_all(front, committee);
        let first = intake.taken_from_all(front, committee);
        let second = mid.taken_from(last);
        let one = seq![last];
        assert(one[0] == last);
        assert(fit(mid.dag, committee, last)) by {
            assert(fit(intake.dag, committee, blocks[end]));
        }
        if mid.dag.stored.contains_key(last.spec_ref()) {
            lemma_nothing_happens(mid, one, committee);
        } else {
            lemma_one_let_in(mid, last, committee);
        }
        assert forall|b: VerifiedBlock| #[trigger] one.contains(b) implies blocks.contains(b) by {
            assert(b == last);
            assert(blocks[end] == b);
        }
        assert forall|b: VerifiedBlock| #[trigger] front.contains(b) implies blocks.contains(b) by {
            assert(blocks[front.index_of(b)] == b);
        }
        let none = Set::<BlockRef>::empty();
        lemma_accepts_twice(intake, mid, after, front, one, blocks, first, second);
        lemma_waits_twice(intake, mid, after, front, one, blocks);
        lemma_misses_twice(intake, mid, after, front, one, blocks, none, none);
        assert(none.union(none) =~= none);
        assert forall|i: int| 0 <= i < blocks.len() implies after.dag.stored.contains_key(
            (#[trigger] blocks[i]).spec_ref(),
        ) by {
            if i < end {
                assert(front[i] == blocks[i]);
                assert(mid.dag.stored.contains_key(front[i].spec_ref()));
            }
        }
        assert forall|r: BlockRef| #[trigger] intake.dag.stored.contains_key(r) implies
            after.dag.stored[r] == intake.dag.stored[r] by {
            assert(mid.dag.stored.contains_key(r));
        }
    }
}

/// Where nothing changes nothing is accepted.
proof fn lemma_nothing_happens(intake: Intake, offered: Seq<VerifiedBlock>, committee: Committee)
    requires
        intake.settled(committee),
    ensures
        accepts_exactly(intake, intake, offered, Seq::empty()),
        waits_for_cause(intake, intake, offered),
        misses_exactly(intake, intake, Set::empty()),
{
    let none = Seq::<VerifiedBlock>::empty();
    assert forall|r: BlockRef| !has_ref(none, r) by {}
    assert forall|x: BlockRef| #[trigger] intake.pool.waiting.contains_key(x) implies lacks_some(
        intake.pool.waiting[x],
        intake,
    ) by {
        lemma_unsupplied(intake.pool.waiting[x], intake);
    }
    lemma_lacking(intake, committee);
}

/// Offering is done block by block: what earlier blocks bring in comes first, what is reported adds
/// up, and later blocks are offered to what the earlier ones left.
pub proof fn law_offered_one_after_the_other(
    intake: Intake,
    first: Seq<VerifiedBlock>,
    second: Seq<VerifiedBlock>,
    block: VerifiedBlock,
    committee: Committee,
)
    ensures
        intake.offer_all(Seq::empty(), committee) == intake,
        intake.accepted_from_all(Seq::empty(), committee) == Seq::<VerifiedBlock>::empty(),
        intake.offer_all(seq![block], committee) == intake.offer(block, committee),
        intake.accepted_from_all(seq![block], committee) == intake.accepted_from(block),
        intake.missing_from_all(seq![block], committee) == intake.missing_from(block),
        intake.take_all(seq![block], committee) == intake.take(block, committee),
        intake.taken_from_all(seq![block], committee) == intake.taken_from(block),
        ({
            let mid = intake.offer_all(first, committee);
            &&& intake.offer_all(first + second, committee) == mid.offer_all(second, committee)
            &&& intake.accepted_from_all(first + second, committee) == intake.accepted_from_all(
                first,
                committee,
            ) + mid.accepted_from_all(second, committee)
            &&& intake.missing_from_all(first + second, committee) == intake.missing_from_all(
                first,
                committee,
            ).union(mid.missing_from_all(second, committee))
        }),
        ({
            let mid = intake.take_all(first, committee);
            &&& intake.take_all(first + second, committee) == mid.take_all(second, committee)
            &&& intake.taken_from_all(first + second, committee) == intake.taken_from_all(
                first,
                committee,
            ) + mid.taken_from_all(second, committee)
        }),
    decreases second.len(),
{
    let one = seq![block];
    let none = Seq::<VerifiedBlock>::empty();
    assert(one.drop_last() =~= none);
    assert(one.last() == block);
    assert(intake.offer_all(none, committee) == intake);
    assert(intake.take_all(none, committee) == intake);
    assert(intake.accepted_from_all(none, committee) == none);
    assert(intake.taken_from_all(none, committee) == none);
    assert(intake.missing_from_all(none, committee) == Set::<BlockRef>::empty());
    assert(intake.accepted_from_all(one, committee) =~= intake.accepted_from(block));
    assert(intake.missing_from_all(one, committee) =~= intake.missing_from(block));
    assert(intake.taken_from_all(one, committee) =~= intake.taken_from(block));
    let mid = intake.offer_all(first, committee);
    let taken = intake.take_all(first, committee);
    if second.len() == 0 {
        assert(first + second =~= first);
        assert(intake.missing_from_all(first, committee).union(Set::empty())
            =~= intake.missing_from_all(first, committee));
    } else {
        let front = second.drop_last();
        law_offered_one_after_the_other(intake, first, front, block, committee);
        assert((first + second).drop_last() =~= first + front);
        assert((first + second).last() == second.last());
        assert(intake.accepted_from_all(first + second, committee)
            =~= intake.accepted_from_all(first, committee) + mid.accepted_from_all(
            second,
            committee,
        ));
        assert(intake.missing_from_all(first + second, committee)
            =~= intake.missing_from_all(first, committee).union(
            mid.missing_from_all(second, committee),
        ));
        assert(intake.taken_from_all(first + second, committee) =~= intake.taken_from_all(
            first,
            committee,
        ) + taken.taken_from_all(second, committee));
    }
}

/// A block that is accepted enters first, before whatever waited for it, which follows in the order
/// of references.
pub proof fn law_block_enters_before_what_waited(
    intake: Intake,
    block: VerifiedBlock,
    committee: Committee,
)
    requires
        intake.settled(committee),
        whole(intake),
        intake.accepted_from(block).len() > 0,
    ensures
        intake.accepted_from(block)[0] == block,
        forall|i: int, j: int|
            0 < i < j < intake.accepted_from(block).len() ==> (#[trigger] intake.accepted_from(
                block,
            )[i]).spec_ref().precedes((#[trigger] intake.accepted_from(block)[j]).spec_ref()),
        !intake.dag.stored.contains_key(block.spec_ref()),
        forall|p: BlockRef| #[trigger] lists(block, p) ==> intake.dag.stored.contains_key(p),
{
    let r = block.spec_ref();
    let less = intake.pool.waiting.remove(r);
    let now = intake.known().insert(r);
    assert(less.dom() =~= intake.pool.waiting.dom().remove(r));
    law_released_in_order(less, now);
    let rest = released(less, now);
    let out = intake.accepted_from(block);
    assert(out == seq![block] + rest);
    assert forall|i: int, j: int| 0 < i < j < out.len() implies (
    #[trigger] out[i]).spec_ref().precedes((#[trigger] out[j]).spec_ref()) by {
        assert(out[i] == rest[i - 1] && out[j] == rest[j - 1]);
        assert(refs_of(rest)[i - 1].precedes(refs_of(rest)[j - 1]));
    }
    assert forall|p: BlockRef| #[trigger] lists(block, p) implies intake.dag.stored.contains_key(
        p,
    ) by {
        assert(block.parents().contains(p));
        assert(intake.known().contains(p));
    }
}

} // verus!
