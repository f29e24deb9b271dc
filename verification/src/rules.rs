//! What the commit rules demand, said in terms of who has voted for what.

use vstd::prelude::*;

use crate::base_committer::{
    anchor_from, backed, backed_leaders, blamed, blamers_among, certified_by, certified_leaders,
    certifies, directly, first_at_slot, from_anchor, indirectly, lemma_elected,
    lemma_filter_distinct, names, sole, supported, supported_via, supporters_among, voters_among,
    votes, BaseCommitterOptions, ConflictingLeaders,
};
use crate::causal::{
    distinct, has_ref, keyed, layered, leads_to, lemma_leads_down, points_back, Store,
};
use crate::commit::{refs_of, LeaderStatus};
use crate::committee::{stake_of, stake_total, AuthorityIndex, Committee};
use crate::dag_state::DagModel;
use crate::types::{lemma_precedes_irreflexive, BlockRef, Round, Slot, VerifiedBlock};

verus! {

/// Whether `who` hold all stake but what may be faulty, which is less than a third.
pub open spec fn all_but_a_third(committee: Committee, who: Set<AuthorityIndex>) -> bool {
    let total = stake_total(committee.members());
    stake_of(committee.members(), who) >= total - (total - 1) / 3
}

/// Whether the block under `r` is stored and supports the block `leader`.
pub open spec fn supports(stored: Store, r: BlockRef, leader: BlockRef) -> bool {
    &&& stored.contains_key(r)
    &&& supported(stored, Slot { round: leader.round, authority: leader.author }, stored[r])
        == Some(leader)
}

/// Whether `a` is the author of an ancestor that `b` lists and that supports `leader`.
pub open spec fn vouches(
    stored: Store,
    b: VerifiedBlock,
    leader: BlockRef,
    a: AuthorityIndex,
) -> bool {
    exists|p: BlockRef| #[trigger]
        b.parents().contains(p) && p.author == a && supports(stored, p, leader)
}

/// Whether the ancestors that `b` lists and that support `leader` are by all but a third.
pub open spec fn is_proof_of(
    committee: Committee,
    stored: Store,
    b: VerifiedBlock,
    leader: BlockRef,
) -> bool {
    all_but_a_third(committee, Set::new(|a: AuthorityIndex| vouches(stored, b, leader, a)))
}

/// A block certifies a leader exactly if the ancestors it lists that support the leader are by
/// authorities with the stake of a quorum, each authority counted once.
pub proof fn law_certificate_is_a_quorum_of_votes(
    committee: Committee,
    stored: Store,
    b: VerifiedBlock,
    leader: VerifiedBlock,
)
    requires
        stake_total(committee.members()) > 0,
    ensures
        certifies(committee, stored, b, leader) <==> is_proof_of(
            committee,
            stored,
            b,
            leader.spec_ref(),
        ),
{
    let n = b.parents().len() as int;
    let left = voters_among(stored, b, leader, n);
    let right = Set::new(|a: AuthorityIndex| vouches(stored, b, leader.spec_ref(), a));
    assert forall|a: AuthorityIndex| left.contains(a) <==> right.contains(a) by {
        if left.contains(a) {
            let i = choose|i: int|
                0 <= i < n && i < b.parents().len() && (#[trigger] b.parents()[i]).author == a
                    && votes(stored, b.parents()[i], leader);
            assert(b.parents().contains(b.parents()[i]));
        }
        if right.contains(a) {
            let p = choose|p: BlockRef| #[trigger]
                b.parents().contains(p) && p.author == a && supports(
                    stored,
                    p,
                    leader.spec_ref(),
                );
            let i = b.parents().index_of(p);
            assert(b.parents()[i].author == a);
            assert(votes(stored, b.parents()[i], leader));
        }
    }
    assert(left =~= right);
}

/// Whether the block under `r` is stored, not committed, and of `round`.
pub open spec fn open_at(dag: DagModel, r: BlockRef, round: int) -> bool {
    dag.stored.contains_key(r) && !dag.committed.contains(r) && r.round == round
}

/// Whether `b` lists no ancestor by `author`.
pub open spec fn ignores(b: VerifiedBlock, author: AuthorityIndex) -> bool {
    forall|p: BlockRef| #[trigger] b.parents().contains(p) ==> p.author != author
}

/// Whether `a` has an uncommitted block at `round` that lists nothing by `author`.
pub open spec fn blames(dag: DagModel, round: int, author: AuthorityIndex, a: AuthorityIndex) -> bool {
    exists|r: BlockRef| #[trigger]
        open_at(dag, r, round) && r.author == a && ignores(dag.stored[r], author)
}

/// Whether all but a third have an uncommitted block in the round after `slot` that lists nothing
/// by its authority.
pub open spec fn blame_prevails(committee: Committee, dag: DagModel, slot: Slot) -> bool {
    all_but_a_third(
        committee,
        Set::new(|a: AuthorityIndex| blames(dag, slot.round + 1, slot.authority, a)),
    )
}

/// Whether `a` has an uncommitted certificate for `leader` at `round`.
pub open spec fn proves(
    committee: Committee,
    dag: DagModel,
    round: int,
    leader: BlockRef,
    a: AuthorityIndex,
) -> bool {
    exists|r: BlockRef| #[trigger]
        open_at(dag, r, round) && r.author == a && is_proof_of(
            committee,
            dag.stored,
            dag.stored[r],
            leader,
        )
}

/// Whether all but a third have an uncommitted certificate for `leader` at `round`.
pub open spec fn proof_prevails(
    committee: Committee,
    dag: DagModel,
    round: int,
    leader: BlockRef,
) -> bool {
    all_but_a_third(
        committee,
        Set::new(|a: AuthorityIndex| proves(committee, dag, round, leader, a)),
    )
}

/// Whether `b` is stored, not committed, and fills `slot`.
pub open spec fn fills(dag: DagModel, slot: Slot, b: VerifiedBlock) -> bool {
    let r = b.spec_ref();
    &&& dag.stored.contains_key(r)
    &&& dag.stored[r] == b
    &&& !dag.committed.contains(r)
    &&& r.round == slot.round
    &&& r.author == slot.authority
}

/// What one of the rules makes of `slot` if the blocks of the slot that qualify are those with
/// `qualifies`: commit the only one, report a conflict where there are several, and else what
/// `otherwise` says.
pub open spec fn decides_by(
    outcome: Result<LeaderStatus, ConflictingLeaders>,
    dag: DagModel,
    slot: Slot,
    qualifies: spec_fn(VerifiedBlock) -> bool,
    otherwise: LeaderStatus,
) -> bool {
    &&& forall|b: VerifiedBlock|
        (outcome == Ok::<LeaderStatus, ConflictingLeaders>(LeaderStatus::Commit(b)))
            <==> #[trigger] fills(dag, slot, b) && qualifies(b) && only_one(
            dag,
            slot,
            qualifies,
            b,
        )
    &&& outcome == Ok::<LeaderStatus, ConflictingLeaders>(otherwise) <==> forall|b: VerifiedBlock|
        #[trigger] fills(dag, slot, b) ==> !qualifies(b)
    &&& outcome is Err <==> exists|b: VerifiedBlock| #[trigger]
        fills(dag, slot, b) && qualifies(b) && !only_one(dag, slot, qualifies, b)
    &&& outcome matches Err(e) ==> e.slot == slot
}

/// Whether every block of `slot` that qualifies is `b`.
pub open spec fn only_one(
    dag: DagModel,
    slot: Slot,
    qualifies: spec_fn(VerifiedBlock) -> bool,
    b: VerifiedBlock,
) -> bool {
    forall|o: VerifiedBlock| #[trigger] fills(dag, slot, o) && qualifies(o) ==> o == b
}

proof fn lemma_open_at_round(dag: DagModel, round: Round, committee: Committee, r: BlockRef)
    requires
        dag.valid(committee),
    ensures
        open_at(dag, r, round as int) <==> has_ref(dag.open_at_round(round), r),
        forall|i: int|
            0 <= i < dag.open_at_round(round).len() ==> {
                let b = #[trigger] dag.open_at_round(round)[i];
                &&& open_at(dag, b.spec_ref(), round as int)
                &&& dag.stored[b.spec_ref()] == b
            },
{
    let refs = dag.open_refs_at_round(round);
    assert(refs.subset_of(dag.stored.dom()));
    dag.lemma_fetched(refs);
    let out = dag.open_at_round(round);
    if has_ref(out, r) {
        let i = choose|i: int| 0 <= i < out.len() && (#[trigger] out[i]).spec_ref() == r;
        assert(refs.contains(r));
    }
    if open_at(dag, r, round as int) {
        assert(refs.contains(r));
    }
}

proof fn lemma_open_at_slot(dag: DagModel, slot: Slot, committee: Committee)
    requires
        dag.valid(committee),
    ensures
        distinct(dag.open_at_slot(slot)),
        forall|b: VerifiedBlock| #[trigger]
            fills(dag, slot, b) <==> dag.open_at_slot(slot).contains(b),
{
    let refs = dag.open_refs_at_slot(slot);
    assert(refs.subset_of(dag.stored.dom()));
    dag.lemma_fetched(refs);
    let out = dag.open_at_slot(slot);
    assert forall|b: VerifiedBlock| #[trigger] fills(dag, slot, b) <==> out.contains(b) by {
        let r = b.spec_ref();
        if out.contains(b) {
            let i = out.index_of(b);
            assert(refs.contains(out[i].spec_ref()));
        }
        if fills(dag, slot, b) {
            assert(refs.contains(r));
            assert(has_ref(out, r));
            let i = choose|i: int| 0 <= i < out.len() && (#[trigger] out[i]).spec_ref() == r;
            assert(out[i] == b);
        }
    }
    assert forall|i: int, j: int| 0 <= i < j < out.len() implies (#[trigger] out[i]).spec_ref()
        != (#[trigger] out[j]).spec_ref() by {
        lemma_precedes_irreflexive(out[i].spec_ref());
        assert(refs_of(out)[i].precedes(refs_of(out)[j]));
    }
}

/// Filtering keeps every member of the sequence that passes.
pub proof fn lemma_filter_has(
    blocks: Seq<VerifiedBlock>,
    keep: spec_fn(VerifiedBlock) -> bool,
    b: VerifiedBlock,
)
    requires
        blocks.contains(b),
        keep(b),
    ensures
        blocks.filter(keep).contains(b),
    decreases blocks.len(),
{
    reveal(Seq::filter);
    let front = blocks.drop_last();
    let kept = front.filter(keep);
    let out = blocks.filter(keep);
    if blocks.last() == b {
        assert(out == kept.push(b));
        assert(out[kept.len() as int] == b);
    } else {
        let i = blocks.index_of(b);
        assert(front[i] == b);
        lemma_filter_has(front, keep, b);
        let k = kept.index_of(b);
        assert(out[k] == b);
    }
}

/// What `sole` makes of the blocks of a slot that pass.
proof fn lemma_sole(
    dag: DagModel,
    slot: Slot,
    committee: Committee,
    keep: spec_fn(VerifiedBlock) -> bool,
    otherwise: LeaderStatus,
)
    requires
        dag.valid(committee),
        !(otherwise is Commit),
    ensures
        decides_by(
            sole(dag.open_at_slot(slot).filter(keep), slot, otherwise),
            dag,
            slot,
            keep,
            otherwise,
        ),
{
    let leaders = dag.open_at_slot(slot);
    let out = leaders.filter(keep);
    lemma_open_at_slot(dag, slot, committee);
    lemma_filter_distinct(leaders, keep);
    assert forall|b: VerifiedBlock| #[trigger] fills(dag, slot, b) && keep(b) implies out.contains(
        b,
    ) by {
        lemma_filter_has(leaders, keep, b);
    }
    assert forall|i: int| 0 <= i < out.len() implies fills(dag, slot, #[trigger] out[i]) && keep(
        out[i],
    ) by {}
    if out.len() > 1 {
        assert(out[0].spec_ref() != out[1].spec_ref());
        assert(fills(dag, slot, out[0]) && fills(dag, slot, out[1]));
        assert(!only_one(dag, slot, keep, out[0]));
        assert forall|b: VerifiedBlock| #[trigger] fills(dag, slot, b) && keep(b) implies !only_one(
            dag,
            slot,
            keep,
            b,
        ) by {
            if only_one(dag, slot, keep, b) {
                assert(out[0] == b && out[1] == b);
            }
        }
    } else if out.len() == 1 {
        let b = out[0];
        assert(fills(dag, slot, b) && keep(b));
        assert forall|o: VerifiedBlock| #[trigger] fills(dag, slot, o) && keep(o) implies o == b by {
            let i = out.index_of(o);
            assert(i == 0);
        }
        assert(only_one(dag, slot, keep, b));
    } else {
        assert forall|b: VerifiedBlock| #[trigger] fills(dag, slot, b) implies !keep(b) by {
            if keep(b) {
                assert(out.contains(b));
            }
        }
    }
}

proof fn lemma_blamed(committee: Committee, dag: DagModel, slot: Slot)
    requires
        dag.valid(committee),
        stake_total(committee.members()) > 0,
        slot.round < u32::MAX,
    ensures
        blamed(committee, dag, (slot.round + 1) as Round, slot.authority) <==> blame_prevails(
            committee,
            dag,
            slot,
        ),
{
    let round = (slot.round + 1) as Round;
    let blocks = dag.open_at_round(round);
    let left = blamers_among(blocks, slot.authority, blocks.len() as int);
    let right = Set::new(|a: AuthorityIndex| blames(dag, slot.round + 1, slot.authority, a));
    assert forall|b: VerifiedBlock| #[trigger] ignores(b, slot.authority) <==> !names(
        b,
        slot.authority,
    ) by {
        if names(b, slot.authority) {
            let i = choose|i: int|
                0 <= i < b.parents().len() && (#[trigger] b.parents()[i]).author == slot.authority;
            assert(b.parents().contains(b.parents()[i]));
        }
        if !ignores(b, slot.authority) {
            let p = choose|p: BlockRef| #[trigger]
                b.parents().contains(p) && p.author == slot.authority;
            let i = b.parents().index_of(p);
            assert(b.parents()[i].author == slot.authority);
        }
    }
    assert forall|a: AuthorityIndex| left.contains(a) <==> right.contains(a) by {
        if left.contains(a) {
            let i = choose|i: int|
                0 <= i < blocks.len() && (#[trigger] blocks[i]).block().author == a && !names(
                    blocks[i],
                    slot.authority,
                );
            lemma_open_at_round(dag, round, committee, blocks[i].spec_ref());
            assert(ignores(blocks[i], slot.authority));
            assert(open_at(dag, blocks[i].spec_ref(), slot.round + 1));
        }
        if right.contains(a) {
            let r = choose|r: BlockRef| #[trigger]
                open_at(dag, r, slot.round + 1) && r.author == a && ignores(
                    dag.stored[r],
                    slot.authority,
                );
            lemma_open_at_round(dag, round, committee, r);
            assert(has_ref(blocks, r));
            let i = choose|i: int| 0 <= i < blocks.len() && (#[trigger] blocks[i]).spec_ref() == r;
            assert(blocks[i].block().author == a);
            assert(dag.stored[r] == blocks[i]);
            assert(!names(blocks[i], slot.authority));
        }
    }
    assert(left =~= right);
}

proof fn lemma_backed(committee: Committee, dag: DagModel, round: Round, leader: VerifiedBlock)
    requires
        dag.valid(committee),
        stake_total(committee.members()) > 0,
    ensures
        backed(committee, dag, round, leader) <==> proof_prevails(
            committee,
            dag,
            round as int,
            leader.spec_ref(),
        ),
{
    let blocks = dag.open_at_round(round);
    let x = leader.spec_ref();
    let left = supporters_among(committee, dag.stored, blocks, leader, blocks.len() as int);
    let right = Set::new(|a: AuthorityIndex| proves(committee, dag, round as int, x, a));
    assert forall|a: AuthorityIndex| left.contains(a) <==> right.contains(a) by {
        if left.contains(a) {
            let i = choose|i: int|
                0 <= i < blocks.len() && (#[trigger] blocks[i]).block().author == a && certifies(
                    committee,
                    dag.stored,
                    blocks[i],
                    leader,
                );
            lemma_open_at_round(dag, round, committee, blocks[i].spec_ref());
            law_certificate_is_a_quorum_of_votes(committee, dag.stored, blocks[i], leader);
            assert(open_at(dag, blocks[i].spec_ref(), round as int));
        }
        if right.contains(a) {
            let r = choose|r: BlockRef| #[trigger]
                open_at(dag, r, round as int) && r.author == a && is_proof_of(
                    committee,
                    dag.stored,
                    dag.stored[r],
                    x,
                );
            lemma_open_at_round(dag, round, committee, r);
            let i = choose|i: int| 0 <= i < blocks.len() && (#[trigger] blocks[i]).spec_ref() == r;
            assert(dag.stored[r] == blocks[i]);
            law_certificate_is_a_quorum_of_votes(committee, dag.stored, blocks[i], leader);
            assert(blocks[i].block().author == a);
        }
    }
    assert(left =~= right);
}

/// The last round of the wave that `round` falls into; rounds before the first wave count to it.
pub open spec fn wave_end(options: BaseCommitterOptions, round: Round) -> int {
    let since: int = if round >= options.round_offset {
        round - options.round_offset
    } else {
        0
    };
    options.round_offset + since / (options.wave_length as int) * options.wave_length
        + options.wave_length - 1
}

/// The direct rule. A leader slot is skipped exactly if authorities with the stake of a quorum
/// have an uncommitted block in the next round that lists nothing by the slot's authority.
/// Otherwise a block of the slot qualifies exactly if authorities with the stake of a quorum have
/// an uncommitted certificate for it in the last round of the wave; the only one that qualifies is
/// committed, and where none does the slot stays undecided.
pub proof fn law_direct_rule(
    committee: Committee,
    options: BaseCommitterOptions,
    dag: DagModel,
    slot: Slot,
)
    requires
        stake_total(committee.members()) > 0,
        dag.valid(committee),
        options.wave_length > 0,
        slot.round < u32::MAX,
        wave_end(options, slot.round) <= u32::MAX,
    ensures
        blame_prevails(committee, dag, slot) ==> directly(committee, options, dag, slot) == Ok::<
            LeaderStatus,
            ConflictingLeaders,
        >(LeaderStatus::Skip(slot)),
        !blame_prevails(committee, dag, slot) ==> decides_by(
            directly(committee, options, dag, slot),
            dag,
            slot,
            |b: VerifiedBlock|
                proof_prevails(committee, dag, wave_end(options, slot.round), b.spec_ref()),
            LeaderStatus::Undecided(slot),
        ),
        options.elected(slot.round, committee.members().len()) is Some ==> wave_end(
            options,
            slot.round,
        ) == slot.round + options.wave_length - 1,
{
    lemma_elected(options, slot.round, committee.members().len());
    let round = options.decision_round_of(options.wave_of(slot.round)) as Round;
    assert(round == wave_end(options, slot.round));
    lemma_blamed(committee, dag, slot);
    let leaders = dag.open_at_slot(slot);
    let keep = |b: VerifiedBlock|
        proof_prevails(committee, dag, wave_end(options, slot.round), b.spec_ref());
    let backs = |l: VerifiedBlock| backed(committee, dag, round, l);
    assert forall|b: VerifiedBlock| #[trigger] keep(b) == backs(b) by {
        lemma_backed(committee, dag, round, b);
    }
    assert(keep =~= backs);
    assert(backed_leaders(committee, dag, round, leaders) == leaders.filter(keep));
    lemma_sole(dag, slot, committee, keep, LeaderStatus::Undecided(slot));
}

/// Whether the history of `anchor` holds a certificate for `leader` at `round`.
pub open spec fn proven_before(
    committee: Committee,
    dag: DagModel,
    anchor: VerifiedBlock,
    round: int,
    leader: BlockRef,
) -> bool {
    exists|c: BlockRef| #[trigger]
        dag.stored.contains_key(c) && c.round == round && leads_to(dag.stored, anchor, c)
            && is_proof_of(committee, dag.stored, dag.stored[c], leader)
}

proof fn lemma_certified(
    committee: Committee,
    dag: DagModel,
    anchor: VerifiedBlock,
    round: Round,
    leader: VerifiedBlock,
)
    requires
        dag.valid(committee),
        stake_total(committee.members()) > 0,
    ensures
        certified_by(committee, dag.stored, dag.ancestors(anchor, round), leader)
            <==> proven_before(committee, dag, anchor, round as int, leader.spec_ref()),
{
    let refs = dag.ancestor_refs(anchor, round);
    assert(refs.subset_of(dag.stored.dom()));
    dag.lemma_fetched(refs);
    let certs = dag.ancestors(anchor, round);
    if certified_by(committee, dag.stored, certs, leader) {
        let i = choose|i: int|
            0 <= i < certs.len() && certifies(committee, dag.stored, #[trigger] certs[i], leader);
        law_certificate_is_a_quorum_of_votes(committee, dag.stored, certs[i], leader);
        let c = certs[i].spec_ref();
        assert(refs.contains(c));
        assert(dag.stored.contains_key(c));
    }
    if proven_before(committee, dag, anchor, round as int, leader.spec_ref()) {
        let c = choose|c: BlockRef| #[trigger]
            dag.stored.contains_key(c) && c.round == round && leads_to(dag.stored, anchor, c)
                && is_proof_of(committee, dag.stored, dag.stored[c], leader.spec_ref());
        assert(refs.contains(c));
        assert(has_ref(certs, c));
        let i = choose|i: int| 0 <= i < certs.len() && (#[trigger] certs[i]).spec_ref() == c;
        assert(dag.stored[c] == certs[i]);
        law_certificate_is_a_quorum_of_votes(committee, dag.stored, certs[i], leader);
    }
}

/// The decision by an anchor. A block of the slot qualifies exactly if the history of the anchor
/// holds a certificate for it in the last round of the wave; the only one that qualifies is
/// committed, and where none does the slot is skipped.
pub proof fn law_anchor_rule(
    committee: Committee,
    options: BaseCommitterOptions,
    dag: DagModel,
    anchor: VerifiedBlock,
    slot: Slot,
)
    requires
        stake_total(committee.members()) > 0,
        dag.valid(committee),
        options.wave_length > 0,
        wave_end(options, slot.round) <= u32::MAX,
    ensures
        decides_by(
            from_anchor(committee, options, dag, anchor, slot),
            dag,
            slot,
            |b: VerifiedBlock|
                proven_before(
                    committee,
                    dag,
                    anchor,
                    wave_end(options, slot.round),
                    b.spec_ref(),
                ),
            LeaderStatus::Skip(slot),
        ),
{
    lemma_elected(options, slot.round, committee.members().len());
    let round = options.decision_round_of(options.wave_of(slot.round)) as Round;
    assert(round == wave_end(options, slot.round));
    let leaders = dag.open_at_slot(slot);
    let certs = dag.ancestors(anchor, round);
    let keep = |b: VerifiedBlock|
        proven_before(
            committee,
            dag,
            anchor,
            wave_end(options, slot.round),
            b.spec_ref(),
        );
    let certified = |l: VerifiedBlock| certified_by(committee, dag.stored, certs, l);
    assert forall|b: VerifiedBlock| #[trigger] keep(b) == certified(b) by {
        lemma_certified(committee, dag, anchor, round, b);
    }
    assert(keep =~= certified);
    assert(certified_leaders(committee, dag.stored, certs, leaders) == leaders.filter(keep));
    lemma_sole(dag, slot, committee, keep, LeaderStatus::Skip(slot));
}

/// Whether `leaders[i]` is the first that is at least `wave` rounds after `slot` and not skipped.
pub open spec fn is_anchor(leaders: Seq<LeaderStatus>, slot: Slot, wave: Round, i: int) -> bool {
    &&& 0 <= i < leaders.len()
    &&& may_anchor(leaders[i], slot, wave)
    &&& forall|j: int| 0 <= j < i ==> !may_anchor(#[trigger] leaders[j], slot, wave)
}

/// Whether `status` is at least `wave` rounds after `slot` and not skipped.
pub open spec fn may_anchor(status: LeaderStatus, slot: Slot, wave: Round) -> bool {
    match status {
        LeaderStatus::Commit(b) => b.block().round >= slot.round + wave,
        LeaderStatus::Undecided(s) => s.round >= slot.round + wave,
        LeaderStatus::Skip(_) => false,
    }
}

proof fn lemma_anchor_from(leaders: Seq<LeaderStatus>, slot: Slot, wave: Round, i: int, at: int)
    requires
        is_anchor(leaders, slot, wave, at),
        0 <= i <= at,
    ensures
        anchor_from(leaders, slot.round + wave, i) == Some(leaders[at]),
    decreases at - i,
{
    if i < at {
        assert(!may_anchor(leaders[i], slot, wave));
        lemma_anchor_from(leaders, slot, wave, i + 1, at);
    }
}

proof fn lemma_no_anchor(leaders: Seq<LeaderStatus>, slot: Slot, wave: Round, i: int)
    requires
        0 <= i,
        forall|j: int| 0 <= j < leaders.len() ==> !may_anchor(#[trigger] leaders[j], slot, wave),
    ensures
        anchor_from(leaders, slot.round + wave, i) is None,
    decreases leaders.len() - i,
{
    if i < leaders.len() {
        assert(!may_anchor(leaders[i], slot, wave));
        lemma_no_anchor(leaders, slot, wave, i + 1);
    }
}

/// The indirect rule. The first later leader that is at least a wave away and not skipped is the
/// anchor: if it is committed it decides the slot, if it is undecided the slot stays undecided, and
/// without an anchor it stays undecided too.
pub proof fn law_indirect_rule(
    committee: Committee,
    options: BaseCommitterOptions,
    dag: DagModel,
    slot: Slot,
    leaders: Seq<LeaderStatus>,
)
    ensures
        forall|i: int| #[trigger]
            is_anchor(leaders, slot, options.wave_length, i) ==> indirectly(
                committee,
                options,
                dag,
                slot,
                leaders,
            ) == match leaders[i] {
                LeaderStatus::Commit(anchor) => from_anchor(
                    committee,
                    options,
                    dag,
                    anchor,
                    slot,
                ),
                _ => Ok(LeaderStatus::Undecided(slot)),
            },
        (forall|i: int| !#[trigger] is_anchor(leaders, slot, options.wave_length, i))
            ==> indirectly(committee, options, dag, slot, leaders) == Ok::<
            LeaderStatus,
            ConflictingLeaders,
        >(LeaderStatus::Undecided(slot)),
{
    let wave = options.wave_length;
    assert forall|i: int| #[trigger] is_anchor(leaders, slot, wave, i) implies indirectly(
        committee,
        options,
        dag,
        slot,
        leaders,
    ) == match leaders[i] {
        LeaderStatus::Commit(anchor) => from_anchor(committee, options, dag, anchor, slot),
        _ => Ok(LeaderStatus::Undecided(slot)),
    } by {
        lemma_anchor_from(leaders, slot, wave, 0, i);
    }
    if forall|i: int| !#[trigger] is_anchor(leaders, slot, wave, i) {
        if exists|j: int| 0 <= j < leaders.len() && may_anchor(#[trigger] leaders[j], slot, wave) {
            let j = choose|j: int|
                0 <= j < leaders.len() && may_anchor(#[trigger] leaders[j], slot, wave);
            lemma_first_anchor(leaders, slot, wave, j);
        }
        lemma_no_anchor(leaders, slot, wave, 0);
    }
}

/// Where a leader may be the anchor, some leader is.
proof fn lemma_first_anchor(leaders: Seq<LeaderStatus>, slot: Slot, wave: Round, j: int)
    requires
        0 <= j < leaders.len(),
        may_anchor(leaders[j], slot, wave),
    ensures
        exists|i: int| #[trigger] is_anchor(leaders, slot, wave, i),
    decreases j,
{
    if !is_anchor(leaders, slot, wave, j) {
        let k = choose|k: int| 0 <= k < j && may_anchor(#[trigger] leaders[k], slot, wave);
        lemma_first_anchor(leaders, slot, wave, k);
    }
}

/// Whether `parents[i]` is the first of `parents` that fills `slot`.
pub open spec fn first_filling(parents: Seq<BlockRef>, slot: Slot, i: int) -> bool {
    &&& 0 <= i < parents.len()
    &&& in_slot(parents[i], slot)
    &&& forall|j: int| 0 <= j < i ==> !in_slot(#[trigger] parents[j], slot)
}

/// Whether `r` fills `slot`.
pub open spec fn in_slot(r: BlockRef, slot: Slot) -> bool {
    r.round == slot.round && r.author == slot.authority
}

/// What the ancestor `p` of `b` supports at `slot`, if it counts: stored, of a round after `slot`
/// and before `b`.
pub open spec fn passes_on(
    stored: Store,
    slot: Slot,
    b: VerifiedBlock,
    p: BlockRef,
) -> Option<BlockRef> {
    if p.round > slot.round && stored.contains_key(p) && stored[p].block().round
        < b.block().round {
        supported(stored, slot, stored[p])
    } else {
        None
    }
}

/// Whether the `i`-th ancestor of `b` is the first that passes on support for `slot`.
pub open spec fn first_passing(stored: Store, slot: Slot, b: VerifiedBlock, i: int) -> bool {
    &&& 0 <= i < b.parents().len()
    &&& passes_on(stored, slot, b, b.parents()[i]) is Some
    &&& forall|j: int|
        0 <= j < i ==> passes_on(stored, slot, b, #[trigger] b.parents()[j]) is None
}

proof fn lemma_first_filling(parents: Seq<BlockRef>, slot: Slot, i: int)
    requires
        0 <= i,
        forall|j: int| 0 <= j < i && j < parents.len() ==> !in_slot(#[trigger] parents[j], slot),
    ensures
        forall|k: int| #[trigger]
            first_filling(parents, slot, k) ==> first_at_slot(parents, slot, i) == Some(parents[k]),
        (forall|j: int| 0 <= j < parents.len() ==> !in_slot(#[trigger] parents[j], slot))
            ==> first_at_slot(parents, slot, i) is None,
        first_at_slot(parents, slot, i) is Some ==> exists|k: int| #[trigger]
            first_filling(parents, slot, k),
    decreases parents.len() - i,
{
    if i < parents.len() {
        if in_slot(parents[i], slot) {
            assert(first_filling(parents, slot, i));
            assert forall|k: int| #[trigger] first_filling(parents, slot, k) implies k == i by {
                if k > i {
                    assert(!in_slot(parents[i], slot));
                }
            }
        } else {
            lemma_first_filling(parents, slot, i + 1);
        }
    } else {
        assert forall|k: int| #[trigger] first_filling(parents, slot, k) implies false by {
            assert(!in_slot(parents[k], slot));
        }
    }
}

proof fn lemma_first_passing(stored: Store, slot: Slot, b: VerifiedBlock, i: int)
    requires
        0 <= i,
        forall|j: int|
            0 <= j < i && j < b.parents().len() ==> passes_on(
                stored,
                slot,
                b,
                #[trigger] b.parents()[j],
            ) is None,
    ensures
        forall|k: int| #[trigger]
            first_passing(stored, slot, b, k) ==> supported_via(stored, slot, b, i) == passes_on(
                stored,
                slot,
                b,
                b.parents()[k],
            ),
        (forall|j: int|
            0 <= j < b.parents().len() ==> passes_on(
                stored,
                slot,
                b,
                #[trigger] b.parents()[j],
            ) is None) ==> supported_via(stored, slot, b, i) is None,
        supported_via(stored, slot, b, i) is Some ==> exists|k: int| #[trigger]
            first_passing(stored, slot, b, k),
    decreases b.parents().len() - i,
{
    if i < b.parents().len() {
        if passes_on(stored, slot, b, b.parents()[i]) is Some {
            assert(first_passing(stored, slot, b, i));
            assert forall|k: int| #[trigger] first_passing(stored, slot, b, k) implies k == i by {
                if k > i {
                    assert(passes_on(stored, slot, b, b.parents()[i]) is None);
                }
            }
        } else {
            lemma_first_passing(stored, slot, b, i + 1);
        }
    } else {
        assert forall|k: int| #[trigger] first_passing(stored, slot, b, k) implies false by {
            assert(passes_on(stored, slot, b, b.parents()[k]) is None);
        }
    }
}

/// What a block supports at a slot, in terms of what it lists and of what its ancestors support:
/// the first block of the slot that it lists, or else what the first of its later ancestors that
/// supports any passes on, or else nothing. A block from before the slot supports nothing there.
pub proof fn law_support(stored: Store, slot: Slot, b: VerifiedBlock)
    ensures
        b.block().round < slot.round ==> supported(stored, slot, b) is None,
        b.block().round >= slot.round ==> {
            &&& forall|i: int| #[trigger]
                first_filling(b.parents(), slot, i) ==> supported(stored, slot, b) == Some(
                    b.parents()[i],
                )
            &&& (forall|i: int|
                0 <= i < b.parents().len() ==> !in_slot(#[trigger] b.parents()[i], slot)) ==> {
                &&& forall|i: int| #[trigger]
                    first_passing(stored, slot, b, i) ==> supported(stored, slot, b) == passes_on(
                        stored,
                        slot,
                        b,
                        b.parents()[i],
                    )
                &&& (forall|i: int|
                    0 <= i < b.parents().len() ==> passes_on(
                        stored,
                        slot,
                        b,
                        #[trigger] b.parents()[i],
                    ) is None) ==> supported(stored, slot, b) is None
            }
        },
{
    lemma_first_filling(b.parents(), slot, 0);
    lemma_first_passing(stored, slot, b, 0);
}

/// A block supports at a slot only a block of that slot in its own history.
pub proof fn law_support_lies_in_history(stored: Store, slot: Slot, b: VerifiedBlock)
    ensures
        supported(stored, slot, b) matches Some(r) ==> in_slot(r, slot) && leads_to(stored, b, r),
    decreases b.block().round,
{
    lemma_first_filling(b.parents(), slot, 0);
    lemma_first_passing(stored, slot, b, 0);
    if supported(stored, slot, b) is Some {
        if first_at_slot(b.parents(), slot, 0) is Some {
            let i = choose|i: int| #[trigger] first_filling(b.parents(), slot, i);
            assert(b.parents().contains(b.parents()[i]));
        } else {
            let i = choose|i: int| #[trigger] first_passing(stored, slot, b, i);
            let p = b.parents()[i];
            assert(b.parents().contains(p));
            law_support_lies_in_history(stored, slot, stored[p]);
        }
    }
}

/// A block whose history holds a block of a slot supports one there; so where its history holds
/// just one, it supports that.
pub proof fn law_support_is_found(stored: Store, slot: Slot, b: VerifiedBlock, r: BlockRef)
    requires
        keyed(stored),
        layered(stored),
        points_back(b),
        leads_to(stored, b, r),
        in_slot(r, slot),
    ensures
        supported(stored, slot, b) is Some,
        (forall|o: BlockRef| #[trigger] leads_to(stored, b, o) && in_slot(o, slot) ==> o == r)
            ==> supported(stored, slot, b) == Some(r),
    decreases b.block().round,
{
    law_support_lies_in_history(stored, slot, b);
    lemma_leads_down(stored, b, r);
    lemma_first_filling(b.parents(), slot, 0);
    lemma_first_passing(stored, slot, b, 0);
    if b.parents().contains(r) {
        let k = b.parents().index_of(r);
        assert(in_slot(b.parents()[k], slot));
        lemma_some_first(b.parents(), slot, k);
    } else if first_at_slot(b.parents(), slot, 0) is None {
        let p = choose|p: BlockRef| #[trigger]
            b.parents().contains(p) && stored.contains_key(p) && stored[p].block().round
                < b.block().round && leads_to(stored, stored[p], r);
        assert(stored[p].spec_ref() == p);
        lemma_leads_down(stored, stored[p], r);
        law_support_is_found(stored, slot, stored[p], r);
        let k = b.parents().index_of(p);
        assert(passes_on(stored, slot, b, b.parents()[k]) is Some);
        if supported_via(stored, slot, b, 0) is None {
            lemma_some_passing(stored, slot, b, k);
            let i = choose|i: int| #[trigger] first_passing(stored, slot, b, i);
            assert(supported_via(stored, slot, b, 0) == passes_on(stored, slot, b, b.parents()[i]));
        }
    }
}

proof fn lemma_some_first(parents: Seq<BlockRef>, slot: Slot, k: int)
    requires
        0 <= k < parents.len(),
        in_slot(parents[k], slot),
    ensures
        exists|i: int| #[trigger] first_filling(parents, slot, i),
    decreases k,
{
    if !first_filling(parents, slot, k) {
        let j = choose|j: int| 0 <= j < k && in_slot(#[trigger] parents[j], slot);
        lemma_some_first(parents, slot, j);
    }
}

proof fn lemma_some_passing(stored: Store, slot: Slot, b: VerifiedBlock, k: int)
    requires
        0 <= k < b.parents().len(),
        passes_on(stored, slot, b, b.parents()[k]) is Some,
    ensures
        exists|i: int| #[trigger] first_passing(stored, slot, b, i),
    decreases k,
{
    if !first_passing(stored, slot, b, k) {
        let j = choose|j: int|
            0 <= j < k && passes_on(stored, slot, b, #[trigger] b.parents()[j]) is Some;
        lemma_some_passing(stored, slot, b, j);
    }
}

} // verus!
