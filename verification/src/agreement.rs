//! What the decisions of different nodes have to do with each other.
//!
//! Two nodes see different parts of one DAG. As long as no more authorities equivocate than
//! are tolerated, they never commit different leaders in a slot.

use vstd::prelude::*;

use crate::base_committer::{
    anchor_from, backed, blamed, blamers_among, certified_by, certified_leaders, certifies, clash,
    directly, equivocators, few_equivocate, first_at_slot, from_anchor, law_no_conflicting_leaders,
    law_one_certified_leader, lemma_backed_has_certificate, lemma_elected, lemma_filter_keeps,
    lemma_same_block, lemma_vote, names, supported, supported_via, supporters_among, voters_among,
    votes, BaseCommitterOptions, ConflictingLeaders,
};
use crate::causal::{complete, has_ref, history_present, leads_to, points_back, Store};
use crate::commit::{Decision, LeaderStatus};
use crate::committee::{
    law_quorums_intersect, lemma_stake_monotone, lemma_stake_of_none, AuthorityIndex, Committee,
};
use crate::dag_state::DagModel;
use crate::node_laws::extends;
use crate::rules::lemma_filter_has;
use crate::types::{BlockRef, Round, Slot, VerifiedBlock};
use crate::universal_committer::decide;

verus! {

/// What a block supports depends on its history alone.
pub proof fn lemma_support_is_fixed(less: Store, more: Store, slot: Slot, b: VerifiedBlock)
    requires
        complete(less),
        extends(less, more),
        points_back(b),
        history_present(b, less),
    ensures
        supported(less, slot, b) == supported(more, slot, b),
    decreases b.block().round, b.parents().len() + 1,
{
    if b.block().round >= slot.round && first_at_slot(b.parents(), slot, 0) is None {
        lemma_support_via_is_fixed(less, more, slot, b, 0);
    }
}

proof fn lemma_support_via_is_fixed(
    less: Store,
    more: Store,
    slot: Slot,
    b: VerifiedBlock,
    i: int,
)
    requires
        complete(less),
        extends(less, more),
        points_back(b),
        history_present(b, less),
        0 <= i,
    ensures
        supported_via(less, slot, b, i) == supported_via(more, slot, b, i),
    decreases b.block().round, b.parents().len() - i,
{
    if i < b.parents().len() {
        let p = b.parents()[i];
        assert(b.parents().contains(p));
        if p.round > slot.round {
            assert(less.contains_key(p));
            assert(less[p].spec_ref() == p);
            lemma_support_is_fixed(less, more, slot, less[p]);
        }
        lemma_support_via_is_fixed(less, more, slot, b, i + 1);
    }
}

/// A certificate stays one as the DAG grows.
pub proof fn law_certificates_stay(
    committee: Committee,
    less: Store,
    more: Store,
    certificate: VerifiedBlock,
    leader: VerifiedBlock,
)
    requires
        complete(less),
        extends(less, more),
        certifies(committee, less, certificate, leader),
    ensures
        certifies(committee, more, certificate, leader),
{
    let n = certificate.parents().len() as int;
    let fewer = voters_among(less, certificate, leader, n);
    let all = voters_among(more, certificate, leader, n);
    assert forall|a: AuthorityIndex| fewer.contains(a) implies all.contains(a) by {
        let i = choose|i: int|
            0 <= i < n && (#[trigger] certificate.parents()[i]).author == a && votes(
                less,
                certificate.parents()[i],
                leader,
            );
        let p = certificate.parents()[i];
        lemma_support_is_fixed(less, more, leader.spec_ref().slot(), less[p]);
        assert(votes(more, p, leader));
    }
    lemma_stake_monotone(committee.members(), fewer, all);
}

/// Whether `slot` is a leader slot of waves of three rounds that can be decided.
pub open spec fn decidable(committee: Committee, options: BaseCommitterOptions, slot: Slot) -> bool {
    &&& options.wave_length == 3
    &&& options.elected(slot.round, committee.members().len()) == Some(slot)
    &&& options.can_decide(slot)
}

/// Whether `dag` is what a node sees of the DAG `all`.
pub open spec fn part_of(dag: DagModel, all: Store, committee: Committee) -> bool {
    &&& dag.valid(committee)
    &&& complete(dag.stored)
    &&& extends(dag.stored, all)
}

/// A leader that a node commits, by whichever rule, has a certificate two rounds later.
pub proof fn lemma_commit_has_certificate(
    committee: Committee,
    options: BaseCommitterOptions,
    dag: DagModel,
    slot: Slot,
    later: Seq<LeaderStatus>,
    leader: VerifiedBlock,
    decision: Decision,
) -> (c: VerifiedBlock)
    requires
        committee.wf(),
        dag.valid(committee),
        complete(dag.stored),
        decidable(committee, options, slot),
        decide(committee, options, dag, slot, later) == Ok::<
            (LeaderStatus, Decision),
            ConflictingLeaders,
        >((LeaderStatus::Commit(leader), decision)),
    ensures
        certifies(committee, dag.stored, c, leader),
        c.block().round == slot.round + 2,
        points_back(c),
        leader.spec_ref().slot() == slot,
{
    lemma_elected(options, slot.round, committee.members().len());
    let round = options.decision_round_of(options.wave_of(slot.round)) as Round;
    assert(round == slot.round + 2);
    let leaders = dag.open_at_slot(slot);
    dag.lemma_fetched(dag.open_refs_at_slot(slot));
    lemma_filter_keeps(leaders, |l: VerifiedBlock| backed(committee, dag, round, l));
    if directly(committee, options, dag, slot)->Ok_0.decided() {
        assert(backed(committee, dag, round, leader));
        lemma_backed_has_certificate(committee, dag, round, leader)
    } else {
        let anchor = anchor_from(
            later,
            slot.round + options.wave_length,
            0,
        )->Some_0->Commit_0;
        let certs = dag.ancestors(anchor, round);
        dag.lemma_fetched(dag.ancestor_refs(anchor, round));
        lemma_filter_keeps(
            leaders,
            |l: VerifiedBlock| certified_by(committee, dag.stored, certs, l),
        );
        assert(certified_by(committee, dag.stored, certs, leader));
        let i = choose|i: int|
            0 <= i < certs.len() && certifies(
                committee,
                dag.stored,
                #[trigger] certs[i],
                leader,
            );
        certs[i]
    }
}

/// Two nodes that commit a leader in the same slot commit the same block, whichever rule
/// each of them decides by.
pub proof fn law_nodes_commit_the_same_leader(
    committee: Committee,
    options: BaseCommitterOptions,
    all: Store,
    one: DagModel,
    other: DagModel,
    slot: Slot,
    later_of_one: Seq<LeaderStatus>,
    later_of_other: Seq<LeaderStatus>,
)
    requires
        committee.wf(),
        complete(all),
        few_equivocate(committee, all),
        part_of(one, all, committee),
        part_of(other, all, committee),
        decidable(committee, options, slot),
    ensures
        decide(committee, options, one, slot, later_of_one) matches Ok(
            (LeaderStatus::Commit(x), _),
        ) ==> (decide(committee, options, other, slot, later_of_other) matches Ok(
            (LeaderStatus::Commit(y), _),
        ) ==> x.spec_ref() == y.spec_ref()),
{
    match (
        decide(committee, options, one, slot, later_of_one),
        decide(committee, options, other, slot, later_of_other),
    ) {
        (Ok((LeaderStatus::Commit(x), dx)), Ok((LeaderStatus::Commit(y), dy))) => {
            let first = lemma_commit_has_certificate(
                committee,
                options,
                one,
                slot,
                later_of_one,
                x,
                dx,
            );
            let second = lemma_commit_has_certificate(
                committee,
                options,
                other,
                slot,
                later_of_other,
                y,
                dy,
            );
            law_certificates_stay(committee, one.stored, all, first, x);
            law_certificates_stay(committee, other.stored, all, second, y);
            law_one_certified_leader(committee, all, first, second, x, y);
        },
        _ => {},
    }
}

/// Where one node skips a slot by the direct rule, no node commits a leader in it.
pub proof fn law_direct_skip_holds_everywhere(
    committee: Committee,
    options: BaseCommitterOptions,
    all: Store,
    one: DagModel,
    other: DagModel,
    slot: Slot,
    later_of_other: Seq<LeaderStatus>,
)
    requires
        committee.wf(),
        complete(all),
        few_equivocate(committee, all),
        part_of(one, all, committee),
        part_of(other, all, committee),
        decidable(committee, options, slot),
        directly(committee, options, one, slot) matches Ok(LeaderStatus::Skip(_)),
    ensures
        !(decide(committee, options, other, slot, later_of_other) matches Ok(
            (LeaderStatus::Commit(_), _),
        )),
{
    match decide(committee, options, other, slot, later_of_other) {
        Ok((LeaderStatus::Commit(leader), decision)) => {
            let certificate = lemma_commit_has_certificate(
                committee,
                options,
                other,
                slot,
                later_of_other,
                leader,
                decision,
            );
            law_certificates_stay(committee, other.stored, all, certificate, leader);
            let round = (slot.round + 1) as Round;
            assert(blamed(committee, one, round, slot.authority));
            let blocks = one.open_at_round(round);
            one.lemma_fetched(one.open_refs_at_round(round));
            let n = certificate.parents().len() as int;
            let va = voters_among(all, certificate, leader, n);
            let vb = blamers_among(blocks, slot.authority, blocks.len() as int);
            law_quorums_intersect(committee, va, vb, equivocators(all));
            let v = choose|v: AuthorityIndex| #[trigger]
                va.contains(v) && vb.contains(v) && !equivocators(all).contains(v);
            let i = choose|i: int|
                0 <= i < n && (#[trigger] certificate.parents()[i]).author == v && votes(
                    all,
                    certificate.parents()[i],
                    leader,
                );
            let j = choose|j: int|
                0 <= j < blocks.len() && (#[trigger] blocks[j]).block().author == v && !names(
                    blocks[j],
                    slot.authority,
                );
            let p = certificate.parents()[i];
            assert(certificate.parents().contains(p));
            lemma_vote(all, p, leader);
            assert(all.contains_key(blocks[j].spec_ref()));
            lemma_same_block(all, p, blocks[j].spec_ref(), v);
            let k = all[p].parents().index_of(leader.spec_ref());
            assert(blocks[j].parents()[k].author == slot.authority);
            assert(names(blocks[j], slot.authority));
        },
        _ => {},
    }
}

/// Whether `b` lists an ancestor by `a` from the round just before it.
pub open spec fn builds_on(b: VerifiedBlock, a: AuthorityIndex) -> bool {
    exists|p: BlockRef| #[trigger]
        b.parents().contains(p) && p.round + 1 == b.block().round && p.author == a
}

/// Whether the ancestors of `b` from the round just before it are by a quorum.
pub open spec fn quorate(committee: Committee, b: VerifiedBlock) -> bool {
    committee.is_quorum(Set::new(|a: AuthorityIndex| builds_on(b, a)))
}

/// Whether every block above the genesis round builds on a quorum.
pub open spec fn all_quorate(committee: Committee, stored: Store) -> bool {
    forall|r: BlockRef| #[trigger]
        stored.contains_key(r) && r.round > 0 ==> quorate(committee, stored[r])
}

/// Whether the history of `b` holds a block by `a` at `round`.
spec fn reaches_author(stored: Store, b: VerifiedBlock, round: int, a: AuthorityIndex) -> bool {
    exists|p: BlockRef| #[trigger]
        stored.contains_key(p) && p.round == round && p.author == a && leads_to(stored, b, p)
}

/// Where every block builds on a quorum, the history of a block holds blocks by a quorum at every
/// round below it.
proof fn lemma_history_is_quorate(
    committee: Committee,
    stored: Store,
    b: VerifiedBlock,
    round: int,
)
    requires
        committee.wf(),
        complete(stored),
        all_quorate(committee, stored),
        stored.contains_key(b.spec_ref()),
        stored[b.spec_ref()] == b,
        0 < round < b.block().round,
    ensures
        committee.is_quorum(Set::new(|a: AuthorityIndex| reaches_author(stored, b, round, a))),
    decreases b.block().round,
{
    let below = Set::new(|a: AuthorityIndex| builds_on(b, a));
    let all = Set::new(|a: AuthorityIndex| reaches_author(stored, b, round, a));
    assert(quorate(committee, stored[b.spec_ref()]));
    assert(history_present(b, stored));
    if round + 1 == b.block().round {
        assert forall|a: AuthorityIndex| below.contains(a) implies all.contains(a) by {
            let p = choose|p: BlockRef| #[trigger]
                b.parents().contains(p) && p.round + 1 == b.block().round && p.author == a;
            assert(stored.contains_key(p));
            assert(leads_to(stored, b, p));
        }
        lemma_stake_monotone(committee.members(), below, all);
    } else {
        if forall|a: AuthorityIndex| !below.contains(a) {
            assert(below =~= Set::empty());
            lemma_stake_of_none(committee.members());
        }
        let a = choose|a: AuthorityIndex| below.contains(a);
        let p = choose|p: BlockRef| #[trigger]
            b.parents().contains(p) && p.round + 1 == b.block().round && p.author == a;
        assert(stored.contains_key(p));
        assert(stored[p].spec_ref() == p);
        lemma_history_is_quorate(committee, stored, stored[p], round);
        let inner = Set::new(|a: AuthorityIndex| reaches_author(stored, stored[p], round, a));
        assert forall|x: AuthorityIndex| inner.contains(x) implies all.contains(x) by {
            let q = choose|q: BlockRef| #[trigger]
                stored.contains_key(q) && q.round == round && q.author == x && leads_to(
                    stored,
                    stored[p],
                    q,
                );
            assert(leads_to(stored, b, q));
        }
        lemma_stake_monotone(committee.members(), inner, all);
    }
}

/// A certificate in a larger DAG is one in every part of it that holds the certificate.
proof fn lemma_certificate_in_part(
    committee: Committee,
    less: Store,
    more: Store,
    certificate: VerifiedBlock,
    leader: VerifiedBlock,
)
    requires
        complete(less),
        complete(more),
        extends(less, more),
        less.contains_key(certificate.spec_ref()),
        less[certificate.spec_ref()] == certificate,
        certificate.block().round == leader.block().round + 2,
        certifies(committee, more, certificate, leader),
    ensures
        certifies(committee, less, certificate, leader),
{
    let n = certificate.parents().len() as int;
    let all = voters_among(more, certificate, leader, n);
    let fewer = voters_among(less, certificate, leader, n);
    assert(history_present(certificate, less));
    assert(points_back(certificate));
    assert forall|a: AuthorityIndex| all.contains(a) implies fewer.contains(a) by {
        let i = choose|i: int|
            0 <= i < n && (#[trigger] certificate.parents()[i]).author == a && votes(
                more,
                certificate.parents()[i],
                leader,
            );
        let p = certificate.parents()[i];
        assert(certificate.parents().contains(p));
        lemma_vote(more, p, leader);
        assert(less.contains_key(p));
        assert(less[p] == more[p]);
        lemma_support_is_fixed(less, more, leader.spec_ref().slot(), less[p]);
        assert(votes(less, p, leader));
    }
    lemma_stake_monotone(committee.members(), all, fewer);
}

/// Where one node commits a slot by the direct rule, no node skips it, by whichever rule: the
/// history of every later anchor holds a certificate for the leader. This takes that every block
/// builds on a quorum of the round before.
pub proof fn law_direct_commit_is_never_skipped(
    committee: Committee,
    options: BaseCommitterOptions,
    all: Store,
    one: DagModel,
    other: DagModel,
    slot: Slot,
    leader: VerifiedBlock,
    later_of_other: Seq<LeaderStatus>,
)
    requires
        committee.wf(),
        complete(all),
        all_quorate(committee, all),
        few_equivocate(committee, all),
        part_of(one, all, committee),
        part_of(other, all, committee),
        decidable(committee, options, slot),
        directly(committee, options, one, slot) == Ok::<LeaderStatus, ConflictingLeaders>(
            LeaderStatus::Commit(leader),
        ),
        !other.committed.contains(leader.spec_ref()),
        forall|i: int|
            #![trigger later_of_other[i]]
            0 <= i < later_of_other.len() ==> (later_of_other[i] matches LeaderStatus::Commit(b)
                ==> other.stored.contains_key(b.spec_ref()) && other.stored[b.spec_ref()] == b),
    ensures
        !(decide(committee, options, other, slot, later_of_other) matches Ok(
            (LeaderStatus::Skip(_), _),
        )),
        forall|anchor: VerifiedBlock|
            other.stored.contains_key(anchor.spec_ref()) && other.stored[anchor.spec_ref()]
                == anchor && anchor.block().round >= slot.round + 3 ==> #[trigger] from_anchor(
                committee,
                options,
                other,
                anchor,
                slot,
            ) == Ok::<LeaderStatus, ConflictingLeaders>(LeaderStatus::Commit(leader)),
{
    assert forall|anchor: VerifiedBlock|
        other.stored.contains_key(anchor.spec_ref()) && other.stored[anchor.spec_ref()] == anchor
            && anchor.block().round >= slot.round + 3 implies #[trigger] from_anchor(
        committee,
        options,
        other,
        anchor,
        slot,
    ) == Ok::<LeaderStatus, ConflictingLeaders>(LeaderStatus::Commit(leader)) by {
        lemma_anchor_commits(committee, options, all, one, other, slot, leader, anchor);
    }
    match decide(committee, options, other, slot, later_of_other) {
        Ok((LeaderStatus::Skip(_), _)) => {
            if directly(committee, options, other, slot) matches Ok(LeaderStatus::Skip(_)) {
                law_direct_skip_holds_everywhere(
                    committee,
                    options,
                    all,
                    other,
                    one,
                    slot,
                    Seq::empty(),
                );
                assert(decide(committee, options, one, slot, Seq::empty()) == Ok::<
                    (LeaderStatus, Decision),
                    ConflictingLeaders,
                >((LeaderStatus::Commit(leader), Decision::Direct)));
            } else {
                let from = slot.round + options.wave_length;
                lemma_anchor_is_later(later_of_other, from, 0);
                let anchor = anchor_from(later_of_other, from, 0)->Some_0->Commit_0;
                assert(from_anchor(committee, options, other, anchor, slot) is Ok);
            }
        },
        _ => {},
    }
}

/// An anchor is one of the later leaders, far enough away.
proof fn lemma_anchor_is_later(leaders: Seq<LeaderStatus>, round: int, i: int)
    requires
        0 <= i,
    ensures
        anchor_from(leaders, round, i) matches Some(status) ==> exists|k: int|
            0 <= k < leaders.len() && #[trigger] leaders[k] == status && status.spec_round()
                >= round,
    decreases leaders.len() - i,
{
    if i < leaders.len() && !(leaders[i].spec_round() >= round && !(leaders[i] is Skip)) {
        lemma_anchor_is_later(leaders, round, i + 1);
    }
}

/// Every later anchor commits a leader that some node commits by the direct rule.
proof fn lemma_anchor_commits(
    committee: Committee,
    options: BaseCommitterOptions,
    all: Store,
    one: DagModel,
    other: DagModel,
    slot: Slot,
    leader: VerifiedBlock,
    anchor: VerifiedBlock,
)
    requires
        committee.wf(),
        complete(all),
        all_quorate(committee, all),
        few_equivocate(committee, all),
        part_of(one, all, committee),
        part_of(other, all, committee),
        decidable(committee, options, slot),
        directly(committee, options, one, slot) == Ok::<LeaderStatus, ConflictingLeaders>(
            LeaderStatus::Commit(leader),
        ),
        !other.committed.contains(leader.spec_ref()),
        other.stored.contains_key(anchor.spec_ref()),
        other.stored[anchor.spec_ref()] == anchor,
        anchor.block().round >= slot.round + 3,
    ensures
        from_anchor(committee, options, other, anchor, slot) == Ok::<
            LeaderStatus,
            ConflictingLeaders,
        >(LeaderStatus::Commit(leader)),
{
    lemma_elected(options, slot.round, committee.members().len());
    let round = options.decision_round_of(options.wave_of(slot.round)) as Round;
    assert(round == slot.round + 2);
    let x = leader.spec_ref();
    let leaders = one.open_at_slot(slot);
    one.lemma_fetched(one.open_refs_at_slot(slot));
    lemma_filter_keeps(leaders, |l: VerifiedBlock| backed(committee, one, round, l));
    assert(backed(committee, one, round, leader));
    assert(leaders.contains(leader));
    assert(x.slot() == slot);
    // Authors of certificates in one node, and of blocks of that round in the anchor's history.
    let blocks = one.open_at_round(round);
    one.lemma_fetched(one.open_refs_at_round(round));
    let provers = supporters_among(committee, one.stored, blocks, leader, blocks.len() as int);
    assert(all_quorate(committee, other.stored)) by {
        assert forall|r: BlockRef| #[trigger]
            other.stored.contains_key(r) && r.round > 0 implies quorate(
            committee,
            other.stored[r],
        ) by {
            assert(all.contains_key(r) && all[r] == other.stored[r]);
        }
    }
    lemma_history_is_quorate(committee, other.stored, anchor, round as int);
    let seen = Set::new(
        |a: AuthorityIndex| reaches_author(other.stored, anchor, round as int, a),
    );
    law_quorums_intersect(committee, provers, seen, equivocators(all));
    let v = choose|v: AuthorityIndex| #[trigger]
        provers.contains(v) && seen.contains(v) && !equivocators(all).contains(v);
    let i = choose|i: int|
        0 <= i < blocks.len() && (#[trigger] blocks[i]).block().author == v && certifies(
            committee,
            one.stored,
            blocks[i],
            leader,
        );
    let c = blocks[i];
    let h = choose|h: BlockRef| #[trigger]
        other.stored.contains_key(h) && h.round == round && h.author == v && leads_to(
            other.stored,
            anchor,
            h,
        );
    assert(one.stored.contains_key(c.spec_ref()));
    assert(all.contains_key(c.spec_ref()) && all.contains_key(h));
    lemma_same_block(all, c.spec_ref(), h, v);
    assert(other.stored[h] == all[h] && all[h] == c);
    law_certificates_stay(committee, one.stored, all, c, leader);
    lemma_certificate_in_part(committee, other.stored, all, c, leader);
    // The certificate is among the anchor's ancestors.
    let refs = other.ancestor_refs(anchor, round);
    other.lemma_fetched(refs);
    let certs = other.ancestors(anchor, round);
    assert(refs.contains(h));
    assert(has_ref(certs, h));
    let k = choose|k: int| 0 <= k < certs.len() && (#[trigger] certs[k]).spec_ref() == h;
    assert(certs[k] == c);
    assert(certified_by(committee, other.stored, certs, leader));
    // The leader is stored there too: a vote lists it.
    let n = c.parents().len() as int;
    let voters = voters_among(other.stored, c, leader, n);
    if forall|a: AuthorityIndex| !voters.contains(a) {
        assert(voters =~= Set::empty());
        lemma_stake_of_none(committee.members());
    }
    let a = choose|a: AuthorityIndex| voters.contains(a);
    let j = choose|j: int|
        0 <= j < n && (#[trigger] c.parents()[j]).author == a && votes(
            other.stored,
            c.parents()[j],
            leader,
        );
    let p = c.parents()[j];
    assert(c.parents().contains(p));
    assert(points_back(other.stored[h]));
    lemma_vote(other.stored, p, leader);
    assert(history_present(other.stored[p], other.stored));
    assert(other.stored.contains_key(x));
    assert(other.stored[x] == all[x] && one.stored[x] == all[x]);
    let open = other.open_at_slot(slot);
    other.lemma_fetched(other.open_refs_at_slot(slot));
    assert(other.open_refs_at_slot(slot).contains(x));
    assert(has_ref(open, x));
    let m = choose|m: int| 0 <= m < open.len() && (#[trigger] open[m]).spec_ref() == x;
    assert(open[m] == leader);
    assert(open.contains(leader));
    let keep = |l: VerifiedBlock| certified_by(committee, other.stored, certs, l);
    lemma_filter_has(open, keep, leader);
    let passed = certified_leaders(committee, other.stored, certs, open);
    assert(passed == open.filter(keep));
    assert(few_equivocate(committee, other.stored)) by {
        assert forall|z: AuthorityIndex| equivocators(other.stored).contains(z) implies equivocators(
            all,
        ).contains(z) by {
            let (r, s) = choose|r: BlockRef, s: BlockRef| #[trigger] clash(other.stored, r, s, z);
            assert(clash(all, r, s, z));
        }
        lemma_stake_monotone(
            committee.members(),
            equivocators(other.stored),
            equivocators(all),
        );
    }
    law_no_conflicting_leaders(committee, options, other, slot, anchor);
    assert(passed.contains(leader));
    assert(passed.len() == 1);
    let at = passed.index_of(leader);
    assert(passed[0] == leader);
}

} // verus!
