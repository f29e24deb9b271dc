//! When a node soft-commits a leader, and in what order it reports.

use vstd::prelude::*;

use crate::base_committer::BaseCommitterOptions;
use crate::block_manager::{by_round, law_offers_keep_whole};
use crate::causal::{has_ref, layered, leads_to, within, Store};
use crate::commit::DecidedLeader;
use crate::committee::{lemma_stake_monotone, lemma_stake_of_none, AuthorityIndex, Committee};
use crate::dag_state::{is_initial, DagModel};
use crate::decision_laws::{
    decides, fails, law_decisions_fail_on_conflict, law_decisions_up_to_the_first_undecided,
};
use crate::event_laws::{
    by_round_then_author, finally_announces, is_history_of, law_hard_commit_shows_history,
    law_soft_commit_carries_history, shows, softly_announces, walked_depth_first,
};
use crate::intake_laws::{accepts_exactly, law_offered_blocks_are_accounted_for};
use crate::linearizer::{law_commit_covers_history, sealed, sub_dag};
use crate::node::{
    all_soft_events, commits_sound, committed_with, dag_after, hard_event, hard_events, is_soft_vote, last_after,
    lemma_growth_keeps_closed, node_options, soft_event, soft_events, votes_after, votes_with_all,
    EventView, NodeModel,
};
use crate::node_laws::{
    in_turn, law_commits_keep_sound, law_node_stays_sound, lemma_in_turn_prefix, lemma_sorted_fit,
};
use crate::rules::all_but_a_third;
use crate::shared;
use crate::soft_commit::SoftVotes;
use crate::types::{BlockRef, Slot, VerifiedBlock};
use crate::universal_committer::{
    decisions, law_decisions_follow_slots, law_single_committer_ascends, open_slots,
};

verus! {

/// Whether `p` stands in a leader slot: the leader rounds are 3, 6, 9 and so on, and the leader of
/// a round is the round modulo the size of the committee.
pub open spec fn leads_wave(committee: Committee, p: BlockRef) -> bool {
    &&& p.round > 0
    &&& p.round % 3 == 0
    &&& p.author.0 as int == p.round as int % committee.members().len() as int
}

/// Whether `b` is of the round after `p` and lists it.
pub open spec fn refers(b: VerifiedBlock, p: BlockRef) -> bool {
    b.block().round == p.round + 1 && b.parents().contains(p)
}

/// Whether a stored block of `a` refers to `p`.
pub open spec fn author_refers(stored: Store, p: BlockRef, a: AuthorityIndex) -> bool {
    exists|r: BlockRef| #[trigger]
        stored.contains_key(r) && r.author == a && refers(stored[r], p)
}

/// The authors of the stored blocks that refer to `p`.
pub open spec fn referrers(stored: Store, p: BlockRef) -> Set<AuthorityIndex> {
    Set::new(|a: AuthorityIndex| author_refers(stored, p, a))
}

/// Whether `p` stands in a leader slot and a quorum refers to it.
pub open spec fn quorum_refers(committee: Committee, stored: Store, p: BlockRef) -> bool {
    leads_wave(committee, p) && all_but_a_third(committee, referrers(stored, p))
}

/// Whether the votes for `p` are those of `voters`, up to the quorum that commits it.
spec fn counts_for(
    votes: SoftVotes,
    committee: Committee,
    p: BlockRef,
    voters: Set<AuthorityIndex>,
) -> bool {
    &&& votes.committed.contains(p) <==> committee.is_quorum(voters)
    &&& votes.voters(p).subset_of(voters)
    &&& !votes.committed.contains(p) ==> votes.voters(p) == voters
}

/// The authorities that may count for `p`: none unless it stands in a leader slot.
spec fn electorate(
    committee: Committee,
    p: BlockRef,
    voters: Set<AuthorityIndex>,
) -> Set<AuthorityIndex> {
    if leads_wave(committee, p) {
        voters
    } else {
        Set::empty()
    }
}

/// Whether the votes counted are those of the stored blocks.
pub open spec fn tallied(votes: SoftVotes, stored: Store, committee: Committee) -> bool {
    &&& forall|p: BlockRef| #[trigger]
        votes.committed.contains(p) <==> quorum_refers(committee, stored, p)
    &&& forall|p: BlockRef| #[trigger]
        votes.voters(p).subset_of(referrers(stored, p))
    &&& forall|p: BlockRef|
        leads_wave(committee, p) && !votes.committed.contains(p) ==> #[trigger] votes.voters(p)
            == referrers(stored, p)
    &&& forall|p: BlockRef|
        !leads_wave(committee, p) ==> #[trigger] votes.voters(p) == Set::<AuthorityIndex>::empty()
}

proof fn lemma_vote_counts(
    votes: SoftVotes,
    committee: Committee,
    block: VerifiedBlock,
    n: int,
    p: BlockRef,
    voters: Set<AuthorityIndex>,
)
    requires
        counts_for(votes, committee, p, voters),
        0 <= n <= block.parents().len(),
    ensures
        counts_for(
            votes_after(votes, committee, block, n),
            committee,
            p,
            if leads_wave(committee, p) && block.block().round == p.round + 1
                && block.parents().take(n).contains(p) {
                voters.insert(block.block().author)
            } else {
                voters
            },
        ),
        forall|x: BlockRef| #[trigger]
            votes.committed.contains(x) ==> votes_after(
                votes,
                committee,
                block,
                n,
            ).committed.contains(x),
    decreases n,
{
    if n > 0 {
        lemma_vote_counts(votes, committee, block, n - 1, p, voters);
        let before = votes_after(votes, committee, block, n - 1);
        let q = block.parents()[n - 1];
        let a = block.block().author;
        let more = voters.insert(a);
        let front = block.parents().take(n - 1);
        let now = block.parents().take(n);
        assert(now =~= front.push(q));
        assert(now.contains(p) <==> front.contains(p) || p == q) by {
            if front.contains(p) {
                assert(now[front.index_of(p)] == p);
            }
            assert(now[n - 1] == q);
            if now.contains(p) && p != q {
                assert(front[now.index_of(p)] == p);
            }
        }
        lemma_stake_monotone(committee.members(), voters, more);
        assert(more.insert(a) =~= more);
        if p == q && leads_wave(committee, p) && block.block().round == p.round + 1 {
            assert(is_soft_vote(block, q, committee.members().len()));
        }
    } else {
        assert(block.parents().take(0) =~= Seq::<BlockRef>::empty());
    }
}

/// The authors of those of `blocks` that refer to `p`.
spec fn referrers_among(blocks: Seq<VerifiedBlock>, p: BlockRef) -> Set<AuthorityIndex> {
    Set::new(
        |a: AuthorityIndex|
            exists|k: int|
                0 <= k < blocks.len() && (#[trigger] blocks[k]).block().author == a && refers(
                    blocks[k],
                    p,
                ),
    )
}

proof fn lemma_all_votes_count(
    votes: SoftVotes,
    committee: Committee,
    blocks: Seq<VerifiedBlock>,
    p: BlockRef,
    voters: Set<AuthorityIndex>,
)
    requires
        counts_for(votes, committee, p, voters),
    ensures
        counts_for(
            votes_with_all(votes, committee, blocks),
            committee,
            p,
            voters.union(electorate(committee, p, referrers_among(blocks, p))),
        ),
    decreases blocks.len(),
{
    let all = voters.union(electorate(committee, p, referrers_among(blocks, p)));
    if blocks.len() == 0 {
        assert(all =~= voters);
    } else {
        let front = blocks.drop_last();
        let b = blocks.last();
        let end = blocks.len() - 1;
        lemma_all_votes_count(votes, committee, front, p, voters);
        let mid = votes_with_all(votes, committee, front);
        let some = voters.union(electorate(committee, p, referrers_among(front, p)));
        let n = b.parents().len() as int;
        lemma_vote_counts(mid, committee, b, n, p, some);
        assert(b.parents().take(n) =~= b.parents());
        let x = referrers_among(front, p);
        let y = referrers_among(blocks, p);
        assert forall|a: AuthorityIndex| y.contains(a) <==> x.contains(a) || (refers(b, p) && a
            == b.block().author) by {
            if x.contains(a) {
                let k = choose|k: int|
                    0 <= k < front.len() && (#[trigger] front[k]).block().author == a && refers(
                        front[k],
                        p,
                    );
                assert(blocks[k].block().author == a);
            }
            if refers(b, p) && a == b.block().author {
                assert(blocks[end].block().author == a);
            }
            if y.contains(a) {
                let k = choose|k: int|
                    0 <= k < blocks.len() && (#[trigger] blocks[k]).block().author == a && refers(
                        blocks[k],
                        p,
                    );
                if k < end {
                    assert(front[k].block().author == a);
                }
            }
        }
        if leads_wave(committee, p) && refers(b, p) {
            assert(all =~= some.insert(b.block().author));
        } else {
            assert(all =~= some);
        }
    }
}

/// Whether `event` is a soft commit of `p`.
pub open spec fn announces(event: EventView, p: BlockRef) -> bool {
    match event {
        EventView::SoftCommit { leader, .. } => shows(leader, p),
        EventView::HardCommit { .. } => false,
    }
}

proof fn lemma_shows_one(shown: shared::BlockRef, p: BlockRef, q: BlockRef)
    requires
        shows(shown, p),
        shows(shown, q),
    ensures
        p == q,
{
    assert(p.digest == q.digest);
    assert(p.author == q.author);
}

/// Whether `events` report on `dag` exactly the leaders committed in `after` and not in `before`,
/// each once.
pub open spec fn reports_new(
    events: Seq<EventView>,
    before: SoftVotes,
    after: SoftVotes,
    dag: DagModel,
) -> bool {
    &&& forall|k: int|
        0 <= k < events.len() ==> exists|p: BlockRef|
            (#[trigger] events[k]) == #[trigger] soft_event(dag, p) && !before.committed.contains(p)
                && after.committed.contains(p)
    &&& forall|p: BlockRef| #[trigger]
        after.committed.contains(p) && !before.committed.contains(p) ==> events.contains(
            soft_event(dag, p),
        )
    &&& forall|i: int, j: int, p: BlockRef|
        0 <= i < j < events.len() && #[trigger] announces(events[i], p) ==> !#[trigger] announces(
            events[j],
            p,
        )
    &&& forall|p: BlockRef| #[trigger]
        before.committed.contains(p) ==> after.committed.contains(p)
}

proof fn lemma_event_announces(dag: DagModel, p: BlockRef, q: BlockRef)
    ensures
        announces(soft_event(dag, p), p),
        announces(soft_event(dag, p), q) ==> p == q,
{
    if announces(soft_event(dag, p), q) {
        lemma_shows_one(soft_event(dag, p)->SoftCommit_leader, p, q);
    }
}

proof fn lemma_reports_concat(
    first: Seq<EventView>,
    second: Seq<EventView>,
    before: SoftVotes,
    mid: SoftVotes,
    after: SoftVotes,
    dag: DagModel,
)
    requires
        reports_new(first, before, mid, dag),
        reports_new(second, mid, after, dag),
    ensures
        reports_new(first + second, before, after, dag),
{
    let all = first + second;
    assert forall|k: int| 0 <= k < all.len() implies exists|p: BlockRef|
        (#[trigger] all[k]) == #[trigger] soft_event(dag, p) && !before.committed.contains(p)
            && after.committed.contains(p) by {
        if k < first.len() {
            assert(all[k] == first[k]);
            let p = choose|p: BlockRef|
                first[k] == #[trigger] soft_event(dag, p) && !before.committed.contains(p)
                    && mid.committed.contains(p);
            assert(all[k] == soft_event(dag, p) && after.committed.contains(p));
        } else {
            assert(all[k] == second[k - first.len()]);
            let p = choose|p: BlockRef|
                second[k - first.len()] == #[trigger] soft_event(dag, p)
                    && !mid.committed.contains(p) && after.committed.contains(p);
            assert(all[k] == soft_event(dag, p) && !before.committed.contains(p));
        }
    }
    assert forall|p: BlockRef| #[trigger]
        after.committed.contains(p) && !before.committed.contains(p) implies all.contains(
        soft_event(dag, p),
    ) by {
        let e = soft_event(dag, p);
        if mid.committed.contains(p) {
            assert(all[first.index_of(e)] == e);
        } else {
            assert(all[first.len() + second.index_of(e)] == e);
        }
    }
    assert forall|i: int, j: int, p: BlockRef|
        0 <= i < j < all.len() && #[trigger] announces(all[i], p) implies !#[trigger] announces(
        all[j],
        p,
    ) by {
        if j < first.len() {
            assert(all[i] == first[i] && all[j] == first[j]);
        } else if i >= first.len() {
            assert(all[i] == second[i - first.len()] && all[j] == second[j - first.len()]);
        } else {
            assert(all[i] == first[i] && all[j] == second[j - first.len()]);
            let x = choose|x: BlockRef|
                first[i] == #[trigger] soft_event(dag, x) && !before.committed.contains(x)
                    && mid.committed.contains(x);
            let y = choose|y: BlockRef|
                second[j - first.len()] == #[trigger] soft_event(dag, y)
                    && !mid.committed.contains(y) && after.committed.contains(y);
            lemma_event_announces(dag, x, p);
            lemma_event_announces(dag, y, p);
        }
    }
}

proof fn lemma_reports_none(votes: SoftVotes, dag: DagModel)
    ensures
        reports_new(Seq::empty(), votes, votes, dag),
{
}

proof fn lemma_reports_one(before: SoftVotes, after: SoftVotes, dag: DagModel, p: BlockRef)
    requires
        !before.committed.contains(p),
        after.committed == before.committed.insert(p),
    ensures
        reports_new(seq![soft_event(dag, p)], before, after, dag),
{
    let one = seq![soft_event(dag, p)];
    assert(one[0] == soft_event(dag, p));
    assert forall|k: int| 0 <= k < one.len() implies exists|x: BlockRef|
        (#[trigger] one[k]) == #[trigger] soft_event(dag, x) && !before.committed.contains(x)
            && after.committed.contains(x) by {
        assert(one[k] == soft_event(dag, p));
        assert(after.committed.contains(p));
    }
    assert forall|x: BlockRef| #[trigger]
        after.committed.contains(x) && !before.committed.contains(x) implies one.contains(
        soft_event(dag, x),
    ) by {
        assert(x == p);
    }
}

proof fn lemma_block_reports(
    votes: SoftVotes,
    dag: DagModel,
    committee: Committee,
    block: VerifiedBlock,
    n: int,
)
    requires
        0 <= n <= block.parents().len(),
    ensures
        reports_new(
            soft_events(votes, dag, committee, block, n),
            votes,
            votes_after(votes, committee, block, n),
            dag,
        ),
    decreases n,
{
    if n == 0 {
        lemma_reports_none(votes, dag);
    } else {
        lemma_block_reports(votes, dag, committee, block, n - 1);
        let before = votes_after(votes, committee, block, n - 1);
        let after = votes_after(votes, committee, block, n);
        let events = soft_events(votes, dag, committee, block, n - 1);
        let p = block.parents()[n - 1];
        let a = block.block().author;
        if is_soft_vote(block, p, committee.members().len()) && before.fires(p, a, committee) {
            lemma_reports_one(before, after, dag, p);
            lemma_reports_concat(events, seq![soft_event(dag, p)], votes, before, after, dag);
            assert(events.push(soft_event(dag, p)) =~= events + seq![soft_event(dag, p)]);
        } else {
            assert(after.committed =~= before.committed);
            assert(reports_new(events, votes, after, dag)) by {
                assert forall|k: int| 0 <= k < events.len() implies exists|x: BlockRef|
                    (#[trigger] events[k]) == #[trigger] soft_event(dag, x)
                        && !votes.committed.contains(x) && after.committed.contains(x) by {
                    let x = choose|x: BlockRef|
                        events[k] == #[trigger] soft_event(dag, x) && !votes.committed.contains(x)
                            && before.committed.contains(x);
                    assert(events[k] == soft_event(dag, x) && after.committed.contains(x));
                }
            }
        }
    }
}

proof fn lemma_all_reports(
    votes: SoftVotes,
    dag: DagModel,
    committee: Committee,
    blocks: Seq<VerifiedBlock>,
)
    ensures
        reports_new(
            all_soft_events(votes, dag, committee, blocks),
            votes,
            votes_with_all(votes, committee, blocks),
            dag,
        ),
    decreases blocks.len(),
{
    if blocks.len() == 0 {
        lemma_reports_none(votes, dag);
    } else {
        let front = blocks.drop_last();
        let b = blocks.last();
        lemma_all_reports(votes, dag, committee, front);
        let mid = votes_with_all(votes, committee, front);
        lemma_block_reports(mid, dag, committee, b, b.parents().len() as int);
        lemma_reports_concat(
            all_soft_events(votes, dag, committee, front),
            soft_events(mid, dag, committee, b, b.parents().len() as int),
            votes,
            mid,
            votes_with_all(votes, committee, blocks),
            dag,
        );
    }
}

/// Genesis blocks refer to nothing, so a new node has counted all there is.
pub proof fn law_new_node_is_tallied(dag: DagModel, committee: Committee)
    requires
        committee.wf(),
        is_initial(dag, committee),
    ensures
        tallied(SoftVotes::none(), dag.stored, committee),
{
    lemma_stake_of_none(committee.members());
    assert forall|p: BlockRef| #[trigger] referrers(dag.stored, p) == Set::<
        AuthorityIndex,
    >::empty() by {
        assert(referrers(dag.stored, p) =~= Set::<AuthorityIndex>::empty());
    }
    let none = SoftVotes::none();
    assert forall|p: BlockRef| #[trigger] none.committed.contains(p) <==> quorum_refers(
        committee,
        dag.stored,
        p,
    ) by {
        assert(referrers(dag.stored, p) == Set::<AuthorityIndex>::empty());
    }
    assert forall|p: BlockRef| #[trigger] none.voters(p).subset_of(
        referrers(dag.stored, p),
    ) by {}
    assert forall|p: BlockRef|
        leads_wave(committee, p) && !none.committed.contains(p) implies #[trigger] none.voters(p)
        == referrers(dag.stored, p) by {
        assert(referrers(dag.stored, p) == Set::<AuthorityIndex>::empty());
    }
}

proof fn lemma_tally_kept(
    votes: SoftVotes,
    committee: Committee,
    before: Store,
    after: Store,
    accepted: Seq<VerifiedBlock>,
)
    requires
        committee.wf(),
        tallied(votes, before, committee),
        forall|r: BlockRef| #[trigger]
            after.contains_key(r) <==> before.contains_key(r) || has_ref(accepted, r),
        forall|k: int|
            0 <= k < accepted.len() ==> after[(#[trigger] accepted[k]).spec_ref()] == accepted[k],
        forall|r: BlockRef| #[trigger] before.contains_key(r) ==> after[r] == before[r],
    ensures
        tallied(votes_with_all(votes, committee, accepted), after, committee),
{
    let now = votes_with_all(votes, committee, accepted);
    lemma_stake_of_none(committee.members());
    assert forall|p: BlockRef| ({
        &&& #[trigger] now.committed.contains(p) <==> quorum_refers(committee, after, p)
        &&& now.voters(p).subset_of(referrers(after, p))
        &&& leads_wave(committee, p) && !now.committed.contains(p) ==> now.voters(p) == referrers(
            after,
            p,
        )
        &&& !leads_wave(committee, p) ==> now.voters(p) == Set::<AuthorityIndex>::empty()
    }) by {
        let old_voters = electorate(committee, p, referrers(before, p));
        assert(counts_for(votes, committee, p, old_voters)) by {
            assert(votes.committed.contains(p) <==> quorum_refers(committee, before, p));
            assert(votes.voters(p).subset_of(referrers(before, p)));
        }
        lemma_all_votes_count(votes, committee, accepted, p, old_voters);
        let x = referrers_among(accepted, p);
        assert forall|a: AuthorityIndex| #[trigger] referrers(after, p).contains(a) <==> referrers(
            before,
            p,
        ).contains(a) || x.contains(a) by {
            if author_refers(before, p, a) {
                let r = choose|r: BlockRef| #[trigger]
                    before.contains_key(r) && r.author == a && refers(before[r], p);
                assert(after.contains_key(r) && refers(after[r], p));
            }
            if x.contains(a) {
                let k = choose|k: int|
                    0 <= k < accepted.len() && (#[trigger] accepted[k]).block().author == a
                        && refers(accepted[k], p);
                let r = accepted[k].spec_ref();
                assert(has_ref(accepted, r));
                assert(after.contains_key(r) && refers(after[r], p));
            }
            if author_refers(after, p, a) {
                let r = choose|r: BlockRef| #[trigger]
                    after.contains_key(r) && r.author == a && refers(after[r], p);
                if before.contains_key(r) {
                    assert(refers(before[r], p));
                } else {
                    let k = choose|k: int|
                        0 <= k < accepted.len() && (#[trigger] accepted[k]).spec_ref() == r;
                    assert(accepted[k].block().author == a);
                    assert(refers(accepted[k], p));
                }
            }
        }
        let voters = old_voters.union(electorate(committee, p, x));
        if leads_wave(committee, p) {
            assert(voters =~= referrers(after, p));
        } else {
            assert(voters =~= Set::<AuthorityIndex>::empty());
            assert(now.voters(p) =~= Set::<AuthorityIndex>::empty());
        }
    }
    assert forall|p: BlockRef| #[trigger] now.voters(p).subset_of(referrers(after, p)) by {
        assert(now.committed.contains(p) <==> quorum_refers(committee, after, p));
    }
    assert forall|p: BlockRef|
        leads_wave(committee, p) && !now.committed.contains(p) implies #[trigger] now.voters(p)
        == referrers(after, p) by {
        assert(now.committed.contains(p) <==> quorum_refers(committee, after, p));
    }
    assert forall|p: BlockRef| !leads_wave(committee, p) implies #[trigger] now.voters(p) == Set::<
        AuthorityIndex,
    >::empty() by {
        assert(now.committed.contains(p) <==> quorum_refers(committee, after, p));
    }
}

/// Whether `event` is the soft commit of `p` with the history that `p` has in `dag`.
pub open spec fn announces_history(event: EventView, p: BlockRef, dag: DagModel) -> bool {
    if dag.stored.contains_key(p) && !dag.committed.contains(p) {
        exists|blocks: Seq<VerifiedBlock>| #[trigger]
            softly_announces(event, p, blocks) && is_history_of(blocks, dag, dag.stored[p])
                && blocks.len() > 0 && blocks[0] == dag.stored[p] && walked_depth_first(blocks)
    } else {
        softly_announces(event, p, Seq::empty())
    }
}

/// Whether `event` is a soft commit, with its leader's history in `dag`, of a leader that a quorum
/// refers to now and did not `before`.
pub open spec fn newly_announces(
    event: EventView,
    dag: DagModel,
    before: Store,
    committee: Committee,
) -> bool {
    exists|p: BlockRef| #[trigger]
        announces_history(event, p, dag) && quorum_refers(committee, dag.stored, p)
            && !quorum_refers(committee, before, p)
}

/// Whether `events[n..]` are hard commits and those before are soft commits.
pub open spec fn soft_then_hard(events: Seq<EventView>, n: int) -> bool {
    &&& 0 <= n <= events.len()
    &&& forall|k: int| 0 <= k < n ==> #[trigger] events[k] is SoftCommit
    &&& forall|k: int| n <= k < events.len() ==> #[trigger] events[k] is HardCommit
}

/// Whether one of `events` is a soft commit of `p`.
pub open spec fn announced_in(events: Seq<EventView>, p: BlockRef) -> bool {
    exists|k: int| 0 <= k < events.len() && announces(#[trigger] events[k], p)
}

/// When a node soft-commits. It reports a leader exactly when, by the blocks handed over, a quorum
/// of authorities comes to have a stored block of the next round that lists it; it does so once,
/// with the history that the leader has then, and before any hard commit. What it has counted are
/// always the blocks that it has stored.
pub proof fn law_soft_commit_when_a_quorum_refers(
    node: NodeModel,
    blocks: Seq<VerifiedBlock>,
    committee: Committee,
)
    requires
        committee.wf(),
        node.sound(committee),
        tallied(node.votes, node.intake.dag.stored, committee),
        forall|i: int| 0 <= i < blocks.len() ==> node.admits(#[trigger] blocks[i], committee),
    ensures
        ({
            let step = node.accept(blocks, committee);
            let before = node.intake.dag.stored;
            let after = step.node.intake.dag.stored;
            let seen = DagModel { stored: after, ..node.intake.dag };
            &&& tallied(step.node.votes, after, committee)
            &&& forall|p: BlockRef| #[trigger]
                announced_in(step.events, p) <==> quorum_refers(committee, after, p)
                    && !quorum_refers(committee, before, p)
            &&& forall|i: int, j: int, p: BlockRef|
                0 <= i < j < step.events.len() && #[trigger] announces(step.events[i], p)
                    ==> !#[trigger] announces(step.events[j], p)
            &&& exists|n: int| #[trigger]
                soft_then_hard(step.events, n) && forall|k: int|
                    0 <= k < n ==> newly_announces(#[trigger] step.events[k], seen, before, committee)
        }),
{
    let step = node.accept(blocks, committee);
    let sorted = by_round(blocks);
    lemma_sorted_fit(node, blocks, committee);
    law_node_stays_sound(node, blocks, committee);
    law_offered_blocks_are_accounted_for(node.intake, sorted, committee);
    law_offers_keep_whole(node.intake, sorted, committee);
    let intake = node.intake.offer_all(sorted, committee);
    let accepted = node.intake.accepted_from_all(sorted, committee);
    let dag = intake.dag;
    let before = node.intake.dag.stored;
    let votes = votes_with_all(node.votes, committee, accepted);
    let soft = all_soft_events(node.votes, dag, committee, accepted);
    lemma_growth_keeps_closed(node.intake, intake, accepted);
    assert(accepts_exactly(node.intake, intake, sorted, accepted));
    lemma_tally_kept(node.votes, committee, before, dag.stored, accepted);
    lemma_all_reports(node.votes, dag, committee, accepted);
    let after = step.node.intake.dag.stored;
    let hard = match decisions(committee, seq![node_options()], dag, node.last) {
        Ok(decided) => hard_events(dag, decided),
        Err(_) => Seq::empty(),
    };
    if let Ok(decided) = decisions(committee, seq![node_options()], dag, node.last) {
        lemma_hard_events_are_hard(dag, decided);
    }
    assert(after == dag.stored);
    assert(step.events =~= soft + hard);
    let events = step.events;
    let seen = DagModel { stored: after, ..node.intake.dag };
    assert forall|k: int| 0 <= k < soft.len() implies (#[trigger] events[k]) is SoftCommit
        && newly_announces(events[k], seen, before, committee) by {
        assert(events[k] == soft[k]);
        let p = choose|p: BlockRef|
            soft[k] == #[trigger] soft_event(dag, p) && !node.votes.committed.contains(p)
                && votes.committed.contains(p);
        law_soft_commit_carries_history(dag, p, committee);
        assert(quorum_refers(committee, dag.stored, p));
        assert(!quorum_refers(committee, before, p));
        if dag.stored.contains_key(p) && !dag.committed.contains(p) {
            let list = choose|list: Seq<VerifiedBlock>| #[trigger]
                softly_announces(soft_event(dag, p), p, list) && is_history_of(
                    list,
                    dag,
                    dag.stored[p],
                ) && list.len() > 0 && list[0] == dag.stored[p] && walked_depth_first(list);
            assert(is_history_of(list, seen, seen.stored[p]));
            assert(softly_announces(events[k], p, list));
        }
        assert(announces_history(events[k], p, seen));
    }
    assert forall|k: int| soft.len() <= k < events.len() implies #[trigger] events[k] is HardCommit by {
        assert(events[k] == hard[k - soft.len()]);
    }
    assert(soft_then_hard(events, soft.len() as int));
    assert forall|p: BlockRef| #[trigger] announced_in(events, p) <==> quorum_refers(
        committee,
        after,
        p,
    ) && !quorum_refers(committee, before, p) by {
        assert(votes.committed.contains(p) <==> quorum_refers(committee, dag.stored, p));
        assert(node.votes.committed.contains(p) <==> quorum_refers(committee, before, p));
        if announced_in(events, p) {
            let k = choose|k: int| 0 <= k < events.len() && announces(#[trigger] events[k], p);
            assert(k < soft.len());
            assert(events[k] == soft[k]);
            let q = choose|q: BlockRef|
                soft[k] == #[trigger] soft_event(dag, q) && !node.votes.committed.contains(q)
                    && votes.committed.contains(q);
            lemma_event_announces(dag, q, p);
        }
        if votes.committed.contains(p) && !node.votes.committed.contains(p) {
            let e = soft_event(dag, p);
            assert(soft.contains(e));
            let k = soft.index_of(e);
            lemma_event_announces(dag, p, p);
            assert(announces(events[k], p));
        }
    }
    assert forall|i: int, j: int, p: BlockRef|
        0 <= i < j < events.len() && #[trigger] announces(events[i], p) implies !#[trigger] announces(
        events[j],
        p,
    ) by {
        if j < soft.len() {
            assert(events[i] == soft[i] && events[j] == soft[j]);
        } else {
            assert(events[j] is HardCommit);
        }
    }
}

proof fn lemma_hard_events_are_hard(dag: DagModel, decided: Seq<DecidedLeader>)
    ensures
        forall|k: int|
            0 <= k < hard_events(dag, decided).len() ==> #[trigger] hard_events(
                dag,
                decided,
            )[k] is HardCommit,
        dag_after(dag, decided).stored == dag.stored,
    decreases decided.len(),
{
    if decided.len() > 0 {
        let front = decided.drop_last();
        lemma_hard_events_are_hard(dag, front);
        let events = hard_events(dag, front);
        assert forall|k: int| 0 <= k < hard_events(dag, decided).len() implies #[trigger] hard_events(
            dag,
            decided,
        )[k] is HardCommit by {
            if k < events.len() {
                assert(hard_events(dag, decided)[k] == events[k]);
            }
        }
    }
}

/// How many of `decided` are commits.
pub open spec fn commits_among(decided: Seq<DecidedLeader>) -> nat
    decreases decided.len(),
{
    if decided.len() == 0 {
        0
    } else {
        commits_among(decided.drop_last()) + if decided.last() is Commit {
            1nat
        } else {
            0
        }
    }
}

/// Whether `event` is the hard commit of `leader` on `dag`, with the leader's history there by
/// round and author.
pub open spec fn commits_history(event: EventView, dag: DagModel, leader: VerifiedBlock) -> bool {
    exists|blocks: Seq<VerifiedBlock>| #[trigger]
        finally_announces(event, leader, blocks, dag.last_index as int, dag.last_timestamp)
            && is_history_of(blocks, dag, leader) && by_round_then_author(blocks)
}

/// How `decided[i]` is carried out, `events` being all hard commits. If it is a commit it makes the
/// event that comes after those of the commits before it, with its history as it is by then, and
/// all of that history is committed after it. If it is a skip nothing changes.
pub open spec fn carried_out(
    dag: DagModel,
    decided: Seq<DecidedLeader>,
    events: Seq<EventView>,
    i: int,
) -> bool {
    let here = dag_after(dag, decided.take(i));
    let next = dag_after(dag, decided.take(i + 1));
    let k = commits_among(decided.take(i)) as int;
    match decided[i] {
        DecidedLeader::Commit(leader, _) => {
            &&& 0 <= k < events.len()
            &&& commits_history(events[k], here, leader)
            &&& next.last_index == here.last_index + 1
            &&& next.last_round == leader.block().round
            &&& next.last_timestamp == events[k]->timestamp_ms
            &&& next.stored == here.stored
            &&& commits_with(here, next, leader)
        },
        DecidedLeader::Skip(_) => next == here,
    }
}

/// Whether committing `leader` takes `here` to `next`: committed are then, besides what was before,
/// the leader and its stored ancestors above the genesis round.
pub open spec fn commits_with(here: DagModel, next: DagModel, leader: VerifiedBlock) -> bool {
    forall|x: BlockRef| #[trigger]
        next.committed.contains(x) <==> here.committed.contains(x) || (here.stored.contains_key(x)
            && x.round > 0 && (x == leader.spec_ref() || leads_to(here.stored, leader, x)))
}

proof fn lemma_commit_carried_out(
    here: DagModel,
    last: Slot,
    leader: VerifiedBlock,
    committee: Committee,
)
    requires
        commits_sound(here, last, committee),
        last.round < leader.block().round,
        here.stored.contains_key(leader.spec_ref()),
        here.stored[leader.spec_ref()] == leader,
    ensures
        commits_history(hard_event(here, leader), here, leader),
        commits_with(here, committed_with(here, leader), leader),
        committed_with(here, leader).last_index == here.last_index + 1,
        committed_with(here, leader).last_timestamp == hard_event(here, leader)->timestamp_ms,
{
    assert(!here.committed.contains(leader.spec_ref()));
    assert(layered(here.stored));
    law_hard_commit_shows_history(here, leader, committee);
    law_commit_covers_history(here, leader);
    let next = committed_with(here, leader);
    assert(here.last_index < u32::MAX);
    assert forall|x: BlockRef| #[trigger]
        next.committed.contains(x) <==> here.committed.contains(x) || (here.stored.contains_key(x)
            && x.round > 0 && (x == leader.spec_ref() || leads_to(here.stored, leader, x))) by {
        assert(sealed(here, leader).committed.contains(x) <==> here.committed.contains(x)
            || has_ref(sub_dag(here, leader), x));
        assert(within(here.stored, leader, x) == (x == leader.spec_ref() || leads_to(
            here.stored,
            leader,
            x,
        )));
    }
}

/// Decided leaders are carried out in order. Each one that is committed makes one event, with its
/// history as it is once those before it are carried out; one that is skipped makes none and
/// changes nothing.
pub proof fn law_decisions_are_carried_out(
    dag: DagModel,
    last: Slot,
    decided: Seq<DecidedLeader>,
    committee: Committee,
)
    requires
        commits_sound(dag, last, committee),
        in_turn(dag, last, decided),
    ensures
        hard_events(dag, decided).len() == commits_among(decided),
        forall|i: int|
            0 <= i < decided.len() ==> #[trigger] carried_out(
                dag,
                decided,
                hard_events(dag, decided),
                i,
            ),
        last_after(last, decided) == if decided.len() == 0 {
            last
        } else {
            decided.last().spec_slot()
        },
    decreases decided.len(),
{
    if decided.len() > 0 {
        let front = decided.drop_last();
        let end = decided.len() - 1;
        assert(decided.take(decided.len() as int) =~= decided);
        assert(decided.take(end) =~= front);
        assert(decided[end] == decided.last());
        lemma_in_turn_prefix(dag, last, decided);
        law_decisions_are_carried_out(dag, last, front, committee);
        law_commits_keep_sound(dag, last, front, committee);
        let events = hard_events(dag, decided);
        let earlier = hard_events(dag, front);
        let here = dag_after(dag, front);
        if let DecidedLeader::Commit(leader, _) = decided.last() {
            lemma_commit_carried_out(here, last_after(last, front), leader, committee);
            assert(events == earlier.push(hard_event(here, leader)));
            assert(events[earlier.len() as int] == hard_event(here, leader));
        }
        assert(carried_out(dag, decided, events, end));
        assert forall|i: int| 0 <= i < decided.len() implies #[trigger] carried_out(
            dag,
            decided,
            events,
            i,
        ) by {
            if i < end {
                assert(front[i] == decided[i]);
                assert(front.take(i) =~= decided.take(i));
                assert(front.take(i + 1) =~= decided.take(i + 1));
                assert(carried_out(dag, front, earlier, i));
                let k = commits_among(decided.take(i)) as int;
                if decided[i] is Commit {
                    assert(events[k] == earlier[k]);
                }
            }
        }
    }
}

/// What a node does with blocks, as a whole. It takes them in by round. If deciding the open slots
/// of what it then has stored fails it reports the conflict and stops there. Otherwise it carries
/// out what is decided, in order, reports each commit after the soft commits, and remembers the last
/// slot decided.
pub proof fn law_accept_as_a_whole(
    node: NodeModel,
    blocks: Seq<VerifiedBlock>,
    committee: Committee,
)
    requires
        node.sound(committee),
        forall|i: int| 0 <= i < blocks.len() ==> node.admits(#[trigger] blocks[i], committee),
    ensures
        ({
            let step = node.accept(blocks, committee);
            let taken = node.intake.offer_all(by_round(blocks), committee);
            let options = seq![
                BaseCommitterOptions { wave_length: 3, leader_offset: 0, round_offset: 0 },
            ];
            let slots = open_slots(
                options,
                committee.members().len(),
                taken.dag.highest,
                node.last,
            );
            &&& step.node.intake.pool == taken.pool
            &&& step.conflict matches Some(e) ==> {
                &&& fails(committee, options, taken.dag, slots, e)
                &&& step.node.intake.dag == taken.dag
                &&& step.node.last == node.last
                &&& forall|k: int|
                    0 <= k < step.events.len() ==> #[trigger] step.events[k] is SoftCommit
            }
            &&& step.conflict is None ==> exists|decided: Seq<DecidedLeader>| #[trigger]
                decides(committee, options, taken.dag, slots, decided) && in_turn(
                    taken.dag,
                    node.last,
                    decided,
                ) && step.node.intake.dag == dag_after(taken.dag, decided) && step.node.last == (
                if decided.len() == 0 {
                    node.last
                } else {
                    decided.last().spec_slot()
                }) && hard_part(step.events) == hard_events(taken.dag, decided)
        }),
{
    let step = node.accept(blocks, committee);
    let sorted = by_round(blocks);
    let taken = node.intake.offer_all(sorted, committee);
    let accepted = node.intake.accepted_from_all(sorted, committee);
    let options = seq![node_options()];
    let dag = taken.dag;
    let soft = all_soft_events(node.votes, dag, committee, accepted);
    let slots = open_slots(options, committee.members().len(), dag.highest, node.last);
    lemma_sorted_fit(node, blocks, committee);
    law_offers_keep_whole(node.intake, sorted, committee);
    lemma_growth_keeps_closed(node.intake, taken, accepted);
    law_decisions_fail_on_conflict(committee, options, dag, node.last);
    law_decisions_up_to_the_first_undecided(committee, options, dag, node.last);
    lemma_all_reports(node.votes, dag, committee, accepted);
    assert forall|k: int| 0 <= k < soft.len() implies #[trigger] soft[k] is SoftCommit by {
        let p = choose|p: BlockRef|
            soft[k] == #[trigger] soft_event(dag, p) && !node.votes.committed.contains(p);
    }
    match decisions(committee, options, dag, node.last) {
        Err(_) => {},
        Ok(decided) => {
            let n = committee.members().len();
            law_decisions_follow_slots(committee, options, dag, node.last);
            law_single_committer_ascends(node_options(), n, dag.highest, node.last);
            assert(in_turn(dag, node.last, decided)) by {
                assert forall|k: int, j: int| 0 <= k < j < decided.len() implies (
                #[trigger] decided[k]).spec_slot().round < (
                #[trigger] decided[j]).spec_slot().round by {
                    assert(slots[k].slot.round < slots[j].slot.round);
                }
                assert forall|k: int| 0 <= k < decided.len() implies node.last.round < (
                #[trigger] decided[k]).spec_slot().round by {
                    assert(node.last.round < slots[k].slot.round);
                }
            }
            lemma_hard_events_are_hard(dag, decided);
            lemma_hard_part(soft, hard_events(dag, decided));
            assert(decides(committee, options, dag, slots, decided));
        },
    }
}

/// The hard commits among `events`, in order.
pub open spec fn hard_part(events: Seq<EventView>) -> Seq<EventView> {
    events.filter(|e: EventView| e is HardCommit)
}

proof fn lemma_hard_part(soft: Seq<EventView>, hard: Seq<EventView>)
    requires
        forall|k: int| 0 <= k < soft.len() ==> #[trigger] soft[k] is SoftCommit,
        forall|k: int| 0 <= k < hard.len() ==> #[trigger] hard[k] is HardCommit,
    ensures
        hard_part(soft + hard) == hard,
{
    let keep = |e: EventView| e is HardCommit;
    Seq::filter_distributes_over_add(soft, hard, keep);
    lemma_keeps_none(soft, keep);
    lemma_keeps_all(hard, keep);
    assert(Seq::<EventView>::empty() + hard =~= hard);
}

proof fn lemma_keeps_none(events: Seq<EventView>, keep: spec_fn(EventView) -> bool)
    requires
        forall|k: int| 0 <= k < events.len() ==> !keep(#[trigger] events[k]),
    ensures
        events.filter(keep) == Seq::<EventView>::empty(),
    decreases events.len(),
{
    reveal(Seq::filter);
    if events.len() > 0 {
        let front = events.drop_last();
        assert forall|k: int| 0 <= k < front.len() implies !keep(#[trigger] front[k]) by {
            assert(front[k] == events[k]);
        }
        assert(!keep(events[events.len() - 1]));
        lemma_keeps_none(front, keep);
    }
}

proof fn lemma_keeps_all(events: Seq<EventView>, keep: spec_fn(EventView) -> bool)
    requires
        forall|k: int| 0 <= k < events.len() ==> keep(#[trigger] events[k]),
    ensures
        events.filter(keep) == events,
    decreases events.len(),
{
    reveal(Seq::filter);
    if events.len() > 0 {
        let front = events.drop_last();
        assert forall|k: int| 0 <= k < front.len() implies keep(#[trigger] front[k]) by {
            assert(front[k] == events[k]);
        }
        assert(keep(events[events.len() - 1]));
        lemma_keeps_all(front, keep);
        assert(front.push(events.last()) =~= events);
    }
}

/// Votes are counted block after block, and soft commits reported in that order.
pub proof fn law_votes_one_block_after_the_other(
    votes: SoftVotes,
    dag: DagModel,
    committee: Committee,
    first: Seq<VerifiedBlock>,
    second: Seq<VerifiedBlock>,
)
    ensures
        votes_with_all(votes, committee, first + second) == votes_with_all(
            votes_with_all(votes, committee, first),
            committee,
            second,
        ),
        all_soft_events(votes, dag, committee, first + second) == all_soft_events(
            votes,
            dag,
            committee,
            first,
        ) + all_soft_events(votes_with_all(votes, committee, first), dag, committee, second),
    decreases second.len(),
{
    if second.len() == 0 {
        assert(first + second =~= first);
        assert(all_soft_events(votes, dag, committee, first) + Seq::<EventView>::empty()
            =~= all_soft_events(votes, dag, committee, first));
    } else {
        let front = second.drop_last();
        law_votes_one_block_after_the_other(votes, dag, committee, first, front);
        assert((first + second).drop_last() =~= first + front);
        assert((first + second).last() == second.last());
        let mid = votes_with_all(votes, committee, first);
        assert(all_soft_events(votes, dag, committee, first + second) =~= all_soft_events(
            votes,
            dag,
            committee,
            first,
        ) + all_soft_events(mid, dag, committee, second));
    }
}

/// Which blocks a node may be handed: those by a member, of a round that is not the last one and not
/// genesis unless stored, whose ancestors all come from earlier rounds.
pub proof fn law_what_a_node_may_be_handed(
    node: NodeModel,
    block: VerifiedBlock,
    committee: Committee,
)
    ensures
        node.admits(block, committee) <==> block.block().author.0 < committee.members().len()
            && block.block().round < u32::MAX && (block.block().round > 0
            || node.intake.dag.stored.contains_key(block.spec_ref())) && forall|p: BlockRef|
            #[trigger] block.parents().contains(p) ==> p.round < block.block().round,
{
}

} // verus!
