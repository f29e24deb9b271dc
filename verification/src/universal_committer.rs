//! Deciding leaders across rounds, in order.

use std::sync::Arc;

use vstd::prelude::*;

use crate::base_committer::{
    anchor_from, backed, certified_by, directly, few_equivocate, indirectly,
    law_no_conflicting_leaders, lemma_elected, lemma_filter_keeps, BaseCommitter,
    BaseCommitterOptions, ConflictingLeaders,
};
use crate::causal::{complete, points_back};
use crate::commit::{DecidedLeader, Decision, LeaderStatus, DEFAULT_WAVE_LENGTH};
use crate::committee::{AuthorityIndex, Committee};
use crate::context::Context;
use crate::dag_state::{DagModel, DagState};
use crate::types::{Round, Slot, VerifiedBlock};

verus! {

/// A leader slot and the position of the committer that elected it.
pub struct Elected {
    pub committer: int,
    pub slot: Slot,
}

/// The slots that the first `k` committers elect at `round` among `n` authorities.
pub open spec fn slots_at(
    committers: Seq<BaseCommitterOptions>,
    n: nat,
    round: Round,
    k: int,
) -> Seq<Elected>
    decreases k,
{
    if k <= 0 {
        Seq::empty()
    } else {
        let before = slots_at(committers, n, round, k - 1);
        match committers[k - 1].elected(round, n) {
            Some(slot) => before.push(Elected { committer: k - 1, slot }),
            None => before,
        }
    }
}

/// The slots elected in the rounds from `low` to `high`, in ascending order.
pub open spec fn slots_between(
    committers: Seq<BaseCommitterOptions>,
    n: nat,
    low: int,
    high: int,
) -> Seq<Elected>
    decreases high - low + 1,
{
    if high < low {
        Seq::empty()
    } else {
        slots_between(committers, n, low, high - 1) + slots_at(
            committers,
            n,
            high as Round,
            committers.len() as int,
        )
    }
}

/// What follows the last occurrence of `slot`; everything if it does not occur.
pub open spec fn after_last(slots: Seq<Elected>, slot: Slot) -> Seq<Elected>
    decreases slots.len(),
{
    if slots.len() == 0 || slots.last().slot == slot {
        Seq::empty()
    } else {
        after_last(slots.drop_last(), slot).push(slots.last())
    }
}

/// The first round that can have a leader after `last`; genesis has none.
pub open spec fn first_open_round(last: Slot) -> int {
    if last.round > 0 {
        last.round as int
    } else {
        1
    }
}

/// The last round whose wave can have come to its decision round.
pub open spec fn last_open_round(highest: Round) -> int {
    if highest >= 2 {
        highest - 2
    } else {
        0
    }
}

/// The slots to be decided after `last`, in ascending order.
pub open spec fn open_slots(
    committers: Seq<BaseCommitterOptions>,
    n: nat,
    highest: Round,
    last: Slot,
) -> Seq<Elected> {
    after_last(
        slots_between(committers, n, first_open_round(last), last_open_round(highest)),
        last,
    )
}

/// Status of a slot by the direct rule or, failing that, by the indirect rule, given the
/// statuses of the later slots.
pub open spec fn decide(
    committee: Committee,
    options: BaseCommitterOptions,
    dag: DagModel,
    slot: Slot,
    later: Seq<LeaderStatus>,
) -> Result<(LeaderStatus, Decision), ConflictingLeaders> {
    match directly(committee, options, dag, slot) {
        Err(e) => Err(e),
        Ok(status) => if status.decided() {
            Ok((status, Decision::Direct))
        } else {
            match indirectly(committee, options, dag, slot, later) {
                Err(e) => Err(e),
                Ok(status) => Ok((status, Decision::Indirect)),
            }
        },
    }
}

/// The statuses alone.
pub open spec fn statuses_of(leaders: Seq<(LeaderStatus, Decision)>) -> Seq<LeaderStatus> {
    leaders.map_values(|l: (LeaderStatus, Decision)| l.0)
}

/// The status of each of `slots`, decided from the last to the first.
pub open spec fn statuses(
    committee: Committee,
    committers: Seq<BaseCommitterOptions>,
    dag: DagModel,
    slots: Seq<Elected>,
) -> Result<Seq<(LeaderStatus, Decision)>, ConflictingLeaders>
    decreases slots.len(),
{
    if slots.len() == 0 {
        Ok(Seq::empty())
    } else {
        match statuses(committee, committers, dag, slots.skip(1)) {
            Err(e) => Err(e),
            Ok(later) => match decide(
                committee,
                committers[slots[0].committer],
                dag,
                slots[0].slot,
                statuses_of(later),
            ) {
                Err(e) => Err(e),
                Ok(leader) => Ok(seq![leader] + later),
            },
        }
    }
}

/// The decisions up to the first leader that is undecided.
pub open spec fn decided_prefix(leaders: Seq<(LeaderStatus, Decision)>) -> Seq<DecidedLeader>
    decreases leaders.len(),
{
    if leaders.len() == 0 {
        Seq::empty()
    } else {
        match leaders[0].0.as_decision(leaders[0].1 == Decision::Direct) {
            Some(decision) => seq![decision] + decided_prefix(leaders.skip(1)),
            None => Seq::empty(),
        }
    }
}

/// The leaders decided after `last`.
pub open spec fn decisions(
    committee: Committee,
    committers: Seq<BaseCommitterOptions>,
    dag: DagModel,
    last: Slot,
) -> Result<Seq<DecidedLeader>, ConflictingLeaders> {
    match statuses(
        committee,
        committers,
        dag,
        open_slots(committers, committee.members().len(), dag.highest, last),
    ) {
        Err(e) => Err(e),
        Ok(leaders) => Ok(decided_prefix(leaders)),
    }
}

/// Whether the rounds up to `highest` leave room for a whole wave of each committer.
pub open spec fn room_for_waves(
    committers: Seq<BaseCommitterOptions>,
    highest: Round,
) -> bool {
    forall|k: int|
        0 <= k < committers.len() ==> highest + (#[trigger] committers[k]).wave_length
            <= u32::MAX + 2
}

/// A block of the store that fills `slot` and is not committed.
pub open spec fn open_leader(dag: DagModel, slot: Slot, b: VerifiedBlock) -> bool {
    let r = b.spec_ref();
    &&& dag.stored.contains_key(r)
    &&& dag.stored[r] == b
    &&& !dag.committed.contains(r)
    &&& r.slot() == slot
}

/// Only uncommitted blocks of the slot are ever committed for it, and a status is always
/// about the slot it was asked for.
pub proof fn lemma_decide(
    committee: Committee,
    options: BaseCommitterOptions,
    dag: DagModel,
    slot: Slot,
    later: Seq<LeaderStatus>,
)
    requires
        dag.valid(committee),
    ensures
        directly(committee, options, dag, slot) matches Ok(LeaderStatus::Commit(b)) ==> open_leader(
            dag,
            slot,
            b,
        ),
        decide(committee, options, dag, slot, later) matches Ok((LeaderStatus::Commit(b), _))
            ==> open_leader(dag, slot, b),
        decide(committee, options, dag, slot, later) matches Ok((LeaderStatus::Skip(s), _)) ==> s
            == slot,
        decide(committee, options, dag, slot, later) matches Ok((LeaderStatus::Undecided(s), _))
            ==> s == slot,
{
    let leaders = dag.open_at_slot(slot);
    dag.lemma_fetched(dag.open_refs_at_slot(slot));
    let round = options.decision_round_of(options.wave_of(slot.round)) as Round;
    lemma_filter_keeps(leaders, |l: VerifiedBlock| backed(committee, dag, round, l));
    match anchor_from(later, slot.round + options.wave_length, 0) {
        Some(LeaderStatus::Commit(anchor)) => {
            let certs = dag.ancestors(anchor, round);
            lemma_filter_keeps(
                leaders,
                |l: VerifiedBlock| certified_by(committee, dag.stored, certs, l),
            );
        },
        _ => {},
    }
}

/// Whether all of `committers` decide for `committee`.
pub open spec fn all_serve(committers: Seq<BaseCommitter>, committee: Committee) -> bool {
    forall|k: int|
        #![trigger committers[k]]
        0 <= k < committers.len() ==> committers[k].wf() && committers[k].spec_committee()
            == committee
}

/// Drives commit decisions using one or more committers.
#[derive(Debug)]
pub struct UniversalCommitter {
    pub(crate) context: Arc<Context>,
    pub(crate) committers: Vec<BaseCommitter>,
}

proof fn lemma_after_last(before: Seq<Elected>, done: Seq<Elected>, slot: Slot)
    requires
        before.len() == 0 || before.last().slot == slot,
        forall|i: int| 0 <= i < done.len() ==> (#[trigger] done[i]).slot != slot,
    ensures
        after_last(before + done, slot) == done,
    decreases done.len(),
{
    if done.len() == 0 {
        assert(before + done =~= before);
    } else {
        let all = before + done;
        assert(all.last() == done[done.len() - 1]);
        assert(all.drop_last() =~= before + done.drop_last());
        assert forall|i: int| 0 <= i < done.drop_last().len() implies (
        #[trigger] done.drop_last()[i]).slot != slot by {
            assert(done.drop_last()[i] == done[i]);
        }
        lemma_after_last(before, done.drop_last(), slot);
        assert(done.drop_last().push(done.last()) =~= done);
    }
}

impl UniversalCommitter {
    /// The options of the committers, in order.
    pub open(crate) spec fn options(&self) -> Seq<BaseCommitterOptions> {
        options_of(self.committers@)
    }

    pub open(crate) spec fn spec_committee(&self) -> Committee {
        *self.context.committee
    }

    pub open(crate) spec fn wf(&self) -> bool {
        &&& self.context.wf()
        &&& all_serve(self.committers@, self.spec_committee())
    }

    /// Status of one slot.
    fn decide_slot(&self, dag: &DagState, k: usize, slot: Slot, later: &Vec<LeaderStatus>) -> (r:
        Result<(LeaderStatus, Decision), ConflictingLeaders>)
        requires
            self.wf(),
            dag.wf(),
            dag.spec_committee() == self.spec_committee(),
            complete(dag@.stored),
            k < self.committers@.len(),
            self.options()[k as int].can_decide(slot),
            forall|i: int|
                #![trigger later@[i]]
                0 <= i < later@.len() ==> (later@[i] matches LeaderStatus::Commit(b)
                    ==> points_back(b)),
        ensures
            r == decide(self.spec_committee(), self.options()[k as int], dag@, slot, later@),
            r matches Ok((LeaderStatus::Commit(b), _)) ==> points_back(b),
    {
        let committer = &self.committers[k];
        proof {
            lemma_decide(self.spec_committee(), self.options()[k as int], dag@, slot, later@);
        }
        let status = match committer.try_direct_decide(dag, slot) {
            Err(e) => {
                return Err(e);
            },
            Ok(status) => status,
        };
        if status.is_decided() {
            return Ok((status, Decision::Direct));
        }
        match committer.try_indirect_decide(dag, slot, later.as_slice()) {
            Err(e) => Err(e),
            Ok(status) => Ok((status, Decision::Indirect)),
        }
    }

    /// Try to decide as many leaders as possible, starting after `last_decided`.
    /// Returns decided leaders in ascending round order.
    pub fn try_decide(&self, dag: &DagState, last_decided: Slot) -> (r: Result<
        Vec<DecidedLeader>,
        ConflictingLeaders,
    >)
        requires
            self.wf(),
            dag.wf(),
            dag.spec_committee() == self.spec_committee(),
            complete(dag@.stored),
            room_for_waves(self.options(), dag@.highest),
        ensures
            match decisions(self.spec_committee(), self.options(), dag@, last_decided) {
                Err(e) => r == Err::<Vec<DecidedLeader>, ConflictingLeaders>(e),
                Ok(decided) => r is Ok && r->Ok_0@ == decided,
            },
    {
        let ghost committee = self.spec_committee();
        let ghost options = self.options();
        let ghost n = committee.members().len();
        let highest_accepted_round = dag.highest_accepted_round();
        let low: Round = if last_decided.round > 0 {
            last_decided.round
        } else {
            1
        };
        let high: Round = if highest_accepted_round >= 2 {
            highest_accepted_round - 2
        } else {
            0
        };
        let ghost all = slots_between(options, n, low as int, high as int);
        let ghost mut done: Seq<Elected> = Seq::empty();
        let mut leaders: Vec<LeaderStatus> = Vec::new();
        let mut how: Vec<Decision> = Vec::new();
        let mut round: Round = high;
        let mut stopped = false;
        let ghost mut paired: Seq<(LeaderStatus, Decision)> = Seq::empty();
        assert(all =~= slots_between(options, n, low as int, round as int) + done);
        assert(statuses_of(paired) =~= leaders@);
        while !stopped && round >= low
            invariant
                self.wf(),
                dag.wf(),
                dag.spec_committee() == self.spec_committee(),
                committee == self.spec_committee(),
                options == self.options(),
                n == committee.members().len(),
                complete(dag@.stored),
                room_for_waves(options, dag@.highest),
                1 <= low,
                low == first_open_round(last_decided),
                high == last_open_round(dag@.highest),
                round <= high,
                all == slots_between(options, n, low as int, high as int),
                paired.len() == leaders@.len() == how@.len(),
                forall|i: int|
                    0 <= i < paired.len() ==> #[trigger] paired[i] == (leaders@[i], how@[i]),
                statuses_of(paired) == leaders@,
                statuses(committee, options, dag@, done) == Ok::<_, ConflictingLeaders>(paired),
                forall|i: int| 0 <= i < done.len() ==> (#[trigger] done[i]).slot != last_decided,
                forall|i: int|
                    #![trigger leaders@[i]]
                    0 <= i < leaders@.len() ==> (leaders@[i] matches LeaderStatus::Commit(b)
                        ==> points_back(b)),
                stopped ==> after_last(all, last_decided) == done,
                !stopped ==> all == slots_between(options, n, low as int, round as int) + done,
            decreases (if stopped { 0int } else { round + 1 }),
        {
            let ghost under = slots_between(options, n, low as int, round - 1);
            let mut j: usize = self.committers.len();
            let ghost total = self.committers@.len();
            assert(all =~= under + slots_at(options, n, round, j as int) + done);
            while !stopped && j > 0
                invariant
                    self.wf(),
                    dag.wf(),
                    dag.spec_committee() == self.spec_committee(),
                    committee == self.spec_committee(),
                    options == self.options(),
                    n == committee.members().len(),
                    complete(dag@.stored),
                    room_for_waves(options, dag@.highest),
                    1 <= low <= round <= high,
                    low == first_open_round(last_decided),
                    all == slots_between(options, n, low as int, high as int),
                    high == last_open_round(dag@.highest),
                    total == self.committers@.len(),
                    j <= total,
                    paired.len() == leaders@.len() == how@.len(),
                    forall|i: int|
                        0 <= i < paired.len() ==> #[trigger] paired[i] == (leaders@[i], how@[i]),
                    statuses_of(paired) == leaders@,
                    statuses(committee, options, dag@, done) == Ok::<_, ConflictingLeaders>(
                        paired,
                    ),
                    forall|i: int|
                        0 <= i < done.len() ==> (#[trigger] done[i]).slot != last_decided,
                    forall|i: int|
                        #![trigger leaders@[i]]
                        0 <= i < leaders@.len() ==> (leaders@[i] matches LeaderStatus::Commit(b)
                            ==> points_back(b)),
                    stopped ==> after_last(all, last_decided) == done,
                    !stopped ==> all == under + slots_at(options, n, round, j as int) + done,
                decreases j,
            {
                j -= 1;
                let committer = &self.committers[j];
                let ghost before = slots_at(options, n, round, j as int);
                match committer.elect_leader(round) {
                    None => {},
                    Some(slot) => {
                        let ghost elected = Elected { committer: j as int, slot };
                        proof {
                            assert(options[j as int] == committer.spec_options());
                            assert(slots_at(options, n, round, j + 1) == before.push(elected));
                        }
                        if slot == last_decided {
                            stopped = true;
                            proof {
                                lemma_after_last(under + before.push(elected), done, last_decided);
                            }
                        } else {
                            proof {
                                lemma_elected(options[j as int], round, n);
                                assert(options[j as int].can_decide(slot));
                            }
                            let decision = self.decide_slot(dag, j, slot, &leaders);
                            let ghost next = seq![elected] + done;
                            proof {
                                assert(next.skip(1) =~= done);
                                assert(next[0] == elected);
                                assert(all =~= under + before + next);
                            }
                            match decision {
                                Err(e) => {
                                    proof {
                                        assert(statuses(committee, options, dag@, next) == Err::<
                                            Seq<(LeaderStatus, Decision)>,
                                            _,
                                        >(e));
                                        lemma_conflict_stays(
                                            committee,
                                            options,
                                            dag@,
                                            under + before,
                                            next,
                                            last_decided,
                                        );
                                    }
                                    return Err(e);
                                },
                                Ok((status, rule)) => {
                                    let ghost leader = (status, rule);
                                    leaders.insert(0, status);
                                    how.insert(0, rule);
                                    proof {
                                        let longer = seq![leader] + paired;
                                        assert(statuses_of(longer) =~= leaders@);
                                        assert(statuses(committee, options, dag@, next) == Ok::<
                                            _,
                                            ConflictingLeaders,
                                        >(longer));
                                        paired = longer;
                                        done = next;
                                    }
                                },
                            }
                        }
                    },
                }
            }
            if !stopped {
                assert(all =~= under + done);
                round = round - 1;
            }
        }
        proof {
            if !stopped {
                assert(slots_between(options, n, low as int, round as int) =~= Seq::<
                    Elected,
                >::empty());
                assert(all =~= Seq::<Elected>::empty() + done);
                lemma_after_last(Seq::empty(), done, last_decided);
            }
            assert(after_last(all, last_decided) == done);
        }
        // The committed sequence is the longest prefix of decided leaders.
        let mut decided_leaders: Vec<DecidedLeader> = Vec::new();
        let mut i: usize = 0;
        let ghost goal = decided_prefix(paired);
        assert(paired.skip(0) =~= paired);
        assert(decided_leaders@ + decided_prefix(paired.skip(0)) =~= goal);
        while i < leaders.len() && leaders[i].is_decided()
            invariant
                i <= leaders@.len() == paired.len(),
                paired.len() == how@.len(),
                forall|k: int|
                    0 <= k < paired.len() ==> #[trigger] paired[k] == (leaders@[k], how@[k]),
                decided_leaders@ + decided_prefix(paired.skip(i as int)) == goal,
            decreases leaders@.len() - i,
        {
            let ghost here = paired.skip(i as int);
            let direct = how[i] == Decision::Direct;
            proof {
                assert(here[0] == paired[i as int]);
                assert(here.skip(1) =~= paired.skip(i + 1));
            }
            let ghost before = decided_leaders@;
            match leaders[i].clone().into_decided_leader(direct) {
                Some(decided_leader) => {
                    decided_leaders.push(decided_leader);
                    assert(decided_leaders@ + decided_prefix(paired.skip(i + 1)) =~= before
                        + decided_prefix(here));
                },
                None => {},
            }
            i += 1;
        }
        proof {
            let here = paired.skip(i as int);
            if i < leaders@.len() {
                assert(here[0] == paired[i as int]);
            }
            assert(decided_prefix(here) =~= Seq::<DecidedLeader>::empty());
            assert(decided_leaders@ =~= goal);
        }
        Ok(decided_leaders)
    }

    /// The leaders at `round` across all committers.
    pub fn get_leaders(&self, round: Round) -> (r: Vec<AuthorityIndex>)
        requires
            self.wf(),
        ensures
            r@ == slots_at(
                self.options(),
                self.spec_committee().members().len(),
                round,
                self.options().len() as int,
            ).map_values(|e: Elected| e.slot.authority),
    {
        let ghost n = self.spec_committee().members().len();
        let ghost options = self.options();
        let mut out: Vec<AuthorityIndex> = Vec::new();
        let mut k: usize = 0;
        assert(out@ =~= slots_at(options, n, round, 0).map_values(
            |e: Elected| e.slot.authority,
        ));
        while k < self.committers.len()
            invariant
                self.wf(),
                options == self.options(),
                n == self.spec_committee().members().len(),
                k <= self.committers@.len(),
                out@ == slots_at(options, n, round, k as int).map_values(
                    |e: Elected| e.slot.authority,
                ),
            decreases self.committers@.len() - k,
        {
            let ghost before = slots_at(options, n, round, k as int);
            let committer = &self.committers[k];
            assert(options[k as int] == committer.spec_options());
            match committer.elect_leader(round) {
                Some(slot) => {
                    out.push(slot.authority);
                    assert(out@ =~= before.push(
                        Elected { committer: k as int, slot },
                    ).map_values(|e: Elected| e.slot.authority));
                },
                None => {},
            }
            k += 1;
        }
        out
    }
}

/// Options for `k` leaders per round at one round offset.
pub open spec fn leaders_at_offset(wave_length: Round, round_offset: Round, k: nat) -> Seq<
    BaseCommitterOptions,
> {
    Seq::new(
        k,
        |i: int| BaseCommitterOptions { wave_length, leader_offset: i as u32, round_offset },
    )
}

/// Options for `k` leaders in each of the first `offsets` rounds of a wave.
pub open spec fn pipelined(wave_length: Round, k: nat, offsets: int) -> Seq<BaseCommitterOptions>
    decreases offsets,
{
    if offsets <= 0 {
        Seq::empty()
    } else {
        pipelined(wave_length, k, offsets - 1) + leaders_at_offset(
            wave_length,
            (offsets - 1) as Round,
            k,
        )
    }
}

/// Assembles a [`UniversalCommitter`].
#[derive(Debug)]
pub struct UniversalCommitterBuilder {
    pub(crate) context: Arc<Context>,
    pub(crate) wave_length: Round,
    pub(crate) number_of_leaders: usize,
    pub(crate) pipeline: bool,
}

impl UniversalCommitterBuilder {
    pub open(crate) spec fn spec_context(&self) -> Context {
        *self.context
    }

    pub open(crate) spec fn spec_wave_length(&self) -> Round {
        self.wave_length
    }

    pub open(crate) spec fn leaders_per_round(&self) -> usize {
        self.number_of_leaders
    }

    pub open(crate) spec fn pipelines(&self) -> bool {
        self.pipeline
    }

    /// The options that the committers will have: one per leader, in every round of the
    /// wave if pipelined, otherwise in its first.
    pub open spec fn planned(&self) -> Seq<BaseCommitterOptions> {
        if self.pipelines() {
            pipelined(
                self.spec_wave_length(),
                self.leaders_per_round() as nat,
                self.spec_wave_length() as int,
            )
        } else {
            leaders_at_offset(self.spec_wave_length(), 0, self.leaders_per_round() as nat)
        }
    }

    pub fn new(context: Arc<Context>) -> (r: Self)
        requires
            context.wf(),
        ensures
            r.spec_context() == *context,
            r.spec_wave_length() == DEFAULT_WAVE_LENGTH,
            r.leaders_per_round() == 1,
            !r.pipelines(),
    {
        UniversalCommitterBuilder {
            context,
            wave_length: DEFAULT_WAVE_LENGTH,
            number_of_leaders: 1,
            pipeline: false,
        }
    }

    pub fn with_wave_length(self, wave_length: Round) -> (r: Self)
        ensures
            r.spec_context() == self.spec_context(),
            r.spec_wave_length() == wave_length,
            r.leaders_per_round() == self.leaders_per_round(),
            r.pipelines() == self.pipelines(),
    {
        UniversalCommitterBuilder { wave_length, ..self }
    }

    pub fn with_number_of_leaders(self, n: usize) -> (r: Self)
        ensures
            r.spec_context() == self.spec_context(),
            r.spec_wave_length() == self.spec_wave_length(),
            r.leaders_per_round() == n,
            r.pipelines() == self.pipelines(),
    {
        UniversalCommitterBuilder { number_of_leaders: n, ..self }
    }

    pub fn with_pipeline(self, pipeline: bool) -> (r: Self)
        ensures
            r.spec_context() == self.spec_context(),
            r.spec_wave_length() == self.spec_wave_length(),
            r.leaders_per_round() == self.leaders_per_round(),
            r.pipelines() == pipeline,
    {
        UniversalCommitterBuilder { pipeline, ..self }
    }

    /// Adds a committer per leader at `round_offset`.
    fn push_committers(&self, committers: &mut Vec<BaseCommitter>, round_offset: Round)
        requires
            self.spec_context().wf(),
            self.spec_wave_length() >= 3,
            self.leaders_per_round() <= u32::MAX,
            all_serve(old(committers)@, self.spec_context().spec_committee()),
        ensures
            all_serve(final(committers)@, self.spec_context().spec_committee()),
            options_of(final(committers)@) == options_of(old(committers)@) + leaders_at_offset(
                self.spec_wave_length(),
                round_offset,
                self.leaders_per_round() as nat,
            ),
    {
        let mut leader_offset: u32 = 0;
        let limit: u32 = self.number_of_leaders as u32;
        let ghost before = options_of(committers@);
        assert(options_of(committers@) =~= before + leaders_at_offset(
            self.wave_length,
            round_offset,
            0,
        ));
        while leader_offset < limit
            invariant
                self.spec_context().wf(),
                self.spec_wave_length() >= 3,
                limit == self.leaders_per_round(),
                leader_offset <= limit,
                all_serve(committers@, self.spec_context().spec_committee()),
                options_of(committers@) == before + leaders_at_offset(
                    self.wave_length,
                    round_offset,
                    leader_offset as nat,
                ),
            decreases limit - leader_offset,
        {
            let ghost so_far = committers@;
            let options = BaseCommitterOptions {
                wave_length: self.wave_length,
                leader_offset,
                round_offset,
            };
            let committer = BaseCommitter::new(self.context.clone(), options);
            committers.push(committer);
            proof {
                assert(options_of(committers@) =~= options_of(so_far).push(options));
                assert(options_of(committers@) =~= before + leaders_at_offset(
                    self.wave_length,
                    round_offset,
                    (leader_offset + 1) as nat,
                ));
            }
            leader_offset += 1;
        }
    }

    pub fn build(self) -> (r: UniversalCommitter)
        requires
            self.spec_context().wf(),
            self.spec_wave_length() >= 3,
            0 < self.leaders_per_round() <= u32::MAX,
        ensures
            r.wf(),
            r.spec_committee() == self.spec_context().spec_committee(),
            r.options() == self.planned(),
    {
        let mut committers: Vec<BaseCommitter> = Vec::new();
        assert(options_of(committers@) =~= Seq::<BaseCommitterOptions>::empty());
        if self.pipeline {
            let mut round_offset: Round = 0;
            while round_offset < self.wave_length
                invariant
                    self.spec_context().wf(),
                    self.spec_wave_length() >= 3,
                    0 < self.leaders_per_round() <= u32::MAX,
                    round_offset <= self.wave_length,
                    all_serve(committers@, self.spec_context().spec_committee()),
                    options_of(committers@) == pipelined(
                        self.wave_length,
                        self.number_of_leaders as nat,
                        round_offset as int,
                    ),
                decreases self.wave_length - round_offset,
            {
                self.push_committers(&mut committers, round_offset);
                round_offset += 1;
            }
        } else {
            self.push_committers(&mut committers, 0);
            assert(options_of(committers@) =~= self.planned());
        }
        UniversalCommitter { context: self.context, committers }
    }
}

/// The options of `committers`.
pub open spec fn options_of(committers: Seq<BaseCommitter>) -> Seq<BaseCommitterOptions> {
    committers.map_values(|c: BaseCommitter| c.spec_options())
}

/// A conflict among the last slots is a conflict among all of them.
proof fn lemma_conflict_stays(
    committee: Committee,
    committers: Seq<BaseCommitterOptions>,
    dag: DagModel,
    before: Seq<Elected>,
    done: Seq<Elected>,
    last: Slot,
)
    requires
        statuses(committee, committers, dag, done) is Err,
        forall|i: int| 0 <= i < done.len() ==> (#[trigger] done[i]).slot != last,
    ensures
        statuses(committee, committers, dag, after_last(before + done, last)) == statuses(
            committee,
            committers,
            dag,
            done,
        ),
    decreases before.len(),
{
    if before.len() == 0 || before.last().slot == last {
        lemma_after_last(before, done, last);
    } else {
        let more = seq![before.last()] + done;
        assert(more.skip(1) =~= done);
        assert(before + done =~= before.drop_last() + more);
        assert forall|i: int| 0 <= i < more.len() implies (#[trigger] more[i]).slot != last by {
            if i > 0 {
                assert(more[i] == done[i - 1]);
            }
        }
        lemma_conflict_stays(committee, committers, dag, before.drop_last(), more, last);
    }
}

/// Each status is about its slot, and commits only an uncommitted block of it.
pub open spec fn about(dag: DagModel, slot: Slot, leader: (LeaderStatus, Decision)) -> bool {
    match leader.0 {
        LeaderStatus::Commit(b) => open_leader(dag, slot, b),
        LeaderStatus::Skip(s) => s == slot,
        LeaderStatus::Undecided(s) => s == slot,
    }
}

proof fn lemma_statuses(
    committee: Committee,
    committers: Seq<BaseCommitterOptions>,
    dag: DagModel,
    slots: Seq<Elected>,
)
    requires
        dag.valid(committee),
    ensures
        statuses(committee, committers, dag, slots) matches Ok(leaders) ==> {
            &&& leaders.len() == slots.len()
            &&& forall|i: int|
                0 <= i < slots.len() ==> about(dag, slots[i].slot, #[trigger] leaders[i])
        },
    decreases slots.len(),
{
    if slots.len() > 0 {
        lemma_statuses(committee, committers, dag, slots.skip(1));
        match statuses(committee, committers, dag, slots.skip(1)) {
            Err(_) => {},
            Ok(later) => {
                lemma_decide(
                    committee,
                    committers[slots[0].committer],
                    dag,
                    slots[0].slot,
                    statuses_of(later),
                );
                match statuses(committee, committers, dag, slots) {
                    Err(_) => {},
                    Ok(leaders) => {
                        assert forall|i: int| 0 <= i < slots.len() implies about(
                            dag,
                            slots[i].slot,
                            #[trigger] leaders[i],
                        ) by {
                            if i > 0 {
                                assert(leaders[i] == later[i - 1]);
                                assert(slots.skip(1)[i - 1] == slots[i]);
                                assert(about(dag, slots.skip(1)[i - 1].slot, later[i - 1]));
                            }
                        }
                    },
                }
            },
        }
    }
}

proof fn lemma_decided_prefix(leaders: Seq<(LeaderStatus, Decision)>)
    ensures
        decided_prefix(leaders).len() <= leaders.len(),
        forall|i: int|
            0 <= i < decided_prefix(leaders).len() ==> leaders[i].0.as_decision(
                leaders[i].1 == Decision::Direct,
            ) == Some(#[trigger] decided_prefix(leaders)[i]),
        decided_prefix(leaders).len() < leaders.len()
            ==> !leaders[decided_prefix(leaders).len() as int].0.decided(),
    decreases leaders.len(),
{
    if leaders.len() > 0 {
        match leaders[0].0.as_decision(leaders[0].1 == Decision::Direct) {
            Some(decision) => {
                let rest = decided_prefix(leaders.skip(1));
                lemma_decided_prefix(leaders.skip(1));
                let out = decided_prefix(leaders);
                assert forall|i: int| 0 <= i < out.len() implies leaders[i].0.as_decision(
                    leaders[i].1 == Decision::Direct,
                ) == Some(#[trigger] out[i]) by {
                    if i > 0 {
                        assert(out[i] == rest[i - 1]);
                        assert(leaders.skip(1)[i - 1] == leaders[i]);
                    }
                }
                if out.len() < leaders.len() {
                    assert(leaders.skip(1)[rest.len() as int] == leaders[out.len() as int]);
                }
            },
            None => {},
        }
    }
}

/// Decisions come one per open slot, in the order of the slots, without a gap; a committed
/// block is an uncommitted block of its slot.
pub proof fn law_decisions_follow_slots(
    committee: Committee,
    committers: Seq<BaseCommitterOptions>,
    dag: DagModel,
    last: Slot,
)
    requires
        dag.valid(committee),
    ensures
        decisions(committee, committers, dag, last) matches Ok(decided) ==> {
            let slots = open_slots(committers, committee.members().len(), dag.highest, last);
            &&& decided.len() <= slots.len()
            &&& forall|i: int|
                0 <= i < decided.len() ==> (#[trigger] decided[i]).spec_slot() == slots[i].slot
            &&& forall|i: int|
                #![trigger decided[i]]
                0 <= i < decided.len() ==> (decided[i] matches DecidedLeader::Commit(b, _)
                    ==> open_leader(dag, slots[i].slot, b))
        },
{
    let slots = open_slots(committers, committee.members().len(), dag.highest, last);
    lemma_statuses(committee, committers, dag, slots);
    match statuses(committee, committers, dag, slots) {
        Err(_) => {},
        Ok(leaders) => {
            lemma_decided_prefix(leaders);
            let decided = decided_prefix(leaders);
            assert forall|i: int| 0 <= i < decided.len() implies (
            #[trigger] decided[i]).spec_slot() == slots[i].slot && (
            decided[i] matches DecidedLeader::Commit(b, _) ==> open_leader(
                dag,
                slots[i].slot,
                b,
            )) by {
                assert(about(dag, slots[i].slot, leaders[i]));
            }
        },
    }
}

/// What the slots between two rounds look like with a single committer: one per wave, in
/// ascending order.
proof fn lemma_single_slots(options: BaseCommitterOptions, n: nat, low: int, high: int)
    requires
        0 <= low,
        high <= u32::MAX,
    ensures
        ({
            let slots = slots_between(seq![options], n, low, high);
            &&& forall|i: int|
                0 <= i < slots.len() ==> {
                    let e = #[trigger] slots[i];
                    &&& e.committer == 0
                    &&& low <= e.slot.round <= high
                    &&& options.elected(e.slot.round, n) == Some(e.slot)
                }
            &&& forall|i: int, j: int|
                0 <= i < j < slots.len() ==> (#[trigger] slots[i]).slot.round < (
                #[trigger] slots[j]).slot.round
        }),
    decreases high - low + 1,
{
    if low <= high {
        lemma_single_slots(options, n, low, high - 1);
        let committers = seq![options];
        let front = slots_between(committers, n, low, high - 1);
        let back = slots_at(committers, n, high as Round, 1);
        let all = slots_between(committers, n, low, high);
        assert(committers.len() == 1);
        assert(all == front + back);
        reveal_with_fuel(slots_at, 2);
        assert(committers[0] == options);
        assert(back.len() <= 1);
        assert forall|i: int| 0 <= i < all.len() implies {
            let e = #[trigger] all[i];
            &&& e.committer == 0
            &&& low <= e.slot.round <= high
            &&& options.elected(e.slot.round, n) == Some(e.slot)
        } by {
            if i < front.len() {
                assert(all[i] == front[i]);
            }
        }
        assert forall|i: int, j: int| 0 <= i < j < all.len() implies (#[trigger] all[i]).slot.round
            < (#[trigger] all[j]).slot.round by {
            assert(all[i] == front[i]);
            if j < front.len() {
                assert(all[j] == front[j]);
            }
        }
    }
}

proof fn lemma_after_last_suffix(slots: Seq<Elected>, slot: Slot)
    ensures
        after_last(slots, slot).len() <= slots.len(),
        after_last(slots, slot) == slots.skip(slots.len() - after_last(slots, slot).len()),
        forall|i: int|
            0 <= i < after_last(slots, slot).len() ==> (#[trigger] after_last(
                slots,
                slot,
            )[i]).slot != slot,
    decreases slots.len(),
{
    if slots.len() > 0 && slots.last().slot != slot {
        lemma_after_last_suffix(slots.drop_last(), slot);
        let rest = after_last(slots.drop_last(), slot);
        let out = after_last(slots, slot);
        let at = slots.len() - out.len();
        assert(slots.drop_last().skip(at).push(slots.last()) =~= slots.skip(at));
    } else {
        assert(after_last(slots, slot) =~= slots.skip(slots.len() as int));
    }
}

/// With a single committer the open slots ascend strictly by round, all after `last`, and
/// leave room for their decision round.
pub proof fn law_single_committer_ascends(
    options: BaseCommitterOptions,
    n: nat,
    highest: Round,
    last: Slot,
)
    requires
        last.round == 0 || options.elected(last.round, n) == Some(last),
    ensures
        ({
            let slots = open_slots(seq![options], n, highest, last);
            &&& forall|i: int|
                0 <= i < slots.len() ==> {
                    let e = #[trigger] slots[i];
                    &&& last.round < e.slot.round
                    &&& e.slot.round + 2 <= highest
                    &&& options.elected(e.slot.round, n) == Some(e.slot)
                }
            &&& forall|i: int, j: int|
                0 <= i < j < slots.len() ==> (#[trigger] slots[i]).slot.round < (
                #[trigger] slots[j]).slot.round
        }),
{
    let low = first_open_round(last);
    let high = last_open_round(highest);
    let all = slots_between(seq![options], n, low, high);
    lemma_single_slots(options, n, low, high);
    lemma_after_last_suffix(all, last);
    let slots = open_slots(seq![options], n, highest, last);
    let at = all.len() - slots.len();
    assert forall|i: int| 0 <= i < slots.len() implies #[trigger] slots[i] == all[at + i] by {}
    assert forall|i: int| 0 <= i < slots.len() implies {
        let e = #[trigger] slots[i];
        &&& last.round < e.slot.round
        &&& e.slot.round + 2 <= highest
        &&& options.elected(e.slot.round, n) == Some(e.slot)
    } by {
        assert(slots[i] == all[at + i]);
        assert(slots[i].slot != last);
    }
    assert forall|i: int, j: int| 0 <= i < j < slots.len() implies (#[trigger] slots[i]).slot.round
        < (#[trigger] slots[j]).slot.round by {
        assert(all[at + i].slot.round < all[at + j].slot.round);
    }
}

/// With the tolerated amount of equivocation and waves of three rounds, deciding never runs
/// into conflicting leaders.
pub proof fn law_decisions_never_conflict(
    committee: Committee,
    committers: Seq<BaseCommitterOptions>,
    dag: DagModel,
    slots: Seq<Elected>,
)
    requires
        committee.wf(),
        dag.valid(committee),
        complete(dag.stored),
        few_equivocate(committee, dag.stored),
        forall|i: int|
            #![trigger slots[i]]
            0 <= i < slots.len() ==> {
                let options = committers[slots[i].committer];
                &&& options.wave_length == 3
                &&& options.elected(slots[i].slot.round, committee.members().len()) == Some(
                    slots[i].slot,
                )
                &&& options.can_decide(slots[i].slot)
            },
    ensures
        statuses(committee, committers, dag, slots) is Ok,
    decreases slots.len(),
{
    if slots.len() > 0 {
        let rest = slots.skip(1);
        assert forall|i: int|
            #![trigger rest[i]]
            0 <= i < rest.len() implies {
            let options = committers[rest[i].committer];
            &&& options.wave_length == 3
            &&& options.elected(rest[i].slot.round, committee.members().len()) == Some(
                rest[i].slot,
            )
            &&& options.can_decide(rest[i].slot)
        } by {
            assert(rest[i] == slots[i + 1]);
        }
        law_decisions_never_conflict(committee, committers, dag, rest);
        let later = statuses(committee, committers, dag, rest)->Ok_0;
        let options = committers[slots[0].committer];
        let slot = slots[0].slot;
        match anchor_from(statuses_of(later), slot.round + options.wave_length, 0) {
            Some(LeaderStatus::Commit(anchor)) => {
                law_no_conflicting_leaders(committee, options, dag, slot, anchor);
            },
            _ => {
                let some_block = arbitrary::<VerifiedBlock>();
                law_no_conflicting_leaders(committee, options, dag, slot, some_block);
            },
        }
    }
}

proof fn lemma_pipelined(wave_length: Round, k: nat, offsets: int, o: int, i: int)
    requires
        0 <= o < offsets <= u32::MAX,
        0 <= i < k <= u32::MAX,
    ensures
        pipelined(wave_length, k, offsets).len() == offsets * k,
        o * k + i < offsets * k,
        pipelined(wave_length, k, offsets)[o * k + i] == (BaseCommitterOptions {
            wave_length,
            leader_offset: i as u32,
            round_offset: o as Round,
        }),
    decreases offsets,
{
    let before = pipelined(wave_length, k, offsets - 1);
    let last = leaders_at_offset(wave_length, (offsets - 1) as Round, k);
    assert(offsets * k == (offsets - 1) * k + k) by (nonlinear_arith);
    if offsets == 1 {
        assert(before =~= Seq::<BaseCommitterOptions>::empty());
        assert(o == 0);
        assert(0 * k == 0) by (nonlinear_arith);
    } else if o < offsets - 1 {
        lemma_pipelined(wave_length, k, offsets - 1, o, i);
        assert(pipelined(wave_length, k, offsets)[o * k + i] == before[o * k + i]);
    } else {
        lemma_pipelined(wave_length, k, offsets - 1, 0, i);
        assert(pipelined(wave_length, k, offsets)[o * k + i] == last[i]);
    }
}

/// The committers that a builder plans: one for each leader of a round, with the leader's number as
/// its offset; and with pipelining that for each round of a wave, round after round.
pub proof fn law_one_committer_per_leader(builder: UniversalCommitterBuilder, o: int, i: int)
    requires
        0 <= o < builder.spec_wave_length(),
        0 <= i < builder.leaders_per_round() <= u32::MAX,
    ensures
        ({
            let k = builder.leaders_per_round() as int;
            let out = builder.planned();
            &&& !builder.pipelines() ==> out.len() == k && out[i] == (BaseCommitterOptions {
                wave_length: builder.spec_wave_length(),
                leader_offset: i as u32,
                round_offset: 0,
            })
            &&& builder.pipelines() ==> out.len() == builder.spec_wave_length() * k && out[o * k + i]
                == (BaseCommitterOptions {
                wave_length: builder.spec_wave_length(),
                leader_offset: i as u32,
                round_offset: o as Round,
            })
        }),
{
    if builder.pipelines() {
        lemma_pipelined(
            builder.spec_wave_length(),
            builder.leaders_per_round() as nat,
            builder.spec_wave_length() as int,
            o,
            i,
        );
    }
}

} // verus!
