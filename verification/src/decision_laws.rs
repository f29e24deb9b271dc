//! Which leader slots are decided, in which order, and by which rule.

use vstd::arithmetic::div_mod::{
    lemma_fundamental_div_mod, lemma_fundamental_div_mod_converse,
    lemma_small_mod,
};
use vstd::prelude::*;

use crate::base_committer::{directly, indirectly, BaseCommitterOptions, ConflictingLeaders};
use crate::commit::{DecidedLeader, Decision, LeaderStatus};
use crate::committee::Committee;
use crate::dag_state::DagModel;
use crate::types::{Round, Slot};
use crate::universal_committer::{
    after_last, decide, decided_prefix, decisions, open_slots, slots_at, slots_between, statuses,
    statuses_of, Elected,
};

verus! {

/// Leaders take turns: the first rounds have the first authorities as leaders, and from one round
/// to the next the turn passes to the next authority, the first one following the last.
pub proof fn law_leaders_take_turns(options: BaseCommitterOptions, round: Round, n: nat)
    requires
        0 < n <= u32::MAX,
        round + options.leader_offset < u32::MAX,
    ensures
        options.leader_at(round, n).0 < n,
        round + options.leader_offset < n ==> options.leader_at(round, n).0 == round
            + options.leader_offset,
        options.leader_at((round + 1) as Round, n).0 == if options.leader_at(round, n).0 + 1 == n {
            0
        } else {
            options.leader_at(round, n).0 + 1
        },
{
    let x = round + options.leader_offset;
    let m = n as int;
    lemma_fundamental_div_mod(x, m);
    if x < n {
        lemma_small_mod(x as nat, n);
    }
    let q = x / m;
    let r = x % m;
    if r + 1 == m {
        assert(x + 1 == (q + 1) * m) by (nonlinear_arith)
            requires
                x == m * q + r,
                r + 1 == m,
        ;
        lemma_fundamental_div_mod_converse(x + 1, m, q + 1, 0);
    } else {
        assert(x + 1 == q * m + (r + 1)) by (nonlinear_arith)
            requires
                x == m * q + r,
        ;
        lemma_fundamental_div_mod_converse(x + 1, m, q, r + 1);
    }
}

/// A committer has a leader slot in exactly the rounds that are a whole number of waves after its
/// first one, and no slot anywhere else. The slot is of that round and of the leader whose turn it
/// is, and the wave lasts up to just before the next.
pub proof fn law_one_leader_slot_per_wave(
    options: BaseCommitterOptions,
    round: Round,
    n: nat,
    wave: nat,
)
    requires
        options.wave_length > 0,
    ensures
        options.elected(round, n) matches Some(slot) ==> slot.round == round && slot.authority
            == options.leader_at(round, n),
        round == options.round_offset + wave * options.wave_length ==> options.elected(
            round,
            n,
        ) is Some && options.wave_of(round) == wave,
        options.elected(round, n) is Some ==> round == options.round_offset + options.wave_of(round)
            * options.wave_length,
        options.leader_round_of(wave as int) == options.round_offset + wave * options.wave_length,
        options.decision_round_of(wave as int) == options.leader_round_of(wave as int)
            + options.wave_length - 1,
        options.leader_round_of(wave as int + 1) == options.decision_round_of(wave as int) + 1,
        round >= options.round_offset ==> options.leader_round_of(options.wave_of(round)) <= round
            <= options.decision_round_of(options.wave_of(round)),
{
    let w = options.wave_length as int;
    let k = wave as int;
    assert((k + 1) * w == k * w + w) by (nonlinear_arith);
    if round >= options.round_offset {
        let x = round - options.round_offset;
        lemma_fundamental_div_mod(x, w);
        assert(w * (x / w) == (x / w) * w) by (nonlinear_arith);
        if x == k * w {
            lemma_fundamental_div_mod_converse(x, w, k, 0);
        }
    } else {
        assert(k * w >= 0) by (nonlinear_arith)
            requires
                k >= 0,
                w > 0,
        ;
    }
}

/// Whether `committers[e.committer]` elects the slot of `e`.
pub open spec fn is_elected(committers: Seq<BaseCommitterOptions>, n: nat, e: Elected) -> bool {
    &&& 0 <= e.committer < committers.len()
    &&& committers[e.committer].elected(e.slot.round, n) == Some(e.slot)
}

/// Whether `a` comes before `b`: by round, and within a round by committer.
pub open spec fn comes_before(a: Elected, b: Elected) -> bool {
    a.slot.round < b.slot.round || (a.slot.round == b.slot.round && a.committer < b.committer)
}

/// Whether `slots` are in order, none twice.
pub open spec fn in_slot_order(slots: Seq<Elected>) -> bool {
    forall|i: int, j: int|
        0 <= i < j < slots.len() ==> comes_before(#[trigger] slots[i], #[trigger] slots[j])
}

proof fn lemma_slots_at(committers: Seq<BaseCommitterOptions>, n: nat, round: Round, k: int)
    requires
        0 <= k <= committers.len(),
    ensures
        ({
            let out = slots_at(committers, n, round, k);
            &&& in_slot_order(out)
            &&& forall|i: int|
                0 <= i < out.len() ==> is_elected(committers, n, #[trigger] out[i])
                    && out[i].slot.round == round && out[i].committer < k
            &&& forall|e: Elected|
                #[trigger] is_elected(committers, n, e) && e.slot.round == round && e.committer < k
                    ==> out.contains(e)
        }),
    decreases k,
{
    let out = slots_at(committers, n, round, k);
    if k > 0 {
        lemma_slots_at(committers, n, round, k - 1);
        let before = slots_at(committers, n, round, k - 1);
        assert forall|e: Elected|
            #[trigger] is_elected(committers, n, e) && e.slot.round == round && e.committer
                < k implies out.contains(e) by {
            if e.committer < k - 1 {
                assert(before.contains(e));
                let i = before.index_of(e);
                assert(out[i] == e);
            } else {
                assert(out[before.len() as int] == e);
            }
        }
        assert forall|i: int| 0 <= i < out.len() implies is_elected(
            committers,
            n,
            #[trigger] out[i],
        ) && out[i].slot.round == round && out[i].committer < k by {
            if i < before.len() {
                assert(out[i] == before[i]);
            }
        }
        assert forall|i: int, j: int| 0 <= i < j < out.len() implies comes_before(
            #[trigger] out[i],
            #[trigger] out[j],
        ) by {
            assert(out[i] == before[i]);
            if j < before.len() {
                assert(out[j] == before[j]);
            }
        }
    }
}

proof fn lemma_slots_between(committers: Seq<BaseCommitterOptions>, n: nat, low: int, high: int)
    requires
        0 <= low,
        high <= u32::MAX,
    ensures
        ({
            let out = slots_between(committers, n, low, high);
            &&& in_slot_order(out)
            &&& forall|i: int|
                0 <= i < out.len() ==> is_elected(committers, n, #[trigger] out[i]) && low
                    <= out[i].slot.round <= high
            &&& forall|e: Elected|
                #[trigger] is_elected(committers, n, e) && low <= e.slot.round <= high
                    ==> out.contains(e)
        }),
    decreases high - low + 1,
{
    let out = slots_between(committers, n, low, high);
    if high >= low {
        lemma_slots_between(committers, n, low, high - 1);
        lemma_slots_at(committers, n, high as Round, committers.len() as int);
        let below = slots_between(committers, n, low, high - 1);
        let top = slots_at(committers, n, high as Round, committers.len() as int);
        assert(out == below + top);
        assert forall|i: int| 0 <= i < out.len() implies is_elected(
            committers,
            n,
            #[trigger] out[i],
        ) && low <= out[i].slot.round <= high by {
            if i < below.len() {
                assert(out[i] == below[i]);
            } else {
                assert(out[i] == top[i - below.len()]);
            }
        }
        assert forall|i: int, j: int| 0 <= i < j < out.len() implies comes_before(
            #[trigger] out[i],
            #[trigger] out[j],
        ) by {
            if j < below.len() {
                assert(out[i] == below[i] && out[j] == below[j]);
            } else {
                assert(out[j] == top[j - below.len()]);
                if i < below.len() {
                    assert(out[i] == below[i]);
                } else {
                    assert(out[i] == top[i - below.len()]);
                }
            }
        }
        assert forall|e: Elected|
            #[trigger] is_elected(committers, n, e) && low <= e.slot.round
                <= high implies out.contains(e) by {
            if e.slot.round < high {
                let i = below.index_of(e);
                assert(below.contains(e));
                assert(out[i] == e);
            } else {
                assert(top.contains(e));
                let i = top.index_of(e);
                assert(out[below.len() + i] == e);
            }
        }
    }
}

/// What follows the last occurrence of a slot is a tail of the sequence without it, and what goes
/// before that tail ends with the slot.
proof fn lemma_tail(slots: Seq<Elected>, slot: Slot) -> (at: int)
    ensures
        0 <= at <= slots.len(),
        after_last(slots, slot) == slots.skip(at),
        forall|i: int| at <= i < slots.len() ==> (#[trigger] slots[i]).slot != slot,
        at > 0 ==> slots[at - 1].slot == slot,
    decreases slots.len(),
{
    if slots.len() == 0 || slots.last().slot == slot {
        assert(slots.skip(slots.len() as int) =~= Seq::<Elected>::empty());
        slots.len() as int
    } else {
        let front = slots.drop_last();
        let at = lemma_tail(front, slot);
        assert(slots.skip(at) =~= front.skip(at).push(slots.last()));
        assert forall|i: int| at <= i < slots.len() implies (#[trigger] slots[i]).slot != slot by {
            if i < front.len() {
                assert(front[i] == slots[i]);
            }
        }
        if at > 0 {
            assert(front[at - 1] == slots[at - 1]);
        }
        at
    }
}

/// Whether `e` is still open after `last`: its round is a later one, or it is the same one and no
/// slot from `e` on is `last`.
pub open spec fn after_slot(
    committers: Seq<BaseCommitterOptions>,
    n: nat,
    e: Elected,
    last: Slot,
) -> bool {
    ||| e.slot.round > last.round
    ||| e.slot.round == last.round && forall|o: Elected|
        #[trigger] is_elected(committers, n, o) && o.slot.round == last.round && o.committer
            >= e.committer ==> o.slot != last
}

/// The slots to be decided: exactly those elected after the one decided last, above the genesis
/// round and at least two rounds below the highest, by round and within a round by committer.
pub proof fn law_open_slots(
    committers: Seq<BaseCommitterOptions>,
    n: nat,
    highest: Round,
    last: Slot,
)
    ensures
        in_slot_order(open_slots(committers, n, highest, last)),
        forall|e: Elected| #[trigger]
            open_slots(committers, n, highest, last).contains(e) <==> is_elected(committers, n, e)
                && e.slot.round > 0 && e.slot.round + 2 <= highest && after_slot(
                committers,
                n,
                e,
                last,
            ),
{
    let low: int = if last.round > 0 { last.round as int } else { 1 };
    let high: int = if highest >= 2 { highest - 2 } else { 0 };
    let all = slots_between(committers, n, low, high);
    let out = open_slots(committers, n, highest, last);
    lemma_slots_between(committers, n, low, high);
    let at = lemma_tail(all, last);
    assert(out == all.skip(at));
    assert forall|i: int, j: int| 0 <= i < j < out.len() implies comes_before(
        #[trigger] out[i],
        #[trigger] out[j],
    ) by {
        assert(out[i] == all[at + i] && out[j] == all[at + j]);
    }
    assert forall|e: Elected| #[trigger] out.contains(e) <==> is_elected(committers, n, e)
        && e.slot.round > 0 && e.slot.round + 2 <= highest && after_slot(
        committers,
        n,
        e,
        last,
    ) by {
        if out.contains(e) {
            let i = out.index_of(e);
            assert(all[at + i] == e);
            if e.slot.round <= last.round {
                assert forall|o: Elected|
                    #[trigger] is_elected(committers, n, o) && o.slot.round == last.round
                        && o.committer >= e.committer implies o.slot != last by {
                    assert(all.contains(o));
                    let j = all.index_of(o);
                    if j < at + i {
                        assert(comes_before(all[j], all[at + i]));
                    }
                }
            }
        }
        if is_elected(committers, n, e) && e.slot.round > 0 && e.slot.round + 2 <= highest
            && after_slot(committers, n, e, last) {
            assert(all.contains(e));
            let j = all.index_of(e);
            if j < at {
                let cut = all[at - 1];
                assert(is_elected(committers, n, cut));
                if j < at - 1 {
                    assert(comes_before(all[j], all[at - 1]));
                }
            }
            assert(out[j - at] == e);
        }
    }
}

/// A slot is decided by the direct rule where that decides it, and else by the indirect rule; a
/// conflict under the rule that is asked is what comes out.
pub proof fn law_direct_rule_goes_first(
    committee: Committee,
    options: BaseCommitterOptions,
    dag: DagModel,
    slot: Slot,
    later: Seq<LeaderStatus>,
)
    ensures
        directly(committee, options, dag, slot) matches Err(e) ==> decide(
            committee,
            options,
            dag,
            slot,
            later,
        ) == Err::<(LeaderStatus, Decision), ConflictingLeaders>(e),
        directly(committee, options, dag, slot) matches Ok(status) ==> (!(status is Undecided)
            ==> decide(committee, options, dag, slot, later) == Ok::<
            (LeaderStatus, Decision),
            ConflictingLeaders,
        >((status, Decision::Direct))),
        directly(committee, options, dag, slot) matches Ok(LeaderStatus::Undecided(_)) ==> decide(
            committee,
            options,
            dag,
            slot,
            later,
        ) == match indirectly(committee, options, dag, slot, later) {
            Ok(status) => Ok((status, Decision::Indirect)),
            Err(e) => Err(e),
        },
{
}

/// Whether `leaders[i]` is what deciding `slots[i]` gives, the later ones being as in `leaders`.
pub open spec fn decided_at(
    committee: Committee,
    committers: Seq<BaseCommitterOptions>,
    dag: DagModel,
    slots: Seq<Elected>,
    leaders: Seq<(LeaderStatus, Decision)>,
    i: int,
) -> bool {
    decide(
        committee,
        committers[slots[i].committer],
        dag,
        slots[i].slot,
        leaders.skip(i + 1).map_values(|l: (LeaderStatus, Decision)| l.0),
    ) == Ok::<(LeaderStatus, Decision), ConflictingLeaders>(leaders[i])
}

/// Whether `leaders` are the statuses of `slots`, each decided in view of the later ones.
pub open spec fn consistent(
    committee: Committee,
    committers: Seq<BaseCommitterOptions>,
    dag: DagModel,
    slots: Seq<Elected>,
    leaders: Seq<(LeaderStatus, Decision)>,
) -> bool {
    &&& leaders.len() == slots.len()
    &&& forall|i: int|
        0 <= i < slots.len() ==> #[trigger] decided_at(
            committee,
            committers,
            dag,
            slots,
            leaders,
            i,
        )
}

proof fn lemma_statuses_consistent(
    committee: Committee,
    committers: Seq<BaseCommitterOptions>,
    dag: DagModel,
    slots: Seq<Elected>,
)
    ensures
        statuses(committee, committers, dag, slots) matches Ok(leaders) ==> consistent(
            committee,
            committers,
            dag,
            slots,
            leaders,
        ),
    decreases slots.len(),
{
    if slots.len() > 0 {
        let rest = slots.skip(1);
        lemma_statuses_consistent(committee, committers, dag, rest);
        if let Ok(leaders) = statuses(committee, committers, dag, slots) {
            let later = statuses(committee, committers, dag, rest)->Ok_0;
            assert(leaders.skip(1) =~= later);
            assert forall|i: int| 0 <= i < slots.len() implies #[trigger] decided_at(
                committee,
                committers,
                dag,
                slots,
                leaders,
                i,
            ) by {
                if i == 0 {
                    assert(statuses_of(later) == leaders.skip(1).map_values(
                        |l: (LeaderStatus, Decision)| l.0,
                    ));
                } else {
                    assert(decided_at(committee, committers, dag, rest, later, i - 1));
                    assert(rest[i - 1] == slots[i]);
                    assert(later[i - 1] == leaders[i]);
                    assert(leaders.skip(i + 1) =~= later.skip(i));
                }
            }
        }
    }
}

/// Whether `decided` is what `leader` stands for.
pub open spec fn stands_for(decided: DecidedLeader, leader: (LeaderStatus, Decision)) -> bool {
    match leader.0 {
        LeaderStatus::Commit(b) => decided == DecidedLeader::Commit(
            b,
            leader.1 == Decision::Direct,
        ),
        LeaderStatus::Skip(slot) => decided == DecidedLeader::Skip(slot),
        LeaderStatus::Undecided(_) => false,
    }
}

/// Whether `decided` are the decisions of `leaders` up to the first that is undecided.
pub open spec fn up_to_undecided(
    decided: Seq<DecidedLeader>,
    leaders: Seq<(LeaderStatus, Decision)>,
) -> bool {
    &&& decided.len() <= leaders.len()
    &&& forall|i: int| 0 <= i < decided.len() ==> stands_for(#[trigger] decided[i], leaders[i])
    &&& decided.len() < leaders.len() ==> leaders[decided.len() as int].0 is Undecided
}

proof fn lemma_prefix(leaders: Seq<(LeaderStatus, Decision)>)
    ensures
        up_to_undecided(decided_prefix(leaders), leaders),
    decreases leaders.len(),
{
    if leaders.len() > 0 && !(leaders[0].0 is Undecided) {
        let rest = leaders.skip(1);
        lemma_prefix(rest);
        let out = decided_prefix(leaders);
        let tail = decided_prefix(rest);
        assert(out.len() == tail.len() + 1);
        assert forall|i: int| 0 <= i < out.len() implies stands_for(
            #[trigger] out[i],
            leaders[i],
        ) by {
            if i > 0 {
                assert(out[i] == tail[i - 1]);
                assert(rest[i - 1] == leaders[i]);
            }
        }
    }
}

/// Whether `decided` are the decisions of `slots`, each decided in view of the later ones, up to the
/// first that is undecided.
pub open spec fn decides(
    committee: Committee,
    committers: Seq<BaseCommitterOptions>,
    dag: DagModel,
    slots: Seq<Elected>,
    decided: Seq<DecidedLeader>,
) -> bool {
    exists|leaders: Seq<(LeaderStatus, Decision)>| #[trigger]
        consistent(committee, committers, dag, slots, leaders) && up_to_undecided(decided, leaders)
}

/// The leaders that are decided: every open slot is decided in view of the later ones, from the
/// last to the first, and the decisions are all those up to the first slot that is undecided.
pub proof fn law_decisions_up_to_the_first_undecided(
    committee: Committee,
    committers: Seq<BaseCommitterOptions>,
    dag: DagModel,
    last: Slot,
)
    ensures
        decisions(committee, committers, dag, last) matches Ok(decided) ==> decides(
            committee,
            committers,
            dag,
            open_slots(committers, committee.members().len(), dag.highest, last),
            decided,
        ),
{
    let slots = open_slots(committers, committee.members().len(), dag.highest, last);
    lemma_statuses_consistent(committee, committers, dag, slots);
    match statuses(committee, committers, dag, slots) {
        Err(_) => {},
        Ok(leaders) => {
            lemma_prefix(leaders);
            assert(consistent(committee, committers, dag, slots, leaders));
            assert(decides(committee, committers, dag, slots, decided_prefix(leaders)));
        },
    }
}

/// Whether deciding the slots from the last to the first comes to `slots[i]` and fails there.
pub open spec fn fails_at(
    committee: Committee,
    committers: Seq<BaseCommitterOptions>,
    dag: DagModel,
    slots: Seq<Elected>,
    i: int,
    later: Seq<(LeaderStatus, Decision)>,
    e: ConflictingLeaders,
) -> bool {
    &&& 0 <= i < slots.len()
    &&& consistent(committee, committers, dag, slots.skip(i + 1), later)
    &&& decide(
        committee,
        committers[slots[i].committer],
        dag,
        slots[i].slot,
        later.map_values(|l: (LeaderStatus, Decision)| l.0),
    ) == Err::<(LeaderStatus, Decision), ConflictingLeaders>(e)
}

/// Whether deciding `slots` from the last to the first fails at one of them with `e`.
pub open spec fn fails(
    committee: Committee,
    committers: Seq<BaseCommitterOptions>,
    dag: DagModel,
    slots: Seq<Elected>,
    e: ConflictingLeaders,
) -> bool {
    exists|i: int, later: Seq<(LeaderStatus, Decision)>| #[trigger]
        fails_at(committee, committers, dag, slots, i, later, e)
}

/// Deciding fails only where one of the open slots has conflicting leaders, and reports it.
pub proof fn law_decisions_fail_on_conflict(
    committee: Committee,
    committers: Seq<BaseCommitterOptions>,
    dag: DagModel,
    last: Slot,
)
    ensures
        decisions(committee, committers, dag, last) matches Err(e) ==> fails(
            committee,
            committers,
            dag,
            open_slots(committers, committee.members().len(), dag.highest, last),
            e,
        ),
{
    let slots = open_slots(committers, committee.members().len(), dag.highest, last);
    match statuses(committee, committers, dag, slots) {
        Err(e) => {
            lemma_fails(committee, committers, dag, slots, e);
        },
        Ok(_) => {},
    }
}

proof fn lemma_fails(
    committee: Committee,
    committers: Seq<BaseCommitterOptions>,
    dag: DagModel,
    slots: Seq<Elected>,
    e: ConflictingLeaders,
)
    requires
        statuses(committee, committers, dag, slots) == Err::<
            Seq<(LeaderStatus, Decision)>,
            ConflictingLeaders,
        >(e),
    ensures
        fails(committee, committers, dag, slots, e),
    decreases slots.len(),
{
    let rest = slots.skip(1);
    match statuses(committee, committers, dag, rest) {
        Err(_) => {
            lemma_fails(committee, committers, dag, rest, e);
            let (i, later) = choose|i: int, later: Seq<(LeaderStatus, Decision)>| #[trigger]
                fails_at(committee, committers, dag, rest, i, later, e);
            assert(rest.skip(i + 1) =~= slots.skip(i + 2));
            assert(rest[i] == slots[i + 1]);
            assert(fails_at(committee, committers, dag, slots, i + 1, later, e));
        },
        Ok(later) => {
            lemma_statuses_consistent(committee, committers, dag, rest);
            assert(fails_at(committee, committers, dag, slots, 0, later, e));
        },
    }
}

/// The turn of a round is found from the round and the committer's leader offset, added up in 32 bits,
/// modulo the number of authorities.
pub proof fn law_turn_of_a_round(options: BaseCommitterOptions, round: Round, n: nat)
    requires
        0 < n <= u32::MAX,
    ensures
        options.leader_at(round, n).0 as int == ((round + options.leader_offset) % 0x1_0000_0000)
            % (n as int),
{
    let sum = round + options.leader_offset;
    if sum > u32::MAX {
        lemma_fundamental_div_mod_converse(sum, 0x1_0000_0000, 1, sum - 0x1_0000_0000);
    } else {
        lemma_small_mod(sum as nat, 0x1_0000_0000);
    }
    let start: int = sum % 0x1_0000_0000;
    vstd::arithmetic::div_mod::lemma_mod_bound(start, n as int);
}

} // verus!
