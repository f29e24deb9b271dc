//! The validator committee of one epoch: voting power, fault tolerance and quorums.

use vstd::prelude::*;

use crate::text::{decimal, decimal_text};

verus! {

/// Epoch number of a committee.
pub type Epoch = u64;

/// Voting power of one authority.
pub type Stake = u64;

/// One authority in the committee.
#[derive(Debug)]
pub struct Authority {
    pub stake: Stake,
    pub hostname: String,
}

impl Clone for Authority {
    fn clone(&self) -> (r: Self)
        ensures
            r == *self,
    {
        Authority { stake: self.stake, hostname: self.hostname.clone() }
    }
}

/// Unique index of an authority within one epoch's committee.
/// Values are dense: `0 .. committee.size() - 1`.
#[derive(Clone, Copy, PartialEq, Eq, Structural, PartialOrd, Ord, Hash, Debug)]
pub struct AuthorityIndex(pub u32);

impl Default for AuthorityIndex {
    fn default() -> (r: Self)
        ensures
            r.0 == 0,
    {
        AuthorityIndex(0)
    }
}

impl AuthorityIndex {
    pub fn value(&self) -> (r: usize)
        ensures
            r == self.0,
    {
        self.0 as usize
    }

    pub fn new_for_test(index: u32) -> (r: Self)
        ensures
            r.0 == index,
    {
        AuthorityIndex(index)
    }

    /// The rendered form of an index: `[7]`.
    pub open spec fn text(self) -> Seq<char> {
        seq!['['] + decimal(self.0 as nat) + seq![']']
    }

    /// Renders the index between square brackets.
    pub fn to_text(&self) -> (r: String)
        ensures
            r@ == self.text(),
    {
        proof {
            reveal_strlit("[");
            reveal_strlit("]");
        }
        let mut out = String::from_str("[");
        assert(out@ == seq!['[']);
        let digits = decimal_text(self.0 as u64);
        out.append(digits.as_str());
        out.append("]");
        assert("]"@ == seq![']']);
        out
    }
}

/// Sum of the stake of all `members`.
pub open spec fn stake_total(members: Seq<Authority>) -> nat
    decreases members.len(),
{
    if members.len() == 0 {
        0
    } else {
        stake_total(members.drop_last()) + members.last().stake as nat
    }
}

/// Sum of the stake of those `members` whose index is in `voters`.
pub open spec fn stake_of(members: Seq<Authority>, voters: Set<AuthorityIndex>) -> nat
    decreases members.len(),
{
    if members.len() == 0 {
        0
    } else {
        stake_of(members.drop_last(), voters) + if voters.contains(
            AuthorityIndex((members.len() - 1) as u32),
        ) {
            members.last().stake as nat
        } else {
            0
        }
    }
}

/// Stake that may be faulty out of `total`: `f` when the total is `3f + 1`.
pub open spec fn faults_of(total: nat) -> nat {
    ((total - 1) / 3) as nat
}

/// Stake that any quorum of `total` must hold.
pub open spec fn quorum_of(total: nat) -> nat {
    (total - faults_of(total)) as nat
}

/// Least stake of `total` that must include a non-faulty authority.
pub open spec fn validity_of(total: nat) -> nat {
    faults_of(total) + 1
}

/// Committee of the consensus protocol for one epoch.
#[derive(Debug)]
pub struct Committee {
    pub(crate) epoch: Epoch,
    pub(crate) total_stake: Stake,
    pub(crate) quorum_threshold: Stake,
    pub(crate) validity_threshold: Stake,
    pub(crate) authorities: Vec<Authority>,
}

impl Clone for Committee {
    fn clone(&self) -> (r: Self)
        ensures
            r.members() == self.members(),
            r.spec_epoch() == self.spec_epoch(),
            self.wf() ==> r.wf(),
    {
        let authorities = self.authorities.clone();
        assert(authorities@ =~= self.authorities@);
        Committee {
            epoch: self.epoch,
            total_stake: self.total_stake,
            quorum_threshold: self.quorum_threshold,
            validity_threshold: self.validity_threshold,
            authorities,
        }
    }
}

impl Committee {
    /// The authorities, in index order.
    pub open(crate) spec fn members(&self) -> Seq<Authority> {
        self.authorities@
    }

    pub open(crate) spec fn spec_epoch(&self) -> Epoch {
        self.epoch
    }

    /// Stake of the whole committee.
    pub open spec fn total(&self) -> nat {
        stake_total(self.members())
    }

    /// Stake of a quorum of this committee.
    pub open spec fn quorum(&self) -> nat {
        quorum_of(self.total())
    }

    /// Stake held by the authorities in `voters`.
    pub open spec fn stake_held(&self, voters: Set<AuthorityIndex>) -> nat {
        stake_of(self.members(), voters)
    }

    /// Whether the authorities in `voters` form a quorum.
    pub open spec fn is_quorum(&self, voters: Set<AuthorityIndex>) -> bool {
        self.stake_held(voters) >= self.quorum()
    }

    /// Whether `index` names a member.
    pub open spec fn has(&self, index: AuthorityIndex) -> bool {
        index.0 < self.members().len()
    }

    /// What a list of authorities must satisfy to form a committee.
    pub open spec fn admissible(members: Seq<Authority>) -> bool {
        &&& 0 < members.len() < u32::MAX
        &&& 0 < stake_total(members) <= u64::MAX
        &&& 2 * quorum_of(stake_total(members)) <= u64::MAX
    }

    pub open(crate) spec fn wf(&self) -> bool {
        &&& Committee::admissible(self.members())
        &&& self.total_stake == self.total()
        &&& self.quorum_threshold == self.quorum()
        &&& self.validity_threshold == validity_of(self.total())
    }

    /// Forms the committee of `epoch`.
    ///
    /// With total stake `3f + 1` the committee tolerates `f` faulty stake: a quorum
    /// is everything but `f`, and validity is one more than `f`.
    pub fn new(epoch: Epoch, authorities: Vec<Authority>) -> (r: Self)
        requires
            Committee::admissible(authorities@),
        ensures
            r.wf(),
            r.spec_epoch() == epoch,
            r.members() == authorities@,
    {
        let mut total_stake: Stake = 0;
        let mut i: usize = 0;
        while i < authorities.len()
            invariant
                i <= authorities@.len(),
                total_stake == stake_total(authorities@.take(i as int)),
                stake_total(authorities@) <= u64::MAX,
            decreases authorities@.len() - i,
        {
            proof {
                assert(authorities@.take(i + 1).drop_last() == authorities@.take(i as int));
                lemma_total_prefix(authorities@, i + 1);
            }
            total_stake = total_stake + authorities[i].stake;
            i += 1;
        }
        assert(authorities@.take(authorities@.len() as int) == authorities@);
        let fault_tolerance: Stake = (total_stake - 1) / 3;
        let quorum_threshold: Stake = total_stake - fault_tolerance;
        let validity_threshold: Stake = fault_tolerance + 1;
        Committee { epoch, total_stake, quorum_threshold, validity_threshold, authorities }
    }

    pub fn epoch(&self) -> (r: Epoch)
        ensures
            r == self.spec_epoch(),
    {
        self.epoch
    }

    pub fn total_stake(&self) -> (r: Stake)
        requires
            self.wf(),
        ensures
            r == self.total(),
    {
        self.total_stake
    }

    /// Stake of a quorum (`2f + 1`).
    pub fn quorum_threshold(&self) -> (r: Stake)
        requires
            self.wf(),
        ensures
            r == self.quorum(),
    {
        self.quorum_threshold
    }

    /// Stake of validity (`f + 1`).
    pub fn validity_threshold(&self) -> (r: Stake)
        requires
            self.wf(),
        ensures
            r == validity_of(self.total()),
    {
        self.validity_threshold
    }

    pub fn stake(&self, index: AuthorityIndex) -> (r: Stake)
        requires
            self.has(index),
        ensures
            r == self.members()[index.0 as int].stake,
    {
        self.authorities[index.value()].stake
    }

    pub fn authority(&self, index: AuthorityIndex) -> (r: &Authority)
        requires
            self.has(index),
        ensures
            *r == self.members()[index.0 as int],
    {
        &self.authorities[index.value()]
    }

    /// All members with their indices, in index order.
    pub fn authorities(&self) -> (r: Vec<(AuthorityIndex, &Authority)>)
        requires
            self.wf(),
        ensures
            r@.len() == self.members().len(),
            forall|i: int|
                #![trigger r@[i]]
                0 <= i < r@.len() ==> r@[i].0.0 == i && *r@[i].1 == self.members()[i],
    {
        let mut out: Vec<(AuthorityIndex, &Authority)> = Vec::new();
        let mut i: usize = 0;
        while i < self.authorities.len()
            invariant
                i <= self.authorities@.len() < u32::MAX,
                out@.len() == i,
                forall|j: int|
                    #![trigger out@[j]]
                    0 <= j < i ==> out@[j].0.0 == j && *out@[j].1 == self.authorities@[j],
            decreases self.authorities@.len() - i,
        {
            out.push((AuthorityIndex(i as u32), &self.authorities[i]));
            i += 1;
        }
        out
    }

    /// Returns true if the provided stake has reached quorum (`2f + 1`).
    pub fn reached_quorum(&self, stake: Stake) -> (r: bool)
        requires
            self.wf(),
        ensures
            r == (stake >= self.quorum()),
    {
        stake >= self.quorum_threshold
    }

    /// Returns true if the provided stake has reached validity (`f + 1`).
    pub fn reached_validity(&self, stake: Stake) -> (r: bool)
        requires
            self.wf(),
        ensures
            r == (stake >= validity_of(self.total())),
    {
        stake >= self.validity_threshold
    }

    /// Converts a position to an index, or `None` if it is out of range.
    pub fn to_authority_index(&self, index: usize) -> (r: Option<AuthorityIndex>)
        requires
            self.wf(),
        ensures
            r == if index < self.members().len() {
                Some(AuthorityIndex(index as u32))
            } else {
                None
            },
    {
        if index < self.authorities.len() {
            Some(AuthorityIndex(index as u32))
        } else {
            None
        }
    }

    pub fn is_valid_index(&self, index: AuthorityIndex) -> (r: bool)
        ensures
            r == self.has(index),
    {
        index.value() < self.size()
    }

    pub fn size(&self) -> (r: usize)
        ensures
            r == self.members().len(),
    {
        self.authorities.len()
    }
}

/// Creates a committee of `num_authorities` members with one unit of stake each.
pub fn make_test_committee(epoch: Epoch, num_authorities: usize) -> (r: Committee)
    requires
        0 < num_authorities < u32::MAX,
    ensures
        r.wf(),
        r.spec_epoch() == epoch,
        r.members().len() == num_authorities,
        r.total() == num_authorities,
        forall|i: int|
            #![trigger r.members()[i]]
            0 <= i < num_authorities ==> {
                &&& r.members()[i].stake == 1
                &&& r.members()[i].hostname@ == seq!['n', 'o', 'd', 'e', '-'] + decimal(i as nat)
            },
{
    let mut authorities: Vec<Authority> = Vec::new();
    let mut i: usize = 0;
    while i < num_authorities
        invariant
            i <= num_authorities < u32::MAX,
            authorities@.len() == i,
            forall|j: int|
                #![trigger authorities@[j]]
                0 <= j < i ==> {
                    &&& authorities@[j].stake == 1
                    &&& authorities@[j].hostname@ == seq!['n', 'o', 'd', 'e', '-'] + decimal(
                        j as nat,
                    )
                },
        decreases num_authorities - i,
    {
        proof {
            reveal_strlit("node-");
        }
        let mut hostname = String::from_str("node-");
        assert(hostname@ == seq!['n', 'o', 'd', 'e', '-']);
        let digits = decimal_text(i as u64);
        hostname.append(digits.as_str());
        authorities.push(Authority { stake: 1, hostname });
        i += 1;
    }
    proof {
        lemma_total_of_ones(authorities@);
    }
    Committee::new(epoch, authorities)
}

proof fn lemma_total_of_ones(members: Seq<Authority>)
    requires
        forall|i: int| 0 <= i < members.len() ==> (#[trigger] members[i]).stake == 1,
    ensures
        stake_total(members) == members.len(),
    decreases members.len(),
{
    if members.len() > 0 {
        lemma_total_of_ones(members.drop_last());
    }
}

proof fn lemma_total_prefix(members: Seq<Authority>, n: int)
    requires
        0 <= n <= members.len(),
    ensures
        stake_total(members.take(n)) <= stake_total(members),
    decreases members.len(),
{
    if n == members.len() {
        assert(members.take(n) == members);
    } else {
        lemma_total_prefix(members.drop_last(), n);
        assert(members.drop_last().take(n) == members.take(n));
    }
}

/// Adding a new voter adds exactly that voter's stake.
pub proof fn lemma_stake_insert(
    members: Seq<Authority>,
    voters: Set<AuthorityIndex>,
    voter: AuthorityIndex,
)
    requires
        voter.0 < members.len() <= u32::MAX,
        !voters.contains(voter),
    ensures
        stake_of(members, voters.insert(voter)) == stake_of(members, voters)
            + members[voter.0 as int].stake,
    decreases members.len(),
{
    let last = AuthorityIndex((members.len() - 1) as u32);
    if voter == last {
        lemma_stake_outside(members.drop_last(), voters, voter);
    } else {
        lemma_stake_insert(members.drop_last(), voters, voter);
    }
}

/// A voter that is no member changes no stake.
pub proof fn lemma_stake_outside(
    members: Seq<Authority>,
    voters: Set<AuthorityIndex>,
    voter: AuthorityIndex,
)
    requires
        members.len() <= voter.0,
    ensures
        stake_of(members, voters.insert(voter)) == stake_of(members, voters),
    decreases members.len(),
{
    if members.len() > 0 {
        lemma_stake_outside(members.drop_last(), voters, voter);
    }
}

/// Stake held grows with the set of voters, from nothing up to the total.
pub proof fn lemma_stake_monotone(
    members: Seq<Authority>,
    fewer: Set<AuthorityIndex>,
    more: Set<AuthorityIndex>,
)
    requires
        fewer.subset_of(more),
    ensures
        stake_of(members, fewer) <= stake_of(members, more) <= stake_total(members),
    decreases members.len(),
{
    if members.len() > 0 {
        lemma_stake_monotone(members.drop_last(), fewer, more);
    }
}

/// Nobody holds no stake.
pub proof fn lemma_stake_of_none(members: Seq<Authority>)
    ensures
        stake_of(members, Set::empty()) == 0,
    decreases members.len(),
{
    if members.len() > 0 {
        lemma_stake_of_none(members.drop_last());
    }
}

/// The stake common to two sets of voters is at least what their sum exceeds the total by.
pub proof fn lemma_stake_overlap(
    members: Seq<Authority>,
    a: Set<AuthorityIndex>,
    b: Set<AuthorityIndex>,
)
    ensures
        stake_of(members, a) + stake_of(members, b) <= stake_total(members) + stake_of(
            members,
            a.intersect(b),
        ),
    decreases members.len(),
{
    if members.len() > 0 {
        lemma_stake_overlap(members.drop_last(), a, b);
    }
}

/// Any two quorums share more stake than may be faulty, so they share an authority
/// that is not among any faulty set of tolerated size.
pub proof fn law_quorums_intersect(
    committee: Committee,
    a: Set<AuthorityIndex>,
    b: Set<AuthorityIndex>,
    faulty: Set<AuthorityIndex>,
)
    requires
        committee.wf(),
        committee.is_quorum(a),
        committee.is_quorum(b),
        committee.stake_held(faulty) <= faults_of(committee.total()),
    ensures
        committee.stake_held(a.intersect(b)) > faults_of(committee.total()),
        exists|v: AuthorityIndex| #[trigger]
            a.contains(v) && b.contains(v) && !faulty.contains(v),
{
    let members = committee.members();
    lemma_stake_overlap(members, a, b);
    assert(committee.stake_held(a.intersect(b)) > faults_of(committee.total()));
    if forall|v: AuthorityIndex| #[trigger] a.contains(v) && b.contains(v) ==> faulty.contains(v) {
        assert(a.intersect(b).subset_of(faulty));
        lemma_stake_monotone(members, a.intersect(b), faulty);
    }
}

/// A quorum holds at least the stake of validity, and validity exceeds what may be faulty.
pub proof fn law_quorum_implies_validity(committee: Committee, voters: Set<AuthorityIndex>)
    requires
        committee.wf(),
        committee.is_quorum(voters),
    ensures
        faults_of(committee.total()) < validity_of(committee.total()) <= committee.stake_held(
            voters,
        ) <= committee.total(),
{
    lemma_stake_monotone(committee.members(), voters, voters);
}

/// The stake that may be faulty is the most that is less than a third of the total; a quorum is all
/// the rest, so what is not faulty always reaches one; and validity is one more than may be faulty.
pub proof fn law_thresholds(total: nat)
    requires
        total > 0,
    ensures
        3 * faults_of(total) < total <= 3 * (faults_of(total) + 1),
        quorum_of(total) == total - faults_of(total),
        validity_of(total) == faults_of(total) + 1,
        2 * quorum_of(total) > total + faults_of(total),
{
}

/// Whatever is left by authorities with no more stake than may be faulty is a quorum.
pub proof fn law_the_rest_is_a_quorum(
    committee: Committee,
    faulty: Set<AuthorityIndex>,
    rest: Set<AuthorityIndex>,
)
    requires
        committee.wf(),
        3 * stake_of(committee.members(), faulty) < stake_total(committee.members()),
        forall|a: AuthorityIndex| #[trigger] committee.has(a) ==> faulty.contains(a) || rest.contains(a),
    ensures
        committee.is_quorum(rest),
{
    assert forall|i: int| 0 <= i < committee.members().len() implies faulty.contains(
        AuthorityIndex(i as u32),
    ) || #[trigger] rest.contains(AuthorityIndex(i as u32)) by {
        assert(committee.has(AuthorityIndex(i as u32)));
    }
    lemma_stake_covers(committee.members(), faulty, rest);
}

/// Two sets that cover the committee hold all of its stake together.
proof fn lemma_stake_covers(
    members: Seq<Authority>,
    a: Set<AuthorityIndex>,
    b: Set<AuthorityIndex>,
)
    requires
        members.len() <= u32::MAX,
        forall|i: int|
            0 <= i < members.len() ==> a.contains(AuthorityIndex(i as u32)) || #[trigger] b.contains(
                AuthorityIndex(i as u32),
            ),
    ensures
        stake_of(members, a) + stake_of(members, b) >= stake_total(members),
    decreases members.len(),
{
    if members.len() > 0 {
        lemma_stake_covers(members.drop_last(), a, b);
        let last = members.len() - 1;
        assert(a.contains(AuthorityIndex(last as u32)) || b.contains(AuthorityIndex(last as u32)));
    }
}

/// Stake is counted member by member: nobody holds none, each member adds its own stake once, one
/// that is no member adds nothing, and all members together hold the total.
pub proof fn law_stake_adds_up(
    members: Seq<Authority>,
    voters: Set<AuthorityIndex>,
    voter: AuthorityIndex,
)
    requires
        members.len() <= u32::MAX,
        !voters.contains(voter),
    ensures
        stake_of(members, Set::empty()) == 0,
        voter.0 < members.len() ==> stake_of(members, voters.insert(voter)) == stake_of(
            members,
            voters,
        ) + members[voter.0 as int].stake,
        voter.0 >= members.len() ==> stake_of(members, voters.insert(voter)) == stake_of(
            members,
            voters,
        ),
        (forall|i: int|
            0 <= i < members.len() ==> #[trigger] voters.contains(AuthorityIndex(i as u32)))
            ==> stake_of(members, voters) == stake_total(members),
        members.len() == 0 ==> stake_total(members) == 0,
        members.len() > 0 ==> stake_total(members) == stake_total(members.drop_last())
            + members[members.len() - 1].stake,
{
    lemma_stake_of_none(members);
    if voter.0 < members.len() {
        lemma_stake_insert(members, voters, voter);
    } else {
        lemma_stake_outside(members, voters, voter);
    }
    if forall|i: int|
        0 <= i < members.len() ==> #[trigger] voters.contains(AuthorityIndex(i as u32)) {
        lemma_stake_of_none(members);
        lemma_stake_monotone(members, voters, voters);
        assert forall|i: int| 0 <= i < members.len() implies Set::<AuthorityIndex>::empty().contains(
            AuthorityIndex(i as u32),
        ) || #[trigger] voters.contains(AuthorityIndex(i as u32)) by {}
        lemma_stake_covers(members, Set::empty(), voters);
    }
}

} // verus!
