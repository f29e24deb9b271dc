//! When the commits of each round were seen, and what follows for the pipeline.
//!
//! Times are nanoseconds since an origin that all times of a timeline share.

use std::collections::BTreeMap;

use vstd::prelude::*;

use crate::shared::Round;

verus! {

/// When the events of one round were seen.
#[derive(Debug, Clone, Copy, PartialEq, Eq, Structural)]
pub struct CommitTimestamps {
    pub soft_commit_at: Option<u64>,
    pub hard_commit_at: Option<u64>,
    pub execution_done_at: Option<u64>,
}

/// Nothing seen yet.
pub open spec fn unseen() -> CommitTimestamps {
    CommitTimestamps { soft_commit_at: None, hard_commit_at: None, execution_done_at: None }
}

impl Default for CommitTimestamps {
    fn default() -> (r: Self)
        ensures
            r == unseen(),
    {
        CommitTimestamps { soft_commit_at: None, hard_commit_at: None, execution_done_at: None }
    }
}

/// The entry of `round`, which is blank if nothing was seen of it.
pub open spec fn entry_of(entries: Map<Round, CommitTimestamps>, round: Round) -> CommitTimestamps {
    if entries.contains_key(round) {
        entries[round]
    } else {
        unseen()
    }
}

/// The rounds whose hard commit was seen.
pub open spec fn hard_rounds(entries: Map<Round, CommitTimestamps>) -> Set<Round> {
    entries.dom().filter(|round: Round| entries[round].hard_commit_at is Some)
}

/// Whether the first hard commit was seen at `at`.
pub open spec fn first_hard(entries: Map<Round, CommitTimestamps>, at: u64) -> bool {
    &&& exists|round: Round| #[trigger]
        hard_rounds(entries).contains(round) && entries[round].hard_commit_at == Some(at)
    &&& forall|round: Round| #[trigger]
        hard_rounds(entries).contains(round) ==> at <= entries[round].hard_commit_at->0
}

/// Whether the last hard commit was seen at `at`.
pub open spec fn last_hard(entries: Map<Round, CommitTimestamps>, at: u64) -> bool {
    &&& exists|round: Round| #[trigger]
        hard_rounds(entries).contains(round) && entries[round].hard_commit_at == Some(at)
    &&& forall|round: Round| #[trigger]
        hard_rounds(entries).contains(round) ==> entries[round].hard_commit_at->0 <= at
}

/// The rounds whose soft commit and hard commit were both seen.
pub open spec fn complete_rounds(entries: Map<Round, CommitTimestamps>) -> Set<Round> {
    entries.dom().filter(
        |round: Round|
            entries[round].soft_commit_at is Some && entries[round].hard_commit_at is Some,
    )
}

/// How far ahead of its hard commit the soft commit of a round was seen.
pub open spec fn head_start(seen: CommitTimestamps) -> nat {
    if seen.soft_commit_at->0 < seen.hard_commit_at->0 {
        (seen.hard_commit_at->0 - seen.soft_commit_at->0) as nat
    } else {
        0
    }
}

/// The head starts of `rounds`, added up.
pub open spec fn total_head_start(
    entries: Map<Round, CommitTimestamps>,
    rounds: Set<Round>,
) -> nat {
    rounds.fold(0nat, |sum: nat, round: Round| sum + head_start(entries[round]))
}

proof fn lemma_total_with_one_more(
    entries: Map<Round, CommitTimestamps>,
    rounds: Set<Round>,
    round: Round,
)
    requires
        rounds.finite(),
        !rounds.contains(round),
    ensures
        total_head_start(entries, rounds.insert(round)) == total_head_start(entries, rounds)
            + head_start(entries[round]),
{
    vstd::set::fold::lemma_fold_insert(
        rounds,
        0nat,
        |sum: nat, round: Round| sum + head_start(entries[round]),
        round,
    );
}

/// Commit times by round.
#[derive(Debug)]
pub struct CommitTimeline {
    pub entries: BTreeMap<Round, CommitTimestamps>,
}

impl Default for CommitTimeline {
    fn default() -> (r: Self)
        ensures
            r.entries@ == Map::<Round, CommitTimestamps>::empty(),
    {
        CommitTimeline { entries: BTreeMap::new() }
    }
}

impl CommitTimeline {
    /// The entry of `round`, which is blank if nothing was seen of it.
    fn entry(&self, round: Round) -> (r: CommitTimestamps)
        ensures
            r == entry_of(self.entries@, round),
    {
        match self.entries.get(&round) {
            Some(seen) => *seen,
            None => CommitTimestamps::default(),
        }
    }

    /// Records that the soft commit of `round` was seen at `now`.
    pub fn record_soft_commit(&mut self, round: Round, now: u64)
        ensures
            final(self).entries@ == old(self).entries@.insert(
                round,
                CommitTimestamps {
                    soft_commit_at: Some(now),
                    ..entry_of(old(self).entries@, round)
                },
            ),
    {
        let seen = self.entry(round);
        self.entries.insert(round, CommitTimestamps { soft_commit_at: Some(now), ..seen });
    }

    /// Records that the hard commit of `round` was seen at `now`.
    pub fn record_hard_commit(&mut self, round: Round, now: u64)
        ensures
            final(self).entries@ == old(self).entries@.insert(
                round,
                CommitTimestamps {
                    hard_commit_at: Some(now),
                    ..entry_of(old(self).entries@, round)
                },
            ),
    {
        let seen = self.entry(round);
        self.entries.insert(round, CommitTimestamps { hard_commit_at: Some(now), ..seen });
    }

    /// Records that speculative execution of `round` was done at `now`.
    pub fn record_exec_done(&mut self, round: Round, now: u64)
        ensures
            final(self).entries@ == old(self).entries@.insert(
                round,
                CommitTimestamps {
                    execution_done_at: Some(now),
                    ..entry_of(old(self).entries@, round)
                },
            ),
    {
        let seen = self.entry(round);
        self.entries.insert(round, CommitTimestamps { execution_done_at: Some(now), ..seen });
    }

    /// Average interval between consecutive hard commits, rounded down, or zero if fewer
    /// than two were seen.
    pub fn measure_delta(&self) -> (r: u64)
        ensures
            hard_rounds(self.entries@).len() < 2 ==> r == 0,
            hard_rounds(self.entries@).len() >= 2 ==> exists|first: u64, last: u64|
                {
                    &&& #[trigger] first_hard(self.entries@, first)
                    &&& #[trigger] last_hard(self.entries@, last)
                    &&& r == (last - first) / (hard_rounds(self.entries@).len() - 1)
                },
    {
        let ghost entries = self.entries@;
        let ghost mut found: Set<Round> = Set::empty();
        let mut count: u64 = 0;
        let mut first: u64 = u64::MAX;
        let mut last: u64 = 0;
        let ghost mut first_round: Round = 0;
        let ghost mut last_round: Round = 0;
        let size: usize = self.entries.len();
        for key in keys: self.entries.keys()
            invariant
                entries == self.entries@,
                keys.seq().unref().to_set() == entries.dom(),
                keys.seq().no_duplicates(),
                keys.seq().len() == size,
                found.finite(),
                count == found.len() <= keys.index(),
                forall|round: Round| #[trigger]
                    found.contains(round) <==> hard_rounds(entries).contains(round) && exists|j: int|
                        0 <= j < keys.index() && *#[trigger] keys.seq()[j] == round,
                forall|round: Round| #[trigger]
                    found.contains(round) ==> first <= entries[round].hard_commit_at->0 <= last,
                count > 0 ==> found.contains(first_round) && entries[first_round].hard_commit_at
                    == Some(first),
                count > 0 ==> found.contains(last_round) && entries[last_round].hard_commit_at
                    == Some(last),
        {
            let seen = self.entry(*key);
            match seen.hard_commit_at {
                Some(at) => {
                    if count == 0 || at < first {
                        first = at;
                        proof {
                            first_round = *key;
                        }
                    }
                    if count == 0 || at > last {
                        last = at;
                        proof {
                            last_round = *key;
                        }
                    }
                    count = count + 1;
                    proof {
                        found = found.insert(*key);
                    }
                },
                None => {},
            }
        }
        assert(found =~= hard_rounds(entries));
        if count < 2 {
            return 0;
        }
        proof {
            assert(hard_rounds(entries).contains(first_round));
            assert(hard_rounds(entries).contains(last_round));
            assert(first_hard(entries, first));
            assert(last_hard(entries, last));
        }
        (last - first) / (count - 1)
    }

    /// Average head start of the soft commit on the hard commit, rounded down, over the
    /// rounds where both were seen, or zero if there is none. A soft commit seen after its
    /// hard commit has no head start.
    pub fn measure_pipeline_gain(&self) -> (r: u64)
        ensures
            complete_rounds(self.entries@).len() == 0 ==> r == 0,
            complete_rounds(self.entries@).len() > 0 ==> r == total_head_start(
                self.entries@,
                complete_rounds(self.entries@),
            ) / complete_rounds(self.entries@).len(),
    {
        let ghost entries = self.entries@;
        let ghost mut found: Set<Round> = Set::empty();
        let mut count: u64 = 0;
        let mut total: u128 = 0;
        let size: usize = self.entries.len();
        proof {
            vstd::set::fold::lemma_fold_empty(
                0nat,
                |sum: nat, round: Round| sum + head_start(entries[round]),
            );
        }
        for key in keys: self.entries.keys()
            invariant
                entries == self.entries@,
                keys.seq().unref().to_set() == entries.dom(),
                keys.seq().no_duplicates(),
                keys.seq().len() == size,
                found.finite(),
                count == found.len() <= keys.index(),
                forall|round: Round| #[trigger]
                    found.contains(round) <==> complete_rounds(entries).contains(round) && exists|
                        j: int,
                    |
                        0 <= j < keys.index() && *#[trigger] keys.seq()[j] == round,
                total == total_head_start(entries, found),
                total <= count * u64::MAX,
        {
            let seen = self.entry(*key);
            if let Some(soft) = seen.soft_commit_at {
                if let Some(hard) = seen.hard_commit_at {
                    let gain: u64 = if soft < hard {
                        hard - soft
                    } else {
                        0
                    };
                    proof {
                        lemma_total_with_one_more(entries, found, *key);
                    }
                    count = count + 1;
                    total = total + gain as u128;
                    proof {
                        found = found.insert(*key);
                    }
                }
            }
        }
        assert(found =~= complete_rounds(entries));
        if count == 0 {
            return 0;
        }
        proof {
            assert(total as int / count as int <= u64::MAX) by (nonlinear_arith)
                requires
                    count > 0,
                    total <= count * u64::MAX,
            ;
        }
        (total / count as u128) as u64
    }
}

/// What the measurements are about. A round counts for the interval exactly if its hard commit was
/// seen, and for the gain exactly if its soft commit was seen too. The head start of a round is the
/// time from its soft commit to its hard commit, and none if that is the wrong way round; head
/// starts add up round by round.
pub proof fn law_what_is_measured(
    entries: Map<Round, CommitTimestamps>,
    rounds: Set<Round>,
    round: Round,
    soft: u64,
    hard: u64,
)
    requires
        rounds.finite(),
        !rounds.contains(round),
    ensures
        hard_rounds(entries).contains(round) <==> entries.contains_key(round)
            && entries[round].hard_commit_at is Some,
        complete_rounds(entries).contains(round) <==> entries.contains_key(round)
            && entries[round].soft_commit_at is Some && entries[round].hard_commit_at is Some,
        total_head_start(entries, Set::empty()) == 0,
        entries[round].soft_commit_at == Some(soft) && entries[round].hard_commit_at == Some(hard)
            && soft <= hard ==> total_head_start(entries, rounds.insert(round))
            == total_head_start(entries, rounds) + (hard - soft),
        entries[round].soft_commit_at == Some(soft) && entries[round].hard_commit_at == Some(hard)
            && soft > hard ==> total_head_start(entries, rounds.insert(round)) == total_head_start(
            entries,
            rounds,
        ),
        entries.contains_key(round) ==> entry_of(entries, round) == entries[round],
        !entries.contains_key(round) ==> entry_of(entries, round) == (CommitTimestamps {
            soft_commit_at: None,
            hard_commit_at: None,
            execution_done_at: None,
        }),
{
    lemma_total_with_one_more(entries, rounds, round);
    vstd::set::fold::lemma_fold_empty(
        0nat,
        |sum: nat, round: Round| sum + head_start(entries[round]),
    );
}

/// The first and the last hard commit are those seen first and last: one of them was seen then, and
/// none before or after.
pub proof fn law_first_and_last_hard_commit(
    entries: Map<Round, CommitTimestamps>,
    first: u64,
    last: u64,
    round: Round,
    at: u64,
)
    requires
        first_hard(entries, first),
        last_hard(entries, last),
        entries.contains_key(round),
        entries[round].hard_commit_at == Some(at),
    ensures
        first <= at <= last,
        exists|r: Round| #[trigger]
            entries.contains_key(r) && entries[r].hard_commit_at == Some(first),
        exists|r: Round| #[trigger]
            entries.contains_key(r) && entries[r].hard_commit_at == Some(last),
{
    assert(hard_rounds(entries).contains(round));
    let a = choose|r: Round| #[trigger]
        hard_rounds(entries).contains(r) && entries[r].hard_commit_at == Some(first);
    assert(entries.contains_key(a));
    let b = choose|r: Round| #[trigger]
        hard_rounds(entries).contains(r) && entries[r].hard_commit_at == Some(last);
    assert(entries.contains_key(b));
}

} // verus!
