//! Speculative state layered on top of the canonical ledger.

use std::collections::BTreeMap;

use vstd::prelude::*;

use crate::shared::{DbError, StateDiff};

verus! {

/// What a shadow database holds.
#[verifier::ext_equal]
pub struct ShadowModel {
    /// The canonical ledger: the diffs applied so far, in order.
    pub canonical: Seq<StateDiff>,
    /// Speculative diffs by commit index.
    pub speculative: Map<u64, StateDiff>,
}

impl ShadowModel {
    /// The database with `diff` held speculatively.
    pub open spec fn staged(self, diff: StateDiff) -> ShadowModel {
        ShadowModel { speculative: self.speculative.insert(diff.commit_index, diff), ..self }
    }

    /// The database once `diff` is final: it is part of the ledger, and nothing speculative
    /// is left up to its index.
    pub open spec fn committed(self, diff: StateDiff) -> ShadowModel {
        ShadowModel {
            canonical: self.canonical.push(diff),
            speculative: self.speculative.restrict(
                Set::new(|index: u64| index > diff.commit_index),
            ),
        }
    }

    /// The database without the speculative diff of `commit_index`.
    pub open spec fn discarded(self, commit_index: u64) -> ShadowModel {
        ShadowModel { speculative: self.speculative.remove(commit_index), ..self }
    }
}

/// Multi-version database: a canonical ledger, and speculative diffs keyed by commit index.
pub struct ShadowDb {
    pub(crate) canonical: Vec<StateDiff>,
    pub(crate) speculative: BTreeMap<u64, StateDiff>,
}

impl View for ShadowDb {
    type V = ShadowModel;

    open(crate) spec fn view(&self) -> ShadowModel {
        ShadowModel { canonical: self.canonical@, speculative: self.speculative@ }
    }
}

/// The database with nothing in it.
pub open spec fn empty_shadow() -> ShadowModel {
    ShadowModel { canonical: Seq::empty(), speculative: Map::empty() }
}

impl ShadowDb {
    /// An empty database.
    pub fn new() -> (r: Self)
        ensures
            r@ == empty_shadow(),
    {
        ShadowDb { canonical: Vec::new(), speculative: BTreeMap::new() }
    }

    /// The diffs applied to the ledger so far, in order.
    pub fn canonical(&self) -> (r: &Vec<StateDiff>)
        ensures
            r@ == self@.canonical,
    {
        &self.canonical
    }

    /// The speculative diff of `commit_index`, if there is one.
    pub fn speculative(&self, commit_index: u64) -> (r: Option<&StateDiff>)
        ensures
            r == if self@.speculative.contains_key(commit_index) {
                Some(&self@.speculative[commit_index])
            } else {
                None
            },
    {
        self.speculative.get(&commit_index)
    }

    /// Holds `diff` speculatively, in place of any earlier diff with its commit index.
    pub fn stage(&mut self, diff: StateDiff)
        ensures
            final(self)@ == old(self)@.staged(diff),
    {
        self.speculative.insert(diff.commit_index, diff);
        assert(self@ =~= old(self)@.staged(diff));
    }

    /// Applies a final diff to the ledger and drops every speculative diff up to its commit
    /// index.
    pub fn commit(&mut self, diff: StateDiff) -> (r: Result<(), DbError>)
        ensures
            r is Ok,
            final(self)@ == old(self)@.committed(diff),
    {
        let index: u64 = diff.commit_index;
        let ghost start = self.speculative@;
        let mut stale: Vec<u64> = Vec::new();
        for key in keys: self.speculative.keys()
            invariant
                start == self.speculative@,
                keys.seq().unref().to_set() == start.dom(),
                forall|j: int| 0 <= j < stale@.len() ==> #[trigger] stale@[j] <= index,
                forall|j: int|
                    0 <= j < keys.index() && *keys.seq()[j] <= index ==> stale@.contains(
                        *#[trigger] keys.seq()[j],
                    ),
        {
            let ghost before = stale@;
            if *key <= index {
                stale.push(*key);
                proof {
                    assert forall|k: u64| before.contains(k) implies stale@.contains(k) by {
                        let at = choose|at: int| 0 <= at < before.len() && before[at] == k;
                        assert(stale@[at] == k);
                    }
                    assert(stale@.last() == *key);
                }
            }
        }
        assert forall|k: u64| start.contains_key(k) && k <= index implies stale@.contains(k) by {
            assert(start.dom().contains(k));
        }
        let mut i: usize = 0;
        while i < stale.len()
            invariant
                i <= stale@.len(),
                forall|j: int| 0 <= j < stale@.len() ==> #[trigger] stale@[j] <= index,
                forall|k: u64|
                    start.contains_key(k) && k > index ==> #[trigger] self.speculative@.contains_key(
                        k,
                    ),
                forall|k: u64| #[trigger]
                    self.speculative@.contains_key(k) ==> start.contains_key(k)
                        && self.speculative@[k] == start[k],
                forall|j: int|
                    0 <= j < i ==> !self.speculative@.contains_key(#[trigger] stale@[j]),
                self.canonical@ == old(self)@.canonical,
            decreases stale@.len() - i,
        {
            self.speculative.remove(&stale[i]);
            i += 1;
        }
        self.canonical.push(diff);
        assert(self@ =~= old(self)@.committed(diff));
        Ok(())
    }

    /// Discards the speculative diff of `commit_index`.
    pub fn discard(&mut self, commit_index: u64)
        ensures
            final(self)@ == old(self)@.discarded(commit_index),
    {
        self.speculative.remove(&commit_index);
        assert(self@ =~= old(self)@.discarded(commit_index));
    }
}

impl Default for ShadowDb {
    fn default() -> (r: Self)
        ensures
            r@ == empty_shadow(),
    {
        ShadowDb::new()
    }
}

/// Discarding a diff takes back that it was staged, where its index was free.
pub proof fn law_discard_undoes_stage(db: ShadowModel, diff: StateDiff)
    requires
        !db.speculative.contains_key(diff.commit_index),
    ensures
        db.staged(diff).discarded(diff.commit_index) == db,
{
    assert(db.staged(diff).discarded(diff.commit_index) =~= db);
}

/// Speculation never reaches the ledger: staging and discarding leave it as it is.
pub proof fn law_ledger_changes_only_by_commit(db: ShadowModel, diff: StateDiff, index: u64)
    ensures
        db.staged(diff).canonical == db.canonical,
        db.discarded(index).canonical == db.canonical,
        db.committed(diff).canonical == db.canonical.push(diff),
{
}

/// After a commit only diffs of later indices are speculative, and those are untouched.
pub proof fn law_commit_settles_earlier_diffs(db: ShadowModel, diff: StateDiff, index: u64)
    ensures
        db.committed(diff).speculative.contains_key(index) <==> db.speculative.contains_key(index)
            && index > diff.commit_index,
        db.committed(diff).speculative.contains_key(index) ==> db.committed(diff).speculative[index]
            == db.speculative[index],
{
}

/// A staged diff is held under its commit index, and no other index is touched by staging it. A
/// diff that is discarded is gone, and no other one.
pub proof fn law_stage_and_discard(db: ShadowModel, diff: StateDiff, index: u64)
    ensures
        db.staged(diff).speculative.contains_key(diff.commit_index),
        db.staged(diff).speculative[diff.commit_index] == diff,
        index != diff.commit_index ==> {
            &&& db.staged(diff).speculative.contains_key(index) <==> db.speculative.contains_key(
                index,
            )
            &&& db.staged(diff).speculative[index] == db.speculative[index]
            &&& db.discarded(diff.commit_index).speculative.contains_key(index)
                <==> db.speculative.contains_key(index)
            &&& db.speculative.contains_key(index) ==> db.discarded(
                diff.commit_index,
            ).speculative[index] == db.speculative[index]
        },
        !db.discarded(diff.commit_index).speculative.contains_key(diff.commit_index),
        !empty_shadow().speculative.contains_key(index),
        empty_shadow().canonical.len() == 0,
{
}

} // verus!
