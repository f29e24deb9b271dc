//! Per-node runtime context.

use std::sync::Arc;

use vstd::prelude::*;

use crate::committee::{make_test_committee, AuthorityIndex, Committee};
use crate::text::decimal;

verus! {

/// Minimal per-node runtime context shared across consensus components.
/// Cloning is cheap.
#[derive(Debug)]
pub struct Context {
    /// Index of the local authority within the committee.
    pub own_index: AuthorityIndex,
    /// The epoch committee (immutable for one epoch).
    pub committee: Arc<Committee>,
}

impl Clone for Context {
    fn clone(&self) -> (r: Self)
        ensures
            r == *self,
    {
        Context { own_index: self.own_index, committee: self.committee.clone() }
    }
}

impl Context {
    /// The committee itself.
    pub open spec fn spec_committee(&self) -> Committee {
        *self.committee
    }

    /// The committee is formed properly and has the local authority as a member.
    pub open spec fn wf(&self) -> bool {
        &&& self.committee.wf()
        &&& self.committee.has(self.own_index)
    }

    pub fn new(own_index: AuthorityIndex, committee: Committee) -> (r: Self)
        requires
            committee.wf(),
            committee.has(own_index),
        ensures
            r.wf(),
            r.own_index == own_index,
            *r.committee == committee,
    {
        Context { own_index, committee: Arc::new(committee) }
    }

    /// A context for node 0 of a committee of `n` authorities of equal stake.
    pub fn new_for_test(n: usize) -> (r: Self)
        requires
            0 < n < u32::MAX,
        ensures
            r.wf(),
            r.own_index == AuthorityIndex(0),
            r.committee.spec_epoch() == 0,
            r.committee.members().len() == n,
            r.committee.total() == n,
            forall|i: int|
                #![trigger r.committee.members()[i]]
                0 <= i < n ==> {
                    &&& r.committee.members()[i].stake == 1
                    &&& r.committee.members()[i].hostname@ == seq!['n', 'o', 'd', 'e', '-']
                        + decimal(i as nat)
                },
    {
        let committee = make_test_committee(0, n);
        Context::new(AuthorityIndex::new_for_test(0), committee)
    }
}

} // verus!
