//! Delivery rules of a simulated network.

use vstd::prelude::*;

verus! {

/// Links of a simulated network, as pairs of sender and receiver.
pub type Links = Set<(usize, usize)>;

/// `blocked` and both directions between `a` and `b`.
pub open spec fn partitioned(blocked: Links, a: usize, b: usize) -> Links {
    blocked.insert((a, b)).insert((b, a))
}

/// `blocked` without either direction between `a` and `b`.
pub open spec fn healed(blocked: Links, a: usize, b: usize) -> Links {
    blocked.remove((a, b)).remove((b, a))
}

/// Whether a broadcast from `from` reaches node `to` of `n`.
pub open spec fn delivers(n: nat, blocked: Links, from: usize, to: usize) -> bool {
    to < n && to != from && !blocked.contains((from, to))
}

/// Router between the nodes of a simulation.
#[derive(Debug)]
pub struct SimulatedNetwork {
    pub(crate) n: usize,
    pub(crate) partitioned: Vec<(usize, usize)>,
}

impl SimulatedNetwork {
    /// No link is listed twice.
    pub open(crate) spec fn wf(&self) -> bool {
        self.partitioned@.no_duplicates()
    }

    /// The number of nodes.
    pub open(crate) spec fn size(&self) -> nat {
        self.n as nat
    }

    /// The links over which nothing is delivered.
    pub open(crate) spec fn blocked(&self) -> Links {
        self.partitioned@.to_set()
    }

    /// A network of `n` nodes without partitions.
    pub fn new(n: usize) -> (r: Self)
        requires
            n > 0,
        ensures
            r.wf(),
            r.size() == n,
            r.blocked() == Links::empty(),
    {
        let r = SimulatedNetwork { n, partitioned: Vec::new() };
        assert(r.blocked() =~= Links::empty());
        r
    }

    /// Whether messages from `from` to `to` are blocked.
    pub fn is_partitioned(&self, from: usize, to: usize) -> (r: bool)
        ensures
            r == self.blocked().contains((from, to)),
    {
        let mut i: usize = 0;
        while i < self.partitioned.len()
            invariant
                i <= self.partitioned@.len(),
                forall|j: int| 0 <= j < i ==> #[trigger] self.partitioned@[j] != (from, to),
            decreases self.partitioned@.len() - i,
        {
            let link = self.partitioned[i];
            if link.0 == from && link.1 == to {
                assert(self.partitioned@[i as int] == (from, to));
                return true;
            }
            i += 1;
        }
        false
    }

    /// The nodes that a broadcast from `from` reaches, in ascending order: all but the
    /// sender and those it is partitioned from.
    pub fn recipients(&self, from: usize) -> (r: Vec<usize>)
        requires
            from < self.size(),
        ensures
            forall|i: int, j: int| 0 <= i < j < r@.len() ==> r@[i] < r@[j],
            forall|to: usize|
                #[trigger] r@.contains(to) <==> delivers(self.size(), self.blocked(), from, to),
    {
        let mut out: Vec<usize> = Vec::new();
        let mut to: usize = 0;
        while to < self.n
            invariant
                to <= self.n == self.size(),
                forall|i: int| 0 <= i < out@.len() ==> #[trigger] out@[i] < to,
                forall|i: int, j: int| 0 <= i < j < out@.len() ==> out@[i] < out@[j],
                forall|x: usize| #[trigger]
                    out@.contains(x) <==> x < to && delivers(
                        self.size(),
                        self.blocked(),
                        from,
                        x,
                    ),
            decreases self.n - to,
        {
            let ghost before = out@;
            if to != from && !self.is_partitioned(from, to) {
                out.push(to);
                assert(out@.last() == to);
            }
            proof {
                assert forall|x: usize| #[trigger] out@.contains(x) <==> x < to + 1 && delivers(
                    self.size(),
                    self.blocked(),
                    from,
                    x,
                ) by {
                    if before.contains(x) {
                        let at = before.index_of(x);
                        assert(out@[at] == x);
                    }
                    if out@.contains(x) && x != to {
                        let at = out@.index_of(x);
                        assert(before[at] == x);
                    }
                }
            }
            to += 1;
        }
        out
    }

    /// Blocks one direction of a link.
    fn block(&mut self, from: usize, to: usize)
        requires
            old(self).wf(),
        ensures
            final(self).wf(),
            final(self).size() == old(self).size(),
            final(self).blocked() == old(self).blocked().insert((from, to)),
    {
        let ghost before = self.partitioned@;
        if !self.is_partitioned(from, to) {
            self.partitioned.push((from, to));
            proof {
                assert forall|link: (usize, usize)| #[trigger]
                    self.blocked().contains(link) <==> before.to_set().insert((from, to)).contains(
                        link,
                    ) by {
                    if before.contains(link) {
                        let at = before.index_of(link);
                        assert(self.partitioned@[at] == link);
                    }
                    assert(self.partitioned@.last() == (from, to));
                    if self.partitioned@.contains(link) && link != (from, to) {
                        let at = self.partitioned@.index_of(link);
                        assert(before[at] == link);
                    }
                }
            }
        }
        assert(self.blocked() =~= before.to_set().insert((from, to)));
    }

    /// Unblocks one direction of a link.
    fn unblock(&mut self, from: usize, to: usize)
        requires
            old(self).wf(),
        ensures
            final(self).wf(),
            final(self).size() == old(self).size(),
            final(self).blocked() == old(self).blocked().remove((from, to)),
    {
        let ghost before = self.partitioned@;
        let mut i: usize = 0;
        while i < self.partitioned.len()
            invariant
                i <= self.partitioned@.len(),
                self.partitioned@ == before,
                self.n == old(self).n,
                before == old(self).partitioned@,
                before.no_duplicates(),
                forall|j: int| 0 <= j < i ==> #[trigger] before[j] != (from, to),
            decreases self.partitioned@.len() - i,
        {
            let link = self.partitioned[i];
            if link.0 == from && link.1 == to {
                self.partitioned.remove(i);
                proof {
                    let after = self.partitioned@;
                    assert(after =~= before.remove(i as int));
                    assert forall|link: (usize, usize)| #[trigger]
                        after.to_set().contains(link) <==> before.to_set().remove(
                            (from, to),
                        ).contains(link) by {
                        if after.contains(link) {
                            let at = after.index_of(link);
                            if at < i {
                                assert(before[at] == link);
                            } else {
                                assert(before[at + 1] == link);
                            }
                            assert(before[i as int] == (from, to));
                        }
                        if before.contains(link) && link != (from, to) {
                            let at = before.index_of(link);
                            if at < i {
                                assert(after[at] == link);
                            } else {
                                assert(after[at - 1] == link);
                            }
                        }
                    }
                    assert(self.blocked() =~= old(self).blocked().remove((from, to)));
                }
                return;
            }
            i += 1;
        }
        assert(self.blocked() =~= old(self).blocked().remove((from, to)));
    }

    /// Blocks all messages between `a` and `b`, in both directions.
    pub fn partition(&mut self, a: usize, b: usize)
        requires
            old(self).wf(),
            a < old(self).size(),
            b < old(self).size(),
            a != b,
        ensures
            final(self).wf(),
            final(self).size() == old(self).size(),
            final(self).blocked() == partitioned(old(self).blocked(), a, b),
    {
        self.block(a, b);
        self.block(b, a);
    }

    /// Restores connectivity between `a` and `b`.
    pub fn heal(&mut self, a: usize, b: usize)
        requires
            old(self).wf(),
        ensures
            final(self).wf(),
            final(self).size() == old(self).size(),
            final(self).blocked() == healed(old(self).blocked(), a, b),
    {
        self.unblock(a, b);
        self.unblock(b, a);
    }
}

/// A partition works both ways, and on no other link.
pub proof fn law_partition_is_mutual(n: nat, blocked: Links, a: usize, b: usize, x: usize, y: usize)
    ensures
        !delivers(n, partitioned(blocked, a, b), a, b),
        !delivers(n, partitioned(blocked, a, b), b, a),
        (x, y) != (a, b) && (x, y) != (b, a) ==> delivers(n, partitioned(blocked, a, b), x, y)
            == delivers(n, blocked, x, y),
{
}

/// Healing takes a partition back, where the link was open before.
pub proof fn law_heal_undoes_partition(blocked: Links, a: usize, b: usize)
    requires
        !blocked.contains((a, b)),
        !blocked.contains((b, a)),
    ensures
        healed(partitioned(blocked, a, b), a, b) == blocked,
{
    assert(healed(partitioned(blocked, a, b), a, b) =~= blocked);
}

/// A broadcast reaches every node but its sender and those that the sender is blocked from. Healing
/// opens both directions of a link and leaves every other one as it is.
pub proof fn law_who_is_reached(
    n: nat,
    blocked: Links,
    from: usize,
    to: usize,
    a: usize,
    b: usize,
)
    ensures
        delivers(n, blocked, from, to) <==> to < n && to != from && !blocked.contains((from, to)),
        to < n && to != from ==> delivers(n, Links::empty(), from, to),
        !healed(blocked, a, b).contains((a, b)),
        !healed(blocked, a, b).contains((b, a)),
        (from, to) != (a, b) && (from, to) != (b, a) ==> (healed(blocked, a, b).contains((from, to))
            <==> blocked.contains((from, to))),
        partitioned(blocked, a, b).contains((from, to)) <==> blocked.contains((from, to)) || (from,
        to) == (a, b) || (from, to) == (b, a),
{
}

} // verus!
