//! Reachability between the nodes of a simulated network.

use vstd::prelude::*;

verus! {

/// Partition table of a simulated network.
#[derive(Debug)]
pub struct SimulatedNetwork {
    /// `partitions[a][b]` means that node `a` cannot reach node `b`.
    pub(crate) partitions: Vec<Vec<bool>>,
}

impl SimulatedNetwork {
    /// The table is square.
    pub open(crate) spec fn wf(&self) -> bool {
        forall|a: int|
            0 <= a < self.partitions@.len() ==> (#[trigger] self.partitions@[a])@.len()
                == self.partitions@.len()
    }

    /// The number of nodes.
    pub open(crate) spec fn size(&self) -> nat {
        self.partitions@.len()
    }

    /// Whether node `a` is cut off from node `b`.
    pub open(crate) spec fn cut(&self, a: int, b: int) -> bool {
        self.partitions@[a]@[b]
    }

    /// A network of `n` nodes without partitions.
    pub fn new(n: usize) -> (r: Self)
        ensures
            r.wf(),
            r.size() == n,
            forall|a: int, b: int| 0 <= a < n && 0 <= b < n ==> !#[trigger] r.cut(a, b),
    {
        let mut partitions: Vec<Vec<bool>> = Vec::new();
        let mut a: usize = 0;
        while a < n
            invariant
                a <= n,
                partitions@.len() == a,
                forall|i: int| 0 <= i < a ==> (#[trigger] partitions@[i])@.len() == n,
                forall|i: int, j: int|
                    0 <= i < a && 0 <= j < n ==> !#[trigger] partitions@[i]@[j],
            decreases n - a,
        {
            let mut row: Vec<bool> = Vec::new();
            let mut b: usize = 0;
            while b < n
                invariant
                    b <= n,
                    row@.len() == b,
                    forall|j: int| 0 <= j < b ==> !#[trigger] row@[j],
                decreases n - b,
            {
                row.push(false);
                b += 1;
            }
            partitions.push(row);
            a += 1;
        }
        SimulatedNetwork { partitions }
    }

    /// Whether node `from` can reach node `to`.
    pub fn reaches(&self, from: usize, to: usize) -> (r: bool)
        requires
            self.wf(),
            from < self.size(),
            to < self.size(),
        ensures
            r == !self.cut(from as int, to as int),
    {
        !self.partitions[from][to]
    }

    /// Cuts node `a` off from node `b`.
    fn cut_off(&mut self, a: usize, b: usize)
        requires
            old(self).wf(),
            a < old(self).size(),
            b < old(self).size(),
        ensures
            final(self).wf(),
            final(self).size() == old(self).size(),
            forall|x: int, y: int|
                #![trigger final(self).cut(x, y)]
                0 <= x < old(self).size() && 0 <= y < old(self).size() ==> final(self).cut(x, y)
                    == (old(self).cut(x, y) || (x == a && y == b)),
    {
        self.partitions[a][b] = true;
    }

    /// Injects a partition: nodes in `group_a` cannot reach nodes in `group_b`.
    pub fn partition(&mut self, group_a: &[usize], group_b: &[usize])
        requires
            old(self).wf(),
            forall|i: int| 0 <= i < group_a@.len() ==> #[trigger] group_a@[i] < old(self).size(),
            forall|i: int| 0 <= i < group_b@.len() ==> #[trigger] group_b@[i] < old(self).size(),
        ensures
            final(self).wf(),
            final(self).size() == old(self).size(),
            forall|x: int, y: int|
                #![trigger final(self).cut(x, y)]
                0 <= x < old(self).size() && 0 <= y < old(self).size() ==> final(self).cut(x, y)
                    == (old(self).cut(x, y) || (group_a@.contains(x as usize)
                    && group_b@.contains(y as usize))),
    {
        let ghost start = *self;
        let n: usize = self.partitions.len();
        let mut i: usize = 0;
        while i < group_a.len()
            invariant
                i <= group_a@.len(),
                start.wf(),
                self.wf(),
                self.size() == start.size() == n,
                forall|k: int| 0 <= k < group_a@.len() ==> #[trigger] group_a@[k] < start.size(),
                forall|k: int| 0 <= k < group_b@.len() ==> #[trigger] group_b@[k] < start.size(),
                forall|x: int, y: int|
                    0 <= x < start.size() && 0 <= y < start.size() ==> #[trigger] self.cut(x, y)
                        == (start.cut(x, y) || (group_a@.take(i as int).contains(x as usize)
                        && group_b@.contains(y as usize))),
            decreases group_a@.len() - i,
        {
            let ghost outer = *self;
            let a: usize = group_a[i];
            let mut j: usize = 0;
            while j < group_b.len()
                invariant
                    j <= group_b@.len(),
                    self.wf(),
                    self.size() == outer.size() == n,
                    a < outer.size(),
                    forall|k: int|
                        0 <= k < group_b@.len() ==> #[trigger] group_b@[k] < outer.size(),
                    forall|x: int, y: int|
                        0 <= x < outer.size() && 0 <= y < outer.size() ==> #[trigger] self.cut(x, y)
                            == (outer.cut(x, y) || (x == a && group_b@.take(j as int).contains(
                            y as usize,
                        ))),
                decreases group_b@.len() - j,
            {
                let ghost inner = *self;
                let b: usize = group_b[j];
                self.cut_off(a, b);
                proof {
                    lemma_one_more(group_b@, j as int);
                    assert forall|x: int, y: int|
                        0 <= x < outer.size() && 0 <= y < outer.size() implies #[trigger] self.cut(
                        x,
                        y,
                    ) == (outer.cut(x, y) || (x == a && group_b@.take(j + 1).contains(
                        y as usize,
                    ))) by {
                        assert(inner.cut(x, y) == (outer.cut(x, y) || (x == a && group_b@.take(
                            j as int,
                        ).contains(y as usize))));
                    }
                }
                j += 1;
            }
            proof {
                lemma_one_more(group_a@, i as int);
                assert(group_b@.take(group_b@.len() as int) =~= group_b@);
                assert forall|x: int, y: int|
                    0 <= x < start.size() && 0 <= y < start.size() implies #[trigger] self.cut(x, y)
                    == (start.cut(x, y) || (group_a@.take(i + 1).contains(x as usize)
                    && group_b@.contains(y as usize))) by {
                    assert(outer.cut(x, y) == (start.cut(x, y) || (group_a@.take(i as int).contains(
                        x as usize,
                    ) && group_b@.contains(y as usize))));
                }
            }
            i += 1;
        }
        assert(group_a@.take(group_a@.len() as int) =~= group_a@);
    }

    /// Removes all partitions.
    pub fn heal_partitions(&mut self)
        requires
            old(self).wf(),
        ensures
            final(self).wf(),
            final(self).size() == old(self).size(),
            forall|a: int, b: int|
                #![trigger final(self).cut(a, b)]
                0 <= a < old(self).size() && 0 <= b < old(self).size() ==> !final(self).cut(a, b),
    {
        let n: usize = self.partitions.len();
        *self = SimulatedNetwork::new(n);
    }
}

/// What the first `i + 1` elements of `list` hold.
proof fn lemma_one_more(list: Seq<usize>, i: int)
    requires
        0 <= i < list.len(),
    ensures
        forall|x: usize|
            #[trigger] list.take(i + 1).contains(x) <==> list.take(i).contains(x) || x == list[i],
{
    let longer = list.take(i + 1);
    assert(longer.drop_last() =~= list.take(i));
    assert forall|x: usize| #[trigger]
        longer.contains(x) <==> list.take(i).contains(x) || x == list[i] by {
        if longer.contains(x) {
            let at = choose|at: int| 0 <= at < longer.len() && longer[at] == x;
            if at < i {
                assert(list.take(i)[at] == x);
            }
        }
        if list.take(i).contains(x) {
            let at = choose|at: int| 0 <= at < i && list.take(i)[at] == x;
            assert(longer[at] == x);
        }
        assert(longer[i] == list[i]);
    }
}

} // verus!
