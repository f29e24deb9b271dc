//! Sets and maps keyed by block references, kept in reference order.

use vstd::prelude::*;

use crate::types::{lemma_precedes_irreflexive, lemma_precedes_transitive, BlockRef, Placement};

verus! {

/// Whether `refs` ascends strictly in reference order.
pub open spec fn ordered(refs: Seq<BlockRef>) -> bool {
    forall|i: int, j: int|
        0 <= i < j < refs.len() ==> (#[trigger] refs[i]).precedes(#[trigger] refs[j])
}

/// The members of `s` in reference order.
pub open spec fn in_order(s: Set<BlockRef>) -> Seq<BlockRef> {
    choose|refs: Seq<BlockRef>| #[trigger] ordered(refs) && refs.to_set() == s
}

/// Two ascending sequences with the same members are equal.
pub proof fn lemma_ordered_unique(a: Seq<BlockRef>, b: Seq<BlockRef>)
    requires
        ordered(a),
        ordered(b),
        forall|r: BlockRef| #[trigger] a.contains(r) <==> b.contains(r),
    ensures
        a == b,
    decreases a.len(),
{
    if a.len() == 0 {
        if b.len() > 0 {
            assert(b.contains(b[0]));
            assert(a.contains(b[0]));
        }
        assert(a =~= b);
    } else {
        assert(a.contains(a.last()));
        let j = b.index_of(a.last());
        assert(b.contains(b.last()));
        assert(a.contains(b.last()));
        let i = a.index_of(b.last());
        if i < a.len() - 1 {
            assert(a[i].precedes(a.last()));
            if j < b.len() - 1 {
                assert(b[j].precedes(b.last()));
                lemma_precedes_transitive(a.last(), b.last(), a.last());
                lemma_precedes_irreflexive(a.last());
            }
        }
        assert(a.last() == b.last());
        assert forall|r: BlockRef| #[trigger]
            a.drop_last().contains(r) <==> b.drop_last().contains(r) by {
            lemma_precedes_irreflexive(r);
            if a.drop_last().contains(r) {
                let k = a.drop_last().index_of(r);
                assert(a[k] == r && a[k].precedes(a.last()));
                assert(a.contains(r));
                let m = b.index_of(r);
                assert(b.drop_last()[m] == r);
            }
            if b.drop_last().contains(r) {
                let k = b.drop_last().index_of(r);
                assert(b[k] == r && b[k].precedes(b.last()));
                assert(b.contains(r));
                assert(a.contains(r));
                let m = a.index_of(r);
                assert(a.drop_last()[m] == r);
            }
        }
        lemma_ordered_unique(a.drop_last(), b.drop_last());
        assert(a =~= a.drop_last().push(a.last()));
        assert(b =~= b.drop_last().push(b.last()));
    }
}

/// An ascending sequence is its set of members in order.
pub proof fn lemma_in_order(refs: Seq<BlockRef>, s: Set<BlockRef>)
    requires
        ordered(refs),
        forall|r: BlockRef| #[trigger] refs.contains(r) <==> s.contains(r),
    ensures
        in_order(s) == refs,
{
    assert(refs.to_set() =~= s);
    let chosen = in_order(s);
    assert(ordered(chosen) && chosen.to_set() == s);
    assert forall|r: BlockRef| #[trigger] chosen.contains(r) <==> refs.contains(r) by {
        assert(chosen.to_set().contains(r) <==> s.contains(r));
    }
    lemma_ordered_unique(chosen, refs);
}

/// An ascending sequence holds no reference twice.
pub proof fn lemma_ordered_distinct(refs: Seq<BlockRef>)
    requires
        ordered(refs),
    ensures
        refs.no_duplicates(),
{
    assert forall|i: int, j: int|
        0 <= i < refs.len() && 0 <= j < refs.len() && i != j implies refs[i] != refs[j] by {
        lemma_precedes_irreflexive(refs[i]);
        if i < j {
            assert(refs[i].precedes(refs[j]));
        } else {
            assert(refs[j].precedes(refs[i]));
        }
    }
}

/// Every finite set of references can be put in order.
pub proof fn lemma_orderable(s: Set<BlockRef>)
    requires
        s.finite(),
    ensures
        ordered(in_order(s)),
        in_order(s).to_set() == s,
    decreases s.len(),
{
    if s.len() == 0 {
        assert(s =~= Set::<BlockRef>::empty());
        let none = Seq::<BlockRef>::empty();
        assert(none.to_set() =~= s);
        assert(ordered(none));
    } else {
        let x = s.choose();
        let rest = s.remove(x);
        lemma_orderable(rest);
        let refs = in_order(rest);
        let at = lemma_cut(refs, x);
        let all = refs.insert(at, x);
        assert forall|i: int, j: int| 0 <= i < j < all.len() implies (#[trigger] all[i]).precedes(
            #[trigger] all[j],
        ) by {
            if i < at && j > at {
                lemma_precedes_transitive(all[i], x, all[j]);
            }
        }
        assert forall|r: BlockRef| #[trigger] all.to_set().contains(r) <==> s.contains(r) by {
            if s.contains(r) {
                if r == x {
                    assert(all[at] == r);
                } else {
                    assert(refs.to_set().contains(r));
                    let i = refs.index_of(r);
                    assert(refs[i] == r);
                    if i < at {
                        assert(all[i] == r);
                    } else {
                        assert(all[i + 1] == r);
                    }
                }
            }
            if all.to_set().contains(r) {
                let i = all.index_of(r);
                if i < at {
                    assert(refs.to_set().contains(refs[i]));
                } else if i > at {
                    assert(refs.to_set().contains(refs[i - 1]));
                }
            }
        }
        assert(all.to_set() =~= s);
        assert(ordered(all));
    }
}

/// The position in `refs` that `x` would take.
proof fn lemma_cut(refs: Seq<BlockRef>, x: BlockRef) -> (at: int)
    requires
        ordered(refs),
        !refs.to_set().contains(x),
    ensures
        0 <= at <= refs.len(),
        forall|k: int| 0 <= k < at ==> (#[trigger] refs[k]).precedes(x),
        forall|k: int| at <= k < refs.len() ==> x.precedes(#[trigger] refs[k]),
    decreases refs.len(),
{
    if refs.len() == 0 {
        0
    } else {
        let last = refs.last();
        assert(refs.to_set().contains(refs[refs.len() - 1]));
        lemma_precedes_total(last, x);
        if last.precedes(x) {
            assert forall|k: int| 0 <= k < refs.len() implies (#[trigger] refs[k]).precedes(x) by {
                if k < refs.len() - 1 {
                    assert(refs[k].precedes(refs[refs.len() - 1]));
                    lemma_precedes_transitive(refs[k], last, x);
                }
            }
            refs.len() as int
        } else {
            let front = refs.drop_last();
            assert forall|r: BlockRef| front.to_set().contains(r) implies refs.to_set().contains(
                r,
            ) by {
                assert(refs[front.index_of(r)] == r);
            }
            let at = lemma_cut(front, x);
            assert forall|k: int| 0 <= k < at implies (#[trigger] refs[k]).precedes(x) by {
                assert(front[k] == refs[k]);
            }
            assert forall|k: int| at <= k < refs.len() implies x.precedes(#[trigger] refs[k]) by {
                if k < front.len() {
                    assert(front[k] == refs[k]);
                }
            }
            at
        }
    }
}

/// Of two different references one precedes the other.
pub proof fn lemma_precedes_total(a: BlockRef, b: BlockRef)
    ensures
        a == b || a.precedes(b) || b.precedes(a),
{
    if a.round == b.round && a.author.0 == b.author.0 && a.digest != b.digest {
        lemma_bytes_differ(a, b, 0);
    }
}

proof fn lemma_bytes_differ(a: BlockRef, b: BlockRef, from: int)
    requires
        0 <= from <= 32,
        a.digest != b.digest,
        forall|j: int| 0 <= j < from ==> a.digest.0[j] == b.digest.0[j],
    ensures
        a.digest.precedes(b.digest) || b.digest.precedes(a.digest),
    decreases 32 - from,
{
    if from == 32 {
        assert(a.digest.0 =~= b.digest.0);
    } else if a.digest.0[from] < b.digest.0[from] {
        assert(a.digest.first_less_at(b.digest, from));
    } else if b.digest.0[from] < a.digest.0[from] {
        assert(b.digest.first_less_at(a.digest, from));
    } else {
        lemma_bytes_differ(a, b, from + 1);
    }
}

/// Finds `key` in `refs`, or the position where it belongs.
fn locate(refs: &Vec<BlockRef>, key: &BlockRef) -> (r: Result<usize, usize>)
    requires
        ordered(refs@),
    ensures
        match r {
            Ok(i) => i < refs@.len() && refs@[i as int] == *key,
            Err(i) => {
                &&& i <= refs@.len()
                &&& forall|k: int| 0 <= k < i ==> (#[trigger] refs@[k]).precedes(*key)
                &&& forall|k: int| i <= k < refs@.len() ==> key.precedes(#[trigger] refs@[k])
            },
        },
{
    let mut lo: usize = 0;
    let mut hi: usize = refs.len();
    while lo < hi
        invariant
            ordered(refs@),
            lo <= hi <= refs@.len(),
            forall|k: int| 0 <= k < lo ==> (#[trigger] refs@[k]).precedes(*key),
            forall|k: int| hi <= k < refs@.len() ==> key.precedes(#[trigger] refs@[k]),
        decreases hi - lo,
    {
        let mid: usize = lo + (hi - lo) / 2;
        match refs[mid].placement(key) {
            Placement::Same => {
                return Ok(mid);
            },
            Placement::Before => {
                assert forall|k: int| 0 <= k < mid + 1 implies (#[trigger] refs@[k]).precedes(
                    *key,
                ) by {
                    if k < mid {
                        lemma_precedes_transitive(refs@[k], refs@[mid as int], *key);
                    }
                }
                lo = mid + 1;
            },
            Placement::After => {
                assert forall|k: int| mid <= k < refs@.len() implies key.precedes(
                    #[trigger] refs@[k],
                ) by {
                    if k > mid {
                        lemma_precedes_transitive(*key, refs@[mid as int], refs@[k]);
                    }
                }
                hi = mid;
            },
        }
    }
    Err(lo)
}

/// Membership and order after `x` is put in at its place.
proof fn lemma_insert_ordered(refs: Seq<BlockRef>, at: int, x: BlockRef)
    requires
        ordered(refs),
        0 <= at <= refs.len(),
        forall|k: int| 0 <= k < at ==> (#[trigger] refs[k]).precedes(x),
        forall|k: int| at <= k < refs.len() ==> x.precedes(#[trigger] refs[k]),
    ensures
        ordered(refs.insert(at, x)),
        !refs.contains(x),
        forall|r: BlockRef| #[trigger]
            refs.insert(at, x).contains(r) <==> refs.contains(r) || r == x,
{
    let all = refs.insert(at, x);
    lemma_precedes_irreflexive(x);
    assert forall|i: int, j: int| 0 <= i < j < all.len() implies (#[trigger] all[i]).precedes(
        #[trigger] all[j],
    ) by {
        if i < at && j > at {
            lemma_precedes_transitive(all[i], x, all[j]);
        }
    }
    assert forall|r: BlockRef| #[trigger] all.contains(r) <==> refs.contains(r) || r == x by {
        if refs.contains(r) {
            let i = refs.index_of(r);
            if i < at {
                assert(all[i] == r);
            } else {
                assert(all[i + 1] == r);
            }
        }
        assert(all[at] == x);
        if all.contains(r) {
            let i = all.index_of(r);
            if i < at {
                assert(refs[i] == r);
            } else if i > at {
                assert(refs[i - 1] == r);
            }
        }
    }
}

/// Membership and order after position `at` is taken out.
proof fn lemma_remove_ordered(refs: Seq<BlockRef>, at: int)
    requires
        ordered(refs),
        0 <= at < refs.len(),
    ensures
        ordered(refs.remove(at)),
        forall|r: BlockRef| #[trigger]
            refs.remove(at).contains(r) <==> refs.contains(r) && r != refs[at],
{
    let rest = refs.remove(at);
    lemma_ordered_distinct(refs);
    assert forall|r: BlockRef| #[trigger] rest.contains(r) <==> refs.contains(r) && r
        != refs[at] by {
        if refs.contains(r) && r != refs[at] {
            let i = refs.index_of(r);
            if i < at {
                assert(rest[i] == r);
            } else {
                assert(rest[i - 1] == r);
            }
        }
        if rest.contains(r) {
            let i = rest.index_of(r);
            if i < at {
                assert(refs[i] == r);
            } else {
                assert(refs[i + 1] == r);
            }
        }
    }
}

/// A set of block references.
#[derive(Debug)]
pub struct RefSet {
    pub(crate) refs: Vec<BlockRef>,
}

impl View for RefSet {
    type V = Set<BlockRef>;

    open spec fn view(&self) -> Set<BlockRef> {
        self.seq().to_set()
    }
}

impl RefSet {
    /// The members in reference order.
    pub open(crate) spec fn seq(&self) -> Seq<BlockRef> {
        self.refs@
    }

    pub open spec fn wf(&self) -> bool {
        ordered(self.seq())
    }

    pub proof fn lemma_finite(&self)
        requires
            self.wf(),
        ensures
            self@.finite(),
            self@.len() == self.seq().len(),
    {
        lemma_ordered_distinct(self.refs@);
        self.refs@.unique_seq_to_set();
        vstd::seq_lib::seq_to_set_is_finite(self.refs@);
    }

    pub fn new() -> (r: Self)
        ensures
            r.wf(),
            r@ == Set::<BlockRef>::empty(),
    {
        let r = RefSet { refs: Vec::new() };
        assert(r@ =~= Set::<BlockRef>::empty());
        r
    }

    pub fn len(&self) -> (n: usize)
        requires
            self.wf(),
        ensures
            n == self.seq().len(),
            self@.finite(),
            n == self@.len(),
    {
        proof {
            self.lemma_finite();
        }
        self.refs.len()
    }

    pub fn is_empty(&self) -> (r: bool)
        ensures
            r == (self@ == Set::<BlockRef>::empty()),
    {
        if self.refs.len() == 0 {
            assert(self@ =~= Set::<BlockRef>::empty());
            true
        } else {
            assert(self@.contains(self.refs@[0]));
            false
        }
    }

    pub fn contains(&self, key: &BlockRef) -> (r: bool)
        requires
            self.wf(),
        ensures
            r == self@.contains(*key),
    {
        match locate(&self.refs, key) {
            Ok(i) => {
                assert(self.refs@[i as int] == *key);
                true
            },
            Err(i) => {
                proof {
                    lemma_insert_ordered(self.refs@, i as int, *key);
                }
                false
            },
        }
    }

    /// Adds `key`. Returns false if it was already a member.
    pub fn insert(&mut self, key: BlockRef) -> (r: bool)
        requires
            old(self).wf(),
        ensures
            final(self).wf(),
            final(self)@ == old(self)@.insert(key),
            r == !old(self)@.contains(key),
    {
        match locate(&self.refs, &key) {
            Ok(i) => {
                assert(self.refs@[i as int] == key);
                assert(self@ =~= old(self)@.insert(key));
                false
            },
            Err(i) => {
                proof {
                    lemma_insert_ordered(self.refs@, i as int, key);
                }
                self.refs.insert(i, key);
                assert(self@ =~= old(self)@.insert(key));
                true
            },
        }
    }

    /// Adds all of `keys`.
    pub fn extend(&mut self, keys: &[BlockRef])
        requires
            old(self).wf(),
        ensures
            final(self).wf(),
            final(self)@ == old(self)@.union(keys@.to_set()),
    {
        let mut i: usize = 0;
        assert(self@ =~= old(self)@.union(keys@.take(0).to_set()));
        while i < keys.len()
            invariant
                i <= keys@.len(),
                self.wf(),
                self@ == old(self)@.union(keys@.take(i as int).to_set()),
            decreases keys@.len() - i,
        {
            self.insert(keys[i]);
            i += 1;
            proof {
                let before = keys@.take(i - 1);
                let now = keys@.take(i as int);
                assert(now =~= before.push(keys@[i - 1]));
                before.lemma_push_to_set_commute(keys@[i - 1]);
                assert(self@ =~= old(self)@.union(now.to_set()));
            }
        }
        assert(keys@.take(keys@.len() as int) =~= keys@);
    }

    /// Takes `key` out. Returns false if it was no member.
    pub fn remove(&mut self, key: &BlockRef) -> (r: bool)
        requires
            old(self).wf(),
        ensures
            final(self).wf(),
            final(self)@ == old(self)@.remove(*key),
            r == old(self)@.contains(*key),
    {
        match locate(&self.refs, key) {
            Ok(i) => {
                proof {
                    lemma_remove_ordered(self.refs@, i as int);
                }
                assert(self.refs@[i as int] == *key);
                self.refs.remove(i);
                assert(self@ =~= old(self)@.remove(*key));
                true
            },
            Err(i) => {
                proof {
                    lemma_insert_ordered(self.refs@, i as int, *key);
                }
                assert(self@ =~= old(self)@.remove(*key));
                false
            },
        }
    }

    /// The last member in reference order.
    pub fn last(&self) -> (r: Option<BlockRef>)
        ensures
            match r {
                Some(x) => self.seq().len() > 0 && x == self.seq().last() && self@.contains(x),
                None => self@ == Set::<BlockRef>::empty(),
            },
    {
        if self.refs.len() == 0 {
            assert(self@ =~= Set::<BlockRef>::empty());
            None
        } else {
            let x = self.refs[self.refs.len() - 1];
            assert(self.refs@[self.refs@.len() - 1] == x);
            Some(x)
        }
    }

    /// Takes out the first member in reference order.
    pub fn pop_first(&mut self) -> (r: Option<BlockRef>)
        requires
            old(self).wf(),
        ensures
            final(self).wf(),
            match r {
                Some(x) => {
                    &&& old(self)@.contains(x)
                    &&& final(self)@ == old(self)@.remove(x)
                    &&& forall|y: BlockRef| #[trigger]
                        old(self)@.contains(y) && y != x ==> x.precedes(y)
                },
                None => old(self)@ == Set::<BlockRef>::empty() && final(self)@ == old(self)@,
            },
    {
        if self.refs.len() == 0 {
            assert(self@ =~= Set::<BlockRef>::empty());
            None
        } else {
            proof {
                lemma_remove_ordered(self.refs@, 0);
            }
            let x = self.refs.remove(0);
            assert(old(self).refs@[0] == x);
            assert(self@ =~= old(self)@.remove(x));
            assert forall|y: BlockRef| #[trigger]
                old(self)@.contains(y) && y != x implies x.precedes(y) by {
                let i = old(self).refs@.index_of(y);
                assert(old(self).refs@[0].precedes(old(self).refs@[i]));
            }
            Some(x)
        }
    }

    /// Takes out the last member in reference order.
    pub fn pop_last(&mut self) -> (r: Option<BlockRef>)
        requires
            old(self).wf(),
        ensures
            final(self).wf(),
            match r {
                Some(x) => {
                    &&& old(self).seq().len() > 0
                    &&& x == old(self).seq().last()
                    &&& old(self)@.contains(x)
                    &&& final(self)@ == old(self)@.remove(x)
                    &&& forall|y: BlockRef| #[trigger]
                        old(self)@.contains(y) && y != x ==> y.precedes(x)
                },
                None => old(self)@ == Set::<BlockRef>::empty() && final(self)@ == old(self)@,
            },
    {
        if self.refs.len() == 0 {
            assert(self@ =~= Set::<BlockRef>::empty());
            None
        } else {
            let at: usize = self.refs.len() - 1;
            proof {
                lemma_remove_ordered(self.refs@, at as int);
            }
            let x = self.refs.remove(at);
            assert(old(self).refs@[at as int] == x);
            assert(self@ =~= old(self)@.remove(x));
            assert forall|y: BlockRef| #[trigger]
                old(self)@.contains(y) && y != x implies y.precedes(x) by {
                let i = old(self).refs@.index_of(y);
                assert(old(self).refs@[i].precedes(old(self).refs@[at as int]));
            }
            Some(x)
        }
    }

    /// The members in reference order.
    pub fn as_slice(&self) -> (r: &[BlockRef])
        ensures
            r@ == self.seq(),
    {
        self.refs.as_slice()
    }
}

impl Default for RefSet {
    fn default() -> (r: Self)
        ensures
            r.wf(),
            r@ == Set::<BlockRef>::empty(),
    {
        RefSet::new()
    }
}

/// A map from block references to values.
#[derive(Debug)]
pub struct RefMap<V> {
    pub(crate) keys: Vec<BlockRef>,
    pub(crate) values: Vec<V>,
}

/// The map that gives each of `keys` the value at its position.
pub open spec fn paired<V>(keys: Seq<BlockRef>, values: Seq<V>) -> Map<BlockRef, V> {
    Map::new(|k: BlockRef| keys.contains(k), |k: BlockRef| values[keys.index_of(k)])
}

impl<V> View for RefMap<V> {
    type V = Map<BlockRef, V>;

    open spec fn view(&self) -> Map<BlockRef, V> {
        paired(self.key_seq(), self.value_seq())
    }
}

proof fn lemma_paired<V>(keys: Seq<BlockRef>, values: Seq<V>)
    requires
        ordered(keys),
        keys.len() == values.len(),
    ensures
        forall|i: int|
            #![trigger keys[i]]
            #![trigger values[i]]
            0 <= i < keys.len() ==> {
                &&& paired(keys, values).contains_key(keys[i])
                &&& paired(keys, values)[keys[i]] == values[i]
            },
        paired(keys, values).dom().finite(),
        paired(keys, values).dom() == keys.to_set(),
{
    lemma_ordered_distinct(keys);
    assert forall|i: int|
        #![trigger keys[i]]
        #![trigger values[i]]
        0 <= i < keys.len() implies {
        &&& paired(keys, values).contains_key(keys[i])
        &&& paired(keys, values)[keys[i]] == values[i]
    } by {
        assert(keys.contains(keys[i]));
        assert(keys.index_of(keys[i]) == i);
    }
    assert(paired(keys, values).dom() =~= keys.to_set());
    vstd::seq_lib::seq_to_set_is_finite(keys);
}

impl<V> RefMap<V> {
    /// The keys in reference order.
    pub open(crate) spec fn key_seq(&self) -> Seq<BlockRef> {
        self.keys@
    }

    /// The values, in the order of the keys.
    pub open(crate) spec fn value_seq(&self) -> Seq<V> {
        self.values@
    }

    pub open spec fn wf(&self) -> bool {
        &&& ordered(self.key_seq())
        &&& self.key_seq().len() == self.value_seq().len()
    }

    /// What the keys and values at each position say of the map.
    pub proof fn lemma_positions(&self)
        requires
            self.wf(),
        ensures
            forall|i: int|
                #![trigger self.key_seq()[i]]
                #![trigger self.value_seq()[i]]
                0 <= i < self.key_seq().len() ==> {
                    &&& self@.contains_key(self.key_seq()[i])
                    &&& self@[self.key_seq()[i]] == self.value_seq()[i]
                },
            self@.dom().finite(),
            self@.dom() == self.key_seq().to_set(),
            in_order(self@.dom()) == self.key_seq(),
    {
        lemma_paired(self.keys@, self.values@);
        lemma_in_order(self.keys@, self@.dom());
    }

    pub fn new() -> (r: Self)
        ensures
            r.wf(),
            r@ == Map::<BlockRef, V>::empty(),
    {
        let r = RefMap { keys: Vec::new(), values: Vec::new() };
        assert(r@ =~= Map::<BlockRef, V>::empty());
        r
    }

    pub fn len(&self) -> (n: usize)
        requires
            self.wf(),
        ensures
            n == self.key_seq().len(),
            self@.dom().finite(),
            n == self@.dom().len(),
    {
        proof {
            self.lemma_positions();
            lemma_ordered_distinct(self.keys@);
            self.keys@.unique_seq_to_set();
        }
        self.keys.len()
    }

    pub fn contains_key(&self, key: &BlockRef) -> (r: bool)
        requires
            self.wf(),
        ensures
            r == self@.contains_key(*key),
    {
        match locate(&self.keys, key) {
            Ok(i) => {
                assert(self.keys@[i as int] == *key);
                true
            },
            Err(i) => {
                proof {
                    lemma_insert_ordered(self.keys@, i as int, *key);
                }
                false
            },
        }
    }

    pub fn get(&self, key: &BlockRef) -> (r: Option<&V>)
        requires
            self.wf(),
        ensures
            match r {
                Some(v) => self@.contains_key(*key) && *v == self@[*key],
                None => !self@.contains_key(*key),
            },
    {
        match locate(&self.keys, key) {
            Ok(i) => {
                proof {
                    lemma_paired(self.keys@, self.values@);
                }
                assert(self.keys@[i as int] == *key);
                Some(&self.values[i])
            },
            Err(i) => {
                proof {
                    lemma_insert_ordered(self.keys@, i as int, *key);
                }
                None
            },
        }
    }

    /// Sets the value of `key`.
    pub fn insert(&mut self, key: BlockRef, value: V)
        requires
            old(self).wf(),
        ensures
            final(self).wf(),
            final(self)@ == old(self)@.insert(key, value),
    {
        proof {
            lemma_paired(self.keys@, self.values@);
        }
        match locate(&self.keys, &key) {
            Ok(i) => {
                self.values.set(i, value);
                proof {
                    lemma_paired(self.keys@, self.values@);
                    assert(self.keys@[i as int] == key);
                    lemma_ordered_distinct(self.keys@);
                    assert forall|k: BlockRef| self@.contains_key(k) implies self@[k] == old(
                        self,
                    )@.insert(key, value)[k] by {
                        let j = self.keys@.index_of(k);
                        assert(self.keys@[j] == k);
                    }
                    assert(self@ =~= old(self)@.insert(key, value));
                }
            },
            Err(i) => {
                proof {
                    lemma_insert_ordered(self.keys@, i as int, key);
                }
                self.keys.insert(i, key);
                self.values.insert(i, value);
                proof {
                    lemma_paired(self.keys@, self.values@);
                    assert(self.keys@[i as int] == key);
                    assert forall|k: BlockRef| self@.contains_key(k) implies self@[k] == old(
                        self,
                    )@.insert(key, value)[k] by {
                        let j = self.keys@.index_of(k);
                        assert(self.keys@[j] == k);
                        if j < i {
                            assert(old(self).keys@[j] == k);
                        } else if j > i {
                            assert(old(self).keys@[j - 1] == k);
                        }
                    }
                    assert(self@ =~= old(self)@.insert(key, value));
                }
            },
        }
    }

    /// Takes `key` and its value out.
    pub fn remove(&mut self, key: &BlockRef) -> (r: Option<V>)
        requires
            old(self).wf(),
        ensures
            final(self).wf(),
            final(self)@ == old(self)@.remove(*key),
            match r {
                Some(v) => old(self)@.contains_key(*key) && v == old(self)@[*key],
                None => !old(self)@.contains_key(*key),
            },
    {
        proof {
            lemma_paired(self.keys@, self.values@);
        }
        match locate(&self.keys, key) {
            Ok(i) => {
                proof {
                    lemma_remove_ordered(self.keys@, i as int);
                    assert(self.keys@[i as int] == *key);
                }
                self.keys.remove(i);
                let value = self.values.remove(i);
                proof {
                    lemma_paired(self.keys@, self.values@);
                    assert forall|k: BlockRef| self@.contains_key(k) implies self@[k] == old(
                        self,
                    )@[k] by {
                        let j = self.keys@.index_of(k);
                        assert(self.keys@[j] == k);
                        if j < i {
                            assert(old(self).keys@[j] == k);
                        } else {
                            assert(old(self).keys@[j + 1] == k);
                        }
                    }
                    assert(self@ =~= old(self)@.remove(*key));
                }
                Some(value)
            },
            Err(i) => {
                proof {
                    lemma_insert_ordered(self.keys@, i as int, *key);
                    assert(self@ =~= old(self)@.remove(*key));
                }
                None
            },
        }
    }

    /// The key at position `i` in reference order.
    pub fn key_at(&self, i: usize) -> (r: BlockRef)
        requires
            i < self.key_seq().len(),
        ensures
            r == self.key_seq()[i as int],
    {
        self.keys[i]
    }

    /// The value at position `i` in reference order.
    pub fn value_at(&self, i: usize) -> (r: &V)
        requires
            i < self.value_seq().len(),
        ensures
            *r == self.value_seq()[i as int],
    {
        &self.values[i]
    }

    /// The position of the first key whose round is at least `round`.
    pub fn first_from(&self, round: u32) -> (r: usize)
        requires
            self.wf(),
        ensures
            r <= self.key_seq().len(),
            forall|k: int| 0 <= k < r ==> (#[trigger] self.key_seq()[k]).round < round,
            forall|k: int|
                r <= k < self.key_seq().len() ==> (#[trigger] self.key_seq()[k]).round >= round,
    {
        let mut lo: usize = 0;
        let mut hi: usize = self.keys.len();
        while lo < hi
            invariant
                self.wf(),
                lo <= hi <= self.keys@.len(),
                forall|k: int| 0 <= k < lo ==> (#[trigger] self.keys@[k]).round < round,
                forall|k: int|
                    hi <= k < self.keys@.len() ==> (#[trigger] self.keys@[k]).round >= round,
            decreases hi - lo,
        {
            let mid: usize = lo + (hi - lo) / 2;
            if self.keys[mid].round < round {
                assert forall|k: int| 0 <= k < mid + 1 implies (#[trigger] self.keys@[k]).round
                    < round by {
                    if k < mid {
                        assert(self.keys@[k].precedes(self.keys@[mid as int]));
                    }
                }
                lo = mid + 1;
            } else {
                assert forall|k: int| mid <= k < self.keys@.len() implies (
                #[trigger] self.keys@[k]).round >= round by {
                    if k > mid {
                        assert(self.keys@[mid as int].precedes(self.keys@[k]));
                    }
                }
                hi = mid;
            }
        }
        lo
    }
}

} // verus!
