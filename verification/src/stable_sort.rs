//! Stable sorting by an integer rank.

use vstd::prelude::*;

verus! {

/// Whether ranks never fall along `s`.
pub open spec fn ascending<T>(s: Seq<T>, rank: spec_fn(T) -> nat) -> bool {
    forall|i: int, j: int| 0 <= i < j < s.len() ==> rank(#[trigger] s[i]) <= rank(#[trigger] s[j])
}

/// The items of `s` that have rank `k`, in order.
pub open spec fn of_rank<T>(s: Seq<T>, rank: spec_fn(T) -> nat, k: nat) -> Seq<T> {
    s.filter(|t: T| rank(t) == k)
}

/// `x` placed into `s` behind every item of no greater rank at its end.
pub open spec fn placed<T>(s: Seq<T>, x: T, rank: spec_fn(T) -> nat) -> Seq<T>
    decreases s.len(),
{
    if s.len() == 0 || rank(s.last()) <= rank(x) {
        s.push(x)
    } else {
        placed(s.drop_last(), x, rank).push(s.last())
    }
}

/// The items of `s` by ascending rank, items of equal rank in their order in `s`.
pub open spec fn sorted_by_rank<T>(s: Seq<T>, rank: spec_fn(T) -> nat) -> Seq<T>
    decreases s.len(),
{
    if s.len() == 0 {
        s
    } else {
        placed(sorted_by_rank(s.drop_last(), rank), s.last(), rank)
    }
}

proof fn lemma_of_rank_push<T>(s: Seq<T>, x: T, rank: spec_fn(T) -> nat, k: nat)
    ensures
        of_rank(s.push(x), rank, k) == if rank(x) == k {
            of_rank(s, rank, k).push(x)
        } else {
            of_rank(s, rank, k)
        },
{
    reveal(Seq::filter);
    assert(s.push(x).drop_last() == s);
}

proof fn lemma_placed<T>(s: Seq<T>, x: T, rank: spec_fn(T) -> nat, at: int)
    requires
        0 <= at <= s.len(),
        at == 0 || rank(s[at - 1]) <= rank(x),
        forall|k: int| at <= k < s.len() ==> rank(x) < rank(#[trigger] s[k]),
    ensures
        placed(s, x, rank) == s.insert(at, x),
    decreases s.len(),
{
    if at == s.len() {
        assert(s.insert(at, x) == s.push(x));
    } else {
        lemma_placed(s.drop_last(), x, rank, at);
        assert(s.drop_last().insert(at, x).push(s.last()) == s.insert(at, x));
    }
}

proof fn lemma_placed_keeps<T>(s: Seq<T>, x: T, rank: spec_fn(T) -> nat)
    ensures
        placed(s, x, rank).len() == s.len() + 1,
        placed(s, x, rank).to_multiset() == s.to_multiset().insert(x),
        ascending(s, rank) ==> ascending(placed(s, x, rank), rank),
        forall|y: T| #[trigger]
            placed(s, x, rank).contains(y) <==> s.contains(y) || y == x,
        forall|k: nat|
            #[trigger] of_rank(placed(s, x, rank), rank, k) == of_rank(s.push(x), rank, k),
    decreases s.len(),
{
    broadcast use vstd::seq_lib::group_to_multiset_ensures;

    let out = placed(s, x, rank);
    if s.len() == 0 || rank(s.last()) <= rank(x) {
        assert forall|y: T| #[trigger] out.contains(y) <==> s.contains(y) || y == x by {
            if s.contains(y) {
                let i = s.index_of(y);
                assert(out[i] == y);
            }
            assert(out[s.len() as int] == x);
        }
    } else {
        let rest = s.drop_last();
        let last = s.last();
        lemma_placed_keeps(rest, x, rank);
        let inner = placed(rest, x, rank);
        assert(s == rest.push(last));
        assert(out == inner.push(last));
        assert(out.to_multiset() =~= s.to_multiset().insert(x));
        assert forall|y: T| #[trigger] out.contains(y) <==> s.contains(y) || y == x by {
            if s.contains(y) {
                let i = s.index_of(y);
                if i < rest.len() {
                    assert(rest[i] == y);
                    assert(inner.contains(y));
                    assert(out[inner.index_of(y)] == y);
                } else {
                    assert(out[inner.len() as int] == y);
                }
            }
            if y == x {
                assert(inner.contains(y));
                assert(out[inner.index_of(y)] == y);
            }
            if out.contains(y) {
                let i = out.index_of(y);
                if i < inner.len() {
                    assert(inner[i] == y);
                    assert(inner.contains(y));
                    if rest.contains(y) {
                        assert(s[rest.index_of(y)] == y);
                    }
                } else {
                    assert(s[rest.len() as int] == y);
                }
            }
        }
        if ascending(s, rank) {
            assert(ascending(rest, rank));
            assert forall|i: int, j: int| 0 <= i < j < out.len() implies rank(#[trigger] out[i])
                <= rank(#[trigger] out[j]) by {
                if j == inner.len() {
                    assert(inner.contains(out[i]));
                    if rest.contains(out[i]) {
                        let m = rest.index_of(out[i]);
                        assert(s[m] == out[i]);
                    }
                }
            }
        }
        assert forall|k: nat|
            #[trigger] of_rank(out, rank, k) == of_rank(s.push(x), rank, k) by {
            lemma_of_rank_push(inner, last, rank, k);
            lemma_of_rank_push(rest, x, rank, k);
            lemma_of_rank_push(rest, last, rank, k);
            lemma_of_rank_push(s, x, rank, k);
            assert(of_rank(inner, rank, k) == of_rank(rest.push(x), rank, k));
        }
    }
}

/// Sorting keeps exactly the items, orders them by rank and keeps the order of equals.
pub proof fn lemma_sorted_by_rank<T>(s: Seq<T>, rank: spec_fn(T) -> nat)
    ensures
        sorted_by_rank(s, rank).len() == s.len(),
        sorted_by_rank(s, rank).to_multiset() == s.to_multiset(),
        ascending(sorted_by_rank(s, rank), rank),
        forall|y: T| #[trigger] sorted_by_rank(s, rank).contains(y) <==> s.contains(y),
        forall|k: nat|
            #[trigger] of_rank(sorted_by_rank(s, rank), rank, k) == of_rank(s, rank, k),
    decreases s.len(),
{
    broadcast use vstd::seq_lib::group_to_multiset_ensures;

    if s.len() > 0 {
        let rest = s.drop_last();
        let inner = sorted_by_rank(rest, rank);
        lemma_sorted_by_rank(rest, rank);
        lemma_placed_keeps(inner, s.last(), rank);
        assert(s == rest.push(s.last()));
        let out = sorted_by_rank(s, rank);
        assert(out.to_multiset() =~= s.to_multiset());
        assert forall|y: T| #[trigger] out.contains(y) <==> s.contains(y) by {
            if s.contains(y) {
                let i = s.index_of(y);
                if i < rest.len() {
                    assert(rest[i] == y);
                }
            }
            if rest.contains(y) {
                assert(s[rest.index_of(y)] == y);
            }
            assert(s[s.len() - 1] == s.last());
        }
        assert forall|k: nat|
            #[trigger] of_rank(out, rank, k) == of_rank(s, rank, k) by {
            lemma_of_rank_push(inner, s.last(), rank, k);
            lemma_of_rank_push(rest, s.last(), rank, k);
            assert(of_rank(inner, rank, k) == of_rank(rest, rank, k));
        }
    }
}

/// Sorts `items` by ascending rank, keeping the order of items of equal rank.
pub(crate) fn sort_by_rank<T, F: Fn(&T) -> u64>(
    items: &mut Vec<T>,
    rank_of: F,
    Ghost(rank): Ghost<spec_fn(T) -> nat>,
)
    requires
        forall|t: &T| #[trigger] call_requires(rank_of, (t,)),
        forall|t: &T, k: u64| call_ensures(rank_of, (t,), k) ==> k == rank(*t),
    ensures
        final(items)@ == sorted_by_rank(old(items)@, rank),
{
    let ghost input = items@;
    let mut i: usize = 0;
    assert(input.take(0) == Seq::<T>::empty());
    while i < items.len()
        invariant
            forall|t: &T| #[trigger] call_requires(rank_of, (t,)),
            forall|t: &T, k: u64| call_ensures(rank_of, (t,), k) ==> k == rank(*t),
            i <= items@.len() == input.len(),
            items@.take(i as int) == sorted_by_rank(input.take(i as int), rank),
            forall|k: int| i <= k < input.len() ==> items@[k] == input[k],
        decreases items@.len() - i,
    {
        let ghost before = items@;
        let ghost prefix = items@.take(i as int);
        let key: u64 = rank_of(&items[i]);
        proof {
            lemma_sorted_by_rank(input.take(i as int), rank);
        }
        let mut at: usize = i;
        while at > 0 && rank_of(&items[at - 1]) > key
            invariant
                forall|t: &T| #[trigger] call_requires(rank_of, (t,)),
                forall|t: &T, k: u64| call_ensures(rank_of, (t,), k) ==> k == rank(*t),
                at <= i < items@.len(),
                items@ == before,
                prefix == before.take(i as int),
                key == rank(before[i as int]),
                forall|k: int| at <= k < i ==> key < rank(#[trigger] prefix[k]),
            ensures
                at == 0 || rank(prefix[at - 1]) <= key,
            decreases at,
        {
            at -= 1;
        }
        let x = items.remove(i);
        items.insert(at, x);
        proof {
            lemma_placed(prefix, x, rank, at as int);
            assert(input.take(i + 1).drop_last() == input.take(i as int));
            assert(input.take(i + 1).last() == x);
            assert(items@.take(i + 1) == prefix.insert(at as int, x));
        }
        i += 1;
    }
    assert(items@.take(items@.len() as int) == items@);
    assert(input.take(input.len() as int) == input);
}

} // verus!
