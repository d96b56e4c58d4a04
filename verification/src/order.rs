//! Sorting by integer keys, with ties left in the order they came in.

use vstd::prelude::*;

verus! {

/// How many of the positions `sorted` come no later than a key `key`, counted up to the last of
/// them.
pub open spec fn place(sorted: Seq<int>, keys: Seq<int>, key: int) -> int
    decreases sorted.len(),
{
    if sorted.len() == 0 {
        0
    } else if keys[sorted.last()] <= key {
        sorted.len() as int
    } else {
        place(sorted.drop_last(), keys, key)
    }
}

/// The positions of `keys`, put in ascending order of the keys; equal keys keep their order.
pub open spec fn order(keys: Seq<int>) -> Seq<int>
    decreases keys.len(),
{
    if keys.len() == 0 {
        Seq::empty()
    } else {
        let sorted = order(keys.drop_last());
        sorted.insert(place(sorted, keys, keys.last()), keys.len() - 1)
    }
}

/// `items` rearranged in ascending order of `keys`; items of equal keys keep their order.
pub open spec fn arranged<A>(items: Seq<A>, keys: Seq<int>) -> Seq<A> {
    order(keys).map_values(|i: int| items[i])
}

proof fn lemma_place_range(sorted: Seq<int>, keys: Seq<int>, key: int)
    ensures
        0 <= place(sorted, keys, key) <= sorted.len(),
    decreases sorted.len(),
{
    if sorted.len() > 0 {
        lemma_place_range(sorted.drop_last(), keys, key);
    }
}

proof fn lemma_place_splits(sorted: Seq<int>, keys: Seq<int>, key: int)
    requires
        forall|i: int, j: int|
            0 <= i < j < sorted.len() ==> keys[#[trigger] sorted[i]] <= keys[#[trigger] sorted[j]],
    ensures
        0 <= place(sorted, keys, key) <= sorted.len(),
        forall|i: int| 0 <= i < place(sorted, keys, key) ==> keys[#[trigger] sorted[i]] <= key,
        forall|i: int|
            place(sorted, keys, key) <= i < sorted.len() ==> keys[#[trigger] sorted[i]] > key,
    decreases sorted.len(),
{
    if sorted.len() > 0 {
        let front = sorted.drop_last();
        if keys[sorted.last()] > key {
            assert forall|i: int, j: int| 0 <= i < j < front.len() implies keys[#[trigger] front[i]]
                <= keys[#[trigger] front[j]] by {
                assert(front[i] == sorted[i] && front[j] == sorted[j]);
            }
            lemma_place_splits(front, keys, key);
            assert forall|i: int| 0 <= i < place(front, keys, key) implies keys[#[trigger] sorted[i]]
                <= key by {
                assert(front[i] == sorted[i]);
            }
            assert forall|i: int| place(front, keys, key) <= i < sorted.len() implies keys[
                #[trigger] sorted[i]] > key by {
                if i < front.len() {
                    assert(front[i] == sorted[i]);
                }
            }
        }
    }
}

/// `place` looks at the keys of the positions in `sorted` only.
proof fn lemma_place_local(sorted: Seq<int>, a: Seq<int>, b: Seq<int>, key: int)
    requires
        forall|i: int| 0 <= i < sorted.len() ==> a[#[trigger] sorted[i]] == b[sorted[i]],
    ensures
        place(sorted, a, key) == place(sorted, b, key),
    decreases sorted.len(),
{
    if sorted.len() > 0 {
        let front = sorted.drop_last();
        assert forall|i: int| 0 <= i < front.len() implies a[#[trigger] front[i]] == b[front[i]] by {
            assert(front[i] == sorted[i]);
        }
        assert(a[sorted[sorted.len() - 1]] == b[sorted[sorted.len() - 1]]);
        lemma_place_local(front, a, b, key);
    }
}

/// The sorted positions are those of the keys, each of them once, in ascending order of the keys;
/// two positions of equal keys stand in ascending order.
pub proof fn order_sorts(keys: Seq<int>)
    ensures
        order(keys).len() == keys.len(),
        forall|i: int| 0 <= i < keys.len() ==> 0 <= #[trigger] order(keys)[i] < keys.len(),
        forall|i: int, j: int|
            0 <= i < j < keys.len() ==> {
                let a = #[trigger] order(keys)[i];
                let b = #[trigger] order(keys)[j];
                keys[a] < keys[b] || keys[a] == keys[b] && a < b
            },
        forall|p: int| 0 <= p < keys.len() ==> #[trigger] order(keys).contains(p),
    decreases keys.len(),
{
    if keys.len() > 0 {
        let front = keys.drop_last();
        let n = keys.len() - 1;
        let sorted = order(front);
        order_sorts(front);
        assert forall|i: int| 0 <= i < sorted.len() implies front[#[trigger] sorted[i]]
            == keys[sorted[i]] by {}
        assert forall|i: int, j: int| 0 <= i < j < sorted.len() implies keys[#[trigger] sorted[i]]
            <= keys[#[trigger] sorted[j]] by {
            assert(front[sorted[i]] <= front[sorted[j]]);
        }
        lemma_place_splits(sorted, keys, keys.last());
        let k = place(sorted, keys, keys.last());
        let all = sorted.insert(k, n);
        assert(all == order(keys));
        assert forall|i: int| 0 <= i < keys.len() implies 0 <= #[trigger] all[i] < keys.len() by {
            if i < k {
                assert(all[i] == sorted[i]);
            } else if i > k {
                assert(all[i] == sorted[i - 1]);
            }
        }
        assert forall|i: int, j: int| 0 <= i < j < keys.len() implies {
            let a = #[trigger] all[i];
            let b = #[trigger] all[j];
            keys[a] < keys[b] || keys[a] == keys[b] && a < b
        } by {
            let a = all[i];
            let b = all[j];
            if j < k {
                assert(a == sorted[i] && b == sorted[j]);
            } else if j == k {
                assert(a == sorted[i] && b == n);
            } else if i < k {
                assert(a == sorted[i] && b == sorted[j - 1]);
            } else if i == k {
                assert(a == n && b == sorted[j - 1]);
            } else {
                assert(a == sorted[i - 1] && b == sorted[j - 1]);
            }
        }
        assert forall|p: int| 0 <= p < keys.len() implies #[trigger] all.contains(p) by {
            if p == n {
                assert(all[k] == p);
            } else {
                assert(sorted.contains(p));
                let i = choose|i: int| 0 <= i < sorted.len() && sorted[i] == p;
                if i < k {
                    assert(all[i] == p);
                } else {
                    assert(all[i + 1] == p);
                }
            }
        }
    }
}

/// Rearranging items loses none of them and adds none.
pub proof fn arranged_keeps_items<A>(items: Seq<A>, keys: Seq<int>)
    requires
        items.len() == keys.len(),
    ensures
        arranged(items, keys).len() == items.len(),
        arranged(items, keys).to_multiset() == items.to_multiset(),
    decreases keys.len(),
{
    if keys.len() == 0 {
        assert(arranged(items, keys) == items);
    } else {
        let n = keys.len() - 1;
        let front = items.drop_last();
        let sorted = order(keys.drop_last());
        let k = place(sorted, keys, keys.last());
        arranged_keeps_items(front, keys.drop_last());
        order_sorts(keys.drop_last());
        lemma_place_range(sorted, keys, keys.last());
        let before = arranged(front, keys.drop_last());
        let after = arranged(items, keys);
        assert forall|i: int| 0 <= i < after.len() implies after[i] == before.insert(
            k,
            items[n],
        )[i] by {
            if i < k {
                assert(order(keys)[i] == sorted[i]);
            } else if i > k {
                assert(order(keys)[i] == sorted[i - 1]);
            }
        }
        assert(after == before.insert(k, items[n]));
        vstd::seq_lib::to_multiset_insert(before, k, items[n]);
        vstd::seq_lib::to_multiset_build(front, items[n]);
        assert(items == front.push(items[n]));
    }
}

/// Keys that ascend already keep their places.
pub proof fn order_of_ascending(keys: Seq<int>)
    requires
        forall|i: int, j: int| 0 <= i < j < keys.len() ==> #[trigger] keys[i] <= #[trigger] keys[j],
    ensures
        order(keys) == Seq::new(keys.len(), |i: int| i),
    decreases keys.len(),
{
    if keys.len() > 0 {
        let front = keys.drop_last();
        assert forall|i: int, j: int| 0 <= i < j < front.len() implies #[trigger] front[i]
            <= #[trigger] front[j] by {
            assert(front[i] == keys[i] && front[j] == keys[j]);
        }
        order_of_ascending(front);
        let sorted = order(front);
        assert(place(sorted, keys, keys.last()) == sorted.len()) by {
            if sorted.len() > 0 {
                assert(sorted.last() == keys.len() - 2);
                assert(keys[keys.len() - 2] <= keys[keys.len() - 1]);
            }
        }
        assert(order(keys) == Seq::new(keys.len(), |i: int| i));
    }
}

/// The positions of a list of keys in ascending order of the keys; equal keys keep their order.
pub fn sorted_positions(keys: &Vec<i128>) -> (positions: Vec<usize>)
    ensures
        positions@.map_values(|i: usize| i as int) == order(keys@.map_values(|k: i128| k as int)),
{
    let ghost all = keys@.map_values(|k: i128| k as int);
    let mut positions: Vec<usize> = Vec::new();
    for n in 0..keys.len()
        invariant
            all == keys@.map_values(|k: i128| k as int),
            positions@.map_values(|i: usize| i as int) == order(all.take(n as int)),
    {
        let ghost sorted = positions@.map_values(|i: usize| i as int);
        let ghost upto = all.take(n + 1);
        proof {
            order_sorts(all.take(n as int));
            assert(upto.drop_last() == all.take(n as int));
            lemma_place_local(sorted, upto, all, all[n as int]);
        }
        let mut at: usize = positions.len();
        assert(sorted.take(at as int) == sorted);
        while at > 0 && keys[positions[at - 1]] > keys[n]
            invariant
                n < keys.len(),
                at <= positions.len(),
                all == keys@.map_values(|k: i128| k as int),
                sorted == positions@.map_values(|i: usize| i as int),
                forall|i: int| 0 <= i < sorted.len() ==> 0 <= #[trigger] sorted[i] < n,
                place(sorted, all, all[n as int]) == place(
                    sorted.take(at as int),
                    all,
                    all[n as int],
                ),
            decreases at,
        {
            assert(sorted[at - 1] == positions@[at - 1] as int);
            assert(sorted.take(at as int).drop_last() == sorted.take(at - 1));
            at = at - 1;
        }
        proof {
            if at > 0 {
                assert(sorted[at - 1] == positions@[at - 1] as int);
            }
            assert(place(sorted.take(at as int), all, all[n as int]) == at);
        }
        let ghost before = positions@;
        positions.insert(at, n);
        assert(positions@.map_values(|i: usize| i as int) == sorted.insert(at as int, n as int));
    }
    assert(all.take(keys.len() as int) == all);
    positions
}

} // verus!
