//! Stable ordering of positions by a key of three numbers.
use vstd::prelude::*;

verus! {

/// A sort key. Keys compare like tuples: first by `.0`, then `.1`, then `.2`.
pub type Key = (usize, usize, usize);

/// Whether `a` sorts strictly before `b`.
pub open spec fn key_less(a: Key, b: Key) -> bool {
    a.0 < b.0 || (a.0 == b.0 && (a.1 < b.1 || (a.1 == b.1 && a.2 < b.2)))
}

/// Whether position `a` comes before position `b`: by key, and in the order
/// given where the keys are the same.
pub open spec fn comes_before(keys: Seq<Key>, a: int, b: int) -> bool {
    key_less(keys[a], keys[b]) || (keys[a] == keys[b] && a < b)
}

/// `order` with the position `x` put after everything that does not sort
/// after it.
pub open spec fn insert_in_order(keys: Seq<Key>, order: Seq<usize>, x: usize) -> Seq<usize>
    decreases order.len(),
{
    if order.len() == 0 || !key_less(keys[x as int], keys[order.last() as int]) {
        order.push(x)
    } else {
        insert_in_order(keys, order.drop_last(), x).push(order.last())
    }
}

/// The first `n` positions of `keys` in stable order.
pub open spec fn order_of_first(keys: Seq<Key>, n: int) -> Seq<usize>
    decreases n,
{
    if n <= 0 {
        seq![]
    } else {
        insert_in_order(keys, order_of_first(keys, n - 1), (n - 1) as usize)
    }
}

/// The positions of `keys` in stable order.
pub open spec fn order_of(keys: Seq<Key>) -> Seq<usize> {
    order_of_first(keys, keys.len() as int)
}

/// `order` lists each of the first `n` positions of `keys` once, each before
/// all that come after it.
pub open spec fn is_stable_order(keys: Seq<Key>, n: int, order: Seq<usize>) -> bool {
    &&& order.len() == n
    &&& forall|i: int| 0 <= i < order.len() ==> #[trigger] order[i] < n
    &&& forall|a: usize| a < n ==> #[trigger] order.contains(a)
    &&& forall|i: int, j: int|
        0 <= i < j < order.len() ==> comes_before(
            keys,
            #[trigger] order[i] as int,
            #[trigger] order[j] as int,
        )
}

proof fn lemma_insert_members(keys: Seq<Key>, order: Seq<usize>, x: usize)
    ensures
        insert_in_order(keys, order, x).len() == order.len() + 1,
        insert_in_order(keys, order, x).to_multiset() == order.to_multiset().insert(x),
        forall|a: usize| #[trigger]
            insert_in_order(keys, order, x).contains(a) <==> (order.contains(a) || a == x),
    decreases order.len(),
{
    broadcast use vstd::seq_lib::group_to_multiset_ensures;

    let r = insert_in_order(keys, order, x);
    if order.len() == 0 || !key_less(keys[x as int], keys[order.last() as int]) {
        assert forall|a: usize| #[trigger] r.contains(a) <==> (order.contains(a) || a == x) by {
            if order.contains(a) {
                let k = choose|k: int| 0 <= k < order.len() && order[k] == a;
                assert(r[k] == a);
            }
            assert(r[order.len() as int] == x);
        }
    } else {
        let t = insert_in_order(keys, order.drop_last(), x);
        lemma_insert_members(keys, order.drop_last(), x);
        assert(order.drop_last().push(order.last()) == order);
        assert(order.to_multiset() == order.drop_last().to_multiset().insert(order.last()));
        assert(r.to_multiset() == t.to_multiset().insert(order.last()));
        assert(r.to_multiset() =~= order.to_multiset().insert(x));
        assert forall|a: usize| #[trigger] r.contains(a) <==> (order.contains(a) || a == x) by {
            if t.contains(a) {
                let k = choose|k: int| 0 <= k < t.len() && t[k] == a;
                assert(r[k] == a);
            }
            assert(r[t.len() as int] == order.last());
            if order.contains(a) {
                let k = choose|k: int| 0 <= k < order.len() && order[k] == a;
                if k < order.len() - 1 {
                    assert(order.drop_last()[k] == a);
                }
            }
            if order.drop_last().contains(a) {
                let k = choose|k: int|
                    0 <= k < order.drop_last().len() && order.drop_last()[k] == a;
                assert(order[k] == a);
            }
            if r.contains(a) {
                let k = choose|k: int| 0 <= k < r.len() && r[k] == a;
                if k < t.len() {
                    assert(t[k] == a);
                } else {
                    assert(order[order.len() - 1] == a);
                }
            }
        }
    }
}

proof fn lemma_insert_sorted(keys: Seq<Key>, order: Seq<usize>, x: usize)
    requires
        forall|i: int| 0 <= i < order.len() ==> #[trigger] order[i] < x,
        forall|i: int, j: int|
            0 <= i < j < order.len() ==> comes_before(
                keys,
                #[trigger] order[i] as int,
                #[trigger] order[j] as int,
            ),
    ensures
        forall|i: int, j: int|
            0 <= i < j < insert_in_order(keys, order, x).len() ==> comes_before(
                keys,
                #[trigger] insert_in_order(keys, order, x)[i] as int,
                #[trigger] insert_in_order(keys, order, x)[j] as int,
            ),
    decreases order.len(),
{
    let r = insert_in_order(keys, order, x);
    if order.len() == 0 || !key_less(keys[x as int], keys[order.last() as int]) {
        assert forall|i: int, j: int| 0 <= i < j < r.len() implies comes_before(
            keys,
            #[trigger] r[i] as int,
            #[trigger] r[j] as int,
        ) by {
            if j == order.len() {
                let last = order.len() - 1;
                assert(comes_before(keys, order[last] as int, x as int));
                if i < last {
                    assert(comes_before(keys, order[i] as int, order[last] as int));
                }
            }
        }
    } else {
        let front = order.drop_last();
        let t = insert_in_order(keys, front, x);
        lemma_insert_sorted(keys, front, x);
        lemma_insert_members(keys, front, x);
        assert forall|i: int, j: int| 0 <= i < j < r.len() implies comes_before(
            keys,
            #[trigger] r[i] as int,
            #[trigger] r[j] as int,
        ) by {
            if j < t.len() {
                assert(r[i] == t[i] && r[j] == t[j]);
            } else {
                assert(r[j] == order.last());
                assert(r[i] == t[i]);
                assert(t.contains(t[i]));
                if t[i] != x {
                    let k = choose|k: int| 0 <= k < front.len() && front[k] == t[i];
                    assert(order[k] == t[i]);
                    assert(comes_before(keys, order[k] as int, order[order.len() - 1] as int));
                }
            }
        }
    }
}

/// What [`order_of_first`] computes is the stable order.
pub proof fn lemma_order_is_stable(keys: Seq<Key>, n: int)
    requires
        0 <= n <= keys.len(),
        n <= usize::MAX,
    ensures
        is_stable_order(keys, n, order_of_first(keys, n)),
    decreases n,
{
    if n > 0 {
        let prev = order_of_first(keys, n - 1);
        let x = (n - 1) as usize;
        lemma_order_is_stable(keys, n - 1);
        lemma_insert_members(keys, prev, x);
        lemma_insert_sorted(keys, prev, x);
        let r = order_of_first(keys, n);
        assert forall|i: int| 0 <= i < r.len() implies #[trigger] r[i] < n by {
            assert(r.contains(r[i]));
            if r[i] != x {
                let k = choose|k: int| 0 <= k < prev.len() && prev[k] == r[i];
                assert(prev[k] < n - 1);
            }
        }
    }
}

/// Whether `a` sorts strictly before `b`.
pub fn key_is_less(a: Key, b: Key) -> (r: bool)
    ensures
        r == key_less(a, b),
{
    a.0 < b.0 || (a.0 == b.0 && (a.1 < b.1 || (a.1 == b.1 && a.2 < b.2)))
}

/// The positions of `keys` in stable order.
pub fn sort_positions(keys: &Vec<Key>) -> (r: Vec<usize>)
    ensures
        r@ == order_of(keys@),
        is_stable_order(keys@, keys@.len() as int, r@),
{
    let mut order: Vec<usize> = Vec::new();
    let mut n: usize = 0;
    while n < keys.len()
        invariant
            n <= keys@.len(),
            order@ == order_of_first(keys@, n as int),
        decreases keys.len() - n,
    {
        proof {
            lemma_order_is_stable(keys@, n as int);
        }
        let mut at: usize = order.len();
        let ghost target = insert_in_order(keys@, order@, n);
        proof {
            assert(order@.take(at as int) == order@);
            assert(order@.skip(at as int) == Seq::<usize>::empty());
            assert(target + Seq::<usize>::empty() == target);
        }
        while at > 0 && key_is_less(keys[n], keys[order[at - 1]])
            invariant
                n < keys@.len(),
                at <= order@.len(),
                forall|i: int| 0 <= i < order@.len() ==> #[trigger] order@[i] < n,
                target == insert_in_order(keys@, order@.take(at as int), n) + order@.skip(
                    at as int,
                ),
            decreases at,
        {
            proof {
                let t = order@.take(at as int);
                assert(t.drop_last() == order@.take(at - 1));
                assert(t.last() == order@[at - 1]);
                assert(insert_in_order(keys@, t.drop_last(), n).push(t.last()) + order@.skip(
                    at as int,
                ) == insert_in_order(keys@, order@.take(at - 1), n) + order@.skip(at - 1));
            }
            at = at - 1;
        }
        proof {
            let t = order@.take(at as int);
            if at > 0 {
                assert(t.last() == order@[at - 1]);
            }
            assert(t.push(n) + order@.skip(at as int) == order@.insert(at as int, n));
        }
        order.insert(at, n);
        n = n + 1;
    }
    proof {
        lemma_order_is_stable(keys@, n as int);
    }
    order
}

} // verus!
