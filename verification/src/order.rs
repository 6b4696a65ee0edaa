//! Stable sorting by a key.

use vstd::prelude::*;

verus! {

/// Puts position `i` behind all positions whose key is not greater than its own.
pub open spec fn insert_by_key(keys: Seq<u128>, sorted: Seq<usize>, i: usize) -> Seq<usize>
    decreases sorted.len(),
{
    if sorted.len() == 0 {
        seq![i]
    } else if keys[sorted[0] as int] > keys[i as int] {
        seq![i] + sorted
    } else {
        seq![sorted[0]] + insert_by_key(keys, sorted.drop_first(), i)
    }
}

/// The first `n` positions in the order of their keys, those of equal keys in their
/// own order.
pub open spec fn order_upto(keys: Seq<u128>, n: int) -> Seq<usize>
    decreases n,
{
    if n <= 0 {
        Seq::empty()
    } else {
        insert_by_key(keys, order_upto(keys, n - 1), (n - 1) as usize)
    }
}

/// The positions in the order of their keys, those of equal keys in their own order.
pub open spec fn order(keys: Seq<u128>) -> Seq<usize> {
    order_upto(keys, keys.len() as int)
}

/// Position `i` stands before position `j`: by its key, or, the keys being equal, by
/// itself.
pub open spec fn stands_before(keys: Seq<u128>, i: usize, j: usize) -> bool {
    keys[i as int] < keys[j as int] || (keys[i as int] == keys[j as int] && i < j)
}

/// `o` holds the positions below `n`, each once, in the order of their keys.
pub open spec fn is_order(keys: Seq<u128>, o: Seq<usize>, n: int) -> bool {
    &&& o.len() == n
    &&& forall|a: int| 0 <= a < o.len() ==> o[a] < n
    &&& forall|a: int, b: int| 0 <= a < b < o.len() ==> stands_before(keys, o[a], o[b])
    &&& forall|i: usize| i < n ==> o.contains(i)
}

proof fn lemma_insert(keys: Seq<u128>, sorted: Seq<usize>, i: usize)
    requires
        forall|a: int| 0 <= a < sorted.len() ==> sorted[a] < i,
        forall|a: int, b: int|
            0 <= a < b < sorted.len() ==> stands_before(keys, sorted[a], sorted[b]),
    ensures
        ({
            let o = insert_by_key(keys, sorted, i);
            &&& o.len() == sorted.len() + 1
            &&& forall|a: int| 0 <= a < o.len() ==> o[a] <= i
            &&& forall|a: int| 0 <= a < o.len() ==> o[a] == i || sorted.contains(o[a])
            &&& forall|a: int, b: int| 0 <= a < b < o.len() ==> stands_before(keys, o[a], o[b])
            &&& o.contains(i)
            &&& forall|j: usize| sorted.contains(j) ==> o.contains(j)
        }),
    decreases sorted.len(),
{
    let o = insert_by_key(keys, sorted, i);
    if sorted.len() == 0 {
        assert(o[0] == i);
    } else if keys[sorted[0] as int] > keys[i as int] {
        assert(o[0] == i);
        assert forall|a: int, b: int| 0 <= a < b < o.len() implies stands_before(
            keys,
            o[a],
            o[b],
        ) by {
            assert(o[b] == sorted[b - 1]);
            if b > 1 {
                assert(stands_before(keys, sorted[0], sorted[b - 1]));
            }
            if a > 0 {
                assert(o[a] == sorted[a - 1]);
            }
        }
        assert forall|j: usize| sorted.contains(j) implies o.contains(j) by {
            let a = choose|a: int| 0 <= a < sorted.len() && sorted[a] == j;
            assert(o[a + 1] == j);
        }
        assert forall|a: int| 0 <= a < o.len() implies o[a] <= i && (o[a] == i
            || sorted.contains(o[a])) by {
            if a > 0 {
                assert(o[a] == sorted[a - 1]);
            }
        }
    } else {
        let rest = sorted.drop_first();
        let tail = insert_by_key(keys, rest, i);
        assert forall|a: int| 0 <= a < rest.len() implies rest[a] < i by {
            assert(rest[a] == sorted[a + 1]);
        }
        assert forall|a: int, b: int| 0 <= a < b < rest.len() implies stands_before(
            keys,
            rest[a],
            rest[b],
        ) by {
            assert(rest[a] == sorted[a + 1] && rest[b] == sorted[b + 1]);
        }
        lemma_insert(keys, rest, i);
        assert forall|a: int| 0 <= a < o.len() implies o[a] <= i && (o[a] == i
            || sorted.contains(o[a])) by {
            if a == 0 {
                assert(o[a] == sorted[0]);
            } else {
                assert(o[a] == tail[a - 1]);
                if tail[a - 1] != i {
                    let c = choose|c: int| 0 <= c < rest.len() && rest[c] == tail[a - 1];
                    assert(sorted[c + 1] == o[a]);
                }
            }
        }
        assert forall|a: int, b: int| 0 <= a < b < o.len() implies stands_before(
            keys,
            o[a],
            o[b],
        ) by {
            assert(o[b] == tail[b - 1]);
            if a == 0 {
                if tail[b - 1] != i {
                    let c = choose|c: int| 0 <= c < rest.len() && rest[c] == tail[b - 1];
                    assert(sorted[c + 1] == o[b]);
                }
            } else {
                assert(o[a] == tail[a - 1]);
            }
        }
        let k = choose|k: int| 0 <= k < tail.len() && tail[k] == i;
        assert(o[k + 1] == i);
        assert forall|j: usize| sorted.contains(j) implies o.contains(j) by {
            let a = choose|a: int| 0 <= a < sorted.len() && sorted[a] == j;
            if a == 0 {
                assert(o[0] == j);
            } else {
                assert(rest[a - 1] == j);
                assert(rest.contains(j));
                assert(tail.contains(j));
                let c = choose|c: int| 0 <= c < tail.len() && tail[c] == j;
                assert(o[c + 1] == j);
            }
        }
    }
}

/// The order holds every position once, sorted by key, equal keys in their own order.
pub proof fn lemma_order_upto(keys: Seq<u128>, n: int)
    requires
        0 <= n <= keys.len(),
        keys.len() <= usize::MAX,
    ensures
        is_order(keys, order_upto(keys, n), n),
    decreases n,
{
    if n > 0 {
        lemma_order_upto(keys, n - 1);
        let before = order_upto(keys, n - 1);
        let o = order_upto(keys, n);
        lemma_insert(keys, before, (n - 1) as usize);
        assert forall|i: usize| i < n implies o.contains(i) by {
            if i < n - 1 {
                assert(before.contains(i));
            }
        }
    }
}

/// Positions stand in one way only in the order of their keys.
pub proof fn law_order_is_unique(keys: Seq<u128>, a: Seq<usize>, b: Seq<usize>, n: int)
    requires
        is_order(keys, a, n),
        is_order(keys, b, n),
    ensures
        a == b,
{
    lemma_same_upto(keys, a, b, n, n);
    assert(a =~= b);
}

proof fn lemma_same_upto(keys: Seq<u128>, a: Seq<usize>, b: Seq<usize>, n: int, k: int)
    requires
        is_order(keys, a, n),
        is_order(keys, b, n),
        0 <= k <= n,
    ensures
        forall|i: int| 0 <= i < k ==> a[i] == b[i],
    decreases k,
{
    if k > 0 {
        lemma_same_upto(keys, a, b, n, k - 1);
        let i = k - 1;
        if a[i] != b[i] {
            assert(b.contains(a[i]));
            assert(a.contains(b[i]));
            let p = choose|p: int| 0 <= p < b.len() && b[p] == a[i];
            let q = choose|q: int| 0 <= q < a.len() && a[q] == b[i];
            if p < i {
                assert(a[p] == a[i]);
                assert(stands_before(keys, a[p], a[i]));
            }
            if q < i {
                assert(b[q] == b[i]);
                assert(stands_before(keys, b[q], b[i]));
            }
            assert(stands_before(keys, b[i], b[p]));
            assert(stands_before(keys, a[i], a[q]));
        }
    }
}

/// Sorts the positions of `keys`.
pub fn stable_order(keys: &Vec<u128>) -> (r: Vec<usize>)
    ensures
        r@ == order(keys@),
        is_order(keys@, r@, keys@.len() as int),
{
    let mut sorted: Vec<usize> = Vec::new();
    let mut i: usize = 0;
    assert(keys@.len() == keys.len());
    while i < keys.len()
        invariant
            i <= keys.len(),
            sorted@ == order_upto(keys@, i as int),
        decreases keys.len() - i,
    {
        proof {
            lemma_order_upto(keys@, i as int);
        }
        let ghost before = sorted@;
        let mut p: usize = 0;
        assert(before.skip(0) =~= before);
        assert(before.take(0) + insert_by_key(keys@, before, i) =~= insert_by_key(
            keys@,
            before,
            i,
        ));
        while p < sorted.len() && keys[sorted[p]] <= keys[i]
            invariant
                i < keys.len(),
                p <= sorted.len(),
                sorted@ == before,
                is_order(keys@, before, i as int),
                insert_by_key(keys@, before, i) == before.take(p as int) + insert_by_key(
                    keys@,
                    before.skip(p as int),
                    i,
                ),
            decreases sorted.len() - p,
        {
            proof {
                let rest = before.skip(p as int);
                assert(rest[0] == before[p as int]);
                assert(rest.drop_first() =~= before.skip(p + 1));
                assert(before.take(p as int) + insert_by_key(keys@, rest, i) =~= before.take(p + 1)
                    + insert_by_key(keys@, rest.drop_first(), i));
            }
            p = p + 1;
        }
        sorted.insert(p, i);
        proof {
            let rest = before.skip(p as int);
            if p < before.len() {
                assert(rest[0] == before[p as int]);
                assert(sorted@ =~= before.take(p as int) + (seq![i] + rest));
            } else {
                assert(rest.len() == 0);
                assert(sorted@ =~= before.take(p as int) + seq![i]);
            }
        }
        i = i + 1;
    }
    proof {
        lemma_order_upto(keys@, keys@.len() as int);
    }
    sorted
}

} // verus!
