//! A stable sort by insertion, stated for any relation `less`.
//!
//! The sort is described by the order it gives to the positions of the items:
//! `stable_order(items, less)[k]` is the position in `items` of the item that
//! comes `k`-th. The relation need not be an order for the sort to be defined;
//! what holds of the result under which assumptions is stated by the laws
//! below.

use vstd::prelude::*;

verus! {

/// Where a new item `x` enters an arrangement `order` of earlier items: behind
/// the last item that it is not less than, in front of the run of items at the
/// end that it is less than.
pub open spec fn insertion_point<T>(
    items: Seq<T>,
    order: Seq<int>,
    x: T,
    less: spec_fn(T, T) -> bool,
) -> int
    decreases order.len(),
{
    if order.len() == 0 || !less(x, items[order.last()]) {
        order.len() as int
    } else {
        insertion_point(items, order.drop_last(), x, less)
    }
}

/// The positions of `items` in sorted order: the items are taken one by one
/// as they stand, and each enters the arrangement of those before it at its
/// [`insertion_point`].
pub open spec fn stable_order<T>(items: Seq<T>, less: spec_fn(T, T) -> bool) -> Seq<int>
    decreases items.len(),
{
    if items.len() == 0 {
        Seq::empty()
    } else {
        let head = stable_order(items.drop_last(), less);
        head.insert(insertion_point(items, head, items.last(), less), items.len() - 1)
    }
}

/// The items themselves in sorted order.
pub open spec fn arranged<T>(items: Seq<T>, less: spec_fn(T, T) -> bool) -> Seq<T> {
    stable_order(items, less).map_values(|i: int| items[i])
}

/// `order` lists every position of a sequence of `n` items exactly once.
pub open spec fn is_permutation(order: Seq<int>, n: nat) -> bool {
    &&& order.len() == n
    &&& forall|k: int| 0 <= k < order.len() ==> 0 <= #[trigger] order[k] < n
    &&& forall|k1: int, k2: int|
        0 <= k1 < k2 < order.len() ==> #[trigger] order[k1] != #[trigger] order[k2]
    &&& forall|i: int| 0 <= i < n ==> #[trigger] order.contains(i)
}

/// Taken in the order `order`, the items ascend: none is less than any item
/// in front of it.
pub open spec fn is_ascending<T>(items: Seq<T>, order: Seq<int>, less: spec_fn(T, T) -> bool) -> bool {
    forall|k1: int, k2: int|
        #![trigger order[k1], order[k2]]
        0 <= k1 < k2 < order.len() ==> !less(items[order[k2]], items[order[k1]])
}

/// The order `order` is stable: an item stands in front of one that was
/// listed before it only if it is less than that one.
pub open spec fn is_stable<T>(items: Seq<T>, order: Seq<int>, less: spec_fn(T, T) -> bool) -> bool {
    forall|k1: int, k2: int|
        #![trigger order[k1], order[k2]]
        0 <= k1 < k2 < order.len() && order[k1] > order[k2] ==> less(
            items[order[k1]],
            items[order[k2]],
        )
}

/// `p` is the place described for [`insertion_point`]: `x` is less than every
/// item from `p` on, and not less than the item just before `p`.
pub open spec fn is_insertion_point<T>(
    items: Seq<T>,
    order: Seq<int>,
    x: T,
    less: spec_fn(T, T) -> bool,
    p: int,
) -> bool {
    &&& 0 <= p <= order.len()
    &&& forall|j: int| p <= j < order.len() ==> less(x, items[#[trigger] order[j]])
    &&& p > 0 ==> !less(x, items[order[p - 1]])
}

/// The insertion point is the one place that fits its description.
pub proof fn lemma_insertion_point<T>(
    items: Seq<T>,
    order: Seq<int>,
    x: T,
    less: spec_fn(T, T) -> bool,
)
    ensures
        is_insertion_point(items, order, x, less, insertion_point(items, order, x, less)),
        forall|p: int|
            is_insertion_point(items, order, x, less, p) ==> p == insertion_point(
                items,
                order,
                x,
                less,
            ),
    decreases order.len(),
{
    let here = insertion_point(items, order, x, less);
    if order.len() == 0 || !less(x, items[order.last()]) {
        assert forall|p: int| is_insertion_point(items, order, x, less, p) implies p == here by {
            if p < order.len() {
                assert(less(x, items[order[order.len() - 1]]));
            }
        }
    } else {
        let front = order.drop_last();
        lemma_insertion_point(items, front, x, less);
        assert forall|j: int| here <= j < order.len() implies less(x, items[#[trigger] order[j]]) by {
            if j < front.len() {
                assert(order[j] == front[j]);
            }
        }
        assert forall|p: int| is_insertion_point(items, order, x, less, p) implies p == here by {
            assert(p < order.len());
            assert forall|j: int| p <= j < front.len() implies less(
                x,
                items[#[trigger] front[j]],
            ) by {
                assert(front[j] == order[j]);
            }
            assert(is_insertion_point(items, front, x, less, p));
        }
    }
}

/// The sorted order of a sequence and of the same sequence with one more item
/// at its end differ by the entry of that item alone.
pub proof fn lemma_stable_order_push<T>(items: Seq<T>, x: T, less: spec_fn(T, T) -> bool)
    ensures
        stable_order(items.push(x), less) == stable_order(items, less).insert(
            insertion_point(items.push(x), stable_order(items, less), x, less),
            items.len() as int,
        ),
{
    assert(items.push(x).drop_last() =~= items);
}

/// Sorting moves items and neither drops nor repeats one: the sorted order
/// lists every position exactly once.
pub proof fn lemma_order_is_permutation<T>(items: Seq<T>, less: spec_fn(T, T) -> bool)
    ensures
        is_permutation(stable_order(items, less), items.len()),
    decreases items.len(),
{
    if items.len() > 0 {
        let front = items.drop_last();
        let head = stable_order(front, less);
        let last = items.len() - 1;
        lemma_order_is_permutation(front, less);
        lemma_insertion_point(items, head, items.last(), less);
        let p = insertion_point(items, head, items.last(), less);
        let order = stable_order(items, less);
        assert forall|k: int| 0 <= k < order.len() implies 0 <= #[trigger] order[k]
            < items.len() by {
            lemma_inserted_index(head, p, last, k);
        }
        assert forall|k1: int, k2: int| 0 <= k1 < k2 < order.len() implies #[trigger] order[k1]
            != #[trigger] order[k2] by {
            lemma_inserted_index(head, p, last, k1);
            lemma_inserted_index(head, p, last, k2);
        }
        assert forall|i: int| 0 <= i < items.len() implies #[trigger] order.contains(i) by {
            if i == last {
                lemma_inserted_index(head, p, last, p);
                assert(order[p] == i);
            } else {
                assert(head.contains(i));
                let h = choose|h: int| 0 <= h < head.len() && head[h] == i;
                let k = if h < p {
                    h
                } else {
                    h + 1
                };
                lemma_inserted_index(head, p, last, k);
                assert(order[k] == i);
            }
        }
    }
}

/// What stands at position `k` after `v` was inserted at position `p`.
pub proof fn lemma_inserted_index<A>(s: Seq<A>, p: int, v: A, k: int)
    requires
        0 <= p <= s.len(),
        0 <= k <= s.len(),
    ensures
        s.insert(p, v)[k] == if k < p {
            s[k]
        } else if k == p {
            v
        } else {
            s[k - 1]
        },
{
    s.insert_ensures(p, v);
    if k > p {
        assert(s.insert(p, v)[(k - 1) + 1] == s[k - 1]);
    }
}

/// Sorting is stable, whatever the relation.
pub proof fn lemma_order_is_stable<T>(items: Seq<T>, less: spec_fn(T, T) -> bool)
    ensures
        is_stable(items, stable_order(items, less), less),
    decreases items.len(),
{
    if items.len() > 0 {
        let front = items.drop_last();
        let head = stable_order(front, less);
        let last = items.len() - 1;
        lemma_order_is_stable(front, less);
        lemma_order_is_permutation(front, less);
        lemma_order_is_permutation(items, less);
        lemma_insertion_point(items, head, items.last(), less);
        let p = insertion_point(items, head, items.last(), less);
        let order = stable_order(items, less);
        assert forall|k1: int, k2: int|
            #![trigger order[k1], order[k2]]
            0 <= k1 < k2 < order.len() && order[k1] > order[k2] implies less(
            items[order[k1]],
            items[order[k2]],
        ) by {
            lemma_inserted_index(head, p, last, k1);
            lemma_inserted_index(head, p, last, k2);
            if k1 == p {
                assert(less(items.last(), items[head[k2 - 1]]));
            } else if k2 == p {
                assert(head[k1] < last);
            } else {
                let h1 = if k1 < p {
                    k1
                } else {
                    k1 - 1
                };
                let h2 = if k2 < p {
                    k2
                } else {
                    k2 - 1
                };
                assert(less(front[head[h1]], front[head[h2]]));
            }
        }
    }
}

/// Where of two items at most one is less than the other (the relation is
/// asymmetric on the items), no item of the sorted order is less than the
/// one just before it.
pub proof fn lemma_neighbours_in_order<T>(items: Seq<T>, less: spec_fn(T, T) -> bool)
    requires
        forall|i: int, j: int|
            0 <= i < items.len() && 0 <= j < items.len() && less(items[i], items[j]) ==> !less(
                items[j],
                items[i],
            ),
    ensures
        forall|k: int|
            #![trigger stable_order(items, less)[k]]
            0 <= k && k + 1 < items.len() ==> !less(
                items[stable_order(items, less)[k + 1]],
                items[stable_order(items, less)[k]],
            ),
    decreases items.len(),
{
    if items.len() > 0 {
        let front = items.drop_last();
        let head = stable_order(front, less);
        let last = items.len() - 1;
        assert forall|i: int, j: int|
            0 <= i < front.len() && 0 <= j < front.len() && less(front[i], front[j]) implies !less(
            front[j],
            front[i],
        ) by {
            assert(front[i] == items[i] && front[j] == items[j]);
        }
        lemma_neighbours_in_order(front, less);
        lemma_order_is_permutation(front, less);
        lemma_insertion_point(items, head, items.last(), less);
        let p = insertion_point(items, head, items.last(), less);
        let order = stable_order(items, less);
        assert forall|k: int| #![trigger order[k]] 0 <= k && k + 1 < items.len() implies !less(
            items[order[k + 1]],
            items[order[k]],
        ) by {
            lemma_inserted_index(head, p, last, k);
            lemma_inserted_index(head, p, last, k + 1);
            if k + 1 < p {
                assert(!less(front[head[k + 1]], front[head[k]]));
            } else if k + 1 == p {
            } else if k == p {
                assert(less(items.last(), items[head[k]]));
            } else {
                assert(!less(front[head[(k - 1) + 1]], front[head[k - 1]]));
            }
        }
    }
}

/// The relation orders `items` as a strict weak order does: of two items at
/// most one is less than the other, and an item that is less than another is
/// less than any third item or that third item is less than the other.
pub open spec fn is_weak_order_on<T>(items: Seq<T>, less: spec_fn(T, T) -> bool) -> bool {
    &&& forall|i: int, j: int|
        0 <= i < items.len() && 0 <= j < items.len() && less(items[i], items[j]) ==> !less(
            items[j],
            items[i],
        )
    &&& forall|i: int, j: int, m: int|
        0 <= i < items.len() && 0 <= j < items.len() && 0 <= m < items.len() && less(
            items[i],
            items[j],
        ) ==> less(items[i], items[m]) || less(items[m], items[j])
}

/// Under a strict weak order the sorted order is ascending throughout.
pub proof fn lemma_ascending<T>(items: Seq<T>, less: spec_fn(T, T) -> bool)
    requires
        is_weak_order_on(items, less),
    ensures
        is_ascending(items, stable_order(items, less), less),
{
    let order = stable_order(items, less);
    lemma_order_is_permutation(items, less);
    lemma_neighbours_in_order(items, less);
    assert forall|k1: int, k2: int|
        #![trigger order[k1], order[k2]]
        0 <= k1 < k2 < order.len() implies !less(items[order[k2]], items[order[k1]]) by {
        lemma_ascending_from(items, less, k1, k2);
    }
}

proof fn lemma_ascending_from<T>(items: Seq<T>, less: spec_fn(T, T) -> bool, k1: int, k2: int)
    requires
        0 <= k1 < k2 < items.len(),
        is_permutation(stable_order(items, less), items.len()),
        is_weak_order_on(items, less),
        forall|k: int|
            #![trigger stable_order(items, less)[k]]
            0 <= k && k + 1 < items.len() ==> !less(
                items[stable_order(items, less)[k + 1]],
                items[stable_order(items, less)[k]],
            ),
    ensures
        !less(items[stable_order(items, less)[k2]], items[stable_order(items, less)[k1]]),
    decreases k2 - k1,
{
    let order = stable_order(items, less);
    let a = order[k1];
    let b = order[k2 - 1];
    let c = order[(k2 - 1) + 1];
    assert(!less(items[c], items[b]));
    if k1 < k2 - 1 {
        lemma_ascending_from(items, less, k1, k2 - 1);
        if less(items[c], items[a]) {
            assert(less(items[c], items[b]) || less(items[b], items[a]));
        }
    }
}

/// An order of the items that is ascending and stable is the sorted order:
/// there is no other. So under a strict weak order, where the sorted order
/// is ascending, it is the one ascending order that keeps equal items as they
/// were listed.
pub proof fn lemma_ascending_stable_is_sorted<T>(
    items: Seq<T>,
    less: spec_fn(T, T) -> bool,
    order: Seq<int>,
)
    requires
        is_permutation(order, items.len()),
        is_ascending(items, order, less),
        is_stable(items, order, less),
    ensures
        order == stable_order(items, less),
    decreases items.len(),
{
    if items.len() == 0 {
        assert(order =~= stable_order(items, less));
    } else {
        let front = items.drop_last();
        let last = items.len() - 1;
        assert(order.contains(last));
        let p = choose|p: int| 0 <= p < order.len() && order[p] == last;
        let rest = order.remove(p);
        order.remove_ensures(p);
        assert forall|k: int| 0 <= k < rest.len() implies 0 <= #[trigger] rest[k] < front.len() by {
            let k0 = if k < p {
                k
            } else {
                k + 1
            };
            assert(rest[k] == order[k0]);
            assert(order[k0] != order[p]);
        }
        assert forall|k1: int, k2: int| 0 <= k1 < k2 < rest.len() implies #[trigger] rest[k1]
            != #[trigger] rest[k2] by {
            let a = if k1 < p {
                k1
            } else {
                k1 + 1
            };
            let b = if k2 < p {
                k2
            } else {
                k2 + 1
            };
            assert(rest[k1] == order[a] && rest[k2] == order[b]);
        }
        assert forall|i: int| 0 <= i < front.len() implies #[trigger] rest.contains(i) by {
            assert(order.contains(i));
            let k = choose|k: int| 0 <= k < order.len() && order[k] == i;
            let h = if k < p {
                k
            } else {
                k - 1
            };
            assert(rest[h] == i);
        }
        assert(is_ascending(front, rest, less)) by {
            assert forall|k1: int, k2: int|
                #![trigger rest[k1], rest[k2]]
                0 <= k1 < k2 < rest.len() implies !less(front[rest[k2]], front[rest[k1]]) by {
                let a = if k1 < p {
                    k1
                } else {
                    k1 + 1
                };
                let b = if k2 < p {
                    k2
                } else {
                    k2 + 1
                };
                assert(rest[k1] == order[a] && rest[k2] == order[b]);
                assert(!less(items[order[b]], items[order[a]]));
            }
        }
        assert(is_stable(front, rest, less)) by {
            assert forall|k1: int, k2: int|
                #![trigger rest[k1], rest[k2]]
                0 <= k1 < k2 < rest.len() && rest[k1] > rest[k2] implies less(
                front[rest[k1]],
                front[rest[k2]],
            ) by {
                let a = if k1 < p {
                    k1
                } else {
                    k1 + 1
                };
                let b = if k2 < p {
                    k2
                } else {
                    k2 + 1
                };
                assert(rest[k1] == order[a] && rest[k2] == order[b]);
                assert(less(items[order[a]], items[order[b]]));
            }
        }
        lemma_ascending_stable_is_sorted(front, less, rest);
        assert(is_insertion_point(items, rest, items.last(), less, p)) by {
            assert forall|j: int| p <= j < rest.len() implies less(
                items.last(),
                items[#[trigger] rest[j]],
            ) by {
                assert(rest[j] == order[j + 1]);
                assert(order[p] > order[j + 1]);
                assert(less(items[order[p]], items[order[j + 1]]));
            }
            if p > 0 {
                assert(rest[p - 1] == order[p - 1]);
                assert(!less(items[order[p]], items[order[p - 1]]));
            }
        }
        lemma_insertion_point(items, rest, items.last(), less);
        assert(order =~= rest.insert(p, last)) by {
            assert forall|k: int| 0 <= k < order.len() implies order[k] == rest.insert(p, last)[k] by {
                lemma_inserted_index(rest, p, last, k);
            }
        }
    }
}

/// The sorted items are a rearrangement of the items: each occurs as often
/// after sorting as before.
pub proof fn lemma_arranged_same_items<T>(items: Seq<T>, less: spec_fn(T, T) -> bool)
    ensures
        arranged(items, less).len() == items.len(),
        arranged(items, less).to_multiset() == items.to_multiset(),
    decreases items.len(),
{
    lemma_order_is_permutation(items, less);
    if items.len() == 0 {
        assert(arranged(items, less) =~= items);
    } else {
        let front = items.drop_last();
        let head = stable_order(front, less);
        let last = items.len() - 1;
        lemma_arranged_same_items(front, less);
        lemma_order_is_permutation(front, less);
        lemma_insertion_point(items, head, items.last(), less);
        let p = insertion_point(items, head, items.last(), less);
        let before = arranged(front, less);
        let after = arranged(items, less);
        assert(after =~= before.insert(p, items.last())) by {
            assert forall|k: int| 0 <= k < after.len() implies after[k] == before.insert(
                p,
                items.last(),
            )[k] by {
                lemma_inserted_index(head, p, last, k);
                lemma_inserted_index(before, p, items.last(), k);
            }
        }
        vstd::seq_lib::to_multiset_insert(before, p, items.last());
        vstd::seq_lib::to_multiset_build(front, items.last());
        assert(front.push(items.last()) =~= items);
    }
}

/// The sorted order depends on the items only through the relation: two
/// sequences whose items compare alike, position by position, are sorted into
/// the same order.
pub proof fn lemma_order_by_relation<A, B>(
    a: Seq<A>,
    less_a: spec_fn(A, A) -> bool,
    b: Seq<B>,
    less_b: spec_fn(B, B) -> bool,
)
    requires
        a.len() == b.len(),
        forall|i: int, j: int|
            0 <= i < a.len() && 0 <= j < a.len() ==> less_a(a[i], a[j]) == less_b(b[i], b[j]),
    ensures
        stable_order(a, less_a) == stable_order(b, less_b),
    decreases a.len(),
{
    if a.len() > 0 {
        let fa = a.drop_last();
        let fb = b.drop_last();
        assert forall|i: int, j: int| 0 <= i < fa.len() && 0 <= j < fa.len() implies less_a(
            fa[i],
            fa[j],
        ) == less_b(fb[i], fb[j]) by {
            assert(fa[i] == a[i] && fa[j] == a[j] && fb[i] == b[i] && fb[j] == b[j]);
        }
        lemma_order_by_relation(fa, less_a, fb, less_b);
        let head = stable_order(fa, less_a);
        lemma_order_is_permutation(fa, less_a);
        lemma_insertion_point(a, head, a.last(), less_a);
        lemma_insertion_point(b, head, b.last(), less_b);
        let p = insertion_point(a, head, a.last(), less_a);
        assert(is_insertion_point(b, head, b.last(), less_b, p)) by {
            assert forall|j: int| p <= j < head.len() implies less_b(
                b.last(),
                b[#[trigger] head[j]],
            ) by {
                assert(less_a(a.last(), a[head[j]]));
                assert(less_a(a[a.len() - 1], a[head[j]]) == less_b(b[a.len() - 1], b[head[j]]));
            }
            if p > 0 {
                assert(less_a(a[a.len() - 1], a[head[p - 1]]) == less_b(
                    b[a.len() - 1],
                    b[head[p - 1]],
                ));
            }
        }
    }
}

} // verus!
