//! Stable ordering of a list by integer keys.

use vstd::prelude::*;
use vstd::set_lib::{lemma_int_range, lemma_len_subset, lemma_subset_equality, set_int_range};

verus! {

/// Position `a` comes before position `b` when the list is ordered by key
/// and, among equal keys, by position.
pub open spec fn comes_before(keys: Seq<u64>, a: int, b: int) -> bool {
    keys[a] < keys[b] || (keys[a] == keys[b] && a < b)
}

/// `order` lists every position of `keys` once, by ascending key, positions
/// with equal keys in the order in which they stand.
pub open spec fn is_stable_order(keys: Seq<u64>, order: Seq<usize>) -> bool {
    &&& order.len() == keys.len()
    &&& forall|i: int| 0 <= i < order.len() ==> 0 <= #[trigger] order[i] < keys.len()
    &&& forall|i: int, j: int|
        0 <= i < j < order.len() ==> comes_before(keys, #[trigger] order[i] as int, #[trigger] order[j] as int)
}

/// The one order that `is_stable_order` admits for `keys`.
pub open spec fn stable_order(keys: Seq<u64>) -> Seq<usize> {
    choose|order: Seq<usize>| is_stable_order(keys, order)
}

/// The items of `items`, taken in the given order of positions.
pub open spec fn permuted<T>(items: Seq<T>, order: Seq<usize>) -> Seq<T> {
    Seq::new(order.len(), |i: int| items[order[i] as int])
}

/// `items` sorted stably by `keys`, where `keys[i]` is the key of `items[i]`.
pub open spec fn stable_sorted<T>(items: Seq<T>, keys: Seq<u64>) -> Seq<T> {
    permuted(items, stable_order(keys))
}

/// A stable order names every position.
pub proof fn lemma_order_is_onto(keys: Seq<u64>, order: Seq<usize>, x: int)
    requires
        is_stable_order(keys, order),
        0 <= x < keys.len(),
    ensures
        exists|i: int| 0 <= i < order.len() && order[i] == x,
{
    let n = keys.len() as int;
    let ints = Seq::new(order.len(), |i: int| order[i] as int);
    assert(ints.no_duplicates()) by {
        assert forall|i: int, j: int| 0 <= i < ints.len() && 0 <= j < ints.len() && i != j implies ints[i]
            != ints[j] by {
            if i < j {
                assert(comes_before(keys, order[i] as int, order[j] as int));
            } else {
                assert(comes_before(keys, order[j] as int, order[i] as int));
            }
        }
    }
    ints.unique_seq_to_set();
    lemma_int_range(0, n);
    assert(ints.to_set().subset_of(set_int_range(0, n))) by {
        assert forall|v: int| ints.to_set().contains(v) implies set_int_range(0, n).contains(v) by {
            let i = choose|i: int| 0 <= i < ints.len() && ints[i] == v;
            assert(0 <= order[i] < keys.len());
        }
    }
    lemma_len_subset(ints.to_set(), set_int_range(0, n));
    lemma_subset_equality(ints.to_set(), set_int_range(0, n));
    assert(set_int_range(0, n).contains(x));
    assert(ints.to_set().contains(x));
    let i = choose|i: int| 0 <= i < ints.len() && ints[i] == x;
    assert(order[i] == x);
}

/// A list of keys has at most one stable order.
pub proof fn lemma_stable_order_unique(keys: Seq<u64>, p: Seq<usize>, q: Seq<usize>)
    requires
        is_stable_order(keys, p),
        is_stable_order(keys, q),
    ensures
        p == q,
{
    assert forall|k: int| 0 <= k < p.len() implies p[k] == q[k] by {
        lemma_agree_up_to(keys, p, q, k);
    }
    assert(p =~= q);
}

proof fn lemma_agree_up_to(keys: Seq<u64>, p: Seq<usize>, q: Seq<usize>, k: int)
    requires
        is_stable_order(keys, p),
        is_stable_order(keys, q),
        0 <= k < p.len(),
    ensures
        p[k] == q[k],
    decreases k,
{
    assert forall|i: int| 0 <= i < k implies p[i] == q[i] by {
        lemma_agree_up_to(keys, p, q, i);
    }
    if p[k] != q[k] {
        lemma_order_is_onto(keys, q, p[k] as int);
        let j = choose|j: int| 0 <= j < q.len() && q[j] == p[k];
        lemma_order_is_onto(keys, p, q[k] as int);
        let l = choose|l: int| 0 <= l < p.len() && p[l] == q[k];
        // p[k] sits behind k in q, and q[k] sits behind k in p.
        if j < k {
            assert(p[j] == q[j]);
            assert(comes_before(keys, p[j] as int, p[k] as int));
        }
        if l < k {
            assert(p[l] == q[l]);
            assert(comes_before(keys, q[l] as int, q[k] as int));
        }
        assert(j > k && l > k);
        assert(comes_before(keys, q[k] as int, q[j] as int));
        assert(comes_before(keys, p[k] as int, p[l] as int));
    }
}

/// The first position at or behind `i` of `order` whose key is above `key`.
pub open spec fn insert_point(keys: Seq<u64>, order: Seq<usize>, key: u64, i: int) -> int
    decreases order.len() - i,
{
    if 0 <= i < order.len() && keys[order[i] as int] <= key {
        insert_point(keys, order, key, i + 1)
    } else {
        i
    }
}

proof fn lemma_insert_point(keys: Seq<u64>, order: Seq<usize>, key: u64, i: int)
    requires
        0 <= i <= order.len(),
        forall|a: int, b: int|
            0 <= a <= b < order.len() ==> keys[(#[trigger] order[a]) as int] <= keys[(#[trigger] order[b]) as int],
    ensures
        i <= insert_point(keys, order, key, i) <= order.len(),
        forall|a: int| i <= a < insert_point(keys, order, key, i) ==> keys[(#[trigger] order[a]) as int] <= key,
        forall|a: int|
            insert_point(keys, order, key, i) <= a < order.len() ==> keys[(#[trigger] order[a]) as int] > key,
    decreases order.len() - i,
{
    if i < order.len() && keys[order[i] as int] <= key {
        lemma_insert_point(keys, order, key, i + 1);
    } else if i < order.len() {
        assert forall|a: int| i <= a < order.len() implies keys[(#[trigger] order[a]) as int] > key by {
            assert(keys[order[i] as int] <= keys[order[a] as int]);
        }
    }
}

/// Every list of keys has a stable order.
pub proof fn lemma_stable_order_exists(keys: Seq<u64>)
    requires
        keys.len() <= usize::MAX,
    ensures
        is_stable_order(keys, stable_order(keys)),
    decreases keys.len(),
{
    if keys.len() == 0 {
        assert(is_stable_order(keys, Seq::<usize>::empty()));
    } else {
        let shorter = keys.drop_last();
        lemma_stable_order_exists(shorter);
        let prev = stable_order(shorter);
        let n = keys.len() as int;
        let last = (n - 1) as usize;
        let key = keys[n - 1];
        assert forall|a: int, b: int| 0 <= a <= b < prev.len() implies keys[(#[trigger] prev[a]) as int] <= keys[(
        #[trigger] prev[b]) as int] by {
            assert(0 <= prev[a] < shorter.len() && 0 <= prev[b] < shorter.len());
            assert(shorter[prev[a] as int] == keys[prev[a] as int]);
            assert(shorter[prev[b] as int] == keys[prev[b] as int]);
            if a < b {
                assert(comes_before(shorter, prev[a] as int, prev[b] as int));
            }
        }
        lemma_insert_point(keys, prev, key, 0);
        let p = insert_point(keys, prev, key, 0);
        let order = prev.take(p).push(last) + prev.skip(p);
        assert(order.len() == n);
        assert forall|i: int| 0 <= i < order.len() implies 0 <= #[trigger] order[i] < keys.len() by {
            if i < p {
                assert(order[i] == prev[i]);
                assert(0 <= prev[i] < shorter.len());
            } else if i > p {
                assert(order[i] == prev[i - 1]);
                assert(0 <= prev[i - 1] < shorter.len());
            }
        }
        assert forall|i: int, j: int| 0 <= i < j < order.len() implies comes_before(
            keys,
            #[trigger] order[i] as int,
            #[trigger] order[j] as int,
        ) by {
            let a = if i < p {
                i
            } else {
                i - 1
            };
            let b = if j < p {
                j
            } else {
                j - 1
            };
            if i != p {
                assert(order[i] == prev[a]);
                assert(0 <= prev[a] < shorter.len());
                assert(shorter[prev[a] as int] == keys[prev[a] as int]);
            }
            if j != p {
                assert(order[j] == prev[b]);
                assert(0 <= prev[b] < shorter.len());
                assert(shorter[prev[b] as int] == keys[prev[b] as int]);
            }
            if i != p && j != p {
                assert(comes_before(shorter, prev[a] as int, prev[b] as int));
            } else if i == p {
                assert(order[i] == last);
            } else {
                assert(order[j] == last);
            }
        }
        assert(is_stable_order(keys, order));
    }
}

/// What `stable_order` picks is a stable order, as soon as one exists.
pub proof fn lemma_stable_order_is(keys: Seq<u64>, order: Seq<usize>)
    requires
        is_stable_order(keys, order),
    ensures
        stable_order(keys) == order,
        is_stable_order(keys, stable_order(keys)),
{
    lemma_stable_order_unique(keys, stable_order(keys), order);
}

/// The positions stand in ascending order of key and, among equal keys,
/// of position, and all lie from `lo` up to, not including, `hi`.
pub open spec fn is_ordered_run(keys: Seq<u64>, run: Seq<usize>, lo: int, hi: int) -> bool {
    &&& forall|i: int| 0 <= i < run.len() ==> lo <= #[trigger] run[i] < hi
    &&& forall|i: int, j: int|
        0 <= i < j < run.len() ==> comes_before(keys, #[trigger] run[i] as int, #[trigger] run[j] as int)
}

/// Merges two ordered runs of positions, the first below the second.
fn merge_runs(
    keys: &Vec<u64>,
    left: &Vec<usize>,
    right: &Vec<usize>,
    Ghost(lo): Ghost<int>,
    Ghost(mid): Ghost<int>,
    Ghost(hi): Ghost<int>,
) -> (merged: Vec<usize>)
    requires
        0 <= lo <= mid <= hi <= keys@.len(),
        is_ordered_run(keys@, left@, lo, mid),
        is_ordered_run(keys@, right@, mid, hi),
    ensures
        merged@.len() == left@.len() + right@.len(),
        is_ordered_run(keys@, merged@, lo, hi),
{
    let mut merged: Vec<usize> = Vec::new();
    let mut i: usize = 0;
    let mut j: usize = 0;
    while i < left.len() || j < right.len()
        invariant
            i <= left@.len(),
            j <= right@.len(),
            0 <= lo <= mid <= hi <= keys@.len(),
            is_ordered_run(keys@, left@, lo, mid),
            is_ordered_run(keys@, right@, mid, hi),
            merged@.len() == i + j,
            is_ordered_run(keys@, merged@, lo, hi),
            forall|k: int|
                0 <= k < merged@.len() && i < left@.len() ==> comes_before(
                    keys@,
                    #[trigger] merged@[k] as int,
                    left@[i as int] as int,
                ),
            forall|k: int|
                0 <= k < merged@.len() && j < right@.len() ==> comes_before(
                    keys@,
                    #[trigger] merged@[k] as int,
                    right@[j as int] as int,
                ),
        decreases left@.len() - i + right@.len() - j,
    {
        let take_left = if i >= left.len() {
            false
        } else if j >= right.len() {
            true
        } else {
            let x = left[i];
            let y = right[j];
            keys[x] < keys[y] || (keys[x] == keys[y] && x < y)
        };
        let ghost before = merged@;
        if take_left {
            let x = left[i];
            proof {
                if i + 1 < left@.len() {
                    assert(comes_before(keys@, left@[i as int] as int, left@[i + 1] as int));
                }
            }
            merged.push(x);
            i += 1;
            proof {
                assert forall|k: int| 0 <= k < merged@.len() && i < left@.len() implies comes_before(
                    keys@,
                    #[trigger] merged@[k] as int,
                    left@[i as int] as int,
                ) by {
                    if k < before.len() {
                        assert(merged@[k] == before[k]);
                        assert(comes_before(keys@, before[k] as int, x as int));
                    }
                }
                assert forall|k: int| 0 <= k < merged@.len() && j < right@.len() implies comes_before(
                    keys@,
                    #[trigger] merged@[k] as int,
                    right@[j as int] as int,
                ) by {
                    if k < before.len() {
                        assert(merged@[k] == before[k]);
                    }
                }
            }
        } else {
            let y = right[j];
            proof {
                if j + 1 < right@.len() {
                    assert(comes_before(keys@, right@[j as int] as int, right@[j + 1] as int));
                }
                if i < left@.len() {
                    assert(lo <= left@[i as int] < mid && mid <= right@[j as int] < hi);
                }
            }
            merged.push(y);
            j += 1;
            proof {
                assert forall|k: int| 0 <= k < merged@.len() && i < left@.len() implies comes_before(
                    keys@,
                    #[trigger] merged@[k] as int,
                    left@[i as int] as int,
                ) by {
                    if k < before.len() {
                        assert(merged@[k] == before[k]);
                    }
                }
                assert forall|k: int| 0 <= k < merged@.len() && j < right@.len() implies comes_before(
                    keys@,
                    #[trigger] merged@[k] as int,
                    right@[j as int] as int,
                ) by {
                    if k < before.len() {
                        assert(merged@[k] == before[k]);
                        assert(comes_before(keys@, before[k] as int, y as int));
                    }
                }
            }
        }
        proof {
            assert forall|a: int, b: int| 0 <= a < b < merged@.len() implies comes_before(
                keys@,
                #[trigger] merged@[a] as int,
                #[trigger] merged@[b] as int,
            ) by {
                assert(merged@[a] == before[a]);
                if b < before.len() {
                    assert(merged@[b] == before[b]);
                }
            }
            assert forall|k: int| 0 <= k < merged@.len() implies lo <= #[trigger] merged@[k] < hi by {
                if k < before.len() {
                    assert(merged@[k] == before[k]);
                }
            }
        }
    }
    merged
}

/// Puts the positions from `lo` up to, not including, `hi` in order.
fn order_run(keys: &Vec<u64>, lo: usize, hi: usize) -> (run: Vec<usize>)
    requires
        lo <= hi <= keys@.len(),
    ensures
        run@.len() == hi - lo,
        is_ordered_run(keys@, run@, lo as int, hi as int),
    decreases hi - lo,
{
    if hi - lo == 0 {
        Vec::new()
    } else if hi - lo == 1 {
        let mut run: Vec<usize> = Vec::new();
        run.push(lo);
        run
    } else {
        let mid = lo + (hi - lo) / 2;
        let left = order_run(keys, lo, mid);
        let right = order_run(keys, mid, hi);
        merge_runs(keys, &left, &right, Ghost(lo as int), Ghost(mid as int), Ghost(hi as int))
    }
}

/// Computes the stable order of `keys`.
pub fn stable_order_of(keys: &Vec<u64>) -> (order: Vec<usize>)
    ensures
        order@ == stable_order(keys@),
        is_stable_order(keys@, order@),
{
    let order = order_run(keys, 0, keys.len());
    proof {
        lemma_stable_order_is(keys@, order@);
    }
    order
}

/// Sorts `items` stably by `keys`, where `keys[i]` is the key of `items[i]`.
pub fn sort_by_keys<T: Copy>(items: &Vec<T>, keys: &Vec<u64>) -> (sorted: Vec<T>)
    requires
        items@.len() == keys@.len(),
    ensures
        sorted@ == stable_sorted(items@, keys@),
        sorted@.len() == items@.len(),
        is_stable_order(keys@, stable_order(keys@)),
{
    let order = stable_order_of(keys);
    let mut sorted: Vec<T> = Vec::new();
    let mut i: usize = 0;
    while i < order.len()
        invariant
            i <= order.len(),
            order@.len() == items@.len(),
            is_stable_order(keys@, order@),
            items@.len() == keys@.len(),
            sorted@.len() == i,
            forall|k: int| 0 <= k < i ==> sorted@[k] == items@[order@[k] as int],
        decreases order.len() - i,
    {
        let p = order[i];
        sorted.push(items[p]);
        i += 1;
    }
    assert(sorted@ =~= permuted(items@, order@));
    sorted
}

} // verus!
