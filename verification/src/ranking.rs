//! Stable ordering of positions by integer keys.
use vstd::prelude::*;

verus! {

/// Position `a` comes before position `b`: its key is smaller, or the keys
/// are equal and `a` is the earlier position.
pub open spec fn precedes(keys: Seq<i64>, a: int, b: int) -> bool {
    keys[a] < keys[b] || (keys[a] == keys[b] && a < b)
}

/// `order` lists the positions of `keys` in ascending key order, equal keys
/// keeping their relative order: the order a stable sort produces.
pub open spec fn is_stable_order(keys: Seq<i64>, order: Seq<usize>) -> bool {
    &&& order.len() == keys.len()
    &&& forall|p: int| 0 <= p < order.len() ==> #[trigger] order[p] < keys.len()
    &&& forall|p: int, q: int|
        0 <= p < q < order.len() ==> precedes(keys, #[trigger] order[p] as int, #[trigger] order[q] as int)
}

/// `order` lists position `j`.
pub open spec fn lists(order: Seq<usize>, j: int) -> bool {
    exists|p: int| 0 <= p < order.len() && order[p] == j
}

/// A stable order lists every position exactly once.
pub proof fn lemma_stable_order_is_permutation(keys: Seq<i64>, order: Seq<usize>)
    requires
        is_stable_order(keys, order),
    ensures
        forall|j: int| 0 <= j < keys.len() ==> #[trigger] lists(order, j),
        forall|p: int, q: int| 0 <= p < order.len() && 0 <= q < order.len() && p != q
            ==> #[trigger] order[p] != #[trigger] order[q],
{
    let n = keys.len();
    let s = Seq::new(order.len(), |p: int| order[p] as int);
    assert forall|p: int, q: int| 0 <= p < order.len() && 0 <= q < order.len() && p != q
        implies #[trigger] order[p] != #[trigger] order[q] by {
        if p < q {
            assert(precedes(keys, order[p] as int, order[q] as int));
        } else {
            assert(precedes(keys, order[q] as int, order[p] as int));
        }
    }
    assert(s.no_duplicates()) by {
        assert forall|p: int, q: int| 0 <= p < s.len() && 0 <= q < s.len() && p != q implies s[p] != s[q] by {
            assert(order[p] != order[q]);
        }
    }
    s.unique_seq_to_set();
    vstd::seq_lib::seq_to_set_is_finite(s);
    vstd::set_lib::lemma_int_range(0, n as int);
    let range = vstd::set_lib::set_int_range(0, n as int);
    assert(s.to_set().subset_of(range)) by {
        assert forall|x: int| s.to_set().contains(x) implies range.contains(x) by {
            let p = choose|p: int| 0 <= p < s.len() && s[p] == x;
            assert(order[p] < n);
        }
    }
    vstd::set_lib::lemma_subset_equality(s.to_set(), range);
    assert forall|j: int| 0 <= j < n implies #[trigger] lists(order, j) by {
        assert(range.contains(j));
        assert(s.to_set().contains(j));
        assert(s.contains(j));
        let p = choose|p: int| 0 <= p < s.len() && s[p] == j;
        assert(order[p] == j);
    }
}

/// Two stable orders of the same keys agree on their first `m` entries.
proof fn lemma_stable_orders_agree(keys: Seq<i64>, a: Seq<usize>, b: Seq<usize>, m: nat)
    requires
        is_stable_order(keys, a),
        is_stable_order(keys, b),
        m <= a.len(),
    ensures
        forall|p: int| 0 <= p < m ==> a[p] == b[p],
    decreases m,
{
    if m > 0 {
        lemma_stable_orders_agree(keys, a, b, (m - 1) as nat);
        lemma_stable_order_is_permutation(keys, a);
        lemma_stable_order_is_permutation(keys, b);
        let p = m - 1;
        if a[p] != b[p] {
            assert(lists(a, b[p] as int));
            let q = choose|q: int| 0 <= q < a.len() && a[q] == b[p] as int;
            if q < p {
                assert(a[q] == b[q]);
                assert(b[q] != b[p]);
            }
            assert(q > p);
            assert(precedes(keys, a[p] as int, a[q] as int));
            assert(lists(b, a[p] as int));
            let r = choose|r: int| 0 <= r < b.len() && b[r] == a[p] as int;
            if r < p {
                assert(a[r] == b[r]);
                assert(a[r] != a[p]);
            }
            assert(r > p);
            assert(precedes(keys, b[p] as int, b[r] as int));
            assert(false);
        }
    }
}

/// A stable order is unique: any two stable orders of the same keys are equal.
pub proof fn stable_order_unique(keys: Seq<i64>, a: Seq<usize>, b: Seq<usize>)
    requires
        is_stable_order(keys, a),
        is_stable_order(keys, b),
    ensures
        a == b,
{
    lemma_stable_orders_agree(keys, a, b, a.len());
    assert(a =~= b);
}

/// `run` lists positions drawn from `lo..hi`, in strictly ascending
/// (key, position) order.
pub open spec fn is_sorted_run(keys: Seq<i64>, run: Seq<usize>, lo: int, hi: int) -> bool {
    &&& forall|p: int| 0 <= p < run.len() ==> lo <= #[trigger] run[p] < hi
    &&& forall|p: int, q: int|
        0 <= p < q < run.len() ==> precedes(keys, #[trigger] run[p] as int, #[trigger] run[q] as int)
}

/// Merges two sorted runs over adjacent ranges `lo..mid` and `mid..hi`.
fn merge_runs(keys: &Vec<i64>, left: Vec<usize>, right: Vec<usize>, Ghost(lo): Ghost<int>, Ghost(mid): Ghost<int>, Ghost(hi): Ghost<int>) -> (merged: Vec<usize>)
    requires
        is_sorted_run(keys@, left@, lo, mid),
        is_sorted_run(keys@, right@, mid, hi),
        lo <= mid <= hi <= keys@.len(),
    ensures
        is_sorted_run(keys@, merged@, lo, hi),
        merged@.len() == left@.len() + right@.len(),
{
    let mut merged: Vec<usize> = Vec::new();
    let mut i: usize = 0;
    let mut j: usize = 0;
    while i < left.len() || j < right.len()
        invariant
            is_sorted_run(keys@, left@, lo, mid),
            is_sorted_run(keys@, right@, mid, hi),
            lo <= mid <= hi <= keys@.len(),
            i <= left@.len(),
            j <= right@.len(),
            merged@.len() == i + j,
            is_sorted_run(keys@, merged@, lo, hi),
            forall|p: int, k: int| 0 <= p < merged@.len() && i <= k < left@.len()
                ==> precedes(keys@, #[trigger] merged@[p] as int, #[trigger] left@[k] as int),
            forall|p: int, k: int| 0 <= p < merged@.len() && j <= k < right@.len()
                ==> precedes(keys@, #[trigger] merged@[p] as int, #[trigger] right@[k] as int),
        decreases left@.len() + right@.len() - i - j,
    {
        let take_left = if i == left.len() {
            false
        } else if j == right.len() {
            true
        } else {
            let a = left[i];
            let b = right[j];
            keys[a] < keys[b] || (keys[a] == keys[b] && a < b)
        };
        let ghost before = merged@;
        if take_left {
            let a = left[i];
            proof {
                assert forall|k: int| i < k < left@.len() implies precedes(keys@, a as int, #[trigger] left@[k] as int) by {}
                assert forall|k: int| j <= k < right@.len() implies precedes(keys@, a as int, #[trigger] right@[k] as int) by {
                    if k > j {
                        assert(precedes(keys@, right@[j as int] as int, right@[k] as int));
                    }
                }
            }
            merged.push(a);
            i = i + 1;
        } else {
            let b = right[j];
            proof {
                if i < left@.len() {
                    assert(left@[i as int] < mid <= b);
                    assert(precedes(keys@, b as int, left@[i as int] as int));
                }
                assert forall|k: int| j < k < right@.len() implies precedes(keys@, b as int, #[trigger] right@[k] as int) by {}
                assert forall|k: int| i <= k < left@.len() implies precedes(keys@, b as int, #[trigger] left@[k] as int) by {
                    if k > i {
                        assert(precedes(keys@, left@[i as int] as int, left@[k] as int));
                    }
                }
            }
            merged.push(b);
            j = j + 1;
        }
        proof {
            let after = merged@;
            assert forall|p: int| 0 <= p < after.len() implies lo <= #[trigger] after[p] < hi by {
                if p < before.len() {
                    assert(after[p] == before[p]);
                }
            }
            assert forall|p: int, q: int| 0 <= p < q < after.len()
                implies precedes(keys@, #[trigger] after[p] as int, #[trigger] after[q] as int) by {
                if q < before.len() {
                    assert(after[p] == before[p] && after[q] == before[q]);
                } else {
                    assert(after[p] == before[p]);
                }
            }
        }
    }
    merged
}

/// Sorts the positions `lo..hi` by ascending (key, position).
fn sort_range(keys: &Vec<i64>, lo: usize, hi: usize) -> (run: Vec<usize>)
    requires
        lo <= hi <= keys@.len(),
    ensures
        is_sorted_run(keys@, run@, lo as int, hi as int),
        run@.len() == hi - lo,
    decreases hi - lo,
{
    if hi - lo <= 1 {
        let mut run: Vec<usize> = Vec::new();
        if hi > lo {
            run.push(lo);
        }
        run
    } else {
        let mid = lo + (hi - lo) / 2;
        let left = sort_range(keys, lo, mid);
        let right = sort_range(keys, mid, hi);
        merge_runs(keys, left, right, Ghost(lo as int), Ghost(mid as int), Ghost(hi as int))
    }
}

/// The positions of `keys` in stable ascending key order (a merge sort).
pub fn stable_order(keys: &Vec<i64>) -> (order: Vec<usize>)
    ensures
        is_stable_order(keys@, order@),
{
    sort_range(keys, 0, keys.len())
}

} // verus!
