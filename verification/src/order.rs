//! The order in which a listing shows its rows: largest key first, equal keys as they came.

use vstd::prelude::*;

verus! {

/// Row `a` is listed before row `b`.
pub open spec fn precedes(keys: Seq<u64>, a: int, b: int) -> bool {
    keys[a] > keys[b] || (keys[a] == keys[b] && a < b)
}

/// `order` lists every row of `keys`, each before those that it precedes.
pub open spec fn is_listing(keys: Seq<u64>, order: Seq<usize>) -> bool {
    is_listing_of_range(keys, order, 0, keys.len() as int)
}

/// `order` lists every row from `lo` up to `hi`, each before those that it precedes.
pub open spec fn is_listing_of_range(keys: Seq<u64>, order: Seq<usize>, lo: int, hi: int) -> bool {
    &&& order.len() == hi - lo
    &&& forall|i: int| 0 <= i < order.len() ==> lo <= #[trigger] order[i] < hi
    &&& forall|k: usize| lo <= k < hi ==> #[trigger] order.contains(k)
    &&& forall|i: int, j: int|
        #![trigger order[i], order[j]]
        0 <= i < j < order.len() ==> precedes(keys, order[i] as int, order[j] as int)
}

/// The rows of `keys`, largest key first, and rows with equal keys in their own order.
pub fn listing_order(keys: &Vec<u64>) -> (order: Vec<usize>)
    ensures
        is_listing(keys@, order@),
{
    list_range(keys, 0, keys.len())
}

fn list_range(keys: &Vec<u64>, lo: usize, hi: usize) -> (order: Vec<usize>)
    requires
        lo <= hi <= keys.len(),
    ensures
        is_listing_of_range(keys@, order@, lo as int, hi as int),
    decreases hi - lo,
{
    if hi - lo == 0 {
        return Vec::new();
    }
    if hi - lo == 1 {
        let mut order: Vec<usize> = Vec::new();
        order.push(lo);
        assert(order@[0] == lo);
        return order;
    }
    let mid: usize = lo + (hi - lo) / 2;
    let front = list_range(keys, lo, mid);
    let back = list_range(keys, mid, hi);
    merge(keys, &front, &back, Ghost(lo as int), Ghost(mid as int), Ghost(hi as int))
}

fn merge(
    keys: &Vec<u64>,
    front: &Vec<usize>,
    back: &Vec<usize>,
    Ghost(lo): Ghost<int>,
    Ghost(mid): Ghost<int>,
    Ghost(hi): Ghost<int>,
) -> (order: Vec<usize>)
    requires
        0 <= lo <= mid <= hi <= keys.len(),
        is_listing_of_range(keys@, front@, lo, mid),
        is_listing_of_range(keys@, back@, mid, hi),
    ensures
        is_listing_of_range(keys@, order@, lo, hi),
{
    let mut order: Vec<usize> = Vec::new();
    let mut i: usize = 0;
    let mut j: usize = 0;
    while i < front.len() || j < back.len()
        invariant
            0 <= lo <= mid <= hi <= keys.len(),
            is_listing_of_range(keys@, front@, lo, mid),
            is_listing_of_range(keys@, back@, mid, hi),
            i <= front.len(),
            j <= back.len(),
            order.len() == i + j,
            forall|a: int| 0 <= a < order.len() ==> lo <= #[trigger] order@[a] < hi,
            forall|a: int| 0 <= a < i ==> order@.contains(#[trigger] front@[a]),
            forall|b: int| 0 <= b < j ==> order@.contains(#[trigger] back@[b]),
            forall|a: int, b: int|
                #![trigger order@[a], order@[b]]
                0 <= a < b < order.len() ==> precedes(keys@, order@[a] as int, order@[b] as int),
            forall|a: int, b: int|
                #![trigger order@[a], front@[b]]
                0 <= a < order.len() && i <= b < front.len() ==> precedes(
                    keys@,
                    order@[a] as int,
                    front@[b] as int,
                ),
            forall|a: int, b: int|
                #![trigger order@[a], back@[b]]
                0 <= a < order.len() && j <= b < back.len() ==> precedes(
                    keys@,
                    order@[a] as int,
                    back@[b] as int,
                ),
        decreases front.len() - i + (back.len() - j),
    {
        let ghost before = order@;
        let from_front = i < front.len() && (j >= back.len() || keys[front[i]] >= keys[back[j]]);
        let next: usize = if from_front {
            front[i]
        } else {
            back[j]
        };
        order.push(next);
        proof {
            assert forall|x: usize| before.contains(x) implies order@.contains(x) by {
                let at = choose|at: int| 0 <= at < before.len() && before[at] == x;
                assert(order@[at] == x);
            }
            assert(order@[before.len() as int] == next);
        }
        if from_front {
            i = i + 1;
        } else {
            j = j + 1;
        }
    }
    proof {
        assert forall|k: usize| lo <= k < hi implies #[trigger] order@.contains(k) by {
            if k < mid {
                assert(front@.contains(k));
            } else {
                assert(back@.contains(k));
            }
        }
    }
    order
}

/// The order of a listing is determined by its keys: no two orders list the same keys.
pub proof fn listing_is_unique(keys: Seq<u64>, a: Seq<usize>, b: Seq<usize>)
    requires
        is_listing(keys, a),
        is_listing(keys, b),
    ensures
        a == b,
{
    assert forall|i: int| 0 <= i < a.len() implies a[i] == b[i] by {
        listings_agree_up_to(keys, a, b, i + 1);
    }
    assert(a =~= b);
}

proof fn listings_agree_up_to(keys: Seq<u64>, a: Seq<usize>, b: Seq<usize>, n: int)
    requires
        is_listing(keys, a),
        is_listing(keys, b),
        0 <= n <= a.len(),
    ensures
        forall|i: int| 0 <= i < n ==> a[i] == b[i],
    decreases n,
{
    if n > 0 {
        listings_agree_up_to(keys, a, b, n - 1);
        let i = n - 1;
        assert(b.contains(a[i]));
        assert(a.contains(b[i]));
        let in_b = choose|j: int| 0 <= j < b.len() && b[j] == a[i];
        let in_a = choose|j: int| 0 <= j < a.len() && a[j] == b[i];
        if in_b < i {
            assert(precedes(keys, a[in_b] as int, a[i] as int));
        }
        if in_a < i {
            assert(precedes(keys, b[in_a] as int, b[i] as int));
        }
    }
}

/// A listing has every row, once, the largest key first and rows with equal keys in their own
/// order.
pub proof fn largest_keys_are_listed_first(keys: Vec<u64>, order: Vec<usize>)
    requires
        call_ensures(listing_order, (&keys,), order),
    ensures
        order@.len() == keys@.len(),
        forall|i: int| 0 <= i < order@.len() ==> (#[trigger] order@[i]) < keys@.len(),
        forall|i: int, j: int|
            #![trigger order@[i], order@[j]]
            0 <= i < j < order@.len() ==> {
                &&& order@[i] != order@[j]
                &&& keys@[order@[i] as int] >= keys@[order@[j] as int]
                &&& keys@[order@[i] as int] == keys@[order@[j] as int] ==> order@[i] < order@[j]
            },
{
    assert forall|i: int, j: int|
        #![trigger order@[i], order@[j]]
        0 <= i < j < order@.len() implies precedes(
        keys@,
        order@[i] as int,
        order@[j] as int,
    ) by {}
}

} // verus!
