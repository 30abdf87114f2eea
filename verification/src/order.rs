//! Stable ordering of items by an integer key.
//!
//! An order is a sequence of positions: the permutation that lists the
//! positions of a key sequence from the first key to the last, equal keys in
//! the sequence's own order. There is exactly one such order for each key
//! sequence and direction.

use vstd::prelude::*;

verus! {

/// What an item is ordered by: a major number, then an instant.
#[derive(Debug, Clone, Copy, PartialEq, Eq, Structural)]
pub struct SortKey {
    pub major: i64,
    pub seconds: i64,
    pub nanos: u32,
}

impl SortKey {
    /// `self` is strictly smaller than `other`: by `major`, then by
    /// `seconds`, then by `nanos`.
    pub open spec fn lt(self, other: SortKey) -> bool {
        self.major < other.major || (self.major == other.major && (self.seconds < other.seconds
            || (self.seconds == other.seconds && self.nanos < other.nanos)))
    }

    /// Whether `self` is strictly smaller than `other`.
    pub fn is_lt(&self, other: &SortKey) -> (r: bool)
        ensures
            r == self.lt(*other),
    {
        self.major < other.major || (self.major == other.major && (self.seconds < other.seconds
            || (self.seconds == other.seconds && self.nanos < other.nanos)))
    }
}

/// The item at position `i` stands before the item at position `j`: its key
/// comes first in the chosen direction, or the keys are equal and `i` is the
/// earlier position.
pub open spec fn stands_before(keys: Seq<SortKey>, i: int, j: int, descending: bool) -> bool {
    if descending {
        keys[j].lt(keys[i]) || (keys[i] == keys[j] && i < j)
    } else {
        keys[i].lt(keys[j]) || (keys[i] == keys[j] && i < j)
    }
}

/// The position `i` stands somewhere in `order`.
pub open spec fn occurs(order: Seq<usize>, i: int) -> bool {
    exists|p: int| 0 <= p < order.len() && #[trigger] order[p] == i
}

/// `order` lists each position from `lo` up to `hi` once, every position
/// before those that it stands before.
pub open spec fn orders_range(
    order: Seq<usize>,
    keys: Seq<SortKey>,
    lo: int,
    hi: int,
    descending: bool,
) -> bool {
    &&& order.len() == hi - lo
    &&& forall|p: int| 0 <= p < order.len() ==> lo <= #[trigger] order[p] < hi
    &&& forall|p: int, q: int|
        0 <= p < q < order.len() ==> stands_before(
            keys,
            #[trigger] order[p] as int,
            #[trigger] order[q] as int,
            descending,
        )
    &&& forall|i: int| lo <= i < hi ==> #[trigger] occurs(order, i)
}

/// `order` is the stable order of `keys` in the chosen direction.
pub open spec fn is_stable_order(order: Seq<usize>, keys: Seq<SortKey>, descending: bool) -> bool {
    orders_range(order, keys, 0, keys.len() as int, descending)
}

/// The stable order of `keys`: ascending, or descending, with equal keys in
/// the order in which they stand in `keys`.
pub open spec fn sorted_order(keys: Seq<SortKey>, descending: bool) -> Seq<usize> {
    choose|order: Seq<usize>| is_stable_order(order, keys, descending)
}

/// The items of `items` at the positions that `order` lists.
pub open spec fn arrange<T>(items: Seq<T>, order: Seq<usize>) -> Seq<T> {
    Seq::new(order.len(), |p: int| items[order[p] as int])
}

/// Standing before is transitive.
pub proof fn lemma_stands_before_transitive(
    keys: Seq<SortKey>,
    i: int,
    j: int,
    k: int,
    descending: bool,
)
    requires
        stands_before(keys, i, j, descending),
        stands_before(keys, j, k, descending),
    ensures
        stands_before(keys, i, k, descending),
{
}

/// Of two different positions exactly one stands before the other.
pub proof fn lemma_stands_before_total(keys: Seq<SortKey>, i: int, j: int, descending: bool)
    ensures
        i != j ==> (stands_before(keys, i, j, descending) != stands_before(
            keys,
            j,
            i,
            descending,
        )),
        !stands_before(keys, i, i, descending),
{
}

/// Two orders of one range agree on their first `n` positions.
proof fn lemma_orders_agree_upto(
    a: Seq<usize>,
    b: Seq<usize>,
    keys: Seq<SortKey>,
    lo: int,
    hi: int,
    descending: bool,
    n: int,
)
    requires
        orders_range(a, keys, lo, hi, descending),
        orders_range(b, keys, lo, hi, descending),
        0 <= n <= hi - lo,
    ensures
        forall|p: int| 0 <= p < n ==> a[p] == b[p],
    decreases n,
{
    if n > 0 {
        lemma_orders_agree_upto(a, b, keys, lo, hi, descending, n - 1);
        let p = n - 1;
        let x = a[p] as int;
        let y = b[p] as int;
        assert(occurs(b, x));
        assert(occurs(a, y));
        let r = choose|r: int| 0 <= r < b.len() && b[r] == x;
        let s = choose|s: int| 0 <= s < a.len() && a[s] == y;
        lemma_stands_before_total(keys, x, y, descending);
        lemma_stands_before_total(keys, x, x, descending);
        lemma_stands_before_total(keys, y, y, descending);
        if r < p {
            assert(a[r] == b[r]);
            assert(stands_before(keys, a[r] as int, a[p] as int, descending));
        } else if s < p {
            assert(a[s] == b[s]);
            assert(stands_before(keys, b[s] as int, b[p] as int, descending));
        } else if r > p && s > p {
            assert(stands_before(keys, b[p] as int, b[r] as int, descending));
            assert(stands_before(keys, a[p] as int, a[s] as int, descending));
        }
    }
}

/// A range has one order only.
pub proof fn lemma_order_unique(
    a: Seq<usize>,
    b: Seq<usize>,
    keys: Seq<SortKey>,
    lo: int,
    hi: int,
    descending: bool,
)
    requires
        orders_range(a, keys, lo, hi, descending),
        orders_range(b, keys, lo, hi, descending),
    ensures
        a == b,
{
    lemma_orders_agree_upto(a, b, keys, lo, hi, descending, hi - lo);
    assert(a =~= b);
}

/// Where the position `n` goes into `order`: behind the last listed
/// position that stands before it.
pub open spec fn insertion_point(
    order: Seq<usize>,
    keys: Seq<SortKey>,
    n: int,
    descending: bool,
) -> int
    decreases order.len(),
{
    if order.len() == 0 {
        0
    } else if stands_before(keys, order.last() as int, n, descending) {
        order.len() as int
    } else {
        insertion_point(order.drop_last(), keys, n, descending)
    }
}

/// The insertion point parts an order into the positions that stand before
/// `n` and those that `n` stands before.
proof fn lemma_insertion_point(order: Seq<usize>, keys: Seq<SortKey>, n: int, descending: bool)
    requires
        forall|p: int| 0 <= p < order.len() ==> #[trigger] order[p] != n,
        forall|p: int, q: int|
            0 <= p < q < order.len() ==> stands_before(
                keys,
                #[trigger] order[p] as int,
                #[trigger] order[q] as int,
                descending,
            ),
    ensures
        0 <= insertion_point(order, keys, n, descending) <= order.len(),
        forall|p: int|
            0 <= p < insertion_point(order, keys, n, descending) ==> stands_before(
                keys,
                #[trigger] order[p] as int,
                n,
                descending,
            ),
        forall|p: int|
            insertion_point(order, keys, n, descending) <= p < order.len() ==> stands_before(
                keys,
                n,
                #[trigger] order[p] as int,
                descending,
            ),
    decreases order.len(),
{
    if order.len() > 0 {
        let last = order.last() as int;
        if stands_before(keys, last, n, descending) {
            assert forall|p: int| 0 <= p < order.len() implies stands_before(
                keys,
                #[trigger] order[p] as int,
                n,
                descending,
            ) by {
                if p < order.len() - 1 {
                    assert(stands_before(
                        keys,
                        order[p] as int,
                        order[order.len() - 1] as int,
                        descending,
                    ));
                    lemma_stands_before_transitive(keys, order[p] as int, last, n, descending);
                }
            }
        } else {
            let rest = order.drop_last();
            assert forall|p: int, q: int| 0 <= p < q < rest.len() implies stands_before(
                keys,
                #[trigger] rest[p] as int,
                #[trigger] rest[q] as int,
                descending,
            ) by {
                assert(rest[p] == order[p] && rest[q] == order[q]);
            }
            assert forall|p: int| 0 <= p < rest.len() implies #[trigger] rest[p] != n by {
                assert(rest[p] == order[p]);
            }
            lemma_insertion_point(rest, keys, n, descending);
            let c = insertion_point(rest, keys, n, descending);
            assert forall|p: int| 0 <= p < c implies stands_before(
                keys,
                #[trigger] order[p] as int,
                n,
                descending,
            ) by {
                assert(rest[p] == order[p]);
            }
            assert forall|p: int| c <= p < order.len() implies stands_before(
                keys,
                n,
                #[trigger] order[p] as int,
                descending,
            ) by {
                if p < rest.len() {
                    assert(rest[p] == order[p]);
                } else {
                    assert(order[p] == order.last());
                    lemma_stands_before_total(keys, last, n, descending);
                }
            }
        }
    }
}

/// The order of a key sequence, with the position of one more key put in
/// behind the positions that stand before it and before the others, is the
/// order of the longer key sequence.
proof fn lemma_insert_orders_longer(
    order: Seq<usize>,
    keys: Seq<SortKey>,
    at: int,
    descending: bool,
)
    requires
        0 < keys.len() <= usize::MAX,
        is_stable_order(order, keys.drop_last(), descending),
        0 <= at <= order.len(),
        forall|p: int|
            0 <= p < at ==> stands_before(keys, #[trigger] order[p] as int, keys.len() - 1, descending),
        forall|p: int|
            at <= p < order.len() ==> stands_before(
                keys,
                keys.len() - 1,
                #[trigger] order[p] as int,
                descending,
            ),
    ensures
        is_stable_order(order.insert(at, (keys.len() - 1) as usize), keys, descending),
{
    let n = (keys.len() - 1) as int;
    let shorter = keys.drop_last();
    let longer = order.insert(at, n as usize);
    assert forall|p: int, q: int| 0 <= p < q < longer.len() implies stands_before(
        keys,
        #[trigger] longer[p] as int,
        #[trigger] longer[q] as int,
        descending,
    ) by {
        if q < at {
            assert(longer[p] == order[p] && longer[q] == order[q]);
            assert(stands_before(shorter, order[p] as int, order[q] as int, descending));
        } else if q == at {
            assert(longer[p] == order[p]);
        } else if p < at {
            assert(longer[p] == order[p] && longer[q] == order[q - 1]);
            assert(stands_before(shorter, order[p] as int, order[q - 1] as int, descending));
        } else if p == at {
            assert(longer[q] == order[q - 1]);
        } else {
            assert(longer[p] == order[p - 1] && longer[q] == order[q - 1]);
            assert(stands_before(shorter, order[p - 1] as int, order[q - 1] as int, descending));
        }
    }
    assert forall|i: int| 0 <= i < keys.len() implies #[trigger] occurs(longer, i) by {
        if i == n {
            assert(longer[at] == i);
        } else {
            assert(occurs(order, i));
            let p = choose|p: int| 0 <= p < order.len() && order[p] == i;
            if p < at {
                assert(longer[p] == i);
            } else {
                assert(longer[p + 1] == i);
            }
        }
    }
    assert forall|p: int| 0 <= p < longer.len() implies 0 <= #[trigger] longer[p]
        < keys.len() by {
        if p < at {
            assert(longer[p] == order[p]);
        } else if p > at {
            assert(longer[p] == order[p - 1]);
        }
    }
}

/// Every key sequence has a stable order, so `sorted_order` is one.
pub proof fn lemma_sorted_order_is_stable(keys: Seq<SortKey>, descending: bool)
    requires
        keys.len() <= usize::MAX,
    ensures
        is_stable_order(sorted_order(keys, descending), keys, descending),
    decreases keys.len(),
{
    if keys.len() == 0 {
        assert(is_stable_order(Seq::<usize>::empty(), keys, descending));
    } else {
        let n = (keys.len() - 1) as int;
        let shorter = keys.drop_last();
        lemma_sorted_order_is_stable(shorter, descending);
        let order = sorted_order(shorter, descending);
        assert forall|p: int, q: int| 0 <= p < q < order.len() implies stands_before(
            keys,
            #[trigger] order[p] as int,
            #[trigger] order[q] as int,
            descending,
        ) by {
            assert(stands_before(shorter, order[p] as int, order[q] as int, descending));
        }
        lemma_insertion_point(order, keys, n, descending);
        let at = insertion_point(order, keys, n, descending);
        lemma_insert_orders_longer(order, keys, at, descending);
        assert(is_stable_order(order.insert(at, n as usize), keys, descending));
    }
}

/// The order of a key sequence with one more key behind it is the order of
/// the sequence with the new position put in at `at`, where the positions
/// before `at` stand before the new one and it stands before the others.
pub proof fn lemma_order_of_push(keys: Seq<SortKey>, key: SortKey, at: int, descending: bool)
    requires
        keys.len() < usize::MAX,
        0 <= at <= keys.len(),
        forall|p: int|
            0 <= p < at ==> stands_before(
                keys.push(key),
                #[trigger] sorted_order(keys, descending)[p] as int,
                keys.len() as int,
                descending,
            ),
        forall|p: int|
            at <= p < keys.len() ==> stands_before(
                keys.push(key),
                keys.len() as int,
                #[trigger] sorted_order(keys, descending)[p] as int,
                descending,
            ),
    ensures
        sorted_order(keys.push(key), descending) == sorted_order(keys, descending).insert(
            at,
            keys.len() as usize,
        ),
{
    let longer = keys.push(key);
    assert(longer.drop_last() =~= keys);
    lemma_sorted_order_is_stable(keys, descending);
    lemma_sorted_order_is_stable(longer, descending);
    let order = sorted_order(keys, descending);
    lemma_insert_orders_longer(order, longer, at, descending);
    lemma_order_unique(
        sorted_order(longer, descending),
        order.insert(at, keys.len() as usize),
        longer,
        0,
        longer.len() as int,
        descending,
    );
}

/// Merges the orders of two adjoining ranges into the order of both.
fn merge_orders(
    keys: &Vec<SortKey>,
    left: &Vec<usize>,
    right: &Vec<usize>,
    lo: usize,
    mid: usize,
    hi: usize,
    descending: bool,
) -> (out: Vec<usize>)
    requires
        lo <= mid <= hi <= keys.len(),
        orders_range(left@, keys@, lo as int, mid as int, descending),
        orders_range(right@, keys@, mid as int, hi as int, descending),
    ensures
        orders_range(out@, keys@, lo as int, hi as int, descending),
{
    let mut out: Vec<usize> = Vec::new();
    let mut a: usize = 0;
    let mut b: usize = 0;
    while a < left.len() || b < right.len()
        invariant
            lo <= mid <= hi <= keys.len(),
            orders_range(left@, keys@, lo as int, mid as int, descending),
            orders_range(right@, keys@, mid as int, hi as int, descending),
            a <= left.len(),
            b <= right.len(),
            out.len() == a + b,
            forall|p: int| 0 <= p < out.len() ==> lo <= #[trigger] out[p] < hi,
            forall|p: int, q: int|
                0 <= p < q < out.len() ==> stands_before(
                    keys@,
                    #[trigger] out[p] as int,
                    #[trigger] out[q] as int,
                    descending,
                ),
            forall|p: int, x: int|
                0 <= p < out.len() && a <= x < left.len() ==> stands_before(
                    keys@,
                    #[trigger] out[p] as int,
                    #[trigger] left[x] as int,
                    descending,
                ),
            forall|p: int, y: int|
                0 <= p < out.len() && b <= y < right.len() ==> stands_before(
                    keys@,
                    #[trigger] out[p] as int,
                    #[trigger] right[y] as int,
                    descending,
                ),
            forall|x: int| 0 <= x < a ==> occurs(out@, #[trigger] left[x] as int),
            forall|y: int| 0 <= y < b ==> occurs(out@, #[trigger] right[y] as int),
        decreases left.len() - a + right.len() - b,
    {
        let take_left = if b >= right.len() {
            true
        } else if a >= left.len() {
            false
        } else if descending {
            !keys[left[a]].is_lt(&keys[right[b]])
        } else {
            !keys[right[b]].is_lt(&keys[left[a]])
        };
        let ghost before = out@;
        let next = if take_left {
            left[a]
        } else {
            right[b]
        };
        proof {
            if a < left.len() && b < right.len() {
                lemma_stands_before_total(keys@, left[a as int] as int, right[b as int] as int, descending);
            }
            assert forall|x: int| a <= x < left.len() && x != a || (!take_left && x == a && x
                < left.len()) implies stands_before(
                keys@,
                next as int,
                #[trigger] left[x] as int,
                descending,
            ) by {
                if take_left {
                    assert(stands_before(keys@, left[a as int] as int, left[x] as int, descending));
                } else {
                    if x > a {
                        assert(stands_before(
                            keys@,
                            left[a as int] as int,
                            left[x] as int,
                            descending,
                        ));
                        lemma_stands_before_transitive(
                            keys@,
                            next as int,
                            left[a as int] as int,
                            left[x] as int,
                            descending,
                        );
                    }
                }
            }
            assert forall|y: int| b <= y < right.len() && y != b || (take_left && y == b && y
                < right.len()) implies stands_before(
                keys@,
                next as int,
                #[trigger] right[y] as int,
                descending,
            ) by {
                if !take_left {
                    assert(stands_before(
                        keys@,
                        right[b as int] as int,
                        right[y] as int,
                        descending,
                    ));
                } else {
                    if y > b {
                        assert(stands_before(
                            keys@,
                            right[b as int] as int,
                            right[y] as int,
                            descending,
                        ));
                        lemma_stands_before_transitive(
                            keys@,
                            next as int,
                            right[b as int] as int,
                            right[y] as int,
                            descending,
                        );
                    }
                }
            }
        }
        out.push(next);
        if take_left {
            a = a + 1;
        } else {
            b = b + 1;
        }
        proof {
            assert(forall|p: int| 0 <= p < before.len() ==> out[p] == before[p]);
            assert(out[before.len() as int] == next);
            assert forall|x: int| 0 <= x < a implies occurs(out@, #[trigger] left[x] as int) by {
                if take_left && x == a - 1 {
                    assert(out[before.len() as int] == left[x]);
                } else {
                    let p = choose|p: int| 0 <= p < before.len() && before[p] == left[x];
                    assert(out[p] == left[x]);
                }
            }
            assert forall|y: int| 0 <= y < b implies occurs(out@, #[trigger] right[y] as int) by {
                if !take_left && y == b - 1 {
                    assert(out[before.len() as int] == right[y]);
                } else {
                    let p = choose|p: int| 0 <= p < before.len() && before[p] == right[y];
                    assert(out[p] == right[y]);
                }
            }
        }
    }
    proof {
        assert forall|i: int| lo <= i < hi implies #[trigger] occurs(out@, i) by {
            if i < mid {
                assert(occurs(left@, i));
                let x = choose|x: int| 0 <= x < left.len() && left[x] == i;
                let p = choose|p: int| 0 <= p < out.len() && out[p] == left[x];
                assert(out[p] == i);
            } else {
                assert(occurs(right@, i));
                let y = choose|y: int| 0 <= y < right.len() && right[y] == i;
                let p = choose|p: int| 0 <= p < out.len() && out[p] == right[y];
                assert(out[p] == i);
            }
        }
    }
    out
}

/// Orders the positions from `lo` up to `hi` by merging the orders of the
/// two halves.
fn order_range(keys: &Vec<SortKey>, lo: usize, hi: usize, descending: bool) -> (out: Vec<usize>)
    requires
        lo <= hi <= keys.len(),
    ensures
        orders_range(out@, keys@, lo as int, hi as int, descending),
    decreases hi - lo,
{
    if hi - lo == 0 {
        Vec::new()
    } else if hi - lo == 1 {
        let mut out: Vec<usize> = Vec::new();
        out.push(lo);
        assert(out[0] == lo);
        assert(occurs(out@, lo as int));
        out
    } else {
        let mid: usize = lo + (hi - lo) / 2;
        let left = order_range(keys, lo, mid, descending);
        let right = order_range(keys, mid, hi, descending);
        merge_orders(keys, &left, &right, lo, mid, hi, descending)
    }
}

/// Computes the stable order of `keys`, ascending or descending.
pub fn stable_order(keys: &Vec<SortKey>, descending: bool) -> (order: Vec<usize>)
    ensures
        is_stable_order(order@, keys@, descending),
        order@ == sorted_order(keys@, descending),
{
    let order = order_range(keys, 0, keys.len(), descending);
    proof {
        lemma_sorted_order_is_stable(keys@, descending);
        lemma_order_unique(
            order@,
            sorted_order(keys@, descending),
            keys@,
            0,
            keys@.len() as int,
            descending,
        );
    }
    order
}

} // verus!
