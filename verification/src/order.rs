//! Stable ordering of a list by a key, stated as the order in which the
//! positions of the list are to be read.

use vstd::prelude::*;

verus! {

/// A key that orders the entries of a list. Entries of which neither ranks
/// before the other keep the order they had.
pub trait Ranked: Sized {
    spec fn ranks_before(self, other: Self) -> bool;

    proof fn asymmetric(a: Self, b: Self)
        requires
            a.ranks_before(b),
        ensures
            !b.ranks_before(a),
    ;

    proof fn negatively_transitive(a: Self, b: Self, c: Self)
        requires
            !a.ranks_before(b),
            !b.ranks_before(c),
        ensures
            !a.ranks_before(c),
    ;

    fn before(&self, other: &Self) -> (r: bool)
        ensures
            r == self.ranks_before(*other),
    ;
}

/// Position `a` is read before position `b`: its key ranks first, or neither
/// key does and `a` stands first in the list.
pub open spec fn read_before<K: Ranked>(keys: Seq<K>, a: int, b: int) -> bool {
    keys[a].ranks_before(keys[b]) || (!keys[b].ranks_before(keys[a]) && a < b)
}

/// `order` names every position from `lo` to `hi` once, in reading order.
pub open spec fn arranges<K: Ranked>(keys: Seq<K>, order: Seq<usize>, lo: int, hi: int) -> bool {
    &&& order.len() == hi - lo
    &&& forall|i: int| 0 <= i < order.len() ==> lo <= #[trigger] order[i] < hi
    &&& forall|i: int, j: int|
        0 <= i < j < order.len() ==> read_before(
            keys,
            #[trigger] order[i] as int,
            #[trigger] order[j] as int,
        )
    &&& forall|p: usize| lo <= p < hi ==> #[trigger] order.contains(p)
}

/// `order` is the stable order of the list with these keys: every position
/// stands in it once, and one position stands before another exactly when its
/// key ranks first or, between equals, it came first.
pub open spec fn is_stable_order<K: Ranked>(keys: Seq<K>, order: Seq<usize>) -> bool {
    arranges(keys, order, 0, keys.len() as int)
}

proof fn lemma_read_before_transitive<K: Ranked>(keys: Seq<K>, a: int, b: int, c: int)
    requires
        read_before(keys, a, b),
        read_before(keys, b, c),
    ensures
        read_before(keys, a, c),
{
    let (x, y, z) = (keys[a], keys[b], keys[c]);
    if x.ranks_before(y) {
        K::asymmetric(x, y);
    }
    if y.ranks_before(z) {
        K::asymmetric(y, z);
    }
    if x.ranks_before(z) {
        K::asymmetric(x, z);
    }
    if !x.ranks_before(z) {
        if !z.ranks_before(y) {
            K::negatively_transitive(x, z, y);
        }
        if !y.ranks_before(x) {
            K::negatively_transitive(y, x, z);
        }
        if z.ranks_before(x) {
            if !z.ranks_before(y) && !y.ranks_before(x) {
                K::negatively_transitive(z, y, x);
            }
        }
    }
}

/// Two stable orders of one list are the same order.
pub proof fn lemma_stable_order_is_unique<K: Ranked>(keys: Seq<K>, a: Seq<usize>, b: Seq<usize>)
    requires
        is_stable_order(keys, a),
        is_stable_order(keys, b),
    ensures
        a == b,
{
    lemma_orders_agree(keys, a, b, a.len());
    assert(a =~= b);
}

proof fn lemma_orders_agree<K: Ranked>(keys: Seq<K>, a: Seq<usize>, b: Seq<usize>, n: nat)
    requires
        is_stable_order(keys, a),
        is_stable_order(keys, b),
        n <= a.len(),
    ensures
        forall|i: int| 0 <= i < n ==> a[i] == b[i],
    decreases n,
{
    if n > 0 {
        lemma_orders_agree(keys, a, b, (n - 1) as nat);
        let k = n - 1;
        assert(b.contains(a[k]));
        assert(a.contains(b[k]));
        let i = choose|i: int| 0 <= i < b.len() && b[i] == a[k];
        let j = choose|j: int| 0 <= j < a.len() && a[j] == b[k];
        if i < k {
            assert(a[i] == a[k]);
            assert(read_before(keys, a[i] as int, a[k] as int));
            if keys[a[k] as int].ranks_before(keys[a[k] as int]) {
                K::asymmetric(keys[a[k] as int], keys[a[k] as int]);
            }
        }
        if j < k {
            assert(b[j] == b[k]);
            assert(read_before(keys, b[j] as int, b[k] as int));
            if keys[b[k] as int].ranks_before(keys[b[k] as int]) {
                K::asymmetric(keys[b[k] as int], keys[b[k] as int]);
            }
        }
        if i > k && j > k {
            assert(read_before(keys, b[k] as int, b[i] as int));
            assert(read_before(keys, a[k] as int, a[j] as int));
            lemma_read_before_transitive(keys, a[k] as int, b[k] as int, a[k] as int);
            if keys[a[k] as int].ranks_before(keys[a[k] as int]) {
                K::asymmetric(keys[a[k] as int], keys[a[k] as int]);
            }
        }
    }
}

/// The two halves of a range, each arranged, drawn together into one order.
fn merged<K: Ranked>(
    keys: &Vec<K>,
    left: &Vec<usize>,
    right: &Vec<usize>,
    lo: usize,
    mid: usize,
    hi: usize,
) -> (order: Vec<usize>)
    requires
        lo <= mid <= hi <= keys.len(),
        arranges(keys@, left@, lo as int, mid as int),
        arranges(keys@, right@, mid as int, hi as int),
    ensures
        arranges(keys@, order@, lo as int, hi as int),
{
    let mut order: Vec<usize> = Vec::new();
    let mut i: usize = 0;
    let mut j: usize = 0;
    while i < left.len() || j < right.len()
        invariant
            lo <= mid <= hi <= keys.len(),
            arranges(keys@, left@, lo as int, mid as int),
            arranges(keys@, right@, mid as int, hi as int),
            i <= left.len(),
            j <= right.len(),
            order.len() == i + j,
            forall|k: int| 0 <= k < order.len() ==> lo <= #[trigger] order[k] < hi,
            forall|k: int, l: int|
                0 <= k < l < order.len() ==> read_before(
                    keys@,
                    #[trigger] order[k] as int,
                    #[trigger] order[l] as int,
                ),
            forall|k: int, l: int|
                0 <= k < order.len() && i <= l < left.len() ==> read_before(
                    keys@,
                    #[trigger] order[k] as int,
                    #[trigger] left[l] as int,
                ),
            forall|k: int, l: int|
                0 <= k < order.len() && j <= l < right.len() ==> read_before(
                    keys@,
                    #[trigger] order[k] as int,
                    #[trigger] right[l] as int,
                ),
            forall|l: int| 0 <= l < i ==> order@.contains(#[trigger] left[l]),
            forall|l: int| 0 <= l < j ==> order@.contains(#[trigger] right[l]),
        decreases left.len() + right.len() - i - j,
    {
        let ghost before = order@;
        let from_right = i == left.len() || (j < right.len() && keys[right[j]].before(
            &keys[left[i]],
        ));
        if from_right {
            proof {
                assert forall|l: int| i <= l < left.len() implies read_before(
                    keys@,
                    right[j as int] as int,
                    #[trigger] left[l] as int,
                ) by {
                    if l > i {
                        assert(read_before(keys@, left[i as int] as int, left[l] as int));
                        lemma_read_before_transitive(
                            keys@,
                            right[j as int] as int,
                            left[i as int] as int,
                            left[l] as int,
                        );
                    }
                }
            }
            order.push(right[j]);
            j = j + 1;
        } else {
            proof {
                assert forall|l: int| j <= l < right.len() implies read_before(
                    keys@,
                    left[i as int] as int,
                    #[trigger] right[l] as int,
                ) by {
                    if l > j {
                        assert(read_before(keys@, right[j as int] as int, right[l] as int));
                        lemma_read_before_transitive(
                            keys@,
                            left[i as int] as int,
                            right[j as int] as int,
                            right[l] as int,
                        );
                    }
                }
            }
            order.push(left[i]);
            i = i + 1;
        }
        proof {
            assert(order@ == before.push(order@.last()));
            assert forall|p: usize| before.contains(p) implies order@.contains(p) by {
                let k = choose|k: int| 0 <= k < before.len() && before[k] == p;
                assert(order@[k] == p);
            }
            assert(order@[order.len() - 1] == order@.last());
        }
    }
    proof {
        assert forall|p: usize| lo <= p < hi implies #[trigger] order@.contains(p) by {
            if p < mid {
                assert(left@.contains(p));
            } else {
                assert(right@.contains(p));
            }
        }
    }
    order
}

fn arrange<K: Ranked>(keys: &Vec<K>, lo: usize, hi: usize) -> (order: Vec<usize>)
    requires
        lo <= hi <= keys.len(),
    ensures
        arranges(keys@, order@, lo as int, hi as int),
    decreases hi - lo,
{
    let mut order: Vec<usize> = Vec::new();
    if hi == lo {
        return order;
    }
    if hi - lo == 1 {
        order.push(lo);
        assert(order@[0] == lo);
        return order;
    }
    let mid: usize = lo + (hi - lo) / 2;
    let left = arrange(keys, lo, mid);
    let right = arrange(keys, mid, hi);
    merged(keys, &left, &right, lo, mid, hi)
}

/// The stable order of the list with these keys.
pub fn stable_order<K: Ranked>(keys: &Vec<K>) -> (order: Vec<usize>)
    ensures
        is_stable_order(keys@, order@),
{
    arrange(keys, 0, keys.len())
}

/// The stable order of the list with these keys; there is just one.
pub open spec fn the_order<K: Ranked>(keys: Seq<K>) -> Seq<usize> {
    choose|order: Seq<usize>| is_stable_order(keys, order)
}

/// `items` in the stable order of their keys.
pub open spec fn arranged<K: Ranked, T>(keys: Seq<K>, items: Seq<T>) -> Seq<T> {
    Seq::new(the_order(keys).len(), |i: int| items[the_order(keys)[i] as int])
}

/// `order` is the order that [`the_order`] speaks of.
pub proof fn lemma_the_order<K: Ranked>(keys: Seq<K>, order: Seq<usize>)
    requires
        is_stable_order(keys, order),
    ensures
        the_order(keys) == order,
{
    lemma_stable_order_is_unique(keys, the_order(keys), order);
}

/// Where the position `p` goes among `order`: before the first entry from `i`
/// on whose key its own ranks before.
spec fn slot_for<K: Ranked>(keys: Seq<K>, order: Seq<usize>, p: int, i: int) -> int
    decreases order.len() - i,
{
    if 0 <= i < order.len() && !keys[p].ranks_before(keys[order[i] as int]) {
        slot_for(keys, order, p, i + 1)
    } else {
        i
    }
}

proof fn lemma_slot_for<K: Ranked>(keys: Seq<K>, order: Seq<usize>, p: int, i: int)
    requires
        0 <= i <= order.len(),
    ensures
        i <= slot_for(keys, order, p, i) <= order.len(),
        forall|j: int|
            i <= j < slot_for(keys, order, p, i) ==> !keys[p].ranks_before(
                keys[#[trigger] order[j] as int],
            ),
        slot_for(keys, order, p, i) < order.len() ==> keys[p].ranks_before(
            keys[order[slot_for(keys, order, p, i)] as int],
        ),
    decreases order.len() - i,
{
    if i < order.len() && !keys[p].ranks_before(keys[order[i] as int]) {
        lemma_slot_for(keys, order, p, i + 1);
    }
}

proof fn lemma_order_exists<K: Ranked>(keys: Seq<K>, n: nat)
    requires
        n <= keys.len() <= usize::MAX,
    ensures
        exists|order: Seq<usize>| arranges(keys, order, 0, n as int),
    decreases n,
{
    if n == 0 {
        assert(arranges(keys, Seq::<usize>::empty(), 0, 0));
    } else {
        let p = n - 1;
        lemma_order_exists(keys, p as nat);
        let shorter = choose|order: Seq<usize>| arranges(keys, order, 0, p);
        let at = slot_for(keys, shorter, p, 0);
        lemma_slot_for(keys, shorter, p, 0);
        let order = shorter.insert(at, p as usize);
        assert forall|i: int, j: int| 0 <= i < j < order.len() implies read_before(
            keys,
            #[trigger] order[i] as int,
            #[trigger] order[j] as int,
        ) by {
            let a = if i < at { i } else { i - 1 };
            let b = if j < at { j } else { j - 1 };
            if i == at {
                assert(order[j] == shorter[b]);
                if at < b {
                    assert(read_before(keys, shorter[at] as int, shorter[b] as int));
                    lemma_read_before_transitive(keys, p, shorter[at] as int, shorter[b] as int);
                }
            } else if j == at {
                assert(order[i] == shorter[a]);
            } else {
                assert(order[i] == shorter[a] && order[j] == shorter[b]);
            }
        }
        assert forall|q: usize| 0 <= q < n implies #[trigger] order.contains(q) by {
            if q == p {
                assert(order[at] == q);
            } else {
                assert(shorter.contains(q));
                let k = choose|k: int| 0 <= k < shorter.len() && shorter[k] == q;
                let m = if k < at { k } else { k + 1 };
                assert(order[m] == q);
            }
        }
        assert forall|i: int| 0 <= i < order.len() implies 0 <= #[trigger] order[i] < n by {
            if i != at {
                let a = if i < at { i } else { i - 1 };
                assert(order[i] == shorter[a]);
            }
        }
        assert(arranges(keys, order, 0, n as int));
    }
}

/// Every list has a stable order.
pub proof fn every_list_has_an_order<K: Ranked>(keys: Seq<K>)
    requires
        keys.len() <= usize::MAX,
    ensures
        is_stable_order(keys, the_order(keys)),
{
    lemma_order_exists(keys, keys.len());
    let order = choose|order: Seq<usize>| arranges(keys, order, 0, keys.len() as int);
    assert(is_stable_order(keys, order));
}

/// Arranging a list by keys loses nothing and adds nothing: what stands in the
/// one stands in the other, and they are equally long. Where one entry's key
/// ranks before another's, it comes first.
pub proof fn arranging_keeps_every_entry<K: Ranked, T>(keys: Seq<K>, items: Seq<T>)
    requires
        keys.len() == items.len() <= usize::MAX,
    ensures
        arranged(keys, items).len() == items.len(),
        forall|t: T| arranged(keys, items).contains(t) <==> items.contains(t),
        forall|i: int, j: int|
            0 <= i < j < items.len() ==> !keys[#[trigger] the_order(keys)[j] as int].ranks_before(
                keys[#[trigger] the_order(keys)[i] as int],
            ),
{
    every_list_has_an_order(keys);
    let order = the_order(keys);
    let out = arranged(keys, items);
    assert forall|t: T| out.contains(t) <==> items.contains(t) by {
        if out.contains(t) {
            let i = choose|i: int| 0 <= i < out.len() && out[i] == t;
            assert(items[order[i] as int] == t);
        }
        if items.contains(t) {
            let p = choose|p: int| 0 <= p < items.len() && items[p] == t;
            assert(order.contains(p as usize));
            let i = choose|i: int| 0 <= i < order.len() && order[i] == p as usize;
            assert(out[i] == t);
        }
    }
    assert forall|i: int, j: int| 0 <= i < j < items.len() implies !keys[#[trigger] order[j] as int].ranks_before(
        keys[#[trigger] order[i] as int],
    ) by {
        assert(read_before(keys, order[i] as int, order[j] as int));
        if keys[order[i] as int].ranks_before(keys[order[j] as int]) {
            K::asymmetric(keys[order[i] as int], keys[order[j] as int]);
        }
    }
}

/// Entries of which neither ranks before the other keep the order they had.
pub proof fn equals_keep_their_order<K: Ranked>(keys: Seq<K>, order: Seq<usize>, i: int, j: int)
    requires
        is_stable_order(keys, order),
        0 <= i < j < order.len(),
        !keys[order[i] as int].ranks_before(keys[order[j] as int]),
    ensures
        order[i] < order[j],
{
    assert(read_before(keys, order[i] as int, order[j] as int));
}

/// An order names every place of the list once.
pub proof fn an_order_names_every_place_once<K: Ranked>(keys: Seq<K>, order: Seq<usize>)
    requires
        is_stable_order(keys, order),
        keys.len() <= usize::MAX,
    ensures
        order.len() == keys.len(),
        forall|p: int| 0 <= p < keys.len() ==> order.contains(#[trigger] (p as usize)),
        forall|i: int, j: int|
            0 <= i < j < order.len() ==> #[trigger] order[i] != #[trigger] order[j],
{
    assert forall|i: int, j: int| 0 <= i < j < order.len() implies #[trigger] order[i]
        != #[trigger] order[j] by {
        assert(read_before(keys, order[i] as int, order[j] as int));
        if keys[order[i] as int].ranks_before(keys[order[i] as int]) {
            K::asymmetric(keys[order[i] as int], keys[order[i] as int]);
        }
    }
}

} // verus!
