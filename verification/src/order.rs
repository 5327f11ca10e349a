//! Stable orderings of items by integer keys, and moving items of a vector
//! into a new arrangement.

use vstd::prelude::*;

verus! {

/// Whether item `a` comes before item `b` when ordering by `keys`
/// (descending or ascending), equal keys keeping their positions.
pub open spec fn precedes(keys: Seq<u64>, descending: bool, a: int, b: int) -> bool {
    if keys[a] == keys[b] {
        a < b
    } else if descending {
        keys[a] > keys[b]
    } else {
        keys[a] < keys[b]
    }
}

/// `order` lists every position of `keys` once, ordered by `precedes`.
pub open spec fn is_sorted_order(keys: Seq<u64>, descending: bool, order: Seq<usize>) -> bool {
    &&& order.len() == keys.len()
    &&& forall|i: int| 0 <= i < order.len() ==> #[trigger] order[i] < keys.len()
    &&& order.no_duplicates()
    &&& forall|i: int, j: int|
        0 <= i < j < order.len() ==> precedes(keys, descending, #[trigger] order[i] as int, #[trigger] order[j] as int)
}

/// Whether position `a` comes before position `b`.
fn goes_before(keys: &Vec<u64>, descending: bool, a: usize, b: usize) -> (r: bool)
    requires
        a < keys@.len(),
        b < keys@.len(),
    ensures
        r == precedes(keys@, descending, a as int, b as int),
{
    if keys[a] == keys[b] {
        a < b
    } else if descending {
        keys[a] > keys[b]
    } else {
        keys[a] < keys[b]
    }
}

/// Every position occurs in a stable order.
pub proof fn lemma_order_covers(keys: Seq<u64>, descending: bool, order: Seq<usize>, x: int)
    requires
        is_sorted_order(keys, descending, order),
        0 <= x < keys.len(),
    ensures
        exists|i: int| 0 <= i < order.len() && order[i] as int == x,
{
    let n = keys.len() as int;
    let o = Seq::new(order.len(), |i: int| order[i] as int);
    assert forall|a: int, b: int| 0 <= a < o.len() && 0 <= b < o.len() && a != b implies o[a] != o[b] by {
        assert(order[a] != order[b]);
    }
    assert(o.no_duplicates());
    o.unique_seq_to_set();
    vstd::set_lib::lemma_int_range(0, n);
    let range = vstd::set_lib::set_int_range(0, n);
    assert forall|y: int| o.to_set().contains(y) implies range.contains(y) by {
        assert(o.contains(y));
        let i = choose|i: int| 0 <= i < o.len() && o[i] == y;
        assert(order[i] < keys.len());
    }
    assert(o.to_set().subset_of(range));
    vstd::set_lib::lemma_len_subset(o.to_set(), range);
    vstd::set_lib::lemma_subset_equality(o.to_set(), range);
    assert(range.contains(x));
    assert(o.to_set().contains(x));
    assert(o.contains(x));
    let i = choose|i: int| 0 <= i < o.len() && o[i] == x;
    assert(order[i] as int == x);
}

/// There is only one stable order by given keys.
pub proof fn lemma_sorted_order_unique(keys: Seq<u64>, descending: bool, o1: Seq<usize>, o2: Seq<usize>)
    requires
        is_sorted_order(keys, descending, o1),
        is_sorted_order(keys, descending, o2),
    ensures
        o1 == o2,
{
    assert forall|i: int| 0 <= i < o1.len() implies o1[i] == o2[i] by {
        if o1[i] != o2[i] {
            lemma_first_difference(keys, descending, o1, o2, i);
            let d = choose|d: int| 0 <= d <= i && o1[d] != o2[d] && forall|e: int| 0 <= e < d ==> o1[e] == o2[e];
            let a2 = o1[d] as int;
            let b2 = o2[d] as int;
            lemma_order_covers(keys, descending, o2, a2);
            lemma_order_covers(keys, descending, o1, b2);
            let j2 = choose|j: int| 0 <= j < o2.len() && o2[j] as int == a2;
            let k2 = choose|k: int| 0 <= k < o1.len() && o1[k] as int == b2;
            if j2 < d {
                assert(o1[j2] == o2[j2]);
                assert(o1[j2] == o1[d]);
            }
            if k2 < d {
                assert(o1[k2] == o2[k2]);
                assert(o2[k2] == o2[d]);
            }
            assert(j2 > d);
            assert(k2 > d);
            assert(precedes(keys, descending, o1[d] as int, o1[k2] as int));
            assert(precedes(keys, descending, o2[d] as int, o2[j2] as int));
            assert(false);
        }
    }
    assert(o1 =~= o2);
}

proof fn lemma_first_difference(keys: Seq<u64>, descending: bool, o1: Seq<usize>, o2: Seq<usize>, i: int)
    requires
        0 <= i < o1.len(),
        o1.len() == o2.len(),
        o1[i] != o2[i],
    ensures
        exists|d: int| 0 <= d <= i && o1[d] != o2[d] && forall|e: int| 0 <= e < d ==> o1[e] == o2[e],
    decreases i,
{
    if exists|e: int| 0 <= e < i && o1[e] != o2[e] {
        let e = choose|e: int| 0 <= e < i && o1[e] != o2[e];
        lemma_first_difference(keys, descending, o1, o2, e);
    } else {
        assert(forall|e: int| 0 <= e < i ==> o1[e] == o2[e]);
    }
}

/// The positions of `keys` in stable ascending or descending key order.
pub fn sorted_order(keys: &Vec<u64>, descending: bool) -> (order: Vec<usize>)
    ensures
        is_sorted_order(keys@, descending, order@),
{
    let mut order: Vec<usize> = Vec::new();
    let mut i: usize = 0;
    while i < keys.len()
        invariant
            i <= keys@.len(),
            order@.len() == i,
            forall|k: int| 0 <= k < order@.len() ==> #[trigger] order@[k] < i,
            order@.no_duplicates(),
            forall|a: int, b: int|
                0 <= a < b < order@.len() ==> precedes(keys@, descending, #[trigger] order@[a] as int, #[trigger] order@[b] as int),
        decreases keys@.len() - i,
    {
        let mut p: usize = 0;
        while p < order.len() && goes_before(keys, descending, order[p], i)
            invariant
                p <= order@.len(),
                i < keys@.len(),
                forall|k: int| 0 <= k < order@.len() ==> #[trigger] order@[k] < i,
                forall|k: int| 0 <= k < p ==> precedes(keys@, descending, #[trigger] order@[k] as int, i as int),
            decreases order@.len() - p,
        {
            p += 1;
        }
        let ghost before = order@;
        order.insert(p, i);
        assert forall|a: int, b: int|
            0 <= a < b < order@.len() implies precedes(keys@, descending, #[trigger] order@[a] as int, #[trigger] order@[b] as int) by {
            if b < p {
                assert(order@[a] == before[a] && order@[b] == before[b]);
            } else if b == p {
                assert(order@[a] == before[a]);
            } else if a == p {
                assert(order@[b] == before[b - 1]);
                assert(!precedes(keys@, descending, before[p as int] as int, i as int));
                if b - 1 > p {
                    assert(precedes(keys@, descending, before[p as int] as int, before[b - 1] as int));
                }
            } else if a < p {
                assert(order@[a] == before[a] && order@[b] == before[b - 1]);
            } else {
                assert(order@[a] == before[a - 1] && order@[b] == before[b - 1]);
            }
        }
        assert forall|a: int, b: int|
            0 <= a < order@.len() && 0 <= b < order@.len() && a != b implies order@[a] != order@[b] by {
            if a != p && b != p {
                let a0 = if a < p { a } else { a - 1 };
                let b0 = if b < p { b } else { b - 1 };
                assert(order@[a] == before[a0] && order@[b] == before[b0]);
            } else if a == p {
                let b0 = if b < p { b } else { b - 1 };
                assert(order@[b] == before[b0]);
            } else {
                let a0 = if a < p { a } else { a - 1 };
                assert(order@[a] == before[a0]);
            }
        }
        i += 1;
    }
    order
}


/// The items of `items` whose position `keep` marks, in order, among the
/// first `n`.
pub open spec fn marked<X>(items: Seq<X>, keep: Seq<bool>, n: int) -> Seq<X>
    decreases n,
{
    if n <= 0 {
        seq![]
    } else {
        let prev = marked(items, keep, n - 1);
        if keep[n - 1] {
            prev.push(items[n - 1])
        } else {
            prev
        }
    }
}

/// The positions among the first `n` that `keep` marks, in order.
pub open spec fn marked_positions(keep: Seq<bool>, n: int) -> Seq<int>
    decreases n,
{
    if n <= 0 {
        seq![]
    } else {
        let prev = marked_positions(keep, n - 1);
        if keep[n - 1] {
            prev.push(n - 1)
        } else {
            prev
        }
    }
}

/// The marked items are the items at the marked positions, which rise.
pub proof fn lemma_marked_positions<X>(items: Seq<X>, keep: Seq<bool>, n: int)
    requires
        0 <= n <= items.len(),
        n <= keep.len(),
    ensures
        marked(items, keep, n).len() == marked_positions(keep, n).len(),
        forall|i: int|
            0 <= i < marked_positions(keep, n).len() ==> {
                &&& 0 <= #[trigger] marked_positions(keep, n)[i] < n
                &&& keep[marked_positions(keep, n)[i]]
                &&& marked(items, keep, n)[i] == items[marked_positions(keep, n)[i]]
            },
        forall|i: int, j: int|
            0 <= i < j < marked_positions(keep, n).len() ==> #[trigger] marked_positions(keep, n)[i]
                < #[trigger] marked_positions(keep, n)[j],
    decreases n,
{
    if n > 0 {
        lemma_marked_positions(items, keep, n - 1);
    }
}

/// Keeps the items whose position `keep` marks, in order.
pub fn retain_marked<X>(v: &mut Vec<X>, keep: &Vec<bool>)
    requires
        keep@.len() == old(v)@.len(),
    ensures
        final(v)@ == marked(old(v)@, keep@, old(v)@.len() as int),
{
    let mut items: Vec<X> = Vec::new();
    std::mem::swap(v, &mut items);
    let ghost all = items@;
    let n = keep.len();
    let mut i: usize = 0;
    for x in it: items.into_iter()
        invariant
            n == keep@.len(),
            all.len() == keep@.len(),
            it.seq() == all,
            i == it.index(),
            v@ == marked(all, keep@, i as int),
    {
        if keep[i] {
            v.push(x);
        }
        i += 1;
    }
}


/// The items at positions `order[0..n]` of `items`, in that order.
pub fn arrange<X>(items: Vec<X>, order: &Vec<usize>, n: usize) -> (r: Vec<X>)
    requires
        n <= order@.len(),
        order@.no_duplicates(),
        forall|k: int| 0 <= k < order@.len() ==> #[trigger] order@[k] < items@.len(),
    ensures
        r@ == Seq::new(n as nat, |k: int| items@[order@[k] as int]),
{
    let ghost all = items@;
    let mut slots: Vec<Option<X>> = Vec::new();
    for x in it: items.into_iter()
        invariant
            it.seq() == all,
            slots@.len() == it.index(),
            forall|j: int| 0 <= j < slots@.len() ==> #[trigger] slots@[j] == Some(all[j]),
    {
        slots.push(Some(x));
    }
    let mut r: Vec<X> = Vec::new();
    let mut k: usize = 0;
    while k < n
        invariant
            k <= n <= order@.len(),
            order@.no_duplicates(),
            forall|m: int| 0 <= m < order@.len() ==> #[trigger] order@[m] < all.len(),
            slots@.len() == all.len(),
            forall|j: int|
                0 <= j < all.len() && (forall|m: int| 0 <= m < k ==> order@[m] != j) ==> #[trigger] slots@[j]
                    == Some(all[j]),
            r@ == Seq::new(k as nat, |m: int| all[order@[m] as int]),
        decreases n - k,
    {
        let j = order[k];
        assert forall|m: int| 0 <= m < k implies order@[m] != j by {
            assert(order@[m] != order@[k as int]);
        }
        let mut slot: Option<X> = None;
        slots.set_and_swap(j, &mut slot);
        let ghost before = r@;
        match slot {
            Some(x) => {
                r.push(x);
            },
            None => {
                assert(false);
            },
        }
        assert(r@ =~= Seq::new((k + 1) as nat, |m: int| all[order@[m] as int]));
        k += 1;
    }
    r
}

} // verus!
