//! Ranking positions by the singles they hold.
use vstd::prelude::*;
use crate::single;
use crate::single::{is_greater, rank_of, Bits};

verus! {

/// Position `i` ranks before position `j`: a higher key, or an equal one that
/// comes earlier.
pub open spec fn before(keys: Seq<Bits>, i: int, j: int) -> bool {
    single::rank(keys[i]) > single::rank(keys[j]) || (single::rank(keys[i]) == single::rank(keys[j]) && i < j)
}

/// The smaller of two counts.
pub open spec fn at_most(a: nat, b: nat) -> nat {
    if a <= b {
        a
    } else {
        b
    }
}

/// `order` lists the `k` first positions in the ranking of the first `n` keys,
/// best first; all `n` of them where `n` is no more than `k`.
pub open spec fn is_top_among(keys: Seq<Bits>, n: nat, k: nat, order: Seq<usize>) -> bool {
    &&& order.len() == at_most(k, n)
    &&& forall|p: int| 0 <= p < order.len() ==> (#[trigger] order[p]) < n
    &&& forall|p: int, q: int|
        0 <= p < q < order.len() ==> before(
            keys,
            #[trigger] order[p] as int,
            #[trigger] order[q] as int,
        )
    &&& forall|p: int, i: usize|
        #![trigger order[p], order.contains(i)]
        0 <= p < order.len() && i < n && !order.contains(i) ==> before(
            keys,
            order[p] as int,
            i as int,
        )
}

/// `order` lists the `k` first positions in the ranking of `keys`, best first.
/// No other sequence does ([`law_top_is_unique`]).
pub open spec fn is_top(keys: Seq<Bits>, k: nat, order: Seq<usize>) -> bool {
    is_top_among(keys, keys.len(), k, order)
}

/// The items at the listed positions, in that order.
pub open spec fn pick<T>(items: Seq<T>, order: Seq<usize>) -> Seq<T> {
    Seq::new(order.len(), |p: int| items[order[p] as int])
}

/// The position that a left-to-right search for the greatest key ends on: a
/// later key replaces the one held unless the one held is greater.
pub open spec fn last_max(keys: Seq<Bits>) -> int
    decreases keys.len(),
{
    if keys.len() <= 1 {
        0
    } else {
        let held = last_max(keys.drop_last());
        if single::greater(keys[held], keys.last()) {
            held
        } else {
            keys.len() - 1
        }
    }
}

/// A listing by [`is_top`] determines the sequence.
pub proof fn law_top_is_unique(keys: Seq<Bits>, k: nat, a: Seq<usize>, b: Seq<usize>)
    requires
        is_top(keys, k, a),
        is_top(keys, k, b),
    ensures
        a == b,
{
    lemma_top_prefix_agrees(keys, k, a, b, a.len());
    assert(a =~= b);
}

proof fn lemma_top_prefix_agrees(keys: Seq<Bits>, k: nat, a: Seq<usize>, b: Seq<usize>, n: nat)
    requires
        is_top(keys, k, a),
        is_top(keys, k, b),
        n <= a.len(),
    ensures
        forall|p: int| 0 <= p < n ==> a[p] == b[p],
    decreases n,
{
    if n > 0 {
        lemma_top_prefix_agrees(keys, k, a, b, (n - 1) as nat);
        let p = n - 1;
        let x = a[p];
        let y = b[p];
        if x != y {
            // Each stands at a later place of the other listing, or outside it.
            if b.contains(x) {
                let q = choose|q: int| 0 <= q < b.len() && b[q] == x;
                assert(q > p) by {
                    if q < p {
                        assert(a[q] == b[q]);
                        assert(before(keys, a[q] as int, a[p] as int));
                    }
                }
                assert(before(keys, b[p] as int, b[q] as int));
            } else {
                assert(before(keys, b[p] as int, x as int));
            }
            if a.contains(y) {
                let q = choose|q: int| 0 <= q < a.len() && a[q] == y;
                assert(q > p) by {
                    if q < p {
                        assert(a[q] == b[q]);
                        assert(before(keys, b[q] as int, b[p] as int));
                    }
                }
                assert(before(keys, a[p] as int, a[q] as int));
            } else {
                assert(before(keys, a[p] as int, y as int));
            }
        }
    }
}

/// Listed positions are all different, and no listed key is below one that was
/// left out.
pub proof fn law_top_keeps_the_best(keys: Seq<Bits>, k: nat, order: Seq<usize>)
    requires
        is_top(keys, k, order),
    ensures
        order.no_duplicates(),
        forall|p: int, i: usize|
            #![trigger order[p], order.contains(i)]
            0 <= p < order.len() && i < keys.len() && !order.contains(i) ==> single::rank(
                keys[order[p] as int],
            ) >= single::rank(keys[i as int]),
        forall|p: int, q: int|
            0 <= p < q < order.len() ==> single::rank(keys[#[trigger] order[p] as int]) >= single::rank(
                keys[#[trigger] order[q] as int],
            ),
{
    assert forall|p: int, q: int| 0 <= p < order.len() && 0 <= q < order.len() && p != q implies
        order[p] != order[q] by {
        if p < q {
            assert(before(keys, order[p] as int, order[q] as int));
        } else {
            assert(before(keys, order[q] as int, order[p] as int));
        }
    }
}

/// Among numbers, the search ends on the last of the greatest keys.
pub proof fn law_last_max_is_greatest(keys: Seq<Bits>)
    requires
        keys.len() > 0,
        forall|i: int| 0 <= i < keys.len() ==> !single::is_nan(#[trigger] keys[i]),
    ensures
        0 <= last_max(keys) < keys.len(),
        forall|i: int| 0 <= i < keys.len() ==> !single::greater(#[trigger] keys[i], keys[last_max(keys)]),
        forall|i: int| last_max(keys) < i < keys.len() ==> single::greater(
            keys[last_max(keys)],
            #[trigger] keys[i],
        ),
    decreases keys.len(),
{
    if keys.len() > 1 {
        let front = keys.drop_last();
        assert forall|i: int| 0 <= i < front.len() implies !single::is_nan(#[trigger] front[i]) by {
            assert(front[i] == keys[i]);
        }
        law_last_max_is_greatest(front);
        let held = last_max(front);
        assert(front[held] == keys[held]);
        assert forall|i: int| 0 <= i < keys.len() implies !single::greater(
            #[trigger] keys[i],
            keys[last_max(keys)],
        ) by {
            if i < front.len() {
                assert(front[i] == keys[i]);
            }
        }
        assert forall|i: int| last_max(keys) < i < keys.len() implies single::greater(
            keys[last_max(keys)],
            #[trigger] keys[i],
        ) by {
            if i < front.len() {
                assert(front[i] == keys[i]);
            }
        }
    }
}

/// The search ends inside the keys.
pub proof fn lemma_last_max_bounds(keys: Seq<Bits>)
    requires
        keys.len() > 0,
    ensures
        0 <= last_max(keys) < keys.len(),
    decreases keys.len(),
{
    if keys.len() > 1 {
        lemma_last_max_bounds(keys.drop_last());
    }
}

/// The positions of the `k` highest values, best first.
///
/// Equal values keep their order, and what is not a number comes last.
pub fn top_k_indices(values: &Vec<Bits>, k: usize) -> (order: Vec<usize>)
    ensures
        is_top(values@, k as nat, order@),
{
    let mut order: Vec<usize> = Vec::new();
    let n: usize = values.len();
    let mut i: usize = 0;
    while i < n
        invariant
            n == values@.len(),
            i <= n,
            is_top_among(values@, i as nat, k as nat, order@),
        decreases n - i,
    {
        let ghost held = order@;
        let key: i64 = rank_of(values[i]);
        let mut p: usize = order.len();
        while p > 0 && rank_of(values[order[p - 1]]) < key
            invariant
                n == values@.len(),
                i < n,
                key == single::rank(values@[i as int]),
                order@ == held,
                p <= held.len(),
                is_top_among(values@, i as nat, k as nat, held),
                forall|q: int|
                    p <= q < held.len() ==> before(values@, i as int, #[trigger] held[q] as int),
            decreases p,
        {
            p = p - 1;
            assert(held[p as int] < i);
        }
        assert forall|q: int| 0 <= q < p implies before(
            values@,
            #[trigger] held[q] as int,
            i as int,
        ) by {
            if q < p - 1 {
                assert(before(values@, held[q] as int, held[p - 1] as int));
            }
            assert(held[p - 1] < i);
            assert(held[q] < i);
        }
        if p < k {
            order.insert(p, i);
            let ghost inserted = order@;
            assert(inserted == held.insert(p as int, i));
            assert forall|q: int, r: int| 0 <= q < r < inserted.len() implies before(
                values@,
                #[trigger] inserted[q] as int,
                #[trigger] inserted[r] as int,
            ) by {
                if q < p && r > p {
                    assert(inserted[q] == held[q] && inserted[r] == held[r - 1]);
                } else if q > p {
                    assert(inserted[q] == held[q - 1] && inserted[r] == held[r - 1]);
                } else if q == p {
                    assert(inserted[r] == held[r - 1]);
                } else {
                    assert(inserted[q] == held[q]);
                }
            }
            assert forall|q: int| 0 <= q < inserted.len() implies (#[trigger] inserted[q]) < i
                + 1 by {
                if q < p {
                    assert(inserted[q] == held[q]);
                } else if q > p {
                    assert(inserted[q] == held[q - 1]);
                }
            }
            if order.len() > k {
                order.truncate(k);
            }
            assert forall|q: int, j: usize|
                #![trigger order@[q], order@.contains(j)]
                0 <= q < order@.len() && j < i + 1 && !order@.contains(j) implies before(
                values@,
                order@[q] as int,
                j as int,
            ) by {
                assert(order@[q] == inserted[q]);
                assert(j != i) by {
                    assert(order@[p as int] == i);
                }
                if held.contains(j) {
                    // The position that was pushed out.
                    let r = choose|r: int| 0 <= r < held.len() && held[r] == j;
                    let s = if r < p {
                        r
                    } else {
                        r + 1
                    };
                    assert(inserted[s] == j);
                    if s < order@.len() {
                        assert(order@[s] == j);
                    }
                    assert(before(values@, inserted[q] as int, inserted[s] as int));
                } else {
                    if q < p {
                        assert(inserted[q] == held[q]);
                    } else if q > p {
                        assert(inserted[q] == held[q - 1]);
                    } else if p < held.len() {
                        assert(before(values@, i as int, held[p as int] as int));
                        assert(before(values@, held[p as int] as int, j as int));
                    } else {
                        // Nothing was left out before.
                        lemma_full_listing(values@, i as nat, k as nat, held, j);
                    }
                }
            }
        } else {
            assert forall|q: int, j: usize|
                #![trigger order@[q], order@.contains(j)]
                0 <= q < order@.len() && j < i + 1 && !order@.contains(j) implies before(
                values@,
                order@[q] as int,
                j as int,
            ) by {
                assert(order@[q] == held[q]);
            }
        }
        i = i + 1;
    }
    order
}

/// Where there is room for every position, every position is listed.
proof fn lemma_full_listing(keys: Seq<Bits>, n: nat, k: nat, order: Seq<usize>, j: usize)
    requires
        is_top_among(keys, n, k, order),
        n <= k,
        j < n,
    ensures
        order.contains(j),
{
    assert(order.no_duplicates()) by {
        assert forall|p: int, q: int| 0 <= p < order.len() && 0 <= q < order.len() && p != q implies
            order[p] != order[q] by {
            if p < q {
                assert(before(keys, order[p] as int, order[q] as int));
            } else {
                assert(before(keys, order[q] as int, order[p] as int));
            }
        }
    }
    let listed = order.map_values(|x: usize| x as int).to_set();
    let whole = vstd::set_lib::set_int_range(0, n as int);
    vstd::set_lib::lemma_int_range(0, n as int);
    let ints = order.map_values(|x: usize| x as int);
    assert(ints.no_duplicates());
    ints.unique_seq_to_set();
    assert(listed.subset_of(whole)) by {
        assert forall|x: int| listed.contains(x) implies whole.contains(x) by {
            let p = choose|p: int| 0 <= p < ints.len() && ints[p] == x;
            assert(order[p] < n);
        }
    }
    vstd::set_lib::lemma_subset_equality(listed, whole);
    assert(listed.contains(j as int));
    let p = choose|p: int| 0 <= p < ints.len() && ints[p] == j as int;
    assert(order[p] == j);
}

/// The position of the greatest key, the last one among equals; `None` where
/// there is no key.
pub fn max_index(keys: &Vec<Bits>) -> (r: Option<usize>)
    ensures
        r is None <==> keys@.len() == 0,
        r matches Some(i) ==> i == last_max(keys@) && i < keys@.len(),
{
    if keys.len() == 0 {
        return None;
    }
    let mut held: usize = 0;
    let mut i: usize = 1;
    assert(keys@.take(1).len() == 1);
    while i < keys.len()
        invariant
            1 <= i <= keys@.len(),
            held < i,
            held == last_max(keys@.take(i as int)),
        decreases keys@.len() - i,
    {
        assert(keys@.take(i + 1).drop_last() =~= keys@.take(i as int));
        if !is_greater(keys[held], keys[i]) {
            held = i;
        }
        i = i + 1;
    }
    assert(keys@.take(i as int) =~= keys@);
    Some(held)
}

/// Where there is room for every position, every position is listed.
pub proof fn law_full_listing_has_every_place(
    keys: Seq<Bits>,
    k: nat,
    order: Seq<usize>,
    i: usize,
)
    requires
        is_top(keys, k, order),
        keys.len() <= k,
        i < keys.len(),
    ensures
        order.len() == keys.len(),
        order.contains(i),
{
    lemma_full_listing(keys, keys.len(), k, order, i);
}

/// How many positions are listed, and in which order: as many as there are, but no
/// more than asked for; a higher number before a lower one, what is not a number
/// behind every number, and equal ones as they stand.
pub proof fn law_listing_is_stable(keys: Seq<Bits>, k: nat, order: Seq<usize>, p: int, q: int)
    requires
        is_top(keys, k, order),
        0 <= p < q < order.len(),
    ensures
        keys.len() <= k ==> order.len() == keys.len(),
        keys.len() > k ==> order.len() == k,
        order[p] < keys.len(),
        order[q] < keys.len(),
        !single::greater(keys[order[q] as int], keys[order[p] as int]),
        single::is_nan(keys[order[p] as int]) ==> single::is_nan(keys[order[q] as int]),
        keys[order[p] as int] == keys[order[q] as int] ==> order[p] < order[q],
{
    assert(before(keys, order[p] as int, order[q] as int));
}

/// The search for the greatest key ends behind every key that is not less: whatever
/// comes after it is less.
pub proof fn law_search_ends_on_the_last_of_the_greatest(keys: Seq<Bits>, i: int)
    requires
        last_max(keys) < i < keys.len(),
    ensures
        single::greater(keys[last_max(keys)], keys[i]),
    decreases keys.len(),
{
    if keys.len() > 1 {
        let front = keys.drop_last();
        lemma_last_max_bounds(front);
        let held = last_max(front);
        if single::greater(keys[held], keys.last()) {
            if i < front.len() {
                law_search_ends_on_the_last_of_the_greatest(front, i);
                assert(front[i] == keys[i] && front[held] == keys[held]);
            }
        }
    }
}

} // verus!
