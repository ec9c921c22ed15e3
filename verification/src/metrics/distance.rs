//! Edit distance between rows of comparable items.
use vstd::prelude::*;
use vstd::std_specs::cmp::PartialEqSpec;

verus! {

/// The smaller of two counts.
pub open spec fn fewer(a: nat, b: nat) -> nat {
    if a <= b {
        a
    } else {
        b
    }
}

/// What replacing `x` by `y` costs: nothing where they are the same.
pub open spec fn cost<T>(x: T, y: T, same: spec_fn(T, T) -> bool) -> nat {
    if same(x, y) {
        0
    } else {
        1
    }
}

/// The least number of items to insert, remove or replace in order to turn `a`
/// into `b`, where `same` says which items are the same.
pub open spec fn edit_distance<T>(a: Seq<T>, b: Seq<T>, same: spec_fn(T, T) -> bool) -> nat
    decreases a.len() + b.len(),
{
    if a.len() == 0 {
        b.len()
    } else if b.len() == 0 {
        a.len()
    } else {
        let removed = edit_distance(a.drop_last(), b, same) + 1;
        let inserted = edit_distance(a, b.drop_last(), same) + 1;
        let replaced = edit_distance(a.drop_last(), b.drop_last(), same) + cost(
            a.last(),
            b.last(),
            same,
        );
        fewer(fewer(removed, inserted), replaced)
    }
}

/// Items are the same where `==` says so.
pub open spec fn by_equality<T: PartialEq>() -> spec_fn(T, T) -> bool {
    |x: T, y: T| x.eq_spec(&y)
}

/// The distance is at least the difference of the lengths and at most the longer
/// one.
pub proof fn law_distance_is_bounded<T>(a: Seq<T>, b: Seq<T>, same: spec_fn(T, T) -> bool)
    ensures
        edit_distance(a, b, same) <= a.len() || edit_distance(a, b, same) <= b.len(),
        a.len() <= edit_distance(a, b, same) + b.len(),
        b.len() <= edit_distance(a, b, same) + a.len(),
    decreases a.len() + b.len(),
{
    if a.len() > 0 && b.len() > 0 {
        law_distance_is_bounded(a.drop_last(), b.drop_last(), same);
        law_distance_is_bounded(a.drop_last(), b, same);
        law_distance_is_bounded(a, b.drop_last(), same);
    }
}

/// The items of two rows are the same in pairs.
pub open spec fn rows_match<T>(a: Seq<T>, b: Seq<T>, same: spec_fn(T, T) -> bool) -> bool {
    a.len() == b.len() && forall|i: int| 0 <= i < a.len() ==> same(#[trigger] a[i], b[i])
}

/// Rows are no edit apart exactly where they match.
pub proof fn law_matching_rows_are_no_edit_apart<T>(
    a: Seq<T>,
    b: Seq<T>,
    same: spec_fn(T, T) -> bool,
)
    ensures
        edit_distance(a, b, same) == 0 <==> rows_match(a, b, same),
    decreases a.len() + b.len(),
{
    if a.len() > 0 && b.len() > 0 {
        let front = a.drop_last();
        let back = b.drop_last();
        law_matching_rows_are_no_edit_apart(front, back, same);
        if rows_match(a, b, same) {
            assert(same(a[a.len() - 1], b[b.len() - 1]));
            assert forall|i: int| 0 <= i < front.len() implies same(
                #[trigger] front[i],
                back[i],
            ) by {
                assert(same(a[i], b[i]));
            }
        }
        if edit_distance(a, b, same) == 0 {
            assert forall|i: int| 0 <= i < a.len() implies same(#[trigger] a[i], b[i]) by {
                if i < front.len() {
                    assert(same(front[i], back[i]));
                }
            }
        }
    }
}

/// Where being the same is symmetric, so is the distance.
pub proof fn law_distance_is_symmetric<T>(a: Seq<T>, b: Seq<T>, same: spec_fn(T, T) -> bool)
    requires
        forall|x: T, y: T| #[trigger] same(x, y) == same(y, x),
    ensures
        edit_distance(a, b, same) == edit_distance(b, a, same),
    decreases a.len() + b.len(),
{
    if a.len() > 0 && b.len() > 0 {
        law_distance_is_symmetric(a.drop_last(), b.drop_last(), same);
        law_distance_is_symmetric(a.drop_last(), b, same);
        law_distance_is_symmetric(a, b.drop_last(), same);
        assert(same(a.last(), b.last()) == same(b.last(), a.last()));
    }
}

/// Where being the same is transitive, the way over a third row is no shorter.
pub proof fn law_distance_obeys_the_triangle<T>(
    a: Seq<T>,
    b: Seq<T>,
    c: Seq<T>,
    same: spec_fn(T, T) -> bool,
)
    requires
        forall|x: T, y: T, z: T|
            #[trigger] same(x, y) && #[trigger] same(y, z) ==> same(x, z),
    ensures
        edit_distance(a, c, same) <= edit_distance(a, b, same) + edit_distance(b, c, same),
    decreases a.len() + b.len() + c.len(),
{
    law_distance_is_bounded(a, b, same);
    law_distance_is_bounded(b, c, same);
    law_distance_is_bounded(a, c, same);
    if a.len() > 0 && b.len() > 0 && c.len() > 0 {
        let (a1, b1, c1) = (a.drop_last(), b.drop_last(), c.drop_last());
        if edit_distance(a, b, same) == edit_distance(a1, b, same) + 1 {
            law_distance_obeys_the_triangle(a1, b, c, same);
        } else if edit_distance(b, c, same) == edit_distance(b, c1, same) + 1 {
            law_distance_obeys_the_triangle(a, b, c1, same);
        } else if edit_distance(a, b, same) == edit_distance(a, b1, same) + 1 {
            law_distance_obeys_the_triangle(a, b1, c, same);
            law_distance_obeys_the_triangle(a, b1, c1, same);
        } else {
            law_distance_obeys_the_triangle(a1, b1, c, same);
            law_distance_obeys_the_triangle(a1, b1, c1, same);
            assert(cost(a.last(), c.last(), same) <= cost(a.last(), b.last(), same) + cost(
                b.last(),
                c.last(),
                same,
            ));
        }
    }
}

/// `b` is `a` with the part `u` replaced by `v`, between `p` and `s`, where neither
/// part is longer than one item: one item was inserted, removed or replaced.
pub open spec fn is_edited<T>(
    a: Seq<T>,
    b: Seq<T>,
    p: Seq<T>,
    u: Seq<T>,
    v: Seq<T>,
    s: Seq<T>,
) -> bool {
    &&& u.len() <= 1
    &&& v.len() <= 1
    &&& a == p + u + s
    &&& b == p + v + s
}

/// `b` is `a` after at most one edit.
pub open spec fn is_one_edit_away<T>(a: Seq<T>, b: Seq<T>) -> bool {
    exists|p: Seq<T>, u: Seq<T>, v: Seq<T>, s: Seq<T>| #[trigger] is_edited(a, b, p, u, v, s)
}

proof fn lemma_common_end_adds_nothing<T>(
    a: Seq<T>,
    b: Seq<T>,
    s: Seq<T>,
    same: spec_fn(T, T) -> bool,
)
    requires
        forall|x: T| #[trigger] same(x, x),
    ensures
        edit_distance(a + s, b + s, same) <= edit_distance(a, b, same),
    decreases s.len(),
{
    if s.len() == 0 {
        assert(a + s =~= a);
        assert(b + s =~= b);
    } else {
        let front = s.drop_last();
        lemma_common_end_adds_nothing(a, b, front, same);
        assert((a + s).drop_last() =~= a + front);
        assert((b + s).drop_last() =~= b + front);
        assert(same(s.last(), s.last()));
    }
}

/// One edit is a distance of at most one: inserting, removing or replacing an item
/// anywhere costs no more.
pub proof fn law_one_edit_costs_at_most_one<T>(
    a: Seq<T>,
    b: Seq<T>,
    same: spec_fn(T, T) -> bool,
)
    requires
        forall|x: T| #[trigger] same(x, x),
        is_one_edit_away(a, b),
    ensures
        edit_distance(a, b, same) <= 1,
{
    let (p, u, v, s) = choose|p: Seq<T>, u: Seq<T>, v: Seq<T>, s: Seq<T>| #[trigger]
        is_edited(a, b, p, u, v, s);
    law_matching_rows_are_no_edit_apart(p, p, same);
    assert(rows_match(p, p, same));
    assert(edit_distance(p, p, same) == 0);
    assert(edit_distance(p + u, p + v, same) <= 1) by {
        if u.len() == 0 {
            assert(p + u =~= p);
        } else {
            assert((p + u).drop_last() =~= p);
        }
        if v.len() == 0 {
            assert(p + v =~= p);
        } else {
            assert((p + v).drop_last() =~= p);
        }
        if p.len() == 0 {
            assert(p =~= Seq::empty());
        }
        law_distance_is_bounded(p + u, p + v, same);
        if u.len() == 1 && v.len() == 1 {
            assert((p + u).len() > 0 && (p + v).len() > 0);
        }
    }
    lemma_common_end_adds_nothing(p + u, p + v, s, same);
}

proof fn lemma_last_items_cost<T>(x: Seq<T>, e: T, b: Seq<T>, same: spec_fn(T, T) -> bool)
    requires
        b.len() > 0,
    ensures
        edit_distance(x.push(e), b, same) <= edit_distance(x, b.drop_last(), same) + cost(
            e,
            b.last(),
            same,
        ),
{
    let y = x.push(e);
    assert(y.len() > 0);
    assert(y.last() == e);
    assert(y.drop_last() =~= x);
}

/// The distance is reached by single edits: where two rows are some edits apart,
/// one edit leads to a row that is one edit nearer. The distance is therefore the
/// least number of edits that turn one row into the other.
pub proof fn law_distance_is_reached_edit_by_edit<T>(
    a: Seq<T>,
    b: Seq<T>,
    same: spec_fn(T, T) -> bool,
) -> (c: Seq<T>)
    requires
        forall|x: T| #[trigger] same(x, x),
        edit_distance(a, b, same) > 0,
    ensures
        is_one_edit_away(a, c),
        edit_distance(c, b, same) <= edit_distance(a, b, same) - 1,
    decreases a.len() + b.len(),
{
    let none = Seq::<T>::empty();
    if b.len() == 0 {
        let c = a.drop_last();
        assert(is_edited(a, c, c, seq![a.last()], none, none)) by {
            assert(a =~= c + seq![a.last()] + none);
            assert(c =~= c + none + none);
        }
        c
    } else {
        let last = b.last();
        let b1 = b.drop_last();
        let longer = a.push(last);
        assert(same(last, last));
        lemma_last_items_cost(a, last, b, same);
        if a.len() == 0 {
            assert(is_edited(a, longer, a, none, seq![last], none)) by {
                assert(a =~= a + none + none);
                assert(longer =~= a + seq![last] + none);
            }
            longer
        } else {
            let a1 = a.drop_last();
            if edit_distance(a, b, same) == edit_distance(a1, b, same) + 1 {
                assert(is_edited(a, a1, a1, seq![a.last()], none, none)) by {
                    assert(a =~= a1 + seq![a.last()] + none);
                    assert(a1 =~= a1 + none + none);
                }
                a1
            } else if edit_distance(a, b, same) == edit_distance(a, b1, same) + 1 {
                assert(is_edited(a, longer, a, none, seq![last], none)) by {
                    assert(a =~= a + none + none);
                    assert(longer =~= a + seq![last] + none);
                }
                longer
            } else if !same(a.last(), last) {
                let c = a1.push(last);
                lemma_last_items_cost(a1, last, b, same);
                assert(is_edited(a, c, a1, seq![a.last()], seq![last], none)) by {
                    assert(a =~= a1 + seq![a.last()] + none);
                    assert(c =~= a1 + seq![last] + none);
                }
                c
            } else {
                let c1 = law_distance_is_reached_edit_by_edit(a1, b1, same);
                let c = c1.push(a.last());
                lemma_last_items_cost(c1, a.last(), b, same);
                let (p, u, v, s) = choose|p: Seq<T>, u: Seq<T>, v: Seq<T>, s: Seq<T>| #[trigger]
                    is_edited(a1, c1, p, u, v, s);
                let more = s.push(a.last());
                assert(is_edited(a, c, p, u, v, more)) by {
                    assert(a =~= a1.push(a.last()));
                    assert((p + u + s).push(a.last()) =~= p + u + more);
                    assert((p + v + s).push(a.last()) =~= p + v + more);
                }
                c
            }
        }
    }
}

/// The distance reads items only as far as `same` does: rows of other items that
/// are the same in the same places have the same distance.
pub proof fn lemma_distance_reads_sameness<T, U>(
    a: Seq<T>,
    b: Seq<T>,
    same: spec_fn(T, T) -> bool,
    c: Seq<U>,
    d: Seq<U>,
    alike: spec_fn(U, U) -> bool,
)
    requires
        a.len() == c.len(),
        b.len() == d.len(),
        forall|i: int, j: int|
            0 <= i < a.len() && 0 <= j < b.len() ==> #[trigger] same(a[i], b[j]) == alike(
                c[i],
                d[j],
            ),
    ensures
        edit_distance(a, b, same) == edit_distance(c, d, alike),
    decreases a.len() + b.len(),
{
    if a.len() > 0 && b.len() > 0 {
        let (a1, b1, c1, d1) = (a.drop_last(), b.drop_last(), c.drop_last(), d.drop_last());
        assert(same(a[a.len() - 1], b[b.len() - 1]) == alike(c[a.len() - 1], d[b.len() - 1]));
        assert forall|i: int, j: int| 0 <= i < a1.len() && 0 <= j < b.len() implies
            #[trigger] same(a1[i], b[j]) == alike(c1[i], d[j]) by {
            assert(same(a[i], b[j]) == alike(c[i], d[j]));
        }
        assert forall|i: int, j: int| 0 <= i < a.len() && 0 <= j < b1.len() implies
            #[trigger] same(a[i], b1[j]) == alike(c[i], d1[j]) by {
            assert(same(a[i], b[j]) == alike(c[i], d[j]));
        }
        assert forall|i: int, j: int| 0 <= i < a1.len() && 0 <= j < b1.len() implies
            #[trigger] same(a1[i], b1[j]) == alike(c1[i], d1[j]) by {
            assert(same(a[i], b[j]) == alike(c[i], d[j]));
        }
        lemma_distance_reads_sameness(a1, b, same, c1, d, alike);
        lemma_distance_reads_sameness(a, b1, same, c, d1, alike);
        lemma_distance_reads_sameness(a1, b1, same, c1, d1, alike);
    }
}

/// One more, where the count does not go that far as many.
fn one_more(n: usize) -> (r: usize)
    ensures
        r == fewer((n + 1) as nat, usize::MAX as nat),
{
    if n < usize::MAX {
        n + 1
    } else {
        usize::MAX
    }
}

/// The edit distance between two rows.
pub fn levenshtein<T: PartialEq>(a: &[T], b: &[T]) -> (r: usize)
    requires
        T::obeys_eq_spec(),
    ensures
        r == edit_distance(a@, b@, by_equality::<T>()),
{
    let ghost same = by_equality::<T>();
    let n: usize = a.len();
    let m: usize = b.len();
    if n == 0 {
        return m;
    }
    if m == 0 {
        return n;
    }
    // The distances from the items of `a` seen so far to each beginning of `b`.
    let mut row: Vec<usize> = Vec::new();
    let mut j: usize = 0;
    while j < m
        invariant
            m == b@.len(),
            j <= m,
            row@.len() == j,
            forall|k: int|
                0 <= k < j ==> #[trigger] row@[k] == edit_distance(
                    a@.take(0),
                    b@.take(k + 1),
                    same,
                ),
        decreases m - j,
    {
        j = j + 1;
        row.push(j);
    }
    let mut i: usize = 0;
    while i < n
        invariant
            T::obeys_eq_spec(),
            same == by_equality::<T>(),
            n == a@.len(),
            m == b@.len(),
            m > 0,
            i <= n,
            row@.len() == m,
            forall|k: int|
                0 <= k < m ==> #[trigger] row@[k] == edit_distance(
                    a@.take(i as int),
                    b@.take(k + 1),
                    same,
                ),
        decreases n - i,
    {
        let mut diagonal: usize = i;
        let mut left: usize = i + 1;
        let mut j: usize = 0;
        while j < m
            invariant
                T::obeys_eq_spec(),
                same == by_equality::<T>(),
                n == a@.len(),
                m == b@.len(),
                i < n,
                j <= m,
                row@.len() == m,
                diagonal == edit_distance(a@.take(i as int), b@.take(j as int), same),
                left == edit_distance(a@.take(i + 1), b@.take(j as int), same),
                forall|k: int|
                    0 <= k < j ==> #[trigger] row@[k] == edit_distance(
                        a@.take(i + 1),
                        b@.take(k + 1),
                        same,
                    ),
                forall|k: int|
                    j <= k < m ==> #[trigger] row@[k] == edit_distance(
                        a@.take(i as int),
                        b@.take(k + 1),
                        same,
                    ),
            decreases m - j,
        {
            let up: usize = row[j];
            proof {
                let x = a@.take(i + 1);
                let y = b@.take(j + 1);
                assert(x.drop_last() =~= a@.take(i as int));
                assert(y.drop_last() =~= b@.take(j as int));
                law_distance_is_bounded(x, y, same);
            }
            let replaced: usize = if a[i] == b[j] {
                diagonal
            } else {
                one_more(diagonal)
            };
            let removed: usize = one_more(up);
            let inserted: usize = one_more(left);
            let mut best: usize = if removed <= inserted {
                removed
            } else {
                inserted
            };
            if replaced < best {
                best = replaced;
            }
            row.set(j, best);
            diagonal = up;
            left = best;
            j = j + 1;
        }
        i = i + 1;
    }
    assert(a@.take(i as int) =~= a@);
    assert(b@.take(m as int) =~= b@);
    row[m - 1]
}

} // verus!
