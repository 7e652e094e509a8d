//! Order statistics.
use crate::ieee::double::Double;
use vstd::prelude::*;
use vstd::set_lib::*;

verus! {

/// The item at `j` comes before the item at `i` in ascending order, equal
/// items in the order of their positions.
pub open spec fn precedes(keys: Seq<int>, j: int, i: int) -> bool {
    keys[j] < keys[i] || (keys[j] == keys[i] && j < i)
}

/// How many of the first `m` items come before the item at `i`.
pub open spec fn preceding(keys: Seq<int>, i: int, m: nat) -> nat
    decreases m,
{
    if m == 0 {
        0
    } else {
        preceding(keys, i, (m - 1) as nat) + if precedes(keys, m - 1, i) {
            1nat
        } else {
            0
        }
    }
}

/// The position of the item at `i` in ascending order.
pub open spec fn rank(keys: Seq<int>, i: int) -> nat {
    preceding(keys, i, keys.len())
}

/// The item at `i` has position `k` in ascending order.
pub open spec fn has_rank(keys: Seq<int>, k: nat, i: int) -> bool {
    0 <= i < keys.len() && rank(keys, i) == k
}

/// Where the item stands that has position `k` in ascending order.
pub open spec fn nth(keys: Seq<int>, k: nat) -> int {
    choose|i: int| has_rank(keys, k, i)
}

/// Where the middle item in ascending order stands, the upper one of two.
pub open spec fn middle(keys: Seq<int>) -> int {
    nth(keys, keys.len() / 2)
}

/// The integers as keys.
pub open spec fn integer_keys(s: Seq<i64>) -> Seq<int> {
    s.map_values(|x: i64| x as int)
}

/// The values of the numbers as keys.
pub open spec fn value_keys(s: Seq<Double>) -> Seq<int> {
    s.map_values(|x: Double| x.value())
}

/// The middle of some integers in ascending order, the upper one of two.
pub open spec fn median_integer(s: Seq<i64>) -> i64 {
    s[middle(integer_keys(s))]
}

/// The middle of some numbers in ascending order, the upper one of two.
pub open spec fn median_value(s: Seq<Double>) -> Double {
    s[middle(value_keys(s))]
}

proof fn lemma_preceding_bound(keys: Seq<int>, i: int, m: nat)
    ensures
        preceding(keys, i, m) <= m,
        0 <= i < m ==> preceding(keys, i, m) < m,
    decreases m,
{
    if m > 0 {
        lemma_preceding_bound(keys, i, (m - 1) as nat);
    }
}

proof fn lemma_preceding_order(keys: Seq<int>, i: int, j: int, m: nat)
    requires
        precedes(keys, i, j),
    ensures
        preceding(keys, i, m) <= preceding(keys, j, m),
        0 <= i < m ==> preceding(keys, i, m) < preceding(keys, j, m),
    decreases m,
{
    if m > 0 {
        lemma_preceding_order(keys, i, j, (m - 1) as nat);
    }
}

/// Every position is taken by exactly one item.
pub proof fn lemma_rank(keys: Seq<int>, k: nat)
    requires
        k < keys.len(),
    ensures
        has_rank(keys, k, nth(keys, k)),
        forall|i: int| has_rank(keys, k, i) ==> i == nth(keys, k),
{
    let n = keys.len() as int;
    assert forall|i: int, j: int|
        0 <= i < n && 0 <= j < n && rank(keys, i) == rank(keys, j) implies i == j by {
        if i != j {
            if precedes(keys, i, j) {
                lemma_preceding_order(keys, i, j, keys.len());
            } else {
                lemma_preceding_order(keys, j, i, keys.len());
            }
        }
    }
    let places = set_int_range(0, n);
    let f = |i: int| rank(keys, i) as int;
    let ranks = places.map(f);
    lemma_int_range(0, n);
    assert forall|a: int| ranks.contains(a) implies places.contains(a) by {
        let i = choose|i: int| places.contains(i) && a == f(i);
        lemma_preceding_bound(keys, i, keys.len());
    }
    lemma_map_size(places, ranks, f);
    lemma_subset_equality(ranks, places);
    assert(ranks.contains(k as int));
    let i = choose|i: int| places.contains(i) && k as int == f(i);
    assert(has_rank(keys, k, i));
}

/// The median is one of the items: at most half of them are less, and at most
/// half are greater.
pub proof fn lemma_middle(keys: Seq<int>)
    requires
        keys.len() > 0,
    ensures
        0 <= middle(keys) < keys.len(),
        rank(keys, middle(keys)) == keys.len() / 2,
{
    lemma_rank(keys, keys.len() / 2);
}

/// How many integers come before the one at `i`.
fn rank_integer(v: &Vec<i64>, i: usize) -> (r: usize)
    requires
        i < v.len(),
    ensures
        r == rank(integer_keys(v@), i as int),
{
    let ghost keys = integer_keys(v@);
    let mut count: usize = 0;
    let mut j: usize = 0;
    while j < v.len()
        invariant
            i < v.len(),
            j <= v.len(),
            keys == integer_keys(v@),
            count == preceding(keys, i as int, j as nat),
            count <= j,
        decreases v.len() - j,
    {
        if v[j] < v[i] || (v[j] == v[i] && j < i) {
            count = count + 1;
        }
        j = j + 1;
    }
    count
}

/// The median of some integers, the upper one of two.
pub fn median_i64(v: &Vec<i64>) -> (r: i64)
    requires
        v.len() > 0,
    ensures
        r == median_integer(v@),
{
    let ghost keys = integer_keys(v@);
    let half: usize = v.len() / 2;
    let mut i: usize = 0;
    proof {
        lemma_rank(keys, half as nat);
    }
    while rank_integer(v, i) != half
        invariant
            half == v.len() / 2,
            v.len() > 0,
            keys == integer_keys(v@),
            has_rank(keys, half as nat, middle(keys)),
            forall|k: int| has_rank(keys, half as nat, k) ==> k == middle(keys),
            i <= middle(keys),
        decreases middle(keys) - i,
    {
        i = i + 1;
    }
    assert(has_rank(keys, half as nat, i as int));
    v[i]
}

/// How many numbers come before the one at `i`.
fn rank_double(v: &Vec<Double>, i: usize) -> (r: usize)
    requires
        i < v.len(),
        forall|k: int| 0 <= k < v.len() ==> !v[k].nan(),
    ensures
        r == rank(value_keys(v@), i as int),
{
    let ghost keys = value_keys(v@);
    let mut count: usize = 0;
    let mut j: usize = 0;
    while j < v.len()
        invariant
            i < v.len(),
            j <= v.len(),
            keys == value_keys(v@),
            forall|k: int| 0 <= k < v.len() ==> !v[k].nan(),
            count == preceding(keys, i as int, j as nat),
            count <= j,
        decreases v.len() - j,
    {
        proof {
            reveal(Double::value);
        }
        if v[j].lt(v[i]) || (!v[i].lt(v[j]) && j < i) {
            count = count + 1;
        }
        j = j + 1;
    }
    count
}

/// The median of some numbers, the upper one of two.
pub fn median_double(v: &Vec<Double>) -> (r: Double)
    requires
        v.len() > 0,
        forall|k: int| 0 <= k < v.len() ==> !v[k].nan(),
    ensures
        r == median_value(v@),
{
    let ghost keys = value_keys(v@);
    let half: usize = v.len() / 2;
    let mut i: usize = 0;
    proof {
        lemma_rank(keys, half as nat);
    }
    while rank_double(v, i) != half
        invariant
            half == v.len() / 2,
            v.len() > 0,
            keys == value_keys(v@),
            forall|k: int| 0 <= k < v.len() ==> !v[k].nan(),
            has_rank(keys, half as nat, middle(keys)),
            forall|k: int| has_rank(keys, half as nat, k) ==> k == middle(keys),
            i <= middle(keys),
        decreases middle(keys) - i,
    {
        i = i + 1;
    }
    assert(has_rank(keys, half as nat, i as int));
    v[i]
}

/// The least of some integers.
pub open spec fn least(s: Seq<i64>) -> i64
    decreases s.len(),
{
    if s.len() <= 1 {
        s[0]
    } else if least(s.drop_last()) <= s.last() {
        least(s.drop_last())
    } else {
        s.last()
    }
}

/// The least of some integers is one of them, and no larger than any.
pub proof fn lemma_least(s: Seq<i64>)
    requires
        s.len() > 0,
    ensures
        s.contains(least(s)),
        forall|i: int| 0 <= i < s.len() ==> least(s) <= #[trigger] s[i],
    decreases s.len(),
{
    if s.len() > 1 {
        let t = s.drop_last();
        lemma_least(t);
        let i = choose|i: int| 0 <= i < t.len() && t[i] == least(t);
        assert(s[i] == t[i]);
        assert(s[s.len() - 1] == s.last());
        assert forall|j: int| 0 <= j < s.len() implies least(s) <= #[trigger] s[j] by {
            if j < t.len() {
                assert(t[j] == s[j]);
            }
        }
    } else {
        assert(s[0] == least(s));
    }
}

/// The order of some integers does not matter to their least.
pub proof fn lemma_least_unordered(s: Seq<i64>, t: Seq<i64>)
    requires
        s.len() > 0,
        t.len() > 0,
        forall|x: i64| s.contains(x) <==> t.contains(x),
    ensures
        least(s) == least(t),
{
    lemma_least(s);
    lemma_least(t);
    assert(t.contains(least(s)));
    assert(s.contains(least(t)));
}

/// The least of some integers.
pub fn least_i64(v: &Vec<i64>) -> (r: i64)
    requires
        v@.len() > 0,
    ensures
        r == least(v@),
{
    let mut r: i64 = v[0];
    let mut i: usize = 1;
    assert(v@.take(1)[0] == v@[0]);
    while i < v.len()
        invariant
            1 <= i <= v@.len(),
            r == least(v@.take(i as int)),
        decreases v@.len() - i,
    {
        assert(v@.take(i + 1).drop_last() == v@.take(i as int));
        if v[i] < r {
            r = v[i];
        }
        i = i + 1;
    }
    assert(v@.take(v@.len() as int) == v@);
    r
}

/// How many keys are below another one.
pub open spec fn count_less(keys: Seq<int>, m: int) -> nat
    decreases keys.len(),
{
    if keys.len() == 0 {
        0
    } else {
        count_less(keys.drop_last(), m) + if keys.last() < m {
            1nat
        } else {
            0
        }
    }
}

/// The position in order lies between the counts.
proof fn lemma_rank_counts(keys: Seq<int>, i: int, n: nat)
    requires
        0 <= i < keys.len(),
        n <= keys.len(),
    ensures
        count_less(keys.take(n as int), keys[i]) <= preceding(keys, i, n),
        preceding(keys, i, n) + (if i < n {
            1nat
        } else {
            0
        }) <= count_less(keys.take(n as int), keys[i] + 1),
    decreases n,
{
    if n > 0 {
        let k = (n - 1) as nat;
        lemma_rank_counts(keys, i, k);
        assert(keys.take(n as int).drop_last() =~= keys.take(k as int));
        assert(keys.take(n as int).last() == keys[k as int]);
    }
}

/// At most half of the keys are below the middle one, and more than half of them are
/// not above it.
pub proof fn lemma_middle_counts(keys: Seq<int>)
    requires
        keys.len() > 0,
    ensures
        0 <= middle(keys) < keys.len(),
        count_less(keys, keys[middle(keys)]) <= keys.len() / 2,
        count_less(keys, keys[middle(keys)] + 1) > keys.len() / 2,
{
    lemma_middle(keys);
    lemma_rank_counts(keys, middle(keys), keys.len());
    assert(keys.take(keys.len() as int) =~= keys);
}

/// Every median of integers is one of them. At most half of them are below it, and more
/// than half of them are not above it.
pub proof fn lemma_median_integer(v: &Vec<i64>, r: i64)
    requires
        v@.len() > 0,
        call_ensures(median_i64, (v,), r),
    ensures
        v@.contains(r),
        count_less(integer_keys(v@), r as int) <= v@.len() / 2,
        count_less(integer_keys(v@), r + 1) > v@.len() / 2,
{
    lemma_median_of_integers(v@);
}

/// The median of integers is one of them. At most half of them are below it, and more
/// than half of them are not above it.
pub proof fn lemma_median_of_integers(s: Seq<i64>)
    requires
        s.len() > 0,
    ensures
        s.contains(median_integer(s)),
        count_less(integer_keys(s), median_integer(s) as int) <= s.len() / 2,
        count_less(integer_keys(s), median_integer(s) + 1) > s.len() / 2,
{
    let keys = integer_keys(s);
    lemma_middle_counts(keys);
    assert(s.contains(s[middle(keys)]));
}

/// The median of numbers is one of them. At most half of them are below it, and more
/// than half of them are not above it.
pub proof fn lemma_median_of_values(s: Seq<Double>)
    requires
        s.len() > 0,
    ensures
        s.contains(median_value(s)),
        count_less(value_keys(s), median_value(s).value()) <= s.len() / 2,
        count_less(value_keys(s), median_value(s).value() + 1) > s.len() / 2,
{
    let keys = value_keys(s);
    lemma_middle_counts(keys);
    assert(s.contains(s[middle(keys)]));
}

/// Every least of some integers is one of them, and no larger than any.
pub proof fn lemma_least_integer(v: &Vec<i64>, r: i64)
    requires
        v@.len() > 0,
        call_ensures(least_i64, (v,), r),
    ensures
        v@.contains(r),
        forall|i: int| 0 <= i < v@.len() ==> r <= #[trigger] v@[i],
{
    lemma_least(v@);
}

} // verus!
