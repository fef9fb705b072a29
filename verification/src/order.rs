//! Order statistics of singles: the element that a stable sort would put at a
//! given place.
use vstd::prelude::*;
use crate::single::Single;

verus! {

/// How many of the indices below `n` satisfy `f`.
pub open spec fn count(n: nat, f: spec_fn(int) -> bool) -> nat
    decreases n,
{
    if n == 0 {
        0
    } else {
        count((n - 1) as nat, f) + (if f(n - 1) {
            1nat
        } else {
            0
        })
    }
}

/// Whether a stable sort puts element `i` of `xs` before element `j`.
pub open spec fn precedes(xs: Seq<Single>, i: int, j: int) -> bool {
    ||| xs[i].units() < xs[j].units()
    ||| xs[i].units() == xs[j].units() && i < j
}

/// The place of element `j` of `xs` after a stable sort.
pub open spec fn rank(xs: Seq<Single>, j: int) -> nat {
    count(xs.len(), |i: int| precedes(xs, i, j))
}

/// Whether element `j` comes to stand at place `k`.
pub open spec fn ranked(xs: Seq<Single>, k: int, j: int) -> bool {
    0 <= j < xs.len() && rank(xs, j) == k
}

/// The element that a stable sort of `xs` puts at place `k`.
pub open spec fn sorted_at(xs: Seq<Single>, k: int) -> Single {
    xs[choose|j: int| ranked(xs, k, j)]
}

/// The middle one of `xs` in order; the upper of the two where their number is
/// even.
pub open spec fn middle(xs: Seq<Single>) -> Single {
    sorted_at(xs, xs.len() as int / 2)
}

/// None of `xs` is a NaN, so that they can be put in order.
pub open spec fn orderly(xs: Seq<Single>) -> bool {
    forall|i: int| 0 <= i < xs.len() ==> !(#[trigger] xs[i]).nan()
}

/// What holds of fewer indices is counted less often.
pub proof fn lemma_count_monotone(n: nat, f: spec_fn(int) -> bool, g: spec_fn(int) -> bool)
    requires
        forall|i: int| 0 <= i < n && #[trigger] f(i) ==> g(i),
    ensures
        count(n, f) <= count(n, g),
        count(n, g) <= n,
    decreases n,
{
    if n > 0 {
        lemma_count_monotone((n - 1) as nat, f, g);
    }
}

/// A further index makes the count larger.
pub proof fn lemma_count_strict(
    n: nat,
    f: spec_fn(int) -> bool,
    g: spec_fn(int) -> bool,
    at: int,
)
    requires
        forall|i: int| 0 <= i < n && #[trigger] f(i) ==> g(i),
        0 <= at < n,
        g(at),
        !f(at),
    ensures
        count(n, f) < count(n, g),
    decreases n,
{
    if at < n - 1 {
        lemma_count_strict((n - 1) as nat, f, g, at);
    } else {
        lemma_count_monotone((n - 1) as nat, f, g);
    }
}

/// What holds of the same indices is counted alike.
pub proof fn lemma_count_same(n: nat, f: spec_fn(int) -> bool, g: spec_fn(int) -> bool)
    requires
        forall|i: int| 0 <= i < n ==> #[trigger] f(i) == g(i),
    ensures
        count(n, f) == count(n, g),
    decreases n,
{
    if n > 0 {
        lemma_count_same((n - 1) as nat, f, g);
    }
}

/// What holds of an index in one of two ways that exclude each other is counted
/// once for each.
pub proof fn lemma_count_split(
    n: nat,
    f: spec_fn(int) -> bool,
    g: spec_fn(int) -> bool,
    both: spec_fn(int) -> bool,
)
    requires
        forall|i: int| 0 <= i < n ==> #[trigger] both(i) == (f(i) || g(i)),
        forall|i: int| 0 <= i < n ==> !(#[trigger] f(i) && g(i)),
    ensures
        count(n, both) == count(n, f) + count(n, g),
    decreases n,
{
    if n > 0 {
        assert(both(n - 1) == (f(n - 1) || g(n - 1)));
        lemma_count_split((n - 1) as nat, f, g, both);
    }
}

/// Two elements do not come to stand at one place.
pub proof fn law_ranks_distinct(xs: Seq<Single>, i: int, j: int)
    requires
        0 <= i < xs.len(),
        0 <= j < xs.len(),
        rank(xs, i) == rank(xs, j),
    ensures
        i == j,
{
    let before_i = |t: int| precedes(xs, t, i);
    let before_j = |t: int| precedes(xs, t, j);
    if i != j {
        if precedes(xs, i, j) {
            lemma_count_strict(xs.len(), before_i, before_j, i);
        } else {
            lemma_count_strict(xs.len(), before_j, before_i, j);
        }
    }
}

/// How many of the first `n` elements have a key below `key`.
spec fn below_key(xs: Seq<Single>, n: nat, key: int) -> nat {
    count(n, |i: int| xs[i].spec_key() < key)
}

/// How many of the first `n` elements have the key `key`.
spec fn with_key(xs: Seq<Single>, n: nat, key: int) -> nat {
    count(n, |i: int| xs[i].spec_key() == key)
}

fn count_below(xs: &[Single], key: i64) -> (r: usize)
    ensures
        r == below_key(xs@, xs@.len(), key as int),
        r <= xs@.len(),
{
    let length: usize = xs.len();
    let mut found: usize = 0;
    let mut i: usize = 0;
    while i < length
        invariant
            length == xs@.len(),
            i <= length,
            found <= i,
            found == below_key(xs@, i as nat, key as int),
        decreases length - i,
    {
        if xs[i].key() < key {
            found += 1;
        }
        i += 1;
    }
    found
}

/// Every key lies strictly between these two.
proof fn lemma_key_bounds(xs: Seq<Single>)
    ensures
        below_key(xs, xs.len(), -0x8000_0000) == 0,
        below_key(xs, xs.len(), 0x8000_0000) == xs.len(),
{
    let none = |i: int| xs[i].spec_key() < -0x8000_0000;
    let all = |i: int| xs[i].spec_key() < 0x8000_0000;
    lemma_count_none(xs.len(), none);
    lemma_count_all(xs.len(), all);
}

/// What holds of no index is counted never.
pub proof fn lemma_count_none(n: nat, f: spec_fn(int) -> bool)
    requires
        forall|i: int| 0 <= i < n ==> !#[trigger] f(i),
    ensures
        count(n, f) == 0,
    decreases n,
{
    if n > 0 {
        lemma_count_none((n - 1) as nat, f);
    }
}

/// What holds of every index is counted every time.
proof fn lemma_count_all(n: nat, f: spec_fn(int) -> bool)
    requires
        forall|i: int| 0 <= i < n ==> #[trigger] f(i),
    ensures
        count(n, f) == n,
    decreases n,
{
    if n > 0 {
        lemma_count_all((n - 1) as nat, f);
    }
}

/// What holds of two indices at most is counted twice at most.
pub proof fn lemma_count_two(n: nat, f: spec_fn(int) -> bool, p: int, q: int)
    requires
        forall|i: int| 0 <= i < n && #[trigger] f(i) ==> i == p || i == q,
    ensures
        count(n, f) <= (if 0 <= p < n {
            1int
        } else {
            0
        }) + (if 0 <= q < n {
            1int
        } else {
            0
        }),
    decreases n,
{
    if n > 0 {
        lemma_count_two((n - 1) as nat, f, p, q);
    }
}

/// The place of an element: those with a smaller key, and those with its key
/// that stand before it.
proof fn lemma_rank_by_key(xs: Seq<Single>, j: int)
    requires
        0 <= j < xs.len(),
    ensures
        rank(xs, j) == below_key(xs, xs.len(), xs[j].spec_key()) + with_key(
            xs,
            j as nat,
            xs[j].spec_key(),
        ),
{
    let key = xs[j].spec_key();
    let smaller = |i: int| xs[i].spec_key() < key;
    let earlier = |i: int| xs[i].spec_key() == key && i < j;
    let before = |i: int| precedes(xs, i, j);
    assert forall|i: int| 0 <= i < xs.len() implies #[trigger] before(i) == (smaller(i)
        || earlier(i)) by {
        Single::law_key_order(xs[i], xs[j]);
    }
    lemma_count_split(xs.len(), smaller, earlier, before);
    lemma_count_prefix(xs, xs.len(), j, key);
}

/// Of the elements before `j`, only those before `j` are counted.
proof fn lemma_count_prefix(xs: Seq<Single>, n: nat, j: int, key: int)
    requires
        0 <= j <= n,
    ensures
        count(n, |i: int| xs[i].spec_key() == key && i < j) == with_key(xs, j as nat, key),
    decreases n,
{
    if n > j {
        lemma_count_prefix(xs, (n - 1) as nat, j, key);
    } else {
        lemma_count_same(
            n,
            |i: int| xs[i].spec_key() == key && i < j,
            |i: int| xs[i].spec_key() == key,
        );
    }
}

/// One key further, the elements with that key are counted too.
proof fn lemma_next_key(xs: Seq<Single>, n: nat, key: int)
    ensures
        below_key(xs, n, key + 1) == below_key(xs, n, key) + with_key(xs, n, key),
{
    lemma_count_split(
        n,
        |i: int| xs[i].spec_key() < key,
        |i: int| xs[i].spec_key() == key,
        |i: int| xs[i].spec_key() < key + 1,
    );
}

/// The index of the element that a stable sort puts at place `k`.
pub fn select(xs: &[Single], k: usize) -> (r: usize)
    requires
        k < xs@.len(),
    ensures
        ranked(xs@, k as int, r as int),
        xs@[r as int] == sorted_at(xs@, k as int),
{
    let length: usize = xs.len();
    let mut low: i64 = -0x8000_0000;
    let mut high: i64 = 0x8000_0000;
    proof {
        lemma_key_bounds(xs@);
    }
    while high - low > 1
        invariant
            k < xs@.len(),
            -0x8000_0000 <= low < high <= 0x8000_0000,
            below_key(xs@, xs@.len(), low as int) <= k,
            below_key(xs@, xs@.len(), high as int) > k,
        decreases high - low,
    {
        let half: i64 = low + (high - low) / 2;
        if count_below(xs, half) <= k {
            low = half;
        } else {
            high = half;
        }
    }
    let mut place: usize = count_below(xs, low);
    proof {
        lemma_next_key(xs@, xs@.len(), low as int);
    }
    let mut i: usize = 0;
    while place < k || xs[i].key() != low
        invariant
            length == xs@.len(),
            i < length,
            place <= k,
            place == below_key(xs@, xs@.len(), low as int) + with_key(xs@, i as nat, low as int),
            below_key(xs@, xs@.len(), low as int) + with_key(xs@, xs@.len(), low as int) > k,
        decreases length - i,
    {
        if xs[i].key() == low {
            place += 1;
        }
        i += 1;
    }
    proof {
        lemma_rank_by_key(xs@, i as int);
        assert(ranked(xs@, k as int, i as int));
        law_ranks_distinct(xs@, i as int, choose|j: int| ranked(xs@, k as int, j));
    }
    i
}

/// Some key has `k` smaller ones at most, and together with its own more.
proof fn lemma_find_key(xs: Seq<Single>, k: int, low: int, high: int) -> (key: int)
    requires
        low < high,
        below_key(xs, xs.len(), low) <= k < below_key(xs, xs.len(), high),
    ensures
        below_key(xs, xs.len(), key) <= k < below_key(xs, xs.len(), key + 1),
    decreases high - low,
{
    if k < below_key(xs, xs.len(), low + 1) {
        low
    } else {
        lemma_find_key(xs, k, low + 1, high)
    }
}

/// Of the elements with a key, one has `m` others before it.
proof fn lemma_find_index(xs: Seq<Single>, n: nat, key: int, m: nat) -> (j: int)
    requires
        m < with_key(xs, n, key),
    ensures
        0 <= j < n,
        xs[j].spec_key() == key,
        with_key(xs, j as nat, key) == m,
    decreases n,
{
    if m < with_key(xs, (n - 1) as nat, key) {
        lemma_find_index(xs, (n - 1) as nat, key, m)
    } else {
        n - 1
    }
}

/// Some element comes to stand at each place.
pub proof fn law_places_filled(xs: Seq<Single>, k: int)
    requires
        0 <= k < xs.len(),
    ensures
        exists|j: int| ranked(xs, k, j),
{
    lemma_key_bounds(xs);
    let key = lemma_find_key(xs, k, -0x8000_0000, 0x8000_0000);
    lemma_next_key(xs, xs.len(), key);
    let j = lemma_find_index(
        xs,
        xs.len(),
        key,
        (k - below_key(xs, xs.len(), key)) as nat,
    );
    lemma_rank_by_key(xs, j);
    assert(ranked(xs, k, j));
}

/// The places are in order: what stands further back is no smaller.
pub proof fn law_sorted(xs: Seq<Single>, k: int, l: int)
    requires
        0 <= k <= l < xs.len(),
    ensures
        sorted_at(xs, k).units() <= sorted_at(xs, l).units(),
{
    law_places_filled(xs, k);
    law_places_filled(xs, l);
    let i = choose|j: int| ranked(xs, k, j);
    let j = choose|j: int| ranked(xs, l, j);
    if xs[i].units() > xs[j].units() {
        lemma_count_strict(
            xs.len(),
            |t: int| precedes(xs, t, j),
            |t: int| precedes(xs, t, i),
            j,
        );
    }
}

/// The middle is not moved by a minority: where fewer than half of the elements
/// lie outside the range from `low` to `high`, the middle lies in it.
pub proof fn law_minority_outvoted(xs: Seq<Single>, low: int, high: int)
    requires
        2 * count(
            xs.len(),
            |i: int| !(low <= xs[i].units() <= high),
        ) < xs.len(),
    ensures
        low <= middle(xs).units() <= high,
{
    let n = xs.len();
    let half = n as int / 2;
    let outside = |i: int| !(low <= xs[i].units() <= high);
    law_places_filled(xs, half);
    let j = choose|j: int| ranked(xs, half, j);
    let before = |i: int| precedes(xs, i, j);
    let from = |i: int| !precedes(xs, i, j);
    if xs[j].units() < low {
        lemma_count_strict(n, before, outside, j);
    }
    if xs[j].units() > high {
        lemma_count_split(n, before, from, |i: int| true);
        lemma_count_all(n, |i: int| true);
        lemma_count_monotone(n, from, outside);
    }
}

/// The middle is where a sort puts it: no more than half of the elements are smaller, and
/// more than half are no larger.
pub proof fn law_middle_place(xs: Seq<Single>)
    requires
        0 < xs.len(),
    ensures
        xs.contains(middle(xs)),
        count(xs.len(), |i: int| xs[i].units() < middle(xs).units()) <= xs.len() as int / 2,
        xs.len() as int / 2 < count(xs.len(), |i: int| xs[i].units() <= middle(xs).units()),
{
    let n = xs.len();
    let half = n as int / 2;
    law_places_filled(xs, half);
    let j = choose|j: int| ranked(xs, half, j);
    let before = |i: int| precedes(xs, i, j);
    let smaller = |i: int| xs[i].units() < middle(xs).units();
    let up_to = |i: int| xs[i].units() <= middle(xs).units();
    lemma_count_monotone(n, smaller, before);
    lemma_count_strict(n, before, up_to, j);
}

} // verus!
