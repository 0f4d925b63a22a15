//! Sums of a function over a sequence, and the bookkeeping lemmas that the
//! scheduler's accounting proofs rely on.

use vstd::prelude::*;

use crate::chain::{ShardLink, ShardUId};

verus! {

/// Sum of `f` over all elements of `s`.
pub open spec fn sum_by<T>(s: Seq<T>, f: spec_fn(T) -> int) -> int
    decreases s.len(),
{
    if s.len() == 0 {
        0
    } else {
        f(s[0]) + sum_by(s.drop_first(), f)
    }
}

/// Splitting a sequence splits its sum.
pub proof fn lemma_sum_by_split<T>(s: Seq<T>, k: int, f: spec_fn(T) -> int)
    requires
        0 <= k <= s.len(),
    ensures
        sum_by(s, f) == sum_by(s.take(k), f) + sum_by(s.skip(k), f),
    decreases k,
{
    if k == 0 {
        assert(s.take(0) =~= Seq::<T>::empty());
        assert(s.skip(0) =~= s);
    } else {
        let d = s.drop_first();
        lemma_sum_by_split(d, k - 1, f);
        assert(d.take(k - 1) =~= s.take(k).drop_first());
        assert(d.skip(k - 1) =~= s.skip(k));
        assert(s.take(k).len() != 0);
        assert(s.take(k)[0] == s[0]);
        assert(sum_by(s.take(k), f) == f(s[0]) + sum_by(s.take(k).drop_first(), f));
    }
}

/// Peeling one element off a suffix.
pub proof fn lemma_sum_by_skip_next<T>(s: Seq<T>, j: int, f: spec_fn(T) -> int)
    requires
        0 <= j < s.len(),
    ensures
        sum_by(s.skip(j), f) == f(s[j]) + sum_by(s.skip(j + 1), f),
{
    assert(s.skip(j).len() != 0);
    assert(s.skip(j)[0] == s[j]);
    assert(s.skip(j).drop_first() =~= s.skip(j + 1));
}

/// Updating one element changes the sum by the difference at that element.
pub proof fn lemma_sum_by_update<T>(s: Seq<T>, i: int, x: T, f: spec_fn(T) -> int)
    requires
        0 <= i < s.len(),
    ensures
        sum_by(s.update(i, x), f) == sum_by(s, f) - f(s[i]) + f(x),
{
    let u = s.update(i, x);
    lemma_sum_by_split(s, i, f);
    lemma_sum_by_skip_next(s, i, f);
    lemma_sum_by_split(u, i, f);
    lemma_sum_by_skip_next(u, i, f);
    assert(u.take(i) =~= s.take(i));
    assert(u.skip(i + 1) =~= s.skip(i + 1));
}

/// Inserting an element adds its contribution to the sum.
pub proof fn lemma_sum_by_insert<T>(s: Seq<T>, i: int, x: T, f: spec_fn(T) -> int)
    requires
        0 <= i <= s.len(),
    ensures
        sum_by(s.insert(i, x), f) == sum_by(s, f) + f(x),
{
    let u = s.insert(i, x);
    lemma_sum_by_split(s, i, f);
    lemma_sum_by_split(u, i, f);
    lemma_sum_by_skip_next(u, i, f);
    assert(u.take(i) =~= s.take(i));
    assert(u[i] == x);
    assert(u.skip(i + 1) =~= s.skip(i));
}

/// Removing an element subtracts its contribution from the sum.
pub proof fn lemma_sum_by_remove<T>(s: Seq<T>, i: int, f: spec_fn(T) -> int)
    requires
        0 <= i < s.len(),
    ensures
        sum_by(s.remove(i), f) == sum_by(s, f) - f(s[i]),
{
    let u = s.remove(i);
    lemma_sum_by_split(s, i, f);
    lemma_sum_by_skip_next(s, i, f);
    lemma_sum_by_split(u, i, f);
    assert(u.take(i) =~= s.take(i));
    assert(u.skip(i) =~= s.skip(i + 1));
}

/// Extending a prefix by one element adds that element's contribution.
pub proof fn lemma_sum_by_take_extend<T>(s: Seq<T>, i: int, f: spec_fn(T) -> int)
    requires
        0 <= i < s.len(),
    ensures
        sum_by(s.take(i + 1), f) == sum_by(s.take(i), f) + f(s[i]),
{
    let t = s.take(i + 1);
    lemma_sum_by_split(t, i, f);
    lemma_sum_by_skip_next(t, i, f);
    assert(t.take(i) =~= s.take(i));
    assert(t[i] == s[i]);
    assert(t.skip(i + 1) =~= Seq::<T>::empty());
}

/// A sum of non-negative contributions is non-negative.
pub proof fn lemma_sum_by_nonneg<T>(s: Seq<T>, f: spec_fn(T) -> int)
    requires
        forall|i: int| 0 <= i < s.len() ==> #[trigger] f(s[i]) >= 0,
    ensures
        sum_by(s, f) >= 0,
    decreases s.len(),
{
    if s.len() != 0 {
        let d = s.drop_first();
        assert(forall|i: int| 0 <= i < d.len() ==> #[trigger] f(d[i]) == f(s[i + 1]));
        lemma_sum_by_nonneg(d, f);
    }
}

/// With non-negative contributions, each element is bounded by the total.
pub proof fn lemma_sum_by_elem_le<T>(s: Seq<T>, i: int, f: spec_fn(T) -> int)
    requires
        0 <= i < s.len(),
        forall|j: int| 0 <= j < s.len() ==> #[trigger] f(s[j]) >= 0,
    ensures
        f(s[i]) <= sum_by(s, f),
{
    lemma_sum_by_split(s, i, f);
    lemma_sum_by_skip_next(s, i, f);
    let t = s.take(i);
    assert(forall|j: int| 0 <= j < t.len() ==> #[trigger] f(t[j]) == f(s[j]));
    lemma_sum_by_nonneg(t, f);
    let k = s.skip(i + 1);
    assert(forall|j: int| 0 <= j < k.len() ==> #[trigger] f(k[j]) == f(s[j + i + 1]));
    lemma_sum_by_nonneg(k, f);
}

/// A pointwise lower bound multiplies into a lower bound on the sum.
pub proof fn lemma_sum_by_lower_bound<T>(s: Seq<T>, c: int, f: spec_fn(T) -> int)
    requires
        forall|i: int| 0 <= i < s.len() ==> #[trigger] f(s[i]) >= c,
    ensures
        sum_by(s, f) >= s.len() * c,
    decreases s.len(),
{
    if s.len() == 0 {
    } else {
        let d = s.drop_first();
        assert(forall|i: int| 0 <= i < d.len() ==> #[trigger] f(d[i]) == f(s[i + 1]));
        lemma_sum_by_lower_bound(d, c, f);
        assert(s.len() * c == d.len() * c + c) by (nonlinear_arith)
            requires s.len() == d.len() + 1;
    }
}

/// Sums agree on sequences with the same multiset of elements.
pub proof fn lemma_sum_by_multiset<T>(s1: Seq<T>, s2: Seq<T>, f: spec_fn(T) -> int)
    requires
        s1.to_multiset() == s2.to_multiset(),
    ensures
        sum_by(s1, f) == sum_by(s2, f),
    decreases s1.len(),
{
    s1.to_multiset_ensures();
    s2.to_multiset_ensures();
    if s1.len() == 0 {
        assert(s2.to_multiset().len() == 0);
    } else {
        let e = s1[0];
        assert(s1.contains(e));
        assert(s2.to_multiset().count(e) > 0);
        assert(s2.contains(e));
        let j = choose|j: int| 0 <= j < s2.len() && s2[j] == e;
        lemma_sum_by_remove(s2, j, f);
        lemma_sum_by_remove(s1, 0, f);
        assert(s1.remove(0) =~= s1.drop_first());
        assert(s1.remove(0).to_multiset() =~= s1.to_multiset().remove(e));
        assert(s2.remove(j).to_multiset() =~= s2.to_multiset().remove(e));
        lemma_sum_by_multiset(s1.remove(0), s2.remove(j), f);
    }
}

/// Sums agree when two sequences have pointwise equal contributions.
pub proof fn lemma_sum_by_pointwise<T, U>(s1: Seq<T>, s2: Seq<U>, f: spec_fn(T) -> int, g: spec_fn(U) -> int)
    requires
        s1.len() == s2.len(),
        forall|i: int| 0 <= i < s1.len() ==> #[trigger] f(s1[i]) == g(s2[i]),
    ensures
        sum_by(s1, f) == sum_by(s2, g),
    decreases s1.len(),
{
    if s1.len() != 0 {
        let d1 = s1.drop_first();
        let d2 = s2.drop_first();
        assert(forall|i: int| 0 <= i < d1.len() ==> #[trigger] f(d1[i]) == f(s1[i + 1]));
        assert(forall|i: int| 0 <= i < d2.len() ==> #[trigger] g(d2[i]) == g(s2[i + 1]));
        lemma_sum_by_pointwise(d1, d2, f, g);
    }
}


/// Contribution of a map entry: its value.
pub open spec fn shard_val() -> spec_fn((ShardUId, usize)) -> int {
    |e: (ShardUId, usize)| e.1 as int
}

/// Contribution of a `(bandwidth, shard)` pair: its bandwidth.
pub open spec fn pair_val() -> spec_fn((usize, ShardUId)) -> int {
    |e: (usize, ShardUId)| e.0 as int
}

/// Contribution of a link-map entry: its value.
pub open spec fn link_val() -> spec_fn((ShardLink, usize)) -> int {
    |e: (ShardLink, usize)| e.1 as int
}

/// The endpoint of a link on the chosen side.
pub open spec fn dir_of(l: ShardLink, to_side: bool) -> ShardUId {
    if to_side {
        l.to
    } else {
        l.from
    }
}

/// Contribution of a link-map entry to one shard's per-side total.
pub open spec fn dir_val(sh: ShardUId, to_side: bool) -> spec_fn((ShardLink, usize)) -> int {
    |e: (ShardLink, usize)| if dir_of(e.0, to_side) == sh { e.1 as int } else { 0 }
}

/// Total value of a shard-keyed map.
pub open spec fn map_sum(s: Seq<(ShardUId, usize)>) -> int {
    sum_by(s, shard_val())
}

/// Total bandwidth of a `(bandwidth, shard)` vector.
pub open spec fn pair_sum(s: Seq<(usize, ShardUId)>) -> int {
    sum_by(s, pair_val())
}

/// Total value of a link-keyed map.
pub open spec fn link_map_sum(s: Seq<(ShardLink, usize)>) -> int {
    sum_by(s, link_val())
}

/// Total granted on one side of one shard.
pub open spec fn dir_sum(s: Seq<(ShardLink, usize)>, sh: ShardUId, to_side: bool) -> int {
    sum_by(s, dir_val(sh, to_side))
}

/// Total granted with `sh` as the sender.
pub open spec fn from_sum(s: Seq<(ShardLink, usize)>, sh: ShardUId) -> int {
    dir_sum(s, sh, false)
}

/// Total granted with `sh` as the receiver.
pub open spec fn to_sum(s: Seq<(ShardLink, usize)>, sh: ShardUId) -> int {
    dir_sum(s, sh, true)
}


/// Contribution of a plain size: itself.
pub open spec fn size_val() -> spec_fn(usize) -> int {
    |x: usize| x as int
}

/// Total of a sequence of sizes.
pub open spec fn sizes_sum(s: Seq<usize>) -> int {
    sum_by(s, size_val())
}


/// A permutation preserves any pointwise property of the elements.
pub proof fn lemma_perm_all<T>(s: Seq<T>, t: Seq<T>, p: spec_fn(T) -> bool)
    requires
        s.to_multiset() == t.to_multiset(),
        forall|i: int| 0 <= i < s.len() ==> #[trigger] p(s[i]),
    ensures
        forall|i: int| 0 <= i < t.len() ==> #[trigger] p(t[i]),
{
    s.to_multiset_ensures();
    t.to_multiset_ensures();
    assert forall|i: int| 0 <= i < t.len() implies #[trigger] p(t[i]) by {
        assert(t.contains(t[i]));
        assert(t.to_multiset().count(t[i]) > 0);
        assert(s.contains(t[i]));
        let j = choose|j: int| 0 <= j < s.len() && s[j] == t[i];
        assert(p(s[j]));
    }
}


/// A pointwise upper bound multiplies into an upper bound on the sum.
pub proof fn lemma_sum_by_upper_bound<T>(s: Seq<T>, c: int, f: spec_fn(T) -> int)
    requires
        forall|i: int| 0 <= i < s.len() ==> #[trigger] f(s[i]) <= c,
    ensures
        sum_by(s, f) <= s.len() * c,
    decreases s.len(),
{
    if s.len() == 0 {
    } else {
        let d = s.drop_first();
        assert(forall|i: int| 0 <= i < d.len() ==> #[trigger] f(d[i]) == f(s[i + 1]));
        lemma_sum_by_upper_bound(d, c, f);
        assert(s.len() * c == d.len() * c + c) by (nonlinear_arith)
            requires s.len() == d.len() + 1;
    }
}


/// Appending an element adds its contribution.
pub proof fn lemma_sum_by_push<T>(s: Seq<T>, e: T, f: spec_fn(T) -> int)
    ensures
        sum_by(s.push(e), f) == sum_by(s, f) + f(e),
{
    assert(s.push(e) =~= s.insert(s.len() as int, e));
    lemma_sum_by_insert(s, s.len() as int, e, f);
}

/// Dropping the last element subtracts its contribution.
pub proof fn lemma_sum_by_drop_last<T>(s: Seq<T>, f: spec_fn(T) -> int)
    requires
        s.len() > 0,
    ensures
        sum_by(s, f) == sum_by(s.drop_last(), f) + f(s.last()),
{
    assert(s.drop_last() =~= s.remove(s.len() - 1));
    lemma_sum_by_remove(s, s.len() - 1, f);
}


/// Pointwise smaller contributions give a smaller sum.
pub proof fn lemma_sum_by_le<T>(s: Seq<T>, f: spec_fn(T) -> int, g: spec_fn(T) -> int)
    requires
        forall|i: int| 0 <= i < s.len() ==> #[trigger] f(s[i]) <= #[trigger] g(s[i]),
    ensures
        sum_by(s, f) <= sum_by(s, g),
    decreases s.len(),
{
    if s.len() != 0 {
        let d = s.drop_first();
        assert(forall|i: int| 0 <= i < d.len() ==> #[trigger] f(d[i]) == f(s[i + 1]));
        assert(forall|i: int| 0 <= i < d.len() ==> #[trigger] g(d[i]) == g(s[i + 1]));
        lemma_sum_by_le(d, f, g);
    }
}

} // verus!
