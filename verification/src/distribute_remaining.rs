//! Fair distribution of leftover bandwidth between spare senders and
//! receivers.
//!
//! `distribute_remaining_bandwidth` takes the spare sending capacity of every
//! shard on the left and the spare receiving capacity on the right, and
//! produces per-link grants that saturate the smaller of the two totals
//! without exceeding any shard's capacity on either side.

use vstd::prelude::*;

use crate::chain::{uid_less, uid_lt, ShardLink, ShardUId};
use crate::arith::{lemma_div_exact, lemma_div_ordered, lemma_share_bounds};
use crate::maps::{LinkMap, ShardMap};
use crate::sums::{
    dir_of, dir_sum, dir_val, from_sum, lemma_sum_by_insert, lemma_sum_by_lower_bound,
    lemma_sum_by_multiset, lemma_sum_by_nonneg, lemma_sum_by_pointwise, lemma_sum_by_skip_next,
    lemma_sum_by_split, lemma_sum_by_take_extend, lemma_sum_by_update, link_val, link_map_sum,
    map_sum, pair_sum, pair_val, shard_val, to_sum,
};

verus! {

/// Total spare bandwidth recorded in a capacity map.
pub fn total_bandwidth(m: &ShardMap<usize>) -> (r: usize)
    requires
        map_sum(m@) <= usize::MAX,
    ensures
        r == map_sum(m@),
{
    let n = m.len();
    let mut acc: usize = 0;
    let mut i: usize = 0;
    proof {
        assert(m@.take(0) =~= Seq::<(ShardUId, usize)>::empty());
    }
    while i < n
        invariant
            n == m@.len(),
            i <= n,
            acc == map_sum(m@.take(i as int)),
            map_sum(m@) <= usize::MAX,
        decreases n - i,
    {
        let v = *m.val_at(i);
        proof {
            let f = shard_val();
            lemma_sum_by_split(m@, i + 1, f);
            let t = m@.take(i + 1);
            assert(t.drop_last() =~= m@.take(i as int));
            assert(t.last() == m@[i as int]);
            lemma_sum_by_split(t, i as int, f);
            lemma_sum_by_skip_next(t, i as int, f);
            assert(t.take(i as int) =~= m@.take(i as int));
            assert(t.skip(i + 1) =~= Seq::<(ShardUId, usize)>::empty());
            assert(map_sum(t) == map_sum(m@.take(i as int)) + v);
            let k = m@.skip(i + 1);
            assert(forall|j: int| 0 <= j < k.len() ==> #[trigger] f(k[j]) >= 0);
            lemma_sum_by_nonneg(k, f);
        }
        acc = acc + v;
        i = i + 1;
    }
    proof {
        assert(m@.take(n as int) =~= m@);
    }
    acc
}

/// `(bandwidth, shard)` pairs of a capacity map, in key order.
fn to_pairs(m: &ShardMap<usize>) -> (r: Vec<(usize, ShardUId)>)
    ensures
        r@.len() == m@.len(),
        forall|i: int|
            0 <= i < m@.len() ==> #[trigger] r@[i] == (m@[i].1, m@[i].0),
{
    let n = m.len();
    let mut out: Vec<(usize, ShardUId)> = Vec::new();
    let mut i: usize = 0;
    while i < n
        invariant
            n == m@.len(),
            i <= n,
            out@.len() == i,
            forall|j: int| 0 <= j < i ==> #[trigger] out@[j] == (m@[j].1, m@[j].0),
        decreases n - i,
    {
        out.push((*m.val_at(i), m.key_at(i)));
        i = i + 1;
    }
    out
}

/// Non-strict lexicographic order on `(bandwidth, shard)` pairs.
pub open spec fn pair_le(a: (usize, ShardUId), b: (usize, ShardUId)) -> bool {
    a.0 < b.0 || (a.0 == b.0 && (a.1 == b.1 || uid_lt(a.1, b.1)))
}

fn pair_less_eq(a: &(usize, ShardUId), b: &(usize, ShardUId)) -> (r: bool)
    ensures
        r == pair_le(*a, *b),
{
    a.0 < b.0 || (a.0 == b.0 && (a.1 == b.1 || uid_less(&a.1, &b.1)))
}

proof fn lemma_pair_le_props(a: (usize, ShardUId), b: (usize, ShardUId), c: (usize, ShardUId))
    ensures
        pair_le(a, b) || pair_le(b, a),
        pair_le(a, b) && pair_le(b, c) ==> pair_le(a, c),
{
}

/// Inserting an element anywhere adds it to the multiset of elements.
proof fn lemma_insert_to_multiset<T>(s: Seq<T>, i: int, x: T)
    requires
        0 <= i <= s.len(),
    ensures
        s.insert(i, x).to_multiset() == s.to_multiset().insert(x),
{
    let u = s.insert(i, x);
    u.to_multiset_ensures();
    s.to_multiset_ensures();
    assert(u.remove(i) =~= s);
    assert(u[i] == x);
    assert(u.remove(i).to_multiset() =~= u.to_multiset().remove(x));
    assert(u.contains(x));
    assert(u.to_multiset().count(x) > 0);
    assert(u.to_multiset() =~= s.to_multiset().insert(x));
}

/// Sort `(bandwidth, shard)` pairs ascending, smallest bandwidth first.
fn sort_pairs(v: &Vec<(usize, ShardUId)>) -> (r: Vec<(usize, ShardUId)>)
    ensures
        r@.len() == v@.len(),
        r@.to_multiset() == v@.to_multiset(),
        forall|a: int, b: int| 0 <= a < b < r@.len() ==> pair_le(#[trigger] r@[a], #[trigger] r@[b]),
{
    let n = v.len();
    let mut out: Vec<(usize, ShardUId)> = Vec::new();
    let mut i: usize = 0;
    proof {
        v@.take(0).to_multiset_ensures();
        out@.to_multiset_ensures();
        assert(v@.take(0) =~= Seq::<(usize, ShardUId)>::empty());
        assert(out@.to_multiset() =~= v@.take(0).to_multiset());
    }
    while i < n
        invariant
            n == v@.len(),
            i <= n,
            out@.len() == i,
            out@.to_multiset() == v@.take(i as int).to_multiset(),
            forall|a: int, b: int|
                0 <= a < b < out@.len() ==> pair_le(#[trigger] out@[a], #[trigger] out@[b]),
        decreases n - i,
    {
        let e = v[i];
        let m = out.len();
        let mut pos: usize = 0;
        while pos < m
            invariant
                m == out@.len(),
                pos <= m,
                forall|j: int| 0 <= j < pos ==> pair_le(#[trigger] out@[j], e),
            ensures
                pos <= m,
                forall|j: int| 0 <= j < pos ==> pair_le(#[trigger] out@[j], e),
                pos < m ==> !pair_le(out@[pos as int], e),
            decreases m - pos,
        {
            if !pair_less_eq(&out[pos], &e) {
                break;
            }
            pos = pos + 1;
        }
        let ghost old_out = out@;
        out.insert(pos, e);
        proof {
            lemma_insert_to_multiset(old_out, pos as int, e);
            let pre = v@.take(i as int);
            let nxt = v@.take(i + 1);
            nxt.to_multiset_ensures();
            assert(nxt.drop_last() =~= pre);
            assert(nxt.last() == v@[i as int]);
            assert(pre.push(v@[i as int]) =~= nxt);
            pre.to_multiset_ensures();
            assert(nxt.to_multiset() =~= pre.to_multiset().insert(e));
            old_out.insert_ensures(pos as int, e);
            assert forall|a: int, b: int| 0 <= a < b < out@.len() implies pair_le(
                out@[a],
                out@[b],
            ) by {
                assert(forall|t: int| 0 <= t < pos ==> out@[t] == old_out[t]);
                assert(forall|t: int| pos < t < out@.len() ==> out@[t] == old_out[t - 1]);
                assert(out@[pos as int] == e);
                if a == pos {
                    // The exit condition of the scan puts `e` before the old
                    // entry at `pos`, and the prefix was already sorted.
                    assert(out@[b] == old_out[b - 1] && b - 1 >= pos);
                    lemma_pair_le_props(e, old_out[pos as int], old_out[b - 1]);
                    if b - 1 > pos {
                        assert(pair_le(old_out[pos as int], old_out[b - 1]));
                    }
                } else if b == pos {
                    assert(out@[a] == old_out[a]);
                    assert(pair_le(old_out[a], e));
                } else if a < pos && b > pos {
                    assert(pair_le(old_out[a], old_out[b - 1]));
                }
            }
        }
        i = i + 1;
    }
    proof {
        assert(v@.take(n as int) =~= v@);
    }
    out
}

/// The key inequality: granting `g` to the current column keeps the
/// remaining row demand covered by the remaining columns.
///
/// `n` is the number of rows still to be processed (current included), `k`
/// the number of columns left in this row, `r` the current column's spare
/// capacity and `s` the total spare capacity of the remaining columns.
proof fn lemma_step_keeps_cover(n: int, k: int, lb: int, r: int, s: int, g: int)
    requires
        n >= 1,
        k >= 1,
        lb >= 0,
        r >= 0,
        s >= n * lb,
        s >= k * r,
        g == if (lb / k + lb % k) <= (r / n + r % n) {
            lb / k + lb % k
        } else {
            r / n + r % n
        },
    ensures
        n * (lb - g) <= s - r,
{
    lemma_share_bounds(lb, k);
    lemma_share_bounds(r, n);
    let lmax = lb / k + lb % k;
    let rmax = r / n + r % n;
    if lmax <= rmax {
        // Row-limited: the row hands out at least its fair share `lb / k`.
        assert(k * g >= lb) by (nonlinear_arith)
            requires
                g == lb / k + lb % k,
                lb == (lb / k) * k + lb % k,
                lb / k >= 0,
                lb % k >= 0,
                k >= 1,
        ;
        assert(k * (n * g) >= n * lb) by (nonlinear_arith)
            requires
                k * g >= lb,
                n >= 1,
        ;
        assert((k - 1) * s >= (k - 1) * (n * lb)) by (nonlinear_arith)
            requires
                s >= n * lb,
                k >= 1,
        ;
        assert(k * (n * g + s) == k * (n * g) + (k - 1) * s + s) by (nonlinear_arith);
        assert(k * (n * lb + r) == (k - 1) * (n * lb) + n * lb + k * r) by (nonlinear_arith);
        assert(k * (n * g + s) >= k * (n * lb + r));
        assert(n * g + s >= n * lb + r) by (nonlinear_arith)
            requires
                k * (n * g + s) >= k * (n * lb + r),
                k >= 1,
        ;
        assert(n * (lb - g) == n * lb - n * g) by (nonlinear_arith);
    } else {
        // Column-limited: the column's whole offer is taken, which covers
        // its departure from the pool.
        assert(n * g >= r) by (nonlinear_arith)
            requires
                g == r / n + r % n,
                r == (r / n) * n + r % n,
                r / n >= 0,
                r % n >= 0,
                n >= 1,
        ;
        assert(n * (lb - g) == n * lb - n * g) by (nonlinear_arith);
    }
}

/// At the last column of a row, the cover inequality forces full drainage.
proof fn lemma_drain(n: int, lb: int)
    requires
        n >= 1,
        lb >= 0,
        n * lb <= 0,
    ensures
        lb == 0,
{
    assert(lb == 0) by (nonlinear_arith)
        requires
            n >= 1,
            lb >= 0,
            n * lb <= 0,
    ;
}

/// What is left in a column after the current row took its grant.
spec fn after_bound(rb: int, n: int, lb: int, k: int) -> int {
    let low = (rb / n) * (n - 1);
    let high = rb - (lb / k + lb % k);
    if low >= high {
        low
    } else {
        high
    }
}

/// A link carrying `row` on the row side and `col` on the column side.
fn mk_link(row: ShardUId, col: ShardUId, flip: bool) -> (l: ShardLink)
    ensures
        dir_of(l, flip) == row,
        dir_of(l, !flip) == col,
{
    if flip {
        ShardLink { from: col, to: row }
    } else {
        ShardLink { from: row, to: col }
    }
}

/// A permutation of a duplicate-free sequence is duplicate-free.
proof fn lemma_multiset_distinct<T>(s: Seq<T>, t: Seq<T>)
    requires
        s.to_multiset() == t.to_multiset(),
        forall|a: int, b: int| 0 <= a < b < s.len() ==> s[a] != s[b],
    ensures
        forall|a: int, b: int| 0 <= a < b < t.len() ==> t[a] != t[b],
{
    s.to_multiset_ensures();
    t.to_multiset_ensures();
    assert(s.no_duplicates());
    s.lemma_multiset_has_no_duplicates();
    assert forall|a: int, b: int| 0 <= a < b < t.len() implies t[a] != t[b] by {
        if t[a] == t[b] {
            let q = t.remove(a);
            q.to_multiset_ensures();
            assert(t.remove(a).to_multiset() =~= t.to_multiset().remove(t[a]));
            assert(q[b - 1] == t[b]);
            assert(q.contains(t[b]));
            assert(q.to_multiset().count(t[b]) > 0);
            assert(t.to_multiset().count(t[a]) >= 2);
            assert(s.to_multiset().count(t[a]) >= 2);
            assert(s.contains(t[a]));
            assert(s.to_multiset().count(t[a]) == 1);
        }
    }
}

/// A permutation keeps exactly the same elements.
proof fn lemma_perm_contains<T>(s: Seq<T>, t: Seq<T>)
    requires
        s.to_multiset() == t.to_multiset(),
    ensures
        s.len() == t.len(),
        forall|x: T| s.contains(x) <==> t.contains(x),
{
    s.to_multiset_ensures();
    t.to_multiset_ensures();
    assert(s.len() == s.to_multiset().len());
    assert(t.len() == t.to_multiset().len());
    assert forall|x: T| s.contains(x) <==> t.contains(x) by {
        assert(s.contains(x) <==> s.to_multiset().count(x) > 0);
        assert(t.contains(x) <==> t.to_multiset().count(x) > 0);
    }
}

/// Every entry of a sorted pair vector names a key of the map it came from,
/// with that key's value.
proof fn lemma_pairs_membership(
    m: &ShardMap<usize>,
    p0: Seq<(usize, ShardUId)>,
    p: Seq<(usize, ShardUId)>,
)
    requires
        m.wf(),
        p0.len() == m@.len(),
        forall|t: int| 0 <= t < p0.len() ==> #[trigger] p0[t] == (m@[t].1, m@[t].0),
        p.to_multiset() == p0.to_multiset(),
    ensures
        p.len() == m@.len(),
        forall|t: int|
            0 <= t < p.len() ==> m.spec_contains((#[trigger] p[t]).1) && m.spec_value(p[t].1)
                == p[t].0,
{
    lemma_perm_contains(p0, p);
    assert forall|t: int| 0 <= t < p.len() implies m.spec_contains((#[trigger] p[t]).1)
        && m.spec_value(p[t].1) == p[t].0 by {
        assert(p.contains(p[t]));
        assert(p0.contains(p[t]));
        let u = choose|u: int| 0 <= u < p0.len() && p0[u] == p[t];
        assert(m@[u].0 == p[t].1 && m@[u].1 == p[t].0);
        m.lemma_key_at(u);
    }
}

/// Every map entry appears somewhere in the sorted pair vector.
proof fn lemma_pairs_exist(
    m: &ShardMap<usize>,
    p0: Seq<(usize, ShardUId)>,
    p: Seq<(usize, ShardUId)>,
)
    requires
        m.wf(),
        p0.len() == m@.len(),
        forall|t: int| 0 <= t < p0.len() ==> #[trigger] p0[t] == (m@[t].1, m@[t].0),
        p.to_multiset() == p0.to_multiset(),
    ensures
        forall|t: int| 0 <= t < m@.len() ==> p.contains(((#[trigger] m@[t]).1, m@[t].0)),
{
    lemma_perm_contains(p0, p);
    assert forall|t: int| 0 <= t < m@.len() implies p.contains(
        ((#[trigger] m@[t]).1, m@[t].0),
    ) by {
        assert(p0[t] == (m@[t].1, m@[t].0));
        assert(p0.contains(p0[t]));
        assert(p.contains(p0[t]));
    }
}

/// Shard components of the sorted pair vector are pairwise distinct.
proof fn lemma_pairs_distinct(
    m: &ShardMap<usize>,
    p0: Seq<(usize, ShardUId)>,
    p: Seq<(usize, ShardUId)>,
)
    requires
        m.wf(),
        p0.len() == m@.len(),
        forall|t: int| 0 <= t < p0.len() ==> #[trigger] p0[t] == (m@[t].1, m@[t].0),
        p.to_multiset() == p0.to_multiset(),
    ensures
        forall|a: int, b: int| 0 <= a < b < p.len() ==> (#[trigger] p[a]).1 != (#[trigger] p[b]).1,
{
    lemma_perm_contains(p0, p);
    assert forall|a: int, b: int| 0 <= a < b < p0.len() implies p0[a] != p0[b] by {
        assert(uid_lt(m@[a].0, m@[b].0));
        crate::maps::lemma_uid_order(m@[a].0, m@[b].0);
    }
    lemma_multiset_distinct(p0, p);
    assert forall|a: int, b: int| 0 <= a < b < p.len() implies (#[trigger] p[a]).1
        != (#[trigger] p[b]).1 by {
        if p[a].1 == p[b].1 {
            assert(p.contains(p[a]));
            assert(p.contains(p[b]));
            assert(p0.contains(p[a]));
            assert(p0.contains(p[b]));
            let ua = choose|u: int| 0 <= u < p0.len() && p0[u] == p[a];
            let ub = choose|u: int| 0 <= u < p0.len() && p0[u] == p[b];
            assert(p[a] != p[b]);
            assert(ua != ub);
            assert(m@[ua].0 == p[a].1 && m@[ub].0 == p[b].1);
            if ua < ub {
                assert(uid_lt(m@[ua].0, m@[ub].0));
                crate::maps::lemma_uid_order(m@[ua].0, m@[ub].0);
            } else {
                assert(uid_lt(m@[ub].0, m@[ua].0));
                crate::maps::lemma_uid_order(m@[ub].0, m@[ua].0);
            }
        }
    }
}

/// The sorted pair vector carries the same total as the map.
proof fn lemma_pairs_sum(
    m: &ShardMap<usize>,
    p0: Seq<(usize, ShardUId)>,
    p: Seq<(usize, ShardUId)>,
)
    requires
        p0.len() == m@.len(),
        forall|t: int| 0 <= t < p0.len() ==> #[trigger] p0[t] == (m@[t].1, m@[t].0),
        p.to_multiset() == p0.to_multiset(),
    ensures
        pair_sum(p) == map_sum(m@),
{
    lemma_sum_by_multiset(p, p0, pair_val());
    lemma_sum_by_pointwise(p0, m@, pair_val(), shard_val());
}

/// The fair share one participant offers when `d` takers remain: an even
/// split, with the remainder thrown in.
spec fn fair_share(x: int, d: int) -> int {
    x / d + x % d
}

/// What is left in a column after the current row took its grant.
spec fn col_left(rb: int, n: int, lb: int, k: int) -> int {
    let low = (rb / n) * (n - 1);
    let high = rb - fair_share(lb, k);
    if low >= high {
        low
    } else {
        high
    }
}

/// Shape of the mutable column vector against its starting state.
spec fn cols_shape(nc: Seq<(usize, ShardUId)>, cols0: Seq<(usize, ShardUId)>) -> bool {
    &&& nc.len() == cols0.len()
    &&& forall|jj: int| 0 <= jj < nc.len() ==> (#[trigger] nc[jj]).1 == cols0[jj].1
    &&& forall|jj: int| 0 <= jj < nc.len() ==> (#[trigger] nc[jj]).0 <= cols0[jj].0
}

/// Pairwise distinct shard components.
spec fn distinct_shards(s: Seq<(usize, ShardUId)>) -> bool {
    forall|a: int, b: int| 0 <= a < b < s.len() ==> (#[trigger] s[a]).1 != (#[trigger] s[b]).1
}

/// The ledger so far: processed rows are met exactly, unprocessed rows have
/// received nothing, and each column has given exactly what it lost.
spec fn ledger(
    g: Seq<(ShardLink, usize)>,
    rows_s: Seq<(usize, ShardUId)>,
    cols0: Seq<(usize, ShardUId)>,
    nc: Seq<(usize, ShardUId)>,
    done: int,
    flip: bool,
) -> bool {
    &&& forall|t: int|
        0 <= t < done ==> dir_sum(g, (#[trigger] rows_s[t]).1, flip) == rows_s[t].0
    &&& forall|t: int|
        done <= t < rows_s.len() ==> dir_sum(g, (#[trigger] rows_s[t]).1, flip) == 0
    &&& forall|jj: int|
        0 <= jj < cols0.len() ==> dir_sum(g, (#[trigger] cols0[jj]).1, !flip) == cols0[jj].0
            - nc[jj].0
}

/// Every grant so far pairs a processed row shard with a column shard. The
/// row side is `strict`ly before row `i`, or row `i` itself combined with a
/// column before `j`.
spec fn keys_shape(
    g: Seq<(ShardLink, usize)>,
    rows_s: Seq<(usize, ShardUId)>,
    cols0: Seq<(usize, ShardUId)>,
    i: int,
    j: int,
    flip: bool,
) -> bool {
    forall|t: int|
        0 <= t < g.len() ==> ((exists|u: int|
            0 <= u < i && dir_of((#[trigger] g[t]).0, flip) == (#[trigger] rows_s[u]).1) || (
        0 <= i < rows_s.len() && dir_of(g[t].0, flip) == rows_s[i].1 && exists|jc: int|
            0 <= jc < j && dir_of(g[t].0, !flip) == (#[trigger] cols0[jc]).1)) && (exists|
            jj: int,
        |
            0 <= jj < cols0.len() && dir_of(g[t].0, !flip) == (#[trigger] cols0[jj]).1)
}

/// Accounting effects of granting `gr` on the fresh link `lnk`.
proof fn lemma_step_sums(
    og: Seq<(ShardLink, usize)>,
    ng: Seq<(ShardLink, usize)>,
    oc: Seq<(usize, ShardUId)>,
    nc: Seq<(usize, ShardUId)>,
    rows_s: Seq<(usize, ShardUId)>,
    cols0: Seq<(usize, ShardUId)>,
    i: int,
    j: int,
    flip: bool,
    gr: usize,
    p: int,
    lnk: ShardLink,
)
    requires
        0 <= i < rows_s.len(),
        0 <= j < cols0.len(),
        oc.len() == cols0.len(),
        distinct_shards(rows_s),
        distinct_shards(cols0),
        dir_of(lnk, flip) == rows_s[i].1,
        dir_of(lnk, !flip) == cols0[j].1,
        0 <= p <= og.len(),
        ng == og.insert(p, (lnk, gr)),
        nc == oc.update(j, (((oc[j].0 - gr) as int) as usize, oc[j].1)),
        gr <= oc[j].0,
    ensures
        link_map_sum(ng) == link_map_sum(og) + gr,
        dir_sum(ng, rows_s[i].1, flip) == dir_sum(og, rows_s[i].1, flip) + gr,
        pair_sum(nc) == pair_sum(oc) - gr,
        forall|t: int|
            0 <= t < rows_s.len() && t != i ==> dir_sum(ng, (#[trigger] rows_s[t]).1, flip)
                == dir_sum(og, rows_s[t].1, flip),
        forall|jj: int|
            0 <= jj < cols0.len() && jj != j ==> dir_sum(ng, (#[trigger] cols0[jj]).1, !flip)
                == dir_sum(og, cols0[jj].1, !flip),
        dir_sum(ng, cols0[j].1, !flip) == dir_sum(og, cols0[j].1, !flip) + gr,
{
    let e = (lnk, gr);
    lemma_sum_by_insert(og, p, e, link_val());
    lemma_sum_by_insert(og, p, e, dir_val(rows_s[i].1, flip));
    lemma_sum_by_insert(og, p, e, dir_val(cols0[j].1, !flip));
    lemma_sum_by_update(oc, j, (((oc[j].0 - gr) as int) as usize, oc[j].1), pair_val());
    assert forall|t: int| 0 <= t < rows_s.len() && t != i implies dir_sum(
        ng,
        (#[trigger] rows_s[t]).1,
        flip,
    ) == dir_sum(og, rows_s[t].1, flip) by {
        lemma_sum_by_insert(og, p, e, dir_val(rows_s[t].1, flip));
        if t < i {
            assert(rows_s[t].1 != rows_s[i].1);
        } else {
            assert(rows_s[i].1 != rows_s[t].1);
        }
    }
    assert forall|jj: int| 0 <= jj < cols0.len() && jj != j implies dir_sum(
        ng,
        (#[trigger] cols0[jj]).1,
        !flip,
    ) == dir_sum(og, cols0[jj].1, !flip) by {
        lemma_sum_by_insert(og, p, e, dir_val(cols0[jj].1, !flip));
        if jj < j {
            assert(cols0[jj].1 != cols0[j].1);
        } else {
            assert(cols0[j].1 != cols0[jj].1);
        }
    }
}

/// The key structure of the grants after adding the fresh link.
proof fn lemma_step_keys(
    og: Seq<(ShardLink, usize)>,
    ng: Seq<(ShardLink, usize)>,
    rows_s: Seq<(usize, ShardUId)>,
    cols0: Seq<(usize, ShardUId)>,
    i: int,
    j: int,
    flip: bool,
    gr: usize,
    p: int,
    lnk: ShardLink,
)
    requires
        0 <= i < rows_s.len(),
        0 <= j < cols0.len(),
        dir_of(lnk, flip) == rows_s[i].1,
        dir_of(lnk, !flip) == cols0[j].1,
        0 <= p <= og.len(),
        ng == og.insert(p, (lnk, gr)),
        keys_shape(og, rows_s, cols0, i, j, flip),
    ensures
        keys_shape(ng, rows_s, cols0, i, j + 1, flip),
{
    og.insert_ensures(p, (lnk, gr));
    assert forall|t: int| 0 <= t < ng.len() implies ((exists|u: int|
        0 <= u < i && dir_of((#[trigger] ng[t]).0, flip) == (#[trigger] rows_s[u]).1) || (0 <= i
        < rows_s.len() && dir_of(ng[t].0, flip) == rows_s[i].1 && exists|jc: int|
        0 <= jc < j + 1 && dir_of(ng[t].0, !flip) == (#[trigger] cols0[jc]).1)) && (exists|
        jj: int,
    |
        0 <= jj < cols0.len() && dir_of(ng[t].0, !flip) == (#[trigger] cols0[jj]).1) by {
        if t == p {
            assert(ng[t] == (lnk, gr));
            assert(dir_of(ng[t].0, !flip) == cols0[j].1);
        } else if t < p {
            assert(ng[t] == og[t]);
        } else {
            assert(ng[t] == og[t - 1]);
        }
    }
}

/// Order effects of one step: the column prefix stays sorted, the bridge to
/// the next column is re-established, and the cover inequality survives.
proof fn lemma_step_order(
    oc: Seq<(usize, ShardUId)>,
    nc: Seq<(usize, ShardUId)>,
    i: int,
    j: int,
    ln_total: int,
    rn_total: int,
    old_lb: int,
    new_lb: int,
    gr: int,
)
    requires
        0 <= i < ln_total,
        0 <= j < rn_total,
        oc.len() == rn_total,
        forall|a: int, b: int| 0 <= a < b < j ==> (#[trigger] oc[a]).0 <= (#[trigger] oc[b]).0,
        forall|a: int, b: int|
            j <= a < b < rn_total ==> (#[trigger] oc[a]).0 <= (#[trigger] oc[b]).0,
        0 < j ==> oc[j - 1].0 <= col_left(
            oc[j].0 as int,
            ln_total - i,
            old_lb,
            rn_total - j,
        ),
        old_lb >= 0,
        gr == if fair_share(old_lb, rn_total - j) <= fair_share(oc[j].0 as int, ln_total - i) {
            fair_share(old_lb, rn_total - j)
        } else {
            fair_share(oc[j].0 as int, ln_total - i)
        },
        new_lb == old_lb - gr,
        0 <= gr <= oc[j].0,
        gr <= old_lb,
        nc == oc.update(j, (((oc[j].0 - gr) as int) as usize, oc[j].1)),
        (ln_total - i) * old_lb <= pair_sum(oc.skip(j)),
    ensures
        forall|a: int, b: int|
            0 <= a < b < j + 1 ==> (#[trigger] nc[a]).0 <= (#[trigger] nc[b]).0,
        forall|a: int, b: int|
            j + 1 <= a < b < rn_total ==> (#[trigger] nc[a]).0 <= (#[trigger] nc[b]).0,
        j + 1 < rn_total ==> nc[j].0 <= col_left(
            nc[j + 1].0 as int,
            ln_total - i,
            new_lb,
            rn_total - (j + 1),
        ),
        (ln_total - i) * new_lb <= pair_sum(nc.skip(j + 1)),
{
    let ln = ln_total - i;
    let rn = rn_total - j;
    let rb = oc[j].0 as int;
    lemma_share_bounds(old_lb, rn);
    lemma_share_bounds(rb, ln);
    let lmax = fair_share(old_lb, rn);
    let rmax = fair_share(rb, ln);
    let q = rb / ln;
    // The value written back is exactly the bound used by the bridge.
    assert(rb - rmax == q * (ln - 1)) by (nonlinear_arith)
        requires
            rb == q * ln + rb % ln,
            rmax == q + rb % ln,
    ;
    assert(nc[j].0 as int == rb - gr);
    assert(nc[j].0 as int == col_left(rb, ln, old_lb, rn));
    // Prefix sortedness, using the bridge at `j`.
    assert forall|a: int, b: int| 0 <= a < b < j + 1 implies (#[trigger] nc[a]).0 <= (
    #[trigger] nc[b]).0 by {
        if b == j {
            assert(nc[a] == oc[a]);
            if a < j - 1 {
                assert(oc[a].0 <= oc[j - 1].0);
            }
        } else {
            assert(nc[a] == oc[a] && nc[b] == oc[b]);
        }
    }
    // Suffix sortedness is inherited.
    assert forall|a: int, b: int| j + 1 <= a < b < rn_total implies (#[trigger] nc[a]).0 <= (
    #[trigger] nc[b]).0 by {
        assert(nc[a] == oc[a] && nc[b] == oc[b]);
    }
    // The bridge to the next column.
    if j + 1 < rn_total {
        let rb2 = nc[j + 1].0 as int;
        assert(nc[j + 1] == oc[j + 1]);
        assert(rb <= rb2);
        if lmax <= rmax {
            // Row-limited: the remaining demand splits evenly among the
            // remaining columns, each no larger a share than was taken here.
            let c = old_lb / rn;
            assert(new_lb == c * (rn - 1)) by (nonlinear_arith)
                requires
                    old_lb == c * rn + old_lb % rn,
                    new_lb == old_lb - (c + old_lb % rn),
            ;
            assert(rn - 1 >= 1);
            lemma_div_exact(c, rn - 1);
            assert(fair_share(new_lb, rn - 1) == c);
            assert(c <= lmax);
            assert(rb2 - fair_share(new_lb, rn - 1) >= rb - lmax);
            assert(nc[j].0 as int == rb - lmax);
            assert(nc[j].0 as int <= col_left(rb2, ln, new_lb, rn - 1));
        } else {
            // Column-limited: the value left here is the reserved share for
            // later rows, which grows with the column value.
            let q2 = rb2 / ln;
            lemma_div_ordered(rb, rb2, ln);
            assert(q * (ln - 1) <= q2 * (ln - 1)) by (nonlinear_arith)
                requires
                    q <= q2,
                    ln >= 1,
            ;
            assert(nc[j].0 as int == q * (ln - 1));
            assert(nc[j].0 as int <= col_left(rb2, ln, new_lb, rn - 1));
        }
    }
    // The cover inequality survives.
    let sj = pair_sum(oc.skip(j));
    lemma_sum_by_skip_next(oc, j, pair_val());
    assert(nc.skip(j + 1) =~= oc.skip(j + 1));
    assert forall|t: int| 0 <= t < oc.skip(j).len() implies #[trigger] pair_val()(
        oc.skip(j)[t],
    ) >= rb by {
        assert(oc.skip(j)[t] == oc[t + j]);
        if t > 0 {
            assert(oc[j].0 <= oc[t + j].0);
        }
    }
    lemma_sum_by_lower_bound(oc.skip(j), rb, pair_val());
    lemma_step_keeps_cover(ln, rn, old_lb, rb, sj, gr);
}

/// One canonical pass of the distribution.
///
/// `rows` is the side whose total spare bandwidth is not larger; every row is
/// drained completely into the columns, so row capacities are met exactly
/// while column capacities are never exceeded. When `flip` is set, rows play
/// the receiving side of each produced link instead of the sending side.
#[verifier::rlimit(100)]
fn distribute_core(rows: &ShardMap<usize>, cols: &ShardMap<usize>, flip: bool) -> (grants: LinkMap<
    usize,
>)
    requires
        rows.wf(),
        cols.wf(),
        map_sum(rows@) <= map_sum(cols@),
        map_sum(cols@) <= usize::MAX,
    ensures
        grants.wf(),
        link_map_sum(grants@) == map_sum(rows@),
        forall|t: int|
            0 <= t < rows@.len() ==> dir_sum(grants@, (#[trigger] rows@[t]).0, flip)
                == rows@[t].1,
        forall|t: int|
            0 <= t < cols@.len() ==> dir_sum(grants@, (#[trigger] cols@[t]).0, !flip)
                <= cols@[t].1,
        forall|t: int|
            0 <= t < grants@.len() ==> rows.spec_contains(
                dir_of((#[trigger] grants@[t]).0, flip),
            ) && cols.spec_contains(dir_of(grants@[t].0, !flip)),
{
    let rows_p = to_pairs(rows);
    let rows_v = sort_pairs(&rows_p);
    let cols_p = to_pairs(cols);
    let mut cols_v = sort_pairs(&cols_p);
    proof {
        lemma_pairs_membership(rows, rows_p@, rows_v@);
        lemma_pairs_distinct(rows, rows_p@, rows_v@);
        lemma_pairs_exist(rows, rows_p@, rows_v@);
        lemma_pairs_sum(rows, rows_p@, rows_v@);
        lemma_pairs_membership(cols, cols_p@, cols_v@);
        lemma_pairs_distinct(cols, cols_p@, cols_v@);
        lemma_pairs_exist(cols, cols_p@, cols_v@);
        lemma_pairs_sum(cols, cols_p@, cols_v@);
    }
    let ghost rows_s = rows_v@;
    let ghost cols0 = cols_v@;
    let ln_total = rows_v.len();
    let rn_total = cols_v.len();
    let mut grants = LinkMap::<usize>::new();
    proof {
        assert(rows_s.take(0) =~= Seq::<(usize, ShardUId)>::empty());
        assert(rows_s.skip(0) =~= rows_s);
    }
    let mut i: usize = 0;
    while i < ln_total
        invariant
            i <= ln_total,
            grants.wf(),
            rows_v@ == rows_s,
            rows_s.len() == ln_total,
            cols0.len() == rn_total,
            distinct_shards(rows_s),
            distinct_shards(cols0),
            forall|a: int, b: int|
                0 <= a < b < ln_total ==> pair_le(#[trigger] rows_s[a], #[trigger] rows_s[b]),
            cols_shape(cols_v@, cols0),
            forall|a: int, b: int|
                0 <= a < b < rn_total ==> (#[trigger] cols_v@[a]).0 <= (#[trigger] cols_v@[b]).0,
            pair_sum(rows_s.skip(i as int)) <= pair_sum(cols_v@),
            pair_sum(cols_v@) == pair_sum(cols0) - link_map_sum(grants@),
            link_map_sum(grants@) == pair_sum(rows_s.take(i as int)),
            ledger(grants@, rows_s, cols0, cols_v@, i as int, flip),
            keys_shape(grants@, rows_s, cols0, i as int, 0, flip),
        decreases ln_total - i,
    {
        let lb0 = rows_v[i].0;
        let ls = rows_v[i].1;
        let mut lb: usize = lb0;
        proof {
            let sk = rows_s.skip(i as int);
            assert forall|t: int| 0 <= t < sk.len() implies #[trigger] pair_val()(sk[t])
                >= lb as int by {
                assert(sk[t] == rows_s[t + i]);
                if t > 0 {
                    assert(pair_le(rows_s[i as int], rows_s[t + i]));
                }
            }
            lemma_sum_by_lower_bound(sk, lb as int, pair_val());
            assert(sk.len() * (lb as int) == ((ln_total - i) as int) * (lb as int));
            assert(cols_v@.skip(0) =~= cols_v@);
        }
        let mut j: usize = 0;
        while j < rn_total
            invariant
                j <= rn_total,
                i < ln_total,
                grants.wf(),
                rows_s.len() == ln_total,
                cols0.len() == rn_total,
                distinct_shards(rows_s),
                distinct_shards(cols0),
                ls == rows_s[i as int].1,
                lb0 == rows_s[i as int].0,
                lb <= lb0,
                cols_shape(cols_v@, cols0),
                forall|a: int, b: int|
                    0 <= a < b < j ==> (#[trigger] cols_v@[a]).0 <= (#[trigger] cols_v@[b]).0,
                forall|a: int, b: int|
                    j <= a < b < rn_total ==> (#[trigger] cols_v@[a]).0 <= (
                    #[trigger] cols_v@[b]).0,
                0 < j < rn_total ==> cols_v@[j - 1].0 <= col_left(
                    cols_v@[j as int].0 as int,
                    (ln_total - i) as int,
                    lb as int,
                    (rn_total - j) as int,
                ),
                ((ln_total - i) as int) * (lb as int) <= pair_sum(cols_v@.skip(j as int)),
                link_map_sum(grants@) == pair_sum(rows_s.take(i as int)) + lb0 - lb,
                pair_sum(cols_v@) == pair_sum(cols0) - link_map_sum(grants@),
                dir_sum(grants@, ls, flip) == lb0 - lb,
                forall|t: int|
                    0 <= t < i ==> dir_sum(grants@, (#[trigger] rows_s[t]).1, flip)
                        == rows_s[t].0,
                forall|t: int|
                    i < t < ln_total ==> dir_sum(grants@, (#[trigger] rows_s[t]).1, flip) == 0,
                forall|jj: int|
                    0 <= jj < rn_total ==> dir_sum(grants@, (#[trigger] cols0[jj]).1, !flip)
                        == cols0[jj].0 - cols_v@[jj].0,
                keys_shape(grants@, rows_s, cols0, i as int, j as int, flip),
            decreases rn_total - j,
        {
            let rn = rn_total - j;
            let ln = ln_total - i;
            let rb = cols_v[j].0;
            let cs = cols_v[j].1;
            proof {
                lemma_share_bounds(lb as int, rn as int);
                lemma_share_bounds(rb as int, ln as int);
            }
            let left_max = lb / rn + lb % rn;
            let right_max = rb / ln + rb % ln;
            let g = if left_max <= right_max {
                left_max
            } else {
                right_max
            };
            let lnk = mk_link(ls, cs, flip);
            proof {
                if grants.spec_contains(lnk) {
                    let t = choose|t: int|
                        0 <= t < grants@.len() && (#[trigger] grants@[t]).0 == lnk;
                    assert(dir_of(grants@[t].0, flip) == ls);
                    assert(dir_of(grants@[t].0, !flip) == cs);
                    assert(false);
                }
            }
            let ghost old_grants = grants@;
            let ghost old_cols = cols_v@;
            let ghost old_lb = lb as int;
            grants.set(lnk, g);
            cols_v[j] = (rb - g, cs);
            lb = lb - g;
            proof {
                let p = choose|p: int|
                    0 <= p <= old_grants.len() && grants@ == #[trigger] old_grants.insert(
                        p,
                        (lnk, g),
                    );
                assert(cols_v@ == old_cols.update(
                    j as int,
                    (((old_cols[j as int].0 - g) as int) as usize, old_cols[j as int].1),
                ));
                lemma_step_sums(
                    old_grants,
                    grants@,
                    old_cols,
                    cols_v@,
                    rows_s,
                    cols0,
                    i as int,
                    j as int,
                    flip,
                    g,
                    p,
                    lnk,
                );
                lemma_step_keys(
                    old_grants,
                    grants@,
                    rows_s,
                    cols0,
                    i as int,
                    j as int,
                    flip,
                    g,
                    p,
                    lnk,
                );
                lemma_step_order(
                    old_cols,
                    cols_v@,
                    i as int,
                    j as int,
                    ln_total as int,
                    rn_total as int,
                    old_lb,
                    lb as int,
                    g as int,
                );
            }
            j = j + 1;
        }
        proof {
            assert(cols_v@.skip(rn_total as int) =~= Seq::<(usize, ShardUId)>::empty());
            lemma_drain((ln_total - i) as int, lb as int);
            lemma_sum_by_skip_next(rows_s, i as int, pair_val());
            lemma_sum_by_take_extend(rows_s, i as int, pair_val());
            assert(ledger(grants@, rows_s, cols0, cols_v@, i + 1, flip)) by {
                assert(dir_sum(grants@, rows_s[i as int].1, flip) == rows_s[i as int].0);
            }
            assert(keys_shape(grants@, rows_s, cols0, i + 1, 0, flip)) by {
                assert forall|t: int| 0 <= t < grants@.len() implies ((exists|u: int|
                    0 <= u < i + 1 && dir_of((#[trigger] grants@[t]).0, flip) == (
                    #[trigger] rows_s[u]).1) || (0 <= i + 1 < rows_s.len() && dir_of(
                    grants@[t].0,
                    flip,
                ) == rows_s[i + 1].1 && exists|jc: int|
                    0 <= jc < 0 && dir_of(grants@[t].0, !flip) == (
                    #[trigger] cols0[jc]).1)) && (exists|jj: int|
                    0 <= jj < cols0.len() && dir_of(grants@[t].0, !flip) == (
                    #[trigger] cols0[jj]).1) by {
                    if exists|u: int|
                        0 <= u < i && dir_of(grants@[t].0, flip) == (#[trigger] rows_s[u]).1 {
                        let u = choose|u: int|
                            0 <= u < i && dir_of(grants@[t].0, flip) == (
                            #[trigger] rows_s[u]).1;
                        assert(0 <= u < i + 1 && dir_of(grants@[t].0, flip) == rows_s[u].1);
                    } else {
                        assert(dir_of(grants@[t].0, flip) == rows_s[i as int].1);
                        assert(0 <= i < i + 1 && dir_of(grants@[t].0, flip) == rows_s[
                            i as int].1);
                    }
                }
            }
        }
        i = i + 1;
    }
    proof {
        assert(rows_s.take(ln_total as int) =~= rows_s);
        assert forall|t: int| 0 <= t < rows@.len() implies dir_sum(
            grants@,
            (#[trigger] rows@[t]).0,
            flip,
        ) == rows@[t].1 by {
            assert(rows_s.contains((rows@[t].1, rows@[t].0)));
            let u = choose|u: int|
                0 <= u < rows_s.len() && rows_s[u] == (rows@[t].1, rows@[t].0);
            assert(dir_sum(grants@, rows_s[u].1, flip) == rows_s[u].0);
        }
        assert forall|t: int| 0 <= t < cols@.len() implies dir_sum(
            grants@,
            (#[trigger] cols@[t]).0,
            !flip,
        ) <= cols@[t].1 by {
            assert(cols0.contains((cols@[t].1, cols@[t].0)));
            let u = choose|u: int| 0 <= u < cols0.len() && cols0[u] == (cols@[t].1, cols@[t].0);
            assert(dir_sum(grants@, cols0[u].1, !flip) == cols0[u].0 - cols_v@[u].0);
        }
        assert forall|t: int| 0 <= t < grants@.len() implies rows.spec_contains(
            dir_of((#[trigger] grants@[t]).0, flip),
        ) && cols.spec_contains(dir_of(grants@[t].0, !flip)) by {
            let u = choose|u: int|
                0 <= u < (ln_total as int) && dir_of(grants@[t].0, flip) == rows_s[u].1;
            assert(rows.spec_contains(rows_s[u].1));
            let jj = choose|jj: int|
                0 <= jj < (rn_total as int) && dir_of(grants@[t].0, !flip) == cols0[jj].1;
            assert(cols.spec_contains(cols0[jj].1));
        }
    }
    grants
}

/// The smaller of two totals.
pub open spec fn spec_min(a: int, b: int) -> int {
    if a <= b {
        a
    } else {
        b
    }
}

/// Distribute the remaining bandwidth in a fair way.
///
/// `left` holds each shard's spare sending capacity and `right` each shard's
/// spare receiving capacity. The returned per-link grants use up the smaller
/// of the two totals exactly, never exceed any shard's spare capacity on
/// either side, and only mention shards present in the two maps.
pub fn distribute_remaining_bandwidth(left: &ShardMap<usize>, right: &ShardMap<usize>) -> (grants:
    LinkMap<usize>)
    requires
        left.wf(),
        right.wf(),
        map_sum(left@) <= usize::MAX,
        map_sum(right@) <= usize::MAX,
    ensures
        grants.wf(),
        link_map_sum(grants@) == spec_min(map_sum(left@), map_sum(right@)),
        forall|t: int|
            0 <= t < left@.len() ==> from_sum(grants@, (#[trigger] left@[t]).0) <= left@[t].1,
        forall|t: int|
            0 <= t < right@.len() ==> to_sum(grants@, (#[trigger] right@[t]).0) <= right@[t].1,
        forall|t: int|
            0 <= t < grants@.len() ==> left.spec_contains((#[trigger] grants@[t]).0.from)
                && right.spec_contains(grants@[t].0.to),
{
    let left_sum = total_bandwidth(left);
    let right_sum = total_bandwidth(right);
    if right_sum < left_sum {
        let grants = distribute_core(right, left, true);
        proof {
            assert forall|t: int| 0 <= t < grants@.len() implies left.spec_contains(
                (#[trigger] grants@[t]).0.from,
            ) && right.spec_contains(grants@[t].0.to) by {
                assert(dir_of(grants@[t].0, true) == grants@[t].0.to);
                assert(dir_of(grants@[t].0, false) == grants@[t].0.from);
            }
        }
        grants
    } else {
        let grants = distribute_core(left, right, false);
        proof {
            assert forall|t: int| 0 <= t < grants@.len() implies left.spec_contains(
                (#[trigger] grants@[t]).0.from,
            ) && right.spec_contains(grants@[t].0.to) by {
                assert(dir_of(grants@[t].0, false) == grants@[t].0.from);
                assert(dir_of(grants@[t].0, true) == grants@[t].0.to);
            }
        }
        grants
    }
}

} // verus!
