//! Tables of integer-encoded rows and the relational operations on them:
//! columns, key membership, semi-joins and anti-joins, and equi-joins.

use std::collections::HashSet;
use vstd::prelude::*;

verus! {

broadcast use vstd::std_specs::hash::group_hash_axioms;

/// Every row of `t` has at least `w` columns.
pub open spec fn has_width(t: Seq<Seq<u64>>, w: int) -> bool {
    forall|i: int| 0 <= i < t.len() ==> #[trigger] t[i].len() >= w
}

/// The values of column `c` of `t`, row by row.
pub open spec fn column(t: Seq<Seq<u64>>, c: int) -> Seq<u64> {
    t.map_values(|r: Seq<u64>| r[c])
}

/// Some row of `t` holds `k` in column `c`.
pub open spec fn has_key(t: Seq<Seq<u64>>, c: int, k: u64) -> bool {
    column(t, c).contains(k)
}

/// A row whose column `c` holds a key that occurs in column `oc` of `other`.
pub open spec fn key_in(other: Seq<Seq<u64>>, oc: int, c: int) -> spec_fn(Seq<u64>) -> bool {
    |r: Seq<u64>| has_key(other, oc, r[c])
}

/// A row whose column `c` holds a key that occurs nowhere in column `oc` of `other`.
pub open spec fn key_not_in(other: Seq<Seq<u64>>, oc: int, c: int) -> spec_fn(Seq<u64>) -> bool {
    |r: Seq<u64>| !has_key(other, oc, r[c])
}

/// The rows of `t` that find a partner in `other` (`t.c = other.oc`), in order.
pub open spec fn matching(t: Seq<Seq<u64>>, c: int, other: Seq<Seq<u64>>, oc: int) -> Seq<Seq<u64>> {
    t.filter(key_in(other, oc, c))
}

/// The rows of `t` that find no partner in `other` (`t.c = other.oc`), in order.
pub open spec fn non_matching(t: Seq<Seq<u64>>, c: int, other: Seq<Seq<u64>>, oc: int) -> Seq<Seq<u64>> {
    t.filter(key_not_in(other, oc, c))
}

/// Whether every row of `t` has at least `w` columns.
pub fn rows_have_width(t: &Vec<Vec<u64>>, w: usize) -> (ok: bool)
    ensures
        ok == has_width(t.deep_view(), w as int),
{
    for i in 0..t.len()
        invariant
            forall|j: int| 0 <= j < i ==> #[trigger] t.deep_view()[j].len() >= w,
    {
        assert(t[i as int]@.len() == t.deep_view()[i as int].len());
        if t[i].len() < w {
            return false;
        }
    }
    true
}

/// Filtering keeps rows' widths.
pub proof fn lemma_filter_width(t: Seq<Seq<u64>>, p: spec_fn(Seq<u64>) -> bool, w: int)
    requires
        has_width(t, w),
    ensures
        has_width(t.filter(p), w),
{
    broadcast use vstd::seq_lib::group_filter_ensures;
    assert forall|i: int| 0 <= i < t.filter(p).len() implies #[trigger] t.filter(p)[i].len() >= w by {
        assert(t.filter(p).contains(t.filter(p)[i]));
        t.lemma_filter_contains_rev(p, t.filter(p)[i]);
        let m = choose|m: int| 0 <= m < t.len() && t[m] == t.filter(p)[i];
        assert(t[m].len() >= w);
    }
}

/// Splitting a table into the rows with and without a join partner loses
/// and invents no row: the two parts together are a rearrangement of it.
pub proof fn lemma_split_permutation(t: Seq<Seq<u64>>, c: int, other: Seq<Seq<u64>>, oc: int)
    ensures
        (matching(t, c, other, oc) + non_matching(t, c, other, oc)).to_multiset() == t.to_multiset(),
        matching(t, c, other, oc).len() + non_matching(t, c, other, oc).len() == t.len(),
    decreases t.len(),
{
    broadcast use vstd::seq_lib::group_to_multiset_ensures;
    reveal_with_fuel(Seq::filter, 1);
    let m = matching(t, c, other, oc);
    let n = non_matching(t, c, other, oc);
    if t.len() == 0 {
        assert(m + n =~= Seq::<Seq<u64>>::empty());
    } else {
        let d = t.drop_last();
        let x = t.last();
        lemma_split_permutation(d, c, other, oc);
        let md = matching(d, c, other, oc);
        let nd = non_matching(d, c, other, oc);
        assert(t =~= d.push(x));
        if has_key(other, oc, x[c]) {
            assert(key_in(other, oc, c)(x));
            assert(m == md.push(x));
            assert(n == nd);
            assert((md + nd).to_multiset().insert(x) =~= (md.push(x) + nd).to_multiset()) by {
                vstd::seq_lib::to_multiset_insert(md + nd, md.len() as int, x);
                assert((md + nd).insert(md.len() as int, x) =~= md.push(x) + nd);
            }
        } else {
            assert(key_not_in(other, oc, c)(x));
            assert(m == md);
            assert(n == nd.push(x));
            assert(md + nd.push(x) =~= (md + nd).push(x));
        }
    }
}

/// Every row with a partner has its key in `other`; every row without one
/// has a key that `other` lacks.
pub proof fn lemma_split_keys(t: Seq<Seq<u64>>, c: int, other: Seq<Seq<u64>>, oc: int)
    ensures
        forall|i: int| 0 <= i < matching(t, c, other, oc).len() ==>
            has_key(other, oc, #[trigger] matching(t, c, other, oc)[i][c]),
        forall|i: int| 0 <= i < non_matching(t, c, other, oc).len() ==>
            !has_key(other, oc, #[trigger] non_matching(t, c, other, oc)[i][c]),
{
    broadcast use vstd::seq_lib::group_filter_ensures;
    assert forall|i: int| 0 <= i < matching(t, c, other, oc).len() implies
        has_key(other, oc, #[trigger] matching(t, c, other, oc)[i][c]) by {
        assert(key_in(other, oc, c)(matching(t, c, other, oc)[i]));
    }
    assert forall|i: int| 0 <= i < non_matching(t, c, other, oc).len() implies
        !has_key(other, oc, #[trigger] non_matching(t, c, other, oc)[i][c]) by {
        assert(key_not_in(other, oc, c)(non_matching(t, c, other, oc)[i]));
    }
}

/// Rows of `t` are kept by a filter exactly when they satisfy it.
proof fn lemma_filter_contains_iff(t: Seq<Seq<u64>>, p: spec_fn(Seq<u64>) -> bool, x: Seq<u64>)
    ensures
        t.filter(p).contains(x) <==> t.contains(x) && p(x),
{
    broadcast use vstd::seq_lib::group_filter_ensures;
    if t.filter(p).contains(x) {
        t.lemma_filter_contains_rev(p, x);
        let i = choose|i: int| 0 <= i < t.filter(p).len() && t.filter(p)[i] == x;
        assert(p(t.filter(p)[i]));
    }
    if t.contains(x) && p(x) {
        let i = choose|i: int| 0 <= i < t.len() && t[i] == x;
        assert(t.filter(p).contains(t[i]));
    }
}

/// The keys left without a partner on one side never occur among those left
/// without a partner on the other side.
pub proof fn lemma_unmatched_keys_disjoint(a: Seq<Seq<u64>>, ca: int, b: Seq<Seq<u64>>, cb: int, k: u64)
    ensures
        !(column(non_matching(a, ca, b, cb), ca).contains(k) && column(non_matching(b, cb, a, ca), cb).contains(k)),
{
    let na = non_matching(a, ca, b, cb);
    let nb = non_matching(b, cb, a, ca);
    if column(na, ca).contains(k) && column(nb, cb).contains(k) {
        let i = choose|i: int| 0 <= i < column(na, ca).len() && column(na, ca)[i] == k;
        let j = choose|j: int| 0 <= j < column(nb, cb).len() && column(nb, cb)[j] == k;
        lemma_filter_contains_iff(a, key_not_in(b, cb, ca), na[i]);
        lemma_filter_contains_iff(b, key_not_in(a, ca, cb), nb[j]);
        assert(na.contains(na[i]));
        assert(nb.contains(nb[j]));
        let i2 = choose|i2: int| 0 <= i2 < a.len() && a[i2] == na[i];
        assert(column(a, ca)[i2] == k);
        assert(has_key(a, ca, k));
        assert(!has_key(a, ca, nb[j][cb]));
    }
}

/// The rows of each side that have a partner find their partners among the
/// rows of the other side that have one.
pub proof fn lemma_semijoins_pair_up(a: Seq<Seq<u64>>, ca: int, b: Seq<Seq<u64>>, cb: int)
    ensures
        matching(matching(a, ca, b, cb), ca, matching(b, cb, a, ca), cb) == matching(a, ca, b, cb),
{
    let ma = matching(a, ca, b, cb);
    let mb = matching(b, cb, a, ca);
    assert forall|i: int| 0 <= i < ma.len() implies #[trigger] key_in(mb, cb, ca)(ma[i]) by {
        assert(ma.contains(ma[i]));
        lemma_filter_contains_iff(a, key_in(b, cb, ca), ma[i]);
        let k = ma[i][ca];
        assert(has_key(b, cb, k));
        let j = choose|j: int| 0 <= j < column(b, cb).len() && column(b, cb)[j] == k;
        assert(a.contains(ma[i]));
        let i2 = choose|i2: int| 0 <= i2 < a.len() && a[i2] == ma[i];
        assert(column(a, ca)[i2] == k);
        lemma_filter_contains_iff(b, key_in(a, ca, cb), b[j]);
        assert(b.contains(b[j]));
        assert(mb.contains(b[j]));
        let j2 = choose|j2: int| 0 <= j2 < mb.len() && mb[j2] == b[j];
        assert(column(mb, cb)[j2] == k);
    }
    lemma_filter_all(ma, key_in(mb, cb, ca));
}

/// Filtering keeps everything when every element satisfies the predicate.
proof fn lemma_filter_all(t: Seq<Seq<u64>>, p: spec_fn(Seq<u64>) -> bool)
    requires
        forall|i: int| 0 <= i < t.len() ==> #[trigger] p(t[i]),
    ensures
        t.filter(p) == t,
    decreases t.len(),
{
    reveal_with_fuel(Seq::filter, 1);
    if t.len() > 0 {
        let d = t.drop_last();
        assert forall|i: int| 0 <= i < d.len() implies #[trigger] p(d[i]) by {
            assert(p(t[i]));
        }
        lemma_filter_all(d, p);
        assert(p(t[t.len() - 1]));
        assert(t =~= d.push(t.last()));
    }
}

/// The values of column `c` of `t`.
pub fn column_values(t: &Vec<Vec<u64>>, c: usize) -> (out: Vec<u64>)
    requires
        has_width(t.deep_view(), c + 1),
    ensures
        out@ == column(t.deep_view(), c as int),
        out.len() == t.len(),
{
    let ghost tv = t.deep_view();
    let mut out: Vec<u64> = Vec::new();
    for i in 0..t.len()
        invariant
            tv == t.deep_view(),
            has_width(tv, c + 1),
            out@ == column(tv.take(i as int), c as int),
    {
        assert(tv[i as int].len() >= c + 1);
        out.push(t[i][c]);
        assert(column(tv.take(i + 1), c as int) =~= column(tv.take(i as int), c as int).push(tv[i as int][c as int]));
    }
    assert(tv.take(t.len() as int) =~= tv);
    out
}

/// The set of values in column `c` of `t`.
fn key_set(t: &Vec<Vec<u64>>, c: usize) -> (s: HashSet<u64>)
    requires
        has_width(t.deep_view(), c + 1),
    ensures
        forall|k: u64| s@.contains(k) <==> has_key(t.deep_view(), c as int, k),
{
    let ghost tv = t.deep_view();
    let mut s: HashSet<u64> = HashSet::new();
    for i in 0..t.len()
        invariant
            tv == t.deep_view(),
            has_width(tv, c + 1),
            forall|k: u64| s@.contains(k) <==> column(tv.take(i as int), c as int).contains(k),
    {
        assert(tv[i as int].len() >= c + 1);
        let k = t[i][c];
        s.insert(k);
        proof {
            let prev = column(tv.take(i as int), c as int);
            let next = column(tv.take(i + 1), c as int);
            assert(next =~= prev.push(k));
            assert forall|x: u64| s@.contains(x) <==> next.contains(x) by {
                if x == k {
                    assert(next[i as int] == k);
                } else if prev.contains(x) {
                    let j = choose|j: int| 0 <= j < prev.len() && prev[j] == x;
                    assert(next[j] == x);
                } else if next.contains(x) {
                    let j = choose|j: int| 0 <= j < next.len() && next[j] == x;
                    assert(j < i);
                    assert(prev[j] == x);
                }
            }
        }
    }
    assert(tv.take(t.len() as int) =~= tv);
    s
}

/// Splits `t` into the rows that find a partner in `other` (`t.c = other.oc`)
/// and those that do not, each part keeping the order of `t`.
pub fn split_by_keys(t: &Vec<Vec<u64>>, c: usize, other: &Vec<Vec<u64>>, oc: usize) -> (res: (
    Vec<Vec<u64>>,
    Vec<Vec<u64>>,
))
    requires
        has_width(t.deep_view(), c + 1),
        has_width(other.deep_view(), oc + 1),
    ensures
        res.0.deep_view() == matching(t.deep_view(), c as int, other.deep_view(), oc as int),
        res.1.deep_view() == non_matching(t.deep_view(), c as int, other.deep_view(), oc as int),
{
    let ghost tv = t.deep_view();
    let ghost ov = other.deep_view();
    let keys = key_set(other, oc);
    let mut hit: Vec<Vec<u64>> = Vec::new();
    let mut miss: Vec<Vec<u64>> = Vec::new();
    for i in 0..t.len()
        invariant
            tv == t.deep_view(),
            ov == other.deep_view(),
            has_width(tv, c + 1),
            forall|k: u64| keys@.contains(k) <==> has_key(ov, oc as int, k),
            hit.deep_view() == tv.take(i as int).filter(key_in(ov, oc as int, c as int)),
            miss.deep_view() == tv.take(i as int).filter(key_not_in(ov, oc as int, c as int)),
    {
        let row = t[i].clone();
        assert(row@ =~= tv[i as int]);
        assert(row.deep_view() =~= row@);
        let ghost pre = tv.take(i as int);
        let ghost cur = tv.take(i + 1);
        proof {
            reveal_with_fuel(Seq::filter, 1);
        }
        assert(cur.drop_last() =~= pre);
        assert(cur.last() == tv[i as int]);
        assert(tv[i as int].len() >= c + 1);
        let k = t[i][c];
        assert(k == tv[i as int][c as int]);
        if keys.contains(&k) {
            assert(key_in(ov, oc as int, c as int)(tv[i as int]));
            assert(cur.filter(key_in(ov, oc as int, c as int)) == pre.filter(key_in(ov, oc as int, c as int)).push(tv[i as int]));
            assert(cur.filter(key_not_in(ov, oc as int, c as int)) == pre.filter(key_not_in(ov, oc as int, c as int)));
            let ghost old_hit = hit.deep_view();
            hit.push(row);
            assert(hit.deep_view() =~= old_hit.push(tv[i as int]));
        } else {
            assert(key_not_in(ov, oc as int, c as int)(tv[i as int]));
            assert(cur.filter(key_not_in(ov, oc as int, c as int)) == pre.filter(key_not_in(ov, oc as int, c as int)).push(tv[i as int]));
            assert(cur.filter(key_in(ov, oc as int, c as int)) == pre.filter(key_in(ov, oc as int, c as int)));
            let ghost old_miss = miss.deep_view();
            miss.push(row);
            assert(miss.deep_view() =~= old_miss.push(tv[i as int]));
        }
    }
    assert(tv.take(t.len() as int) =~= tv);
    (hit, miss)
}


/// `j` is the first row of `b` whose column `cb` holds `k`.
pub open spec fn is_first_key_index(b: Seq<Seq<u64>>, cb: int, k: u64, j: int) -> bool {
    &&& 0 <= j < b.len()
    &&& b[j][cb] == k
    &&& forall|j2: int| 0 <= j2 < j ==> #[trigger] b[j2][cb] != k
}

/// The first row of `b` whose column `cb` holds `k`.
pub open spec fn first_partner(b: Seq<Seq<u64>>, cb: int, k: u64) -> Seq<u64> {
    b[choose|j: int| is_first_key_index(b, cb, k, j)]
}

/// Each row `r` of `a` that has a partner in `b` (`a.ca = b.cb`), extended by its first partner.
pub open spec fn join_first(a: Seq<Seq<u64>>, ca: int, b: Seq<Seq<u64>>, cb: int) -> Seq<Seq<u64>> {
    matching(a, ca, b, cb).map_values(|r: Seq<u64>| r + first_partner(b, cb, r[ca]))
}

/// For each row of `a` that has a partner in `b` (`a.ca = b.cb`), its first partner.
pub open spec fn first_partners(a: Seq<Seq<u64>>, ca: int, b: Seq<Seq<u64>>, cb: int) -> Seq<Seq<u64>> {
    matching(a, ca, b, cb).map_values(|r: Seq<u64>| first_partner(b, cb, r[ca]))
}

/// Rows whose column `c` holds `k`.
pub open spec fn key_eq(c: int, k: u64) -> spec_fn(Seq<u64>) -> bool {
    |r: Seq<u64>| r[c] == k
}

/// Every row `r` of `a` extended by each of its partners in `b` (`a.ca = b.cb`), in order.
pub open spec fn joined_with(b: Seq<Seq<u64>>, cb: int, ca: int) -> spec_fn(Seq<u64>) -> Seq<Seq<u64>> {
    |r: Seq<u64>| b.filter(key_eq(cb, r[ca])).map_values(|c: Seq<u64>| r + c)
}

/// The equi-join of `a` and `b` on `a.ca = b.cb`: for each row of `a` in order,
/// that row extended by each matching row of `b` in order.
pub open spec fn join_all(a: Seq<Seq<u64>>, ca: int, b: Seq<Seq<u64>>, cb: int) -> Seq<Seq<u64>> {
    a.flat_map(joined_with(b, cb, ca))
}

/// A row is in the equi-join exactly when it is a row of `a` followed by a
/// row of `b` that agree on the join columns.
pub proof fn lemma_join_all_contains(a: Seq<Seq<u64>>, ca: int, b: Seq<Seq<u64>>, cb: int, x: Seq<u64>)
    ensures
        join_all(a, ca, b, cb).contains(x) <==> exists|i: int, j: int|
            0 <= i < a.len() && 0 <= j < b.len() && #[trigger] a[i][ca] == #[trigger] b[j][cb] && x == a[i]
                + b[j],
    decreases a.len(),
{
    if a.len() == 0 {
        assert(a.map_values(joined_with(b, cb, ca)) =~= Seq::<Seq<Seq<u64>>>::empty());
        assert(join_all(a, ca, b, cb) =~= Seq::<Seq<u64>>::empty());
    } else {
        let d = a.drop_last();
        let r = a.last();
        lemma_join_all_contains(d, ca, b, cb, x);
        d.lemma_flat_map_push(joined_with(b, cb, ca), r);
        assert(d.push(r) =~= a);
        let tail = b.filter(key_eq(cb, r[ca])).map_values(|c: Seq<u64>| r + c);
        assert(joined_with(b, cb, ca)(r) == tail);
        assert(join_all(a, ca, b, cb) =~= join_all(d, ca, b, cb) + tail);
        if join_all(a, ca, b, cb).contains(x) {
            let m = choose|m: int| 0 <= m < join_all(a, ca, b, cb).len() && join_all(a, ca, b, cb)[m] == x;
            if m < join_all(d, ca, b, cb).len() {
                assert(join_all(d, ca, b, cb)[m] == x);
                let (i, j) = choose|i: int, j: int|
                    0 <= i < d.len() && 0 <= j < b.len() && #[trigger] d[i][ca] == #[trigger] b[j][cb] && x == d[i] + b[j];
                assert(a[i] == d[i]);
                assert(a[i][ca] == b[j][cb]);
            } else {
                let q = m - join_all(d, ca, b, cb).len();
                assert(tail[q] == x);
                let c = b.filter(key_eq(cb, r[ca]))[q];
                assert(x == r + c);
                lemma_filter_contains_iff(b, key_eq(cb, r[ca]), c);
                assert(b.filter(key_eq(cb, r[ca])).contains(c));
                let j = choose|j: int| 0 <= j < b.len() && b[j] == c;
                assert(a[a.len() - 1] == r);
                assert(a[a.len() - 1][ca] == b[j][cb]);
            }
        }
        if exists|i: int, j: int|
            0 <= i < a.len() && 0 <= j < b.len() && #[trigger] a[i][ca] == #[trigger] b[j][cb] && x == a[i] + b[j] {
            let (i, j) = choose|i: int, j: int|
                0 <= i < a.len() && 0 <= j < b.len() && #[trigger] a[i][ca] == #[trigger] b[j][cb] && x == a[i] + b[j];
            if i < d.len() {
                assert(d[i] == a[i]);
                assert(d[i][ca] == b[j][cb]);
                let m = choose|m: int| 0 <= m < join_all(d, ca, b, cb).len() && join_all(d, ca, b, cb)[m] == x;
                assert(join_all(a, ca, b, cb)[m] == x);
            } else {
                assert(a[i] == r);
                lemma_filter_contains_iff(b, key_eq(cb, r[ca]), b[j]);
                assert(b.contains(b[j]));
                let f = b.filter(key_eq(cb, r[ca]));
                assert(f.contains(b[j]));
                let q = choose|q: int| 0 <= q < f.len() && f[q] == b[j];
                assert(tail[q] == x);
                assert(join_all(a, ca, b, cb)[join_all(d, ca, b, cb).len() + q] == x);
            }
        }
    }
}

/// `x` followed by `y`.
pub fn concat_row(x: &Vec<u64>, y: &Vec<u64>) -> (out: Vec<u64>)
    ensures
        out@ == x@ + y@,
{
    let mut out: Vec<u64> = Vec::new();
    for i in 0..x.len()
        invariant
            out@ == x@.take(i as int),
    {
        out.push(x[i]);
        assert(x@.take(i + 1) =~= x@.take(i as int).push(x[i as int]));
    }
    for j in 0..y.len()
        invariant
            out@ == x@ + y@.take(j as int),
    {
        out.push(y[j]);
        assert(y@.take(j + 1) =~= y@.take(j as int).push(y[j as int]));
        assert(x@ + y@.take(j + 1) =~= (x@ + y@.take(j as int)).push(y[j as int]));
    }
    assert(x@.take(x.len() as int) =~= x@);
    assert(y@.take(y.len() as int) =~= y@);
    out
}

/// Position of the first row of `b` whose column `cb` holds `k`, if any.
fn find_first_key(b: &Vec<Vec<u64>>, cb: usize, k: u64) -> (res: Option<usize>)
    requires
        has_width(b.deep_view(), cb + 1),
    ensures
        match res {
            Some(j) => is_first_key_index(b.deep_view(), cb as int, k, j as int),
            None => !has_key(b.deep_view(), cb as int, k),
        },
{
    let ghost bv = b.deep_view();
    for j in 0..b.len()
        invariant
            bv == b.deep_view(),
            has_width(bv, cb + 1),
            forall|j2: int| 0 <= j2 < j ==> #[trigger] bv[j2][cb as int] != k,
    {
        assert(bv[j as int].len() >= cb + 1);
        if b[j][cb] == k {
            return Some(j);
        }
    }
    proof {
        if has_key(bv, cb as int, k) {
            let j = choose|j: int| 0 <= j < column(bv, cb as int).len() && column(bv, cb as int)[j] == k;
            assert(bv[j][cb as int] == k);
        }
    }
    None
}

proof fn lemma_first_partner(b: Seq<Seq<u64>>, cb: int, k: u64, j: int)
    requires
        is_first_key_index(b, cb, k, j),
    ensures
        first_partner(b, cb, k) == b[j],
{
    let c = choose|c: int| is_first_key_index(b, cb, k, c);
    assert(is_first_key_index(b, cb, k, c));
    if c < j {
        assert(b[c][cb] != k);
    } else if c > j {
        assert(b[j][cb] != k);
    }
}

/// A key that occurs in column `cb` of `b` has a first occurrence there.
proof fn lemma_first_key_exists(b: Seq<Seq<u64>>, cb: int, k: u64, j: int)
    requires
        0 <= j < b.len(),
        b[j][cb] == k,
    ensures
        exists|q: int| is_first_key_index(b, cb, k, q),
    decreases j,
{
    if exists|j2: int| 0 <= j2 < j && #[trigger] b[j2][cb] == k {
        let j2 = choose|j2: int| 0 <= j2 < j && #[trigger] b[j2][cb] == k;
        lemma_first_key_exists(b, cb, k, j2);
    } else {
        assert(is_first_key_index(b, cb, k, j));
    }
}

/// Each row of `join_first(a, ca, b, cb)` is a row of `a` followed by the
/// first row of `b` that holds the same key.
pub proof fn lemma_join_first_row(a: Seq<Seq<u64>>, ca: int, b: Seq<Seq<u64>>, cb: int, i: int)
    requires
        0 <= i < join_first(a, ca, b, cb).len(),
    ensures
        exists|p: int, q: int|
            #![trigger a[p], b[q]]
            0 <= p < a.len() && is_first_key_index(b, cb, a[p][ca], q) && join_first(a, ca, b, cb)[i] == a[p] + b[q],
{
    let m = matching(a, ca, b, cb);
    let r = m[i];
    assert(m.contains(r));
    lemma_filter_contains_iff(a, key_in(b, cb, ca), r);
    let p = choose|p: int| 0 <= p < a.len() && a[p] == r;
    assert(has_key(b, cb, r[ca]));
    let j = choose|j: int| 0 <= j < column(b, cb).len() && column(b, cb)[j] == r[ca];
    assert(b[j][cb] == r[ca]);
    lemma_first_key_exists(b, cb, r[ca], j);
    let q = choose|q: int| is_first_key_index(b, cb, r[ca], q);
    lemma_first_partner(b, cb, r[ca], q);
    assert(join_first(a, ca, b, cb)[i] == a[p] + b[q]);
}

/// A row of `a` whose key occurs in `b` is joined to the first row of `b`
/// holding that key.
pub proof fn lemma_join_first_contains(a: Seq<Seq<u64>>, ca: int, b: Seq<Seq<u64>>, cb: int, r: Seq<u64>, q: int)
    requires
        a.contains(r),
        is_first_key_index(b, cb, r[ca], q),
    ensures
        join_first(a, ca, b, cb).contains(r + b[q]),
{
    assert(column(b, cb)[q] == r[ca]);
    assert(has_key(b, cb, r[ca]));
    lemma_filter_contains_iff(a, key_in(b, cb, ca), r);
    let m = matching(a, ca, b, cb);
    let i = choose|i: int| 0 <= i < m.len() && m[i] == r;
    lemma_first_partner(b, cb, r[ca], q);
    assert(join_first(a, ca, b, cb)[i] == r + b[q]);
}

/// The partner listed for a row of `a` is a row of `b` holding that row's key.
pub proof fn lemma_first_partners_row(a: Seq<Seq<u64>>, ca: int, b: Seq<Seq<u64>>, cb: int, i: int)
    requires
        0 <= i < matching(a, ca, b, cb).len(),
    ensures
        b.contains(first_partners(a, ca, b, cb)[i]),
        first_partners(a, ca, b, cb)[i][cb] == matching(a, ca, b, cb)[i][ca],
{
    let m = matching(a, ca, b, cb);
    let r = m[i];
    assert(m.contains(r));
    lemma_filter_contains_iff(a, key_in(b, cb, ca), r);
    assert(has_key(b, cb, r[ca]));
    let j = choose|j: int| 0 <= j < column(b, cb).len() && column(b, cb)[j] == r[ca];
    assert(b[j][cb] == r[ca]);
    lemma_first_key_exists(b, cb, r[ca], j);
    let q = choose|q: int| is_first_key_index(b, cb, r[ca], q);
    lemma_first_partner(b, cb, r[ca], q);
    assert(first_partners(a, ca, b, cb)[i] == b[q]);
}

/// Joins each row of `a` to its first partner in `b` (`a.ca = b.cb`);
/// rows without a partner are left out.  Returns the joined rows and,
/// separately, the partners alone.
pub fn join_first_match(a: &Vec<Vec<u64>>, ca: usize, b: &Vec<Vec<u64>>, cb: usize) -> (res: (
    Vec<Vec<u64>>,
    Vec<Vec<u64>>,
))
    requires
        has_width(a.deep_view(), ca + 1),
        has_width(b.deep_view(), cb + 1),
    ensures
        res.0.deep_view() == join_first(a.deep_view(), ca as int, b.deep_view(), cb as int),
        res.1.deep_view() == first_partners(a.deep_view(), ca as int, b.deep_view(), cb as int),
{
    let ghost av = a.deep_view();
    let ghost bv = b.deep_view();
    let mut joined: Vec<Vec<u64>> = Vec::new();
    let mut partners: Vec<Vec<u64>> = Vec::new();
    for i in 0..a.len()
        invariant
            av == a.deep_view(),
            bv == b.deep_view(),
            has_width(av, ca + 1),
            has_width(bv, cb + 1),
            joined.deep_view() == join_first(av.take(i as int), ca as int, bv, cb as int),
            partners.deep_view() == first_partners(av.take(i as int), ca as int, bv, cb as int),
    {
        let ghost pre = av.take(i as int);
        let ghost cur = av.take(i + 1);
        proof {
            reveal_with_fuel(Seq::filter, 1);
        }
        assert(cur.drop_last() =~= pre);
        assert(cur.last() == av[i as int]);
        assert(av[i as int].len() >= ca + 1);
        let k = a[i][ca];
        assert(k == av[i as int][ca as int]);
        match find_first_key(b, cb, k) {
            Some(j) => {
                proof {
                    lemma_first_partner(bv, cb as int, k, j as int);
                    assert(column(bv, cb as int)[j as int] == k);
                    assert(key_in(bv, cb as int, ca as int)(av[i as int]));
                    assert(matching(cur, ca as int, bv, cb as int) == matching(pre, ca as int, bv, cb as int).push(av[i as int]));
                }
                let row = concat_row(&a[i], &b[j]);
                assert(a[i as int]@ =~= av[i as int]);
                assert(b[j as int]@ =~= bv[j as int]);
                assert(row@ =~= av[i as int] + bv[j as int]);
                assert(row.deep_view() =~= row@);
                let partner = b[j].clone();
                assert(partner@ =~= bv[j as int]);
                let ghost old_joined = joined.deep_view();
                let ghost old_partners = partners.deep_view();
                joined.push(row);
                partners.push(partner);
                assert(joined.deep_view() =~= old_joined.push(av[i as int] + bv[j as int]));
                assert(partners.deep_view() =~= old_partners.push(bv[j as int]));
                assert(join_first(cur, ca as int, bv, cb as int) =~= old_joined.push(av[i as int] + bv[j as int]));
                assert(first_partners(cur, ca as int, bv, cb as int) =~= old_partners.push(bv[j as int]));
            },
            None => {
                assert(!key_in(bv, cb as int, ca as int)(av[i as int]));
                assert(matching(cur, ca as int, bv, cb as int) == matching(pre, ca as int, bv, cb as int));
            },
        }
    }
    assert(av.take(a.len() as int) =~= av);
    (joined, partners)
}

/// The equi-join of `a` and `b` on `a.ca = b.cb`: each row of `a` in order,
/// extended by each of its partners in `b` in order.
pub fn join_all_matches(a: &Vec<Vec<u64>>, ca: usize, b: &Vec<Vec<u64>>, cb: usize) -> (out: Vec<
    Vec<u64>,
>)
    requires
        has_width(a.deep_view(), ca + 1),
        has_width(b.deep_view(), cb + 1),
    ensures
        out.deep_view() == join_all(a.deep_view(), ca as int, b.deep_view(), cb as int),
{
    let ghost av = a.deep_view();
    let ghost bv = b.deep_view();
    let mut out: Vec<Vec<u64>> = Vec::new();
    for i in 0..a.len()
        invariant
            av == a.deep_view(),
            bv == b.deep_view(),
            has_width(av, ca + 1),
            has_width(bv, cb + 1),
            out.deep_view() == join_all(av.take(i as int), ca as int, bv, cb as int),
    {
        assert(av[i as int].len() >= ca + 1);
        let k = a[i][ca];
        let ghost r = av[i as int];
        assert(k == r[ca as int]);
        let ghost base = out.deep_view();
        for j in 0..b.len()
            invariant
                av == a.deep_view(),
                bv == b.deep_view(),
                has_width(bv, cb + 1),
                i < a.len(),
                r == av[i as int],
                r.len() >= ca + 1,
                k == r[ca as int],
                out.deep_view() == base + bv.take(j as int).filter(key_eq(cb as int, k)).map_values(
                    |c: Seq<u64>| r + c,
                ),
        {
            let ghost pre = bv.take(j as int);
            let ghost cur = bv.take(j + 1);
            proof {
                reveal_with_fuel(Seq::filter, 1);
            }
            assert(cur.drop_last() =~= pre);
            assert(cur.last() == bv[j as int]);
            assert(bv[j as int].len() >= cb + 1);
            if b[j][cb] == k {
                let row = concat_row(&a[i], &b[j]);
                assert(a[i as int]@ =~= av[i as int]);
                assert(b[j as int]@ =~= bv[j as int]);
                assert(row@ =~= r + bv[j as int]);
                assert(row.deep_view() =~= row@);
                let ghost old_out = out.deep_view();
                out.push(row);
                assert(out.deep_view() =~= old_out.push(r + bv[j as int]));
                assert(cur.filter(key_eq(cb as int, k)) == pre.filter(key_eq(cb as int, k)).push(bv[j as int]));
                assert(out.deep_view() =~= base + cur.filter(key_eq(cb as int, k)).map_values(
                    |c: Seq<u64>| r + c,
                ));
            } else {
                assert(cur.filter(key_eq(cb as int, k)) == pre.filter(key_eq(cb as int, k)));
            }
        }
        proof {
            assert(bv.take(b.len() as int) =~= bv);
            av.take(i as int).lemma_flat_map_push(joined_with(bv, cb as int, ca as int), r);
            assert(av.take(i + 1) =~= av.take(i as int).push(r));
        }
    }
    assert(av.take(a.len() as int) =~= av);
    out
}


/// A comparison of a value with a constant.
pub enum Relation {
    Eq,
    Lt,
    Gt,
}

/// `x rel k`.
pub open spec fn relation_holds(rel: Relation, x: u64, k: u64) -> bool {
    match rel {
        Relation::Eq => x == k,
        Relation::Lt => x < k,
        Relation::Gt => x > k,
    }
}

/// Rows whose column `c` stands in relation `rel` to `k`.
pub open spec fn row_satisfies(c: int, rel: Relation, k: u64) -> spec_fn(Seq<u64>) -> bool {
    |r: Seq<u64>| relation_holds(rel, r[c], k)
}

/// For each row of `t`: whether its column `c` stands in relation `rel` to `k`.
pub open spec fn condition_flags(t: Seq<Seq<u64>>, c: int, rel: Relation, k: u64) -> Seq<bool> {
    Seq::new(t.len(), |i: int| relation_holds(rel, t[i][c], k))
}

fn relation_test(rel: &Relation, x: u64, k: u64) -> (b: bool)
    ensures
        b == relation_holds(*rel, x, k),
{
    match rel {
        Relation::Eq => x == k,
        Relation::Lt => x < k,
        Relation::Gt => x > k,
    }
}

/// For each row of `t`: whether `t[i][c] rel k`.
pub fn condition_check(t: &Vec<Vec<u64>>, c: usize, rel: &Relation, k: u64) -> (flags: Vec<bool>)
    requires
        has_width(t.deep_view(), c + 1),
    ensures
        flags@ == condition_flags(t.deep_view(), c as int, *rel, k),
{
    let ghost tv = t.deep_view();
    let mut flags: Vec<bool> = Vec::new();
    for i in 0..t.len()
        invariant
            tv == t.deep_view(),
            has_width(tv, c + 1),
            flags.len() == i,
            forall|j: int| 0 <= j < i ==> #[trigger] flags[j] == relation_holds(*rel, tv[j][c as int], k),
    {
        assert(tv[i as int].len() >= c + 1);
        assert(t[i as int]@ =~= tv[i as int]);
        flags.push(relation_test(rel, t[i][c], k));
    }
    assert(flags@ =~= condition_flags(tv, c as int, *rel, k));
    flags
}

/// The rows of `t` with `t[i][c] rel k`, in order.
pub fn filter_rows(t: &Vec<Vec<u64>>, c: usize, rel: &Relation, k: u64) -> (out: Vec<Vec<u64>>)
    requires
        has_width(t.deep_view(), c + 1),
    ensures
        out.deep_view() == t.deep_view().filter(row_satisfies(c as int, *rel, k)),
{
    let ghost tv = t.deep_view();
    let mut out: Vec<Vec<u64>> = Vec::new();
    for i in 0..t.len()
        invariant
            tv == t.deep_view(),
            has_width(tv, c + 1),
            out.deep_view() == tv.take(i as int).filter(row_satisfies(c as int, *rel, k)),
    {
        let ghost pre = tv.take(i as int);
        let ghost cur = tv.take(i + 1);
        proof {
            reveal_with_fuel(Seq::filter, 1);
        }
        assert(cur.drop_last() =~= pre);
        assert(cur.last() == tv[i as int]);
        assert(tv[i as int].len() >= c + 1);
        assert(t[i as int]@ =~= tv[i as int]);
        if relation_test(rel, t[i][c], k) {
            let row = t[i].clone();
            assert(row@ =~= tv[i as int]);
            assert(row.deep_view() =~= row@);
            let ghost old_out = out.deep_view();
            out.push(row);
            assert(out.deep_view() =~= old_out.push(tv[i as int]));
        }
    }
    assert(tv.take(t.len() as int) =~= tv);
    out
}

/// The given column indices as a vector.
pub fn usize_vec(a: &[usize]) -> (v: Vec<usize>)
    ensures
        v@ == a@,
{
    let mut v: Vec<usize> = Vec::new();
    for i in 0..a.len()
        invariant
            v@ == a@.take(i as int),
    {
        v.push(a[i]);
        assert(a@.take(i + 1) =~= a@.take(i as int).push(a@[i as int]));
    }
    assert(a@.take(a@.len() as int) =~= a@);
    v
}

/// Sort keys `r[c]` of the rows of `t`.
pub fn column_keys(t: &Vec<Vec<u64>>, c: usize) -> (keys: Vec<u128>)
    requires
        has_width(t.deep_view(), c + 1),
    ensures
        keys.len() == t.len(),
        crate::sort::ints_of_u128(keys@) == t.deep_view().map_values(|r: Seq<u64>| r[c as int] as int),
{
    let col = column_values(t, c);
    let mut keys: Vec<u128> = Vec::new();
    for i in 0..col.len()
        invariant
            col@ == column(t.deep_view(), c as int),
            keys.len() == i,
            forall|k: int| 0 <= k < i ==> #[trigger] keys[k] == col[k] as u128,
    {
        keys.push(col[i] as u128);
    }
    assert(crate::sort::ints_of_u128(keys@) =~= t.deep_view().map_values(|r: Seq<u64>| r[c as int] as int));
    keys
}

/// Values `u64` widened to `u128`.
pub fn widen(v: &Vec<u64>) -> (w: Vec<u128>)
    ensures
        w.len() == v.len(),
        crate::sort::ints_of_u128(w@) == v@.map_values(|x: u64| x as int),
{
    let mut w: Vec<u128> = Vec::new();
    for i in 0..v.len()
        invariant
            w.len() == i,
            forall|k: int| 0 <= k < i ==> #[trigger] w[k] == v[k] as u128,
    {
        w.push(v[i] as u128);
    }
    assert(crate::sort::ints_of_u128(w@) =~= v@.map_values(|x: u64| x as int));
    w
}

/// Sort key putting column `d` descending and, among equal values, column `a` ascending.
pub open spec fn desc_asc_key(r: Seq<u64>, d: int, a: int) -> int {
    (u64::MAX - r[d]) * 0x1_0000_0000_0000_0000 + r[a]
}

/// The keys `desc_asc_key(r, d, a)` of the rows of `t`.
pub fn desc_asc_keys(t: &Vec<Vec<u64>>, d: usize, a: usize) -> (keys: Vec<u128>)
    requires
        has_width(t.deep_view(), d + 1),
        has_width(t.deep_view(), a + 1),
    ensures
        keys.len() == t.len(),
        crate::sort::ints_of_u128(keys@) == t.deep_view().map_values(|r: Seq<u64>| desc_asc_key(r, d as int, a as int)),
{
    let ghost tv = t.deep_view();
    let mut keys: Vec<u128> = Vec::new();
    for i in 0..t.len()
        invariant
            tv == t.deep_view(),
            has_width(tv, d + 1),
            has_width(tv, a + 1),
            keys.len() == i,
            forall|k: int| 0 <= k < i ==> #[trigger] keys[k] as int == desc_asc_key(tv[k], d as int, a as int),
    {
        assert(tv[i as int].len() >= d + 1 && tv[i as int].len() >= a + 1);
        assert(t[i as int]@ =~= tv[i as int]);
        let hi = (u64::MAX - t[i][d]) as u128;
        let lo = t[i][a];
        assert(hi * 0x1_0000_0000_0000_0000u128 + lo as u128 <= u128::MAX) by (nonlinear_arith)
            requires
                hi <= u64::MAX,
                lo <= u64::MAX,
        ;
        keys.push(hi * 0x1_0000_0000_0000_0000u128 + lo as u128);
    }
    assert(crate::sort::ints_of_u128(keys@) =~= tv.map_values(|r: Seq<u64>| desc_asc_key(r, d as int, a as int)));
    keys
}

/// Selection law: `=`, `<` and `>` against a constant select exactly the rows
/// whose column `c` is equal to, strictly less than, or strictly greater than
/// `k`, and the flags say the same row by row.
pub proof fn law_selections(t: Seq<Seq<u64>>, c: int, k: u64)
    ensures
        t.filter(row_satisfies(c, Relation::Eq, k)) == t.filter(|r: Seq<u64>| r[c] == k),
        t.filter(row_satisfies(c, Relation::Lt, k)) == t.filter(|r: Seq<u64>| r[c] < k),
        t.filter(row_satisfies(c, Relation::Gt, k)) == t.filter(|r: Seq<u64>| r[c] > k),
        condition_flags(t, c, Relation::Eq, k).len() == t.len(),
        condition_flags(t, c, Relation::Lt, k).len() == t.len(),
        condition_flags(t, c, Relation::Gt, k).len() == t.len(),
        forall|i: int| 0 <= i < t.len() ==> (#[trigger] condition_flags(t, c, Relation::Eq, k)[i] <==> t[i][c] == k),
        forall|i: int| 0 <= i < t.len() ==> (#[trigger] condition_flags(t, c, Relation::Lt, k)[i] <==> t[i][c] < k),
        forall|i: int| 0 <= i < t.len() ==> (#[trigger] condition_flags(t, c, Relation::Gt, k)[i] <==> t[i][c] > k),
{
    assert(row_satisfies(c, Relation::Eq, k) =~= (|r: Seq<u64>| r[c] == k));
    assert(row_satisfies(c, Relation::Lt, k) =~= (|r: Seq<u64>| r[c] < k));
    assert(row_satisfies(c, Relation::Gt, k) =~= (|r: Seq<u64>| r[c] > k));
}

/// Equi-join law, exact in multiplicity: joining no rows gives no rows, and
/// joining one more row of `a` appends that row extended by each of its
/// partners in `b`, in order, once each.
pub proof fn law_join_all_rows(a: Seq<Seq<u64>>, ca: int, b: Seq<Seq<u64>>, cb: int, r: Seq<u64>)
    ensures
        join_all(Seq::<Seq<u64>>::empty(), ca, b, cb) == Seq::<Seq<u64>>::empty(),
        join_all(a.push(r), ca, b, cb) == join_all(a, ca, b, cb) + b.filter(|x: Seq<u64>| x[cb] == r[ca]).map_values(
            |x: Seq<u64>| r + x,
        ),
{
    let e = Seq::<Seq<u64>>::empty();
    assert(e.map_values(joined_with(b, cb, ca)) =~= Seq::<Seq<Seq<u64>>>::empty());
    assert(join_all(e, ca, b, cb) =~= e);
    a.lemma_flat_map_push(joined_with(b, cb, ca), r);
    assert(key_eq(cb, r[ca]) =~= (|x: Seq<u64>| x[cb] == r[ca]));
    assert(joined_with(b, cb, ca)(r) == b.filter(|x: Seq<u64>| x[cb] == r[ca]).map_values(|x: Seq<u64>| r + x));
}

/// A column holds, row by row, that column's values.
pub proof fn law_column(t: Seq<Seq<u64>>, c: int)
    ensures
        column(t, c).len() == t.len(),
        forall|i: int| 0 <= i < t.len() ==> #[trigger] column(t, c)[i] == t[i][c],
{
}

/// Semi-join and anti-join law: no rows give no rows; one more row of `t`
/// goes to the rows with a partner when some row of `other` holds its key in
/// column `oc`, and to the rows without one otherwise.
pub proof fn law_split_rows(t: Seq<Seq<u64>>, c: int, other: Seq<Seq<u64>>, oc: int, r: Seq<u64>)
    ensures
        matching(Seq::<Seq<u64>>::empty(), c, other, oc) == Seq::<Seq<u64>>::empty(),
        non_matching(Seq::<Seq<u64>>::empty(), c, other, oc) == Seq::<Seq<u64>>::empty(),
        (exists|j: int| 0 <= j < other.len() && #[trigger] other[j][oc] == r[c]) ==> {
            &&& matching(t.push(r), c, other, oc) == matching(t, c, other, oc).push(r)
            &&& non_matching(t.push(r), c, other, oc) == non_matching(t, c, other, oc)
        },
        (forall|j: int| 0 <= j < other.len() ==> #[trigger] other[j][oc] != r[c]) ==> {
            &&& matching(t.push(r), c, other, oc) == matching(t, c, other, oc)
            &&& non_matching(t.push(r), c, other, oc) == non_matching(t, c, other, oc).push(r)
        },
{
    reveal_with_fuel(Seq::filter, 1);
    let e = Seq::<Seq<u64>>::empty();
    assert(t.push(r).drop_last() =~= t);
    assert(e.filter(key_in(other, oc, c)) =~= e);
    assert(e.filter(key_not_in(other, oc, c)) =~= e);
    if exists|j: int| 0 <= j < other.len() && #[trigger] other[j][oc] == r[c] {
        let j = choose|j: int| 0 <= j < other.len() && #[trigger] other[j][oc] == r[c];
        assert(column(other, oc)[j] == r[c]);
        assert(has_key(other, oc, r[c]));
    }
    if forall|j: int| 0 <= j < other.len() ==> #[trigger] other[j][oc] != r[c] {
        if has_key(other, oc, r[c]) {
            let j = choose|j: int| 0 <= j < column(other, oc).len() && column(other, oc)[j] == r[c];
            assert(other[j][oc] == r[c]);
        }
    }
}

/// First-match join law: no rows give no rows; one more row of `a` adds
/// nothing when no row of `b` holds its key, and otherwise adds that row
/// extended by the first row `b[q]` holding it (and `b[q]` to the partners).
pub proof fn law_join_first_rows(a: Seq<Seq<u64>>, ca: int, b: Seq<Seq<u64>>, cb: int, r: Seq<u64>, q: int)
    ensures
        join_first(Seq::<Seq<u64>>::empty(), ca, b, cb) == Seq::<Seq<u64>>::empty(),
        (forall|j: int| 0 <= j < b.len() ==> #[trigger] b[j][cb] != r[ca]) ==> {
            &&& join_first(a.push(r), ca, b, cb) == join_first(a, ca, b, cb)
            &&& first_partners(a.push(r), ca, b, cb) == first_partners(a, ca, b, cb)
        },
        (0 <= q < b.len() && b[q][cb] == r[ca] && forall|j: int| 0 <= j < q ==> #[trigger] b[j][cb] != r[ca]) ==> {
            &&& join_first(a.push(r), ca, b, cb) == join_first(a, ca, b, cb).push(r + b[q])
            &&& first_partners(a.push(r), ca, b, cb) == first_partners(a, ca, b, cb).push(b[q])
        },
{
    law_split_rows(a, ca, b, cb, r);
    let e = Seq::<Seq<u64>>::empty();
    assert(join_first(e, ca, b, cb) =~= e);
    if 0 <= q < b.len() && b[q][cb] == r[ca] && forall|j: int| 0 <= j < q ==> #[trigger] b[j][cb] != r[ca] {
        assert(is_first_key_index(b, cb, r[ca], q));
        lemma_first_partner(b, cb, r[ca], q);
        assert(matching(a.push(r), ca, b, cb) == matching(a, ca, b, cb).push(r));
        assert(join_first(a.push(r), ca, b, cb) =~= join_first(a, ca, b, cb).push(r + b[q]));
        assert(first_partners(a.push(r), ca, b, cb) =~= first_partners(a, ca, b, cb).push(b[q]));
    }
}

/// An equi-join has at most as many rows as there are pairs of rows.
pub proof fn lemma_join_all_len(a: Seq<Seq<u64>>, ca: int, b: Seq<Seq<u64>>, cb: int)
    ensures
        join_all(a, ca, b, cb).len() <= a.len() * b.len(),
    decreases a.len(),
{
    if a.len() == 0 {
        law_join_all_rows(a, ca, b, cb, Seq::empty());
        assert(a =~= Seq::<Seq<u64>>::empty());
        assert(a.len() * b.len() == 0) by (nonlinear_arith)
            requires
                a.len() == 0,
        ;
    } else {
        let d = a.drop_last();
        let r = a.last();
        lemma_join_all_len(d, ca, b, cb);
        law_join_all_rows(d, ca, b, cb, r);
        assert(d.push(r) =~= a);
        b.filter_lemma(|x: Seq<u64>| x[cb] == r[ca]);
        let n = a.len() as int;
        assert((n - 1) * b.len() + b.len() == n * b.len()) by (nonlinear_arith);
    }
}

} // verus!
