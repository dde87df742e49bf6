//! Grouping helpers: projections onto key columns, "same group as the row
//! before" flags, running sums within groups of consecutive rows, and
//! totals per distinct key.

use crate::sort::{
    ints_of_u128, is_index_permutation, lemma_lex_value_order, lemma_sort_by_keys,
    lemma_stable_order_is_permutation, lex_before, lex_ordered, lex_value, lex_values, sort_by_keys,
    stable_order,
};
use crate::table::has_width;
use std::collections::HashSet;
use vstd::prelude::*;

verus! {

broadcast use vstd::std_specs::hash::group_hash_axioms;

/// The key of row `r`: its values in the columns `cols`, in that order.
pub open spec fn row_key(r: Seq<u64>, cols: Seq<usize>) -> Seq<u64> {
    cols.map_values(|c: usize| r[c as int])
}

/// Every row of `t` has each of the columns `cols`.
pub open spec fn has_columns(t: Seq<Seq<u64>>, cols: Seq<usize>) -> bool {
    forall|k: int| 0 <= k < cols.len() ==> has_width(t, #[trigger] cols[k] + 1)
}

/// The keys of the rows of `t` (`t` projected onto `cols`).
pub open spec fn project(t: Seq<Seq<u64>>, cols: Seq<usize>) -> Seq<Seq<u64>> {
    t.map_values(|r: Seq<u64>| row_key(r, cols))
}

/// For each row: 1 when it has the same key as the row before it, else 0
/// (the first row gets 0).
pub open spec fn same_key_flags(keys: Seq<Seq<u64>>) -> Seq<u64> {
    Seq::new(keys.len(), |i: int| if i > 0 && keys[i] == keys[i - 1] { 1u64 } else { 0u64 })
}

/// The running sum after `i` rows: `s(0) = 0`, `s(i + 1) = s(i) * f[i] + v[i]`,
/// so with 0/1 flags it is the sum of `v` over the current run of rows.
pub open spec fn run_sum(f: Seq<u64>, v: Seq<int>, i: int) -> int
    decreases i,
{
    if i <= 0 {
        0
    } else {
        run_sum(f, v, i - 1) * f[i - 1] + v[i - 1]
    }
}

/// All running sums, `s(0)` to `s(n)`.
pub open spec fn run_sums(f: Seq<u64>, v: Seq<int>) -> Seq<int> {
    Seq::new(f.len() + 1, |i: int| run_sum(f, v, i))
}

pub open spec fn ints_of_u64(s: Seq<u64>) -> Seq<int> {
    s.map_values(|x: u64| x as int)
}

/// Every flag is 0 or 1.
pub open spec fn flags_01(f: Seq<u64>) -> bool {
    forall|i: int| 0 <= i < f.len() ==> #[trigger] f[i] <= 1
}

/// The keys of `t` for the columns `cols`.
pub fn project_rows(t: &Vec<Vec<u64>>, cols: &Vec<usize>) -> (out: Vec<Vec<u64>>)
    requires
        has_columns(t.deep_view(), cols@),
    ensures
        out.deep_view() == project(t.deep_view(), cols@),
{
    let ghost tv = t.deep_view();
    let mut out: Vec<Vec<u64>> = Vec::new();
    for i in 0..t.len()
        invariant
            tv == t.deep_view(),
            has_columns(tv, cols@),
            out.deep_view() == project(tv.take(i as int), cols@),
    {
        let mut key: Vec<u64> = Vec::new();
        for k in 0..cols.len()
            invariant
                tv == t.deep_view(),
                has_columns(tv, cols@),
                i < t.len(),
                key@ == row_key(tv[i as int], cols@.take(k as int)),
        {
            assert(has_width(tv, cols@[k as int] + 1));
            assert(tv[i as int].len() >= cols@[k as int] + 1);
            key.push(t[i][cols[k]]);
            assert(row_key(tv[i as int], cols@.take(k + 1)) =~= row_key(tv[i as int], cols@.take(k as int)).push(
                tv[i as int][cols@[k as int] as int],
            ));
        }
        assert(cols@.take(cols.len() as int) =~= cols@);
        assert(key.deep_view() =~= key@);
        let ghost old_out = out.deep_view();
        out.push(key);
        assert(out.deep_view() =~= old_out.push(row_key(tv[i as int], cols@)));
        assert(project(tv.take(i + 1), cols@) =~= project(tv.take(i as int), cols@).push(row_key(tv[i as int], cols@)));
    }
    assert(tv.take(t.len() as int) =~= tv);
    out
}

/// Whether two rows are equal.
pub fn rows_equal(x: &Vec<u64>, y: &Vec<u64>) -> (eq: bool)
    ensures
        eq == (x@ == y@),
{
    if x.len() != y.len() {
        return false;
    }
    for i in 0..x.len()
        invariant
            x.len() == y.len(),
            forall|j: int| 0 <= j < i ==> x@[j] == y@[j],
    {
        if x[i] != y[i] {
            return false;
        }
    }
    assert(x@ =~= y@);
    true
}

/// For each key: 1 when equal to the key before it, else 0.
pub fn key_flags(keys: &Vec<Vec<u64>>) -> (f: Vec<u64>)
    ensures
        f@ == same_key_flags(keys.deep_view()),
{
    let ghost kv = keys.deep_view();
    let mut f: Vec<u64> = Vec::new();
    for i in 0..keys.len()
        invariant
            kv == keys.deep_view(),
            f@ == same_key_flags(kv).take(i as int),
    {
        if i == 0 {
            f.push(0);
        } else {
            assert(keys[i as int]@ =~= kv[i as int]);
            assert(keys[i - 1]@ =~= kv[i - 1]);
            if rows_equal(&keys[i], &keys[i - 1]) {
                f.push(1);
            } else {
                f.push(0);
            }
        }
        assert(same_key_flags(kv).take(i + 1) =~= same_key_flags(kv).take(i as int).push(
            same_key_flags(kv)[i as int],
        ));
    }
    assert(same_key_flags(kv).take(keys.len() as int) =~= same_key_flags(kv));
    f
}

/// The running sums within runs of flagged rows, in `u64`; `None` when one
/// of them exceeds `u64::MAX`.
pub fn running_sums_u64(f: &Vec<u64>, v: &Vec<u64>) -> (res: Option<Vec<u64>>)
    requires
        f.len() == v.len(),
        flags_01(f@),
    ensures
        match res {
            Some(s) => ints_of_u64(s@) == run_sums(f@, ints_of_u64(v@)),
            None => exists|i: int| 0 <= i <= f.len() && run_sum(f@, ints_of_u64(v@), i) > u64::MAX,
        },
{
    let ghost vi = ints_of_u64(v@);
    let mut s: Vec<u64> = Vec::new();
    s.push(0);
    let n = f.len();
    for i in 0..n
        invariant
            n == f.len(),
            f.len() == v.len(),
            flags_01(f@),
            vi == ints_of_u64(v@),
            s.len() == i + 1,
            forall|j: int| 0 <= j <= i ==> #[trigger] s[j] as int == run_sum(f@, vi, j),
    {
        let prev = s[i];
        assert(f[i as int] <= 1);
        let carried: u64 = if f[i] == 1 { prev } else { 0 };
        assert(run_sum(f@, vi, i + 1) == run_sum(f@, vi, i as int) * f@[i as int] + vi[i as int]);
        assert(carried as int == run_sum(f@, vi, i as int) * f@[i as int]) by (nonlinear_arith)
            requires
                f@[i as int] <= 1,
                prev as int == run_sum(f@, vi, i as int),
                carried == (if f@[i as int] == 1 { prev } else { 0 }),
        ;
        match carried.checked_add(v[i]) {
            Some(x) => {
                s.push(x);
            },
            None => {
                assert(run_sum(f@, vi, i + 1) > u64::MAX);
                return None;
            },
        }
    }
    assert(ints_of_u64(s@) =~= run_sums(f@, vi));
    Some(s)
}

/// The running sums within runs of flagged rows, in `u128`; `None` when one
/// of them exceeds `u128::MAX`.
pub fn running_sums_u128(f: &Vec<u64>, v: &Vec<u128>) -> (res: Option<Vec<u128>>)
    requires
        f.len() == v.len(),
        flags_01(f@),
    ensures
        match res {
            Some(s) => ints_of_u128(s@) == run_sums(f@, ints_of_u128(v@)),
            None => exists|i: int| 0 <= i <= f.len() && run_sum(f@, ints_of_u128(v@), i) > u128::MAX,
        },
{
    let ghost vi = ints_of_u128(v@);
    let mut s: Vec<u128> = Vec::new();
    s.push(0);
    let n = f.len();
    for i in 0..n
        invariant
            n == f.len(),
            f.len() == v.len(),
            flags_01(f@),
            vi == ints_of_u128(v@),
            s.len() == i + 1,
            forall|j: int| 0 <= j <= i ==> #[trigger] s[j] as int == run_sum(f@, vi, j),
    {
        let prev = s[i];
        assert(f[i as int] <= 1);
        let carried: u128 = if f[i] == 1 { prev } else { 0 };
        assert(run_sum(f@, vi, i + 1) == run_sum(f@, vi, i as int) * f@[i as int] + vi[i as int]);
        assert(carried as int == run_sum(f@, vi, i as int) * f@[i as int]) by (nonlinear_arith)
            requires
                f@[i as int] <= 1,
                prev as int == run_sum(f@, vi, i as int),
                carried == (if f@[i as int] == 1 { prev } else { 0 }),
        ;
        match carried.checked_add(v[i]) {
            Some(x) => {
                s.push(x);
            },
            None => {
                assert(run_sum(f@, vi, i + 1) > u128::MAX);
                return None;
            },
        }
    }
    assert(ints_of_u128(s@) =~= run_sums(f@, vi));
    Some(s)
}

/// With 0/1 flags and values of at most `m`, the running sum after `i` rows is at most `i * m`.
pub proof fn lemma_run_sum_bound(f: Seq<u64>, v: Seq<int>, m: int, i: int)
    requires
        flags_01(f),
        0 <= i <= f.len(),
        v.len() == f.len(),
        forall|j: int| 0 <= j < v.len() ==> 0 <= #[trigger] v[j] <= m,
    ensures
        0 <= run_sum(f, v, i) <= i * m,
    decreases i,
{
    if i > 0 {
        lemma_run_sum_bound(f, v, m, i - 1);
        let p = run_sum(f, v, i - 1);
        assert(f[i - 1] <= 1);
        assert(0 <= p * f[i - 1] <= p) by (nonlinear_arith)
            requires
                0 <= p,
                0 <= f[i - 1] <= 1,
        ;
        assert(0 <= v[i - 1] <= m);
        assert((i - 1) * m + m == i * m) by (nonlinear_arith);
        assert(run_sum(f, v, i) == p * f[i - 1] + v[i - 1]);
        assert(run_sum(f, v, i) <= p + m);
        assert(p + m <= i * m);
    } else {
        assert(i * m == 0) by (nonlinear_arith)
            requires
                i == 0,
        ;
    }
}


/// The sum of `v[i]` over the rows `i` whose key is `k`.
pub open spec fn key_total(keys: Seq<Seq<u64>>, v: Seq<int>, k: Seq<u64>) -> int
    decreases keys.len(),
{
    if keys.len() == 0 || v.len() == 0 {
        0
    } else {
        key_total(keys.drop_last(), v.drop_last(), k) + if keys.last() == k {
            v.last()
        } else {
            0
        }
    }
}

/// The distinct keys, in order of first appearance.
pub open spec fn distinct_keys(keys: Seq<Seq<u64>>) -> Seq<Seq<u64>> {
    keys.remove_duplicates(Seq::empty())
}

/// Removing duplicates after an already duplicate-free prefix leaves no duplicates.
pub proof fn lemma_remove_duplicates_distinct<A>(s: Seq<A>, seen: Seq<A>)
    requires
        seen.no_duplicates(),
    ensures
        s.remove_duplicates(seen).no_duplicates(),
    decreases s.len(),
{
    if s.len() > 0 {
        if seen.contains(s[0]) {
            lemma_remove_duplicates_distinct(s.skip(1), seen);
        } else {
            let seen2 = seen + seq![s[0]];
            assert forall|i: int, j: int| 0 <= i < seen2.len() && 0 <= j < seen2.len() && i != j implies seen2[i]
                != seen2[j] by {
                if i == seen.len() {
                    assert(!seen.contains(seen2[j]) || seen2[j] != s[0]);
                    if j < seen.len() {
                        assert(seen[j] == seen2[j]);
                    }
                } else if j == seen.len() {
                    if i < seen.len() {
                        assert(seen[i] == seen2[i]);
                    }
                }
            }
            lemma_remove_duplicates_distinct(s.skip(1), seen2);
        }
    }
}

/// Every key's total fits in a `u64`.
pub open spec fn totals_fit(keys: Seq<Seq<u64>>, v: Seq<int>) -> bool {
    forall|k: Seq<u64>| keys.contains(k) ==> #[trigger] key_total(keys, v, k) <= u64::MAX
}

/// One row per distinct key, in order of first appearance: the key followed
/// by the total of its values.
pub open spec fn group_rows(keys: Seq<Seq<u64>>, v: Seq<int>) -> Seq<Seq<u64>> {
    distinct_keys(keys).map_values(|k: Seq<u64>| k.push(key_total(keys, v, k) as u64))
}

/// All values are nonnegative.
pub open spec fn nonneg(v: Seq<int>) -> bool {
    forall|j: int| 0 <= j < v.len() ==> 0 <= #[trigger] v[j]
}

/// Totals only grow as rows are added.
pub proof fn lemma_key_total_prefix(keys: Seq<Seq<u64>>, v: Seq<int>, k: Seq<u64>, i: int)
    requires
        keys.len() == v.len(),
        nonneg(v),
        0 <= i <= keys.len(),
    ensures
        0 <= key_total(keys.take(i), v.take(i), k) <= key_total(keys, v, k),
    decreases keys.len(),
{
    if i == keys.len() {
        assert(keys.take(i) =~= keys);
        assert(v.take(i) =~= v);
        lemma_key_total_nonneg(keys, v, k);
    } else {
        let kd = keys.drop_last();
        let vd = v.drop_last();
        assert(nonneg(vd));
        lemma_key_total_prefix(kd, vd, k, i);
        assert(kd.take(i) =~= keys.take(i));
        assert(vd.take(i) =~= v.take(i));
        assert(0 <= v.last());
    }
}

/// Totals of nonnegative values are nonnegative.
pub proof fn lemma_key_total_nonneg(keys: Seq<Seq<u64>>, v: Seq<int>, k: Seq<u64>)
    requires
        keys.len() == v.len(),
        nonneg(v),
    ensures
        0 <= key_total(keys, v, k),
    decreases keys.len(),
{
    if keys.len() > 0 {
        let vd = v.drop_last();
        assert(nonneg(vd));
        lemma_key_total_nonneg(keys.drop_last(), vd, k);
        assert(0 <= v.last());
    }
}

proof fn lemma_key_total_push(keys: Seq<Seq<u64>>, v: Seq<int>, x: Seq<u64>, y: int, k: Seq<u64>)
    requires
        keys.len() == v.len(),
    ensures
        key_total(keys.push(x), v.push(y), k) == key_total(keys, v, k) + if x == k { y } else { 0 },
{
    assert(keys.push(x).drop_last() =~= keys);
    assert(v.push(y).drop_last() =~= v);
}

/// Rows with equal keys are contiguous: a key never reappears after a different one.
pub open spec fn keys_contiguous(keys: Seq<Seq<u64>>) -> bool {
    forall|a: int, b: int, c: int|
        0 <= a < b < c < keys.len() && #[trigger] keys[a] == #[trigger] keys[c] ==> #[trigger] keys[b] == keys[a]
}

/// With contiguous keys, the running sum at a row is the total of its key so far.
pub proof fn lemma_run_sum_contiguous(keys: Seq<Seq<u64>>, v: Seq<int>, i: int)
    requires
        keys.len() == v.len(),
        keys_contiguous(keys),
        0 <= i < keys.len(),
    ensures
        run_sum(same_key_flags(keys), v, i + 1) == key_total(keys.take(i + 1), v.take(i + 1), keys[i]),
    decreases i,
{
    let f = same_key_flags(keys);
    let kp = keys.take(i);
    let vp = v.take(i);
    assert(keys.take(i + 1) =~= kp.push(keys[i]));
    assert(v.take(i + 1) =~= vp.push(v[i]));
    lemma_key_total_push(kp, vp, keys[i], v[i], keys[i]);
    if i > 0 && keys[i] == keys[i - 1] {
        lemma_run_sum_contiguous(keys, v, i - 1);
        assert(run_sum(f, v, i + 1) == run_sum(f, v, i) * 1 + v[i]);
        assert(kp =~= keys.take(i - 1 + 1));
    } else {
        assert(run_sum(f, v, i + 1) == run_sum(f, v, i) * 0 + v[i]);
        assert(!kp.contains(keys[i])) by {
            if kp.contains(keys[i]) {
                let m = choose|m: int| 0 <= m < kp.len() && kp[m] == keys[i];
                assert(keys[m] == keys[i]);
                if m < i - 1 {
                    assert(keys[i - 1] == keys[m]);
                }
            }
        }
        lemma_key_total_absent(kp, vp, keys[i]);
    }
}

/// Rows after the last occurrence of a key add nothing to its total.
pub proof fn lemma_key_total_after_last(keys: Seq<Seq<u64>>, v: Seq<int>, j: int, i: int)
    requires
        keys.len() == v.len(),
        0 <= j < i <= keys.len(),
        forall|m: int| j < m < keys.len() ==> #[trigger] keys[m] != keys[j],
    ensures
        key_total(keys.take(i), v.take(i), keys[j]) == key_total(keys.take(j + 1), v.take(j + 1), keys[j]),
    decreases i - j,
{
    if i > j + 1 {
        lemma_key_total_after_last(keys, v, j, i - 1);
        assert(keys.take(i) =~= keys.take(i - 1).push(keys[i - 1]));
        assert(v.take(i) =~= v.take(i - 1).push(v[i - 1]));
        lemma_key_total_push(keys.take(i - 1), v.take(i - 1), keys[i - 1], v[i - 1], keys[j]);
    }
}

proof fn lemma_key_total_insert(s: Seq<Seq<u64>>, w: Seq<int>, j: int, x: Seq<u64>, y: int, k: Seq<u64>)
    requires
        s.len() == w.len(),
        0 <= j <= s.len(),
    ensures
        key_total(s.insert(j, x), w.insert(j, y), k) == key_total(s, w, k) + if x == k {
            y
        } else {
            0
        },
    decreases s.len(),
{
    if j == s.len() {
        assert(s.insert(j, x) =~= s.push(x));
        assert(w.insert(j, y) =~= w.push(y));
        lemma_key_total_push(s, w, x, y, k);
    } else {
        let sd = s.drop_last();
        let wd = w.drop_last();
        lemma_key_total_insert(sd, wd, j, x, y, k);
        assert(s.insert(j, x).drop_last() =~= sd.insert(j, x));
        assert(w.insert(j, y).drop_last() =~= wd.insert(j, y));
        assert(s.insert(j, x).last() == s.last());
        assert(w.insert(j, y).last() == w.last());
    }
}

/// Totals per key do not depend on the order of the rows.
pub proof fn lemma_key_total_permutation(keys: Seq<Seq<u64>>, v: Seq<int>, o: Seq<int>, k: Seq<u64>)
    requires
        keys.len() == v.len(),
        is_index_permutation(o, keys.len() as int),
    ensures
        key_total(o.map_values(|i: int| keys[i]), o.map_values(|i: int| v[i]), k) == key_total(keys, v, k),
    decreases keys.len(),
{
    if keys.len() == 0 {
        assert(o.map_values(|i: int| keys[i]) =~= Seq::<Seq<u64>>::empty());
    } else {
        let n = keys.len() as int;
        assert(o.contains(n - 1));
        let j = choose|j: int| 0 <= j < o.len() && o[j] == n - 1;
        let o2 = o.remove(j);
        let kd = keys.drop_last();
        let vd = v.drop_last();
        assert forall|q: int| 0 <= q < o2.len() implies 0 <= #[trigger] o2[q] < n - 1 by {
            if q < j {
                assert(o2[q] == o[q]);
            } else {
                assert(o2[q] == o[q + 1]);
            }
        }
        assert forall|x: int| 0 <= x < n - 1 implies #[trigger] o2.contains(x) by {
            assert(o.contains(x));
            let m = choose|m: int| 0 <= m < o.len() && o[m] == x;
            if m < j {
                assert(o2[m] == x);
            } else {
                assert(o2[m - 1] == x);
            }
        }
        assert forall|p: int, q: int| 0 <= p < q < o2.len() implies #[trigger] o2[p] != #[trigger] o2[q] by {
            let p2 = if p < j { p } else { p + 1 };
            let q2 = if q < j { q } else { q + 1 };
            assert(o2[p] == o[p2] && o2[q] == o[q2]);
        }
        lemma_key_total_permutation(kd, vd, o2, k);
        let mk = o2.map_values(|i: int| kd[i]);
        let mv = o2.map_values(|i: int| vd[i]);
        assert(o.map_values(|i: int| keys[i]) =~= mk.insert(j, keys[n - 1]));
        assert(o.map_values(|i: int| v[i]) =~= mv.insert(j, v[n - 1]));
        lemma_key_total_insert(mk, mv, j, keys[n - 1], v[n - 1], k);
    }
}

/// Within a run of equal consecutive keys, the running sum never exceeds the
/// total of that key.
pub proof fn lemma_run_sum_le_total(keys: Seq<Seq<u64>>, v: Seq<int>, i: int)
    requires
        keys.len() == v.len(),
        nonneg(v),
        0 <= i < keys.len(),
    ensures
        run_sum(same_key_flags(keys), v, i + 1) <= key_total(keys.take(i + 1), v.take(i + 1), keys[i]),
        run_sum(same_key_flags(keys), v, i + 1) <= key_total(keys, v, keys[i]),
    decreases i,
{
    let f = same_key_flags(keys);
    let kp = keys.take(i);
    let vp = v.take(i);
    assert(keys.take(i + 1) =~= kp.push(keys[i]));
    assert(v.take(i + 1) =~= vp.push(v[i]));
    lemma_key_total_push(kp, vp, keys[i], v[i], keys[i]);
    assert(nonneg(vp));
    assert(0 <= v[i]);
    if i > 0 && keys[i] == keys[i - 1] {
        lemma_run_sum_le_total(keys, v, i - 1);
        assert(f[i] == 1);
        assert(run_sum(f, v, i + 1) == run_sum(f, v, i) * 1 + v[i]);
    } else {
        assert(f[i] == 0);
        assert(run_sum(f, v, i + 1) == run_sum(f, v, i) * 0 + v[i]);
        lemma_key_total_nonneg(kp, vp, keys[i]);
    }
    lemma_key_total_prefix(keys, v, keys[i], i + 1);
}

/// Totals per distinct key (in order of first appearance), each row being the
/// key followed by its total; `None` when some total exceeds `u64::MAX`.
pub fn group_totals(keys: &Vec<Vec<u64>>, v: &Vec<u128>) -> (res: Option<Vec<Vec<u64>>>)
    requires
        keys.len() == v.len(),
    ensures
        match res {
            Some(out) => totals_fit(keys.deep_view(), ints_of_u128(v@)) && out.deep_view() == group_rows(
                keys.deep_view(),
                ints_of_u128(v@),
            ),
            None => !totals_fit(keys.deep_view(), ints_of_u128(v@)),
        },
{
    broadcast use vstd::seq_lib::group_seq_properties;
    let ghost kv = keys.deep_view();
    let ghost vi = ints_of_u128(v@);
    assert(nonneg(vi));
    let mut dk: Vec<Vec<u64>> = Vec::new();
    let mut tot: Vec<u64> = Vec::new();
    for i in 0..keys.len()
        invariant
            kv == keys.deep_view(),
            vi == ints_of_u128(v@),
            nonneg(vi),
            keys.len() == v.len(),
            dk.deep_view() == distinct_keys(kv.take(i as int)),
            forall|a: int, b: int| 0 <= a < dk.len() && 0 <= b < dk.len() && a != b ==>
                dk.deep_view()[a] != dk.deep_view()[b],
            tot.len() == dk.len(),
            forall|j: int| 0 <= j < dk.len() ==> #[trigger] tot[j] as int == key_total(
                kv.take(i as int),
                vi.take(i as int),
                dk.deep_view()[j],
            ),
            totals_fit(kv.take(i as int), vi.take(i as int)),
    {
        let ghost kp = kv.take(i as int);
        let ghost vp = vi.take(i as int);
        let ghost key = kv[i as int];
        assert(kv.take(i + 1) =~= kp.push(key));
        assert(vi.take(i + 1) =~= vp.push(vi[i as int]));
        assert(keys[i as int]@ =~= key);
        proof {
            kp.lemma_remove_duplicates_properties(Seq::empty());
            kp.lemma_remove_duplicates_append(key, Seq::empty());
            assert(kp + Seq::<Seq<u64>>::empty() =~= kp);
            assert(kp + seq![key] =~= kp.push(key));
        }
        let ghost old_dk = dk.deep_view();
        match find_row(&dk, &keys[i]) {
            Some(j) => {
                proof {
                    assert(old_dk.contains(key));
                    assert(kp.contains(key));
                    assert(distinct_keys(kv.take(i + 1)) == old_dk);
                    lemma_key_total_push(kp, vp, key, vi[i as int], key);
                }
                let t = (tot[j] as u128).checked_add(v[i]);
                if t.is_none() || t.unwrap() > u64::MAX as u128 {
                    proof {
                        lemma_key_total_prefix(kv, vi, key, i + 1);
                        assert(kv.contains(key)) by {
                            assert(kv[i as int] == key);
                        }
                    }
                    return None;
                }
                let t = t.unwrap() as u64;
                        assert(dk.deep_view()[j as int] == key);
                assert(t as int == key_total(kv.take(i + 1), vi.take(i + 1), key));
                tot.set(j, t);
                proof {
                    assert forall|j2: int| 0 <= j2 < dk.len() implies #[trigger] tot[j2] as int == key_total(
                        kv.take(i + 1),
                        vi.take(i + 1),
                        dk.deep_view()[j2],
                    ) by {
                        lemma_key_total_push(kp, vp, key, vi[i as int], dk.deep_view()[j2]);
                        if j2 != j {
                            assert(dk.deep_view()[j2] != dk.deep_view()[j as int]);
                        }
                    }
                    assert forall|k: Seq<u64>| kv.take(i + 1).contains(k) implies #[trigger] key_total(
                        kv.take(i + 1),
                        vi.take(i + 1),
                        k,
                    ) <= u64::MAX by {
                        lemma_key_total_push(kp, vp, key, vi[i as int], k);
                        if k != key {
                            let kn = kv.take(i + 1);
                            let m = choose|m: int| 0 <= m < kn.len() && kn[m] == k;
                            assert(kp[m] == k);
                            assert(kp.contains(k));
                            assert(key_total(kp, vp, k) <= u64::MAX);
                            assert(key_total(kn, vi.take(i + 1), k) == key_total(kp, vp, k));
                        } else {
                            assert(key_total(kv.take(i + 1), vi.take(i + 1), key) == t);
                        }
                    }
                }
            },
            None => {
                proof {
                    assert(!old_dk.contains(key));
                    assert(!kp.contains(key));
                    assert(distinct_keys(kv.take(i + 1)) == old_dk + seq![key]);
                    lemma_key_total_push(kp, vp, key, vi[i as int], key);
                    lemma_key_total_nonneg(kp, vp, key);
                    assert(key_total(kp, vp, key) == 0) by {
                        lemma_key_total_absent(kp, vp, key);
                    }
                }
                if v[i] > u64::MAX as u128 {
                    proof {
                        lemma_key_total_prefix(kv, vi, key, i + 1);
                        assert(kv[i as int] == key);
                    }
                    return None;
                }
                let row = keys[i].clone();
                assert(row@ =~= key);
                assert(row.deep_view() =~= row@);
                dk.push(row);
                tot.push(v[i] as u64);
                proof {
                    assert(dk.deep_view() =~= old_dk.push(key));
                    assert forall|j2: int| 0 <= j2 < dk.len() implies #[trigger] tot[j2] as int == key_total(
                        kv.take(i + 1),
                        vi.take(i + 1),
                        dk.deep_view()[j2],
                    ) by {
                        lemma_key_total_push(kp, vp, key, vi[i as int], dk.deep_view()[j2]);
                        if j2 < old_dk.len() {
                            assert(old_dk.contains(old_dk[j2]));
                        }
                    }
                    assert forall|k: Seq<u64>| kv.take(i + 1).contains(k) implies #[trigger] key_total(
                        kv.take(i + 1),
                        vi.take(i + 1),
                        k,
                    ) <= u64::MAX by {
                        lemma_key_total_push(kp, vp, key, vi[i as int], k);
                        if k != key {
                            let kn = kv.take(i + 1);
                            let m = choose|m: int| 0 <= m < kn.len() && kn[m] == k;
                            assert(kp[m] == k);
                            assert(kp.contains(k));
                        }
                    }
                    assert forall|a: int, b: int| 0 <= a < dk.len() && 0 <= b < dk.len() && a != b implies
                        dk.deep_view()[a] != dk.deep_view()[b] by {
                        if a < old_dk.len() && b < old_dk.len() {
                        } else if a < old_dk.len() {
                            assert(old_dk.contains(old_dk[a]));
                        } else {
                            assert(old_dk.contains(old_dk[b]));
                        }
                    }
                }
            },
        }
    }
    assert(kv.take(keys.len() as int) =~= kv);
    assert(vi.take(keys.len() as int) =~= vi);
    let mut out: Vec<Vec<u64>> = Vec::new();
    for j in 0..dk.len()
        invariant
            tot.len() == dk.len(),
            dk.deep_view() == distinct_keys(kv),
            forall|j: int| 0 <= j < dk.len() ==> #[trigger] tot[j] as int == key_total(kv, vi, dk.deep_view()[j]),
            out.deep_view() == group_rows(kv, vi).take(j as int),
    {
        let mut row = dk[j].clone();
        assert(row@ =~= dk.deep_view()[j as int]);
        row.push(tot[j]);
        assert(row.deep_view() =~= row@);
        let ghost old_out = out.deep_view();
        out.push(row);
        assert(group_rows(kv, vi).take(j + 1) =~= old_out.push(dk.deep_view()[j as int].push(tot[j as int])));
        assert(out.deep_view() =~= old_out.push(dk.deep_view()[j as int].push(tot[j as int])));
    }
    assert(group_rows(kv, vi).take(dk.len() as int) =~= group_rows(kv, vi));
    Some(out)
}

/// A key that occurs in no row has total 0.
proof fn lemma_key_total_absent(keys: Seq<Seq<u64>>, v: Seq<int>, k: Seq<u64>)
    requires
        keys.len() == v.len(),
        !keys.contains(k),
    ensures
        key_total(keys, v, k) == 0,
    decreases keys.len(),
{
    if keys.len() > 0 {
        let kd = keys.drop_last();
        assert(!kd.contains(k)) by {
            if kd.contains(k) {
                let m = choose|m: int| 0 <= m < kd.len() && kd[m] == k;
                assert(keys[m] == k);
            }
        }
        assert(keys.last() != k) by {
            assert(keys[keys.len() - 1] == keys.last());
        }
        lemma_key_total_absent(kd, v.drop_last(), k);
    }
}

/// Position of a row of `rows` equal to `key`, if any.
pub fn find_row(rows: &Vec<Vec<u64>>, key: &Vec<u64>) -> (res: Option<usize>)
    ensures
        match res {
            Some(j) => j < rows.len() && rows.deep_view()[j as int] == key@,
            None => !rows.deep_view().contains(key@),
        },
{
    for j in 0..rows.len()
        invariant
            forall|j2: int| 0 <= j2 < j ==> #[trigger] rows.deep_view()[j2] != key@,
    {
        assert(rows[j as int]@ =~= rows.deep_view()[j as int]);
        if rows_equal(&rows[j], key) {
            return Some(j);
        }
    }
    None
}


/// The distinct values of `v`, each at its first occurrence.
pub fn dedup_first(v: &Vec<u64>) -> (out: Vec<u64>)
    ensures
        out@ == v@.remove_duplicates(Seq::empty()),
        out@.no_duplicates(),
        forall|x: u64| out@.contains(x) <==> v@.contains(x),
{
    let mut seen: HashSet<u64> = HashSet::new();
    let mut out: Vec<u64> = Vec::new();
    for i in 0..v.len()
        invariant
            out@ == v@.take(i as int).remove_duplicates(Seq::empty()),
            out@.no_duplicates(),
            forall|x: u64| seen@.contains(x) <==> v@.take(i as int).contains(x),
            forall|x: u64| out@.contains(x) <==> v@.take(i as int).contains(x),
    {
        let ghost pre = v@.take(i as int);
        let x = v[i];
        proof {
            assert(v@.take(i + 1) =~= pre + seq![x]);
            assert(pre + Seq::<u64>::empty() =~= pre);
            pre.lemma_remove_duplicates_append(x, Seq::empty());
        }
        let ghost old_out = out@;
        if !seen.contains(&x) {
            seen.insert(x);
            out.push(x);
            proof {
                assert(out@ =~= old_out + seq![x]);
                assert forall|a: int, b: int| 0 <= a < out.len() && 0 <= b < out.len() && a != b implies
                    out@[a] != out@[b] by {
                    if a == old_out.len() {
                        assert(old_out.contains(out@[b]));
                    } else if b == old_out.len() {
                        assert(old_out.contains(out@[a]));
                    }
                }
            }
        }
        proof {
            let cur = v@.take(i + 1);
            assert forall|y: u64| cur.contains(y) <==> (pre.contains(y) || y == x) by {
                if cur.contains(y) && y != x {
                    let m = choose|m: int| 0 <= m < cur.len() && cur[m] == y;
                    assert(pre[m] == y);
                }
                if pre.contains(y) {
                    let m = choose|m: int| 0 <= m < pre.len() && pre[m] == y;
                    assert(cur[m] == y);
                }
                if y == x {
                    assert(cur[i as int] == x);
                }
            }
            assert forall|y: u64| out@.contains(y) <==> cur.contains(y) by {
                if out@.contains(y) && !old_out.contains(y) {
                    let m = choose|m: int| 0 <= m < out.len() && out@[m] == y;
                    assert(m == old_out.len());
                }
                if old_out.contains(y) {
                    let m = choose|m: int| 0 <= m < old_out.len() && old_out[m] == y;
                    assert(out@[m] == y);
                }
                if y == x && !old_out.contains(y) {
                    assert(out@[old_out.len() as int] == x);
                }
            }
        }
    }
    assert(v@.take(v.len() as int) =~= v@);
    out
}


/// Projected rows have one column per key column.
pub proof fn lemma_project_width(t: Seq<Seq<u64>>, cols: Seq<usize>)
    ensures
        has_width(project(t, cols), cols.len() as int),
        project(t, cols).len() == t.len(),
{
    assert forall|i: int| 0 <= i < project(t, cols).len() implies #[trigger] project(t, cols)[i].len() >= cols.len() by {
        assert(project(t, cols)[i] == row_key(t[i], cols));
    }
}

/// Grouped rows have one column more than the keys.
pub proof fn lemma_group_rows_width(keys: Seq<Seq<u64>>, v: Seq<int>, w: int)
    requires
        has_width(keys, w),
    ensures
        has_width(group_rows(keys, v), w + 1),
{
    let d = distinct_keys(keys);
    keys.lemma_remove_duplicates_properties(Seq::empty());
    assert(keys + Seq::<Seq<u64>>::empty() =~= keys);
    assert forall|i: int| 0 <= i < group_rows(keys, v).len() implies #[trigger] group_rows(keys, v)[i].len() >= w + 1 by {
        assert(d.contains(d[i]));
        let m = choose|m: int| 0 <= m < keys.len() && keys[m] == d[i];
        assert(keys[m].len() >= w);
    }
}

/// `g` is a grouping of the rows with keys `keys` (each `w` values wide) and
/// values `v`: one row per distinct key, that key followed by its total.
pub open spec fn is_grouping(g: Seq<Seq<u64>>, keys: Seq<Seq<u64>>, v: Seq<int>, w: int) -> bool {
    &&& forall|a: int|
        0 <= a < g.len() ==> {
            &&& #[trigger] g[a].len() == w + 1
            &&& keys.contains(g[a].take(w))
            &&& g[a][w] == key_total(keys, v, g[a].take(w))
        }
    &&& forall|a: int, b: int| 0 <= a < b < g.len() ==> #[trigger] g[a].take(w) != #[trigger] g[b].take(w)
    &&& forall|k: Seq<u64>| #[trigger] keys.contains(k) ==> exists|a: int| 0 <= a < g.len() && g[a].take(w) == k
}

/// Every key has exactly `w` values.
pub open spec fn keys_of_width(keys: Seq<Seq<u64>>, w: int) -> bool {
    forall|i: int| 0 <= i < keys.len() ==> #[trigger] keys[i].len() == w
}

/// Projected keys have exactly one value per key column.
pub proof fn lemma_project_keys_width(t: Seq<Seq<u64>>, cols: Seq<usize>)
    ensures
        keys_of_width(project(t, cols), cols.len() as int),
{
    assert forall|i: int| 0 <= i < project(t, cols).len() implies #[trigger] project(t, cols)[i].len() == cols.len() by {
        assert(project(t, cols)[i] == row_key(t[i], cols));
    }
}

/// `group_rows` groups: each distinct key once, with its total, whenever the
/// totals fit in a `u64` and no value is negative.
pub proof fn lemma_group_rows_grouping(keys: Seq<Seq<u64>>, v: Seq<int>, w: int)
    requires
        keys_of_width(keys, w),
        keys.len() == v.len(),
        nonneg(v),
        totals_fit(keys, v),
    ensures
        is_grouping(group_rows(keys, v), keys, v, w),
{
    let d = distinct_keys(keys);
    let g = group_rows(keys, v);
    keys.lemma_remove_duplicates_properties(Seq::empty());
    lemma_remove_duplicates_distinct(keys, Seq::empty());
    assert(keys + Seq::<Seq<u64>>::empty() =~= keys);
    assert forall|a: int| 0 <= a < g.len() implies {
        &&& #[trigger] g[a].len() == w + 1
        &&& keys.contains(g[a].take(w))
        &&& g[a][w] == key_total(keys, v, g[a].take(w))
    } by {
        assert(d.contains(d[a]));
        let m = choose|m: int| 0 <= m < keys.len() && keys[m] == d[a];
        assert(keys[m].len() == w);
        lemma_key_total_nonneg(keys, v, d[a]);
        assert(0 <= key_total(keys, v, d[a]) <= u64::MAX);
        assert(g[a] == d[a].push(key_total(keys, v, d[a]) as u64));
        assert(g[a].take(w) =~= d[a]);
    }
    assert forall|a: int, b: int| 0 <= a < b < g.len() implies #[trigger] g[a].take(w) != #[trigger] g[b].take(w) by {
        assert(d.contains(d[a]) && d.contains(d[b]));
        let ma = choose|m: int| 0 <= m < keys.len() && keys[m] == d[a];
        let mb = choose|m: int| 0 <= m < keys.len() && keys[m] == d[b];
        assert(keys[ma].len() == w && keys[mb].len() == w);
        assert(g[a].take(w) =~= d[a]);
        assert(g[b].take(w) =~= d[b]);
    }
    assert forall|k: Seq<u64>| #[trigger] keys.contains(k) implies exists|a: int| 0 <= a < g.len() && g[a].take(w) == k by {
        assert(d.contains(k));
        let a = choose|a: int| 0 <= a < d.len() && d[a] == k;
        let m = choose|m: int| 0 <= m < keys.len() && keys[m] == k;
        assert(keys[m].len() == w);
        assert(g[a].take(w) =~= d[a]);
    }
}

/// Reordering the rows of a grouping leaves a grouping.
pub proof fn lemma_grouping_sorted(g: Seq<Seq<u64>>, ks: Seq<int>, keys: Seq<Seq<u64>>, v: Seq<int>, w: int)
    requires
        is_grouping(g, keys, v, w),
        ks.len() == g.len(),
    ensures
        is_grouping(sort_by_keys(g, ks), keys, v, w),
{
    lemma_sort_by_keys(g, ks);
    let o = stable_order(ks);
    let s = sort_by_keys(g, ks);
    lemma_stable_order_is_permutation(ks, o);
    assert forall|a: int| 0 <= a < s.len() implies {
        &&& #[trigger] s[a].len() == w + 1
        &&& keys.contains(s[a].take(w))
        &&& s[a][w] == key_total(keys, v, s[a].take(w))
    } by {
        assert(s[a] == g[o[a]]);
    }
    assert forall|a: int, b: int| 0 <= a < b < s.len() implies #[trigger] s[a].take(w) != #[trigger] s[b].take(w) by {
        assert(s[a] == g[o[a]] && s[b] == g[o[b]]);
        assert(o[a] != o[b]);
        if o[a] < o[b] {
            assert(g[o[a]].take(w) != g[o[b]].take(w));
        } else {
            assert(g[o[b]].take(w) != g[o[a]].take(w));
        }
    }
    assert forall|k: Seq<u64>| #[trigger] keys.contains(k) implies exists|a: int| 0 <= a < s.len() && s[a].take(w) == k by {
        let c = choose|c: int| 0 <= c < g.len() && g[c].take(w) == k;
        assert(o.contains(c));
        let a = choose|a: int| 0 <= a < o.len() && o[a] == c;
        assert(s[a] == g[c]);
    }
}

/// With contiguous keys, the running sum at the last row of a run is the total
/// of that run's key over all rows.
pub proof fn lemma_run_sum_at_run_end(keys: Seq<Seq<u64>>, v: Seq<int>, j: int)
    requires
        keys.len() == v.len(),
        keys_contiguous(keys),
        0 <= j < keys.len(),
        j + 1 == keys.len() || keys[j + 1] != keys[j],
    ensures
        run_sum(same_key_flags(keys), v, j + 1) == key_total(keys, v, keys[j]),
{
    let n = keys.len() as int;
    lemma_run_sum_contiguous(keys, v, j);
    assert forall|m: int| j < m < keys.len() implies #[trigger] keys[m] != keys[j] by {
        if keys[m] == keys[j] && m > j + 1 {
            assert(keys[j + 1] == keys[j]);
        }
    }
    lemma_key_total_after_last(keys, v, j, n);
    assert(keys.take(n) =~= keys);
    assert(v.take(n) =~= v);
}

/// Rows stably sorted by their key on `cols`, read lexicographically, have
/// contiguous keys.
pub proof fn lemma_lex_sorted_contiguous(t: Seq<Seq<u64>>, cols: Seq<usize>)
    ensures
        keys_contiguous(project(sort_by_keys(t, lex_values(project(t, cols))), cols)),
        sort_by_keys(t, lex_values(project(t, cols))).len() == t.len(),
{
    let kt = project(t, cols);
    let ks = lex_values(kt);
    lemma_sort_by_keys(t, ks);
    let o = stable_order(ks);
    let s = sort_by_keys(t, ks);
    let keys = project(s, cols);
    lemma_project_keys_width(t, cols);
    assert forall|a: int, b: int, c: int|
        0 <= a < b < c < keys.len() && #[trigger] keys[a] == #[trigger] keys[c] implies #[trigger] keys[b] == keys[a] by {
        assert(keys[a] == row_key(s[a], cols) && s[a] == t[o[a]]);
        assert(keys[b] == row_key(s[b], cols) && s[b] == t[o[b]]);
        assert(keys[c] == row_key(s[c], cols) && s[c] == t[o[c]]);
        assert(keys[a] == kt[o[a]] && keys[b] == kt[o[b]] && keys[c] == kt[o[c]]);
        assert(ks[o[a]] <= ks[o[b]] && ks[o[b]] <= ks[o[c]]);
        assert(ks[o[a]] == lex_value(kt[o[a]]) && ks[o[b]] == lex_value(kt[o[b]]));
        assert(kt[o[a]].len() == cols.len() && kt[o[b]].len() == cols.len());
        lemma_lex_value_order(kt[o[a]], kt[o[b]]);
    }
}

/// Rows stably sorted by their key on `cols`, read lexicographically, come
/// in lexicographic order of those keys.
pub proof fn lemma_lex_sorted_order(t: Seq<Seq<u64>>, cols: Seq<usize>)
    ensures
        lex_ordered(project(sort_by_keys(t, lex_values(project(t, cols))), cols)),
{
    let kt = project(t, cols);
    let ks = lex_values(kt);
    lemma_sort_by_keys(t, ks);
    let o = stable_order(ks);
    let s = sort_by_keys(t, ks);
    let keys = project(s, cols);
    lemma_project_keys_width(t, cols);
    assert forall|k: int, l: int| 0 <= k < l < t.len() implies #[trigger] keys[k] == #[trigger] keys[l] || lex_before(
        keys[k],
        keys[l],
    ) by {
        assert(keys[k] == row_key(s[k], cols) && s[k] == t[o[k]]);
        assert(keys[l] == row_key(s[l], cols) && s[l] == t[o[l]]);
        assert(keys[k] == kt[o[k]] && keys[l] == kt[o[l]]);
        assert(ks[o[k]] <= ks[o[l]]);
        assert(kt[o[k]].len() == cols.len() && kt[o[l]].len() == cols.len());
        lemma_lex_value_order(kt[o[k]], kt[o[l]]);
    }
}

/// Projection law: each projected row holds, column by column, the row's
/// values in the columns `cols`.
pub proof fn law_project(t: Seq<Seq<u64>>, cols: Seq<usize>)
    ensures
        project(t, cols).len() == t.len(),
        forall|i: int| 0 <= i < t.len() ==> (#[trigger] project(t, cols)[i]).len() == cols.len(),
        forall|i: int, k: int| 0 <= i < t.len() && 0 <= k < cols.len() ==> (#[trigger] project(t, cols)[i])[k] == t[i][#[trigger] cols[k] as int],
{
    assert forall|i: int| 0 <= i < t.len() implies (#[trigger] project(t, cols)[i]).len() == cols.len() by {
        assert(project(t, cols)[i] == row_key(t[i], cols));
    }
    assert forall|i: int, k: int| 0 <= i < t.len() && 0 <= k < cols.len() implies (#[trigger] project(t, cols)[i])[k] == t[i][#[trigger] cols[k] as int] by {
        assert(project(t, cols)[i] == row_key(t[i], cols));
    }
}

/// Run flag law: one flag per key, 1 exactly where a key equals the one
/// before it, 0 elsewhere (and at the first key).
pub proof fn law_same_key_flags(keys: Seq<Seq<u64>>)
    ensures
        same_key_flags(keys).len() == keys.len(),
        forall|i: int| 0 <= i < keys.len() ==> (#[trigger] same_key_flags(keys)[i] == 1 <==> i > 0 && keys[i] == keys[i - 1]),
        forall|i: int| 0 <= i < keys.len() ==> (#[trigger] same_key_flags(keys)[i] == 0 <==> !(i > 0 && keys[i] == keys[i - 1])),
{
}

/// Total law: with no rows every total is 0, and one more row adds its value
/// to the total of its own key and to no other.
pub proof fn law_key_total(keys: Seq<Seq<u64>>, v: Seq<int>, x: Seq<u64>, y: int, k: Seq<u64>)
    requires
        keys.len() == v.len(),
    ensures
        key_total(Seq::empty(), Seq::empty(), k) == 0,
        key_total(keys.push(x), v.push(y), k) == key_total(keys, v, k) + if x == k { y } else { 0 },
{
    lemma_key_total_push(keys, v, x, y, k);
}

/// With values between 0 and `m`, every total is at most `m` times the number of rows.
pub proof fn lemma_key_total_bound(keys: Seq<Seq<u64>>, v: Seq<int>, k: Seq<u64>, m: int)
    requires
        keys.len() == v.len(),
        forall|i: int| 0 <= i < v.len() ==> 0 <= #[trigger] v[i] <= m,
    ensures
        key_total(keys, v, k) <= keys.len() * m,
    decreases keys.len(),
{
    if keys.len() == 0 {
        assert(keys.len() * m == 0) by (nonlinear_arith)
            requires
                keys.len() == 0,
        ;
    } else {
        let vd = v.drop_last();
        assert forall|i: int| 0 <= i < vd.len() implies 0 <= #[trigger] vd[i] <= m by {
            assert(vd[i] == v[i]);
        }
        lemma_key_total_bound(keys.drop_last(), vd, k, m);
        assert(0 <= v.last() <= m);
        let n = keys.len() as int;
        assert((n - 1) * m + m == n * m) by (nonlinear_arith);
    }
}

} // verus!
