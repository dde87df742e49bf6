//! Witness of the circuit for TPC-H query 18 (large-volume customers):
//!
//! ```text
//! select c_name, c_custkey, o_orderkey, o_orderdate, o_totalprice, sum(l_quantity)
//! from customer, orders, lineitem
//! where o_orderkey = l_orderkey and c_custkey = o_custkey
//! group by c_name, c_custkey, o_orderkey, o_orderdate, o_totalprice
//! order by o_totalprice desc, o_orderdate
//! ```
//!
//! The lineitem side of the join is `select l_orderkey, sum(l_quantity) from
//! lineitem group by l_orderkey`, one row per order key.  The query's
//! `having sum(l_quantity) > :1` takes a threshold that this witness has no
//! input for, so every order key is kept.
//!
//! Tables are integer encoded: `customer` rows are `[c_name, c_custkey]`,
//! `orders` rows `[o_orderdate, o_orderkey, o_custkey, o_totalprice]`,
//! `lineitem` rows `[l_orderkey, l_quantity]`.  Every value that the
//! circuit holds as a field element is an integer below `2^128` here, so
//! it is the same number in any field of the circuit.

use crate::aggregate::{
    dedup_first, flags_01, group_rows, group_totals, ints_of_u64, is_grouping, key_flags, key_total,
    keys_contiguous, lemma_group_rows_grouping, lemma_group_rows_width, lemma_grouping_sorted,
    lemma_key_total_after_last, lemma_key_total_bound, lemma_key_total_permutation,
    lemma_lex_sorted_contiguous, lemma_lex_sorted_order, lemma_project_keys_width,
    lemma_project_width, lemma_remove_duplicates_distinct, lemma_run_sum_at_run_end,
    lemma_run_sum_bound, lemma_run_sum_contiguous, nonneg, project, project_rows, row_key, run_sum,
    run_sums, running_sums_u128, running_sums_u64, same_key_flags, totals_fit,
};
use crate::sort::{
    desc_asc_ordered, ints_of_u128, lemma_desc_asc_order, lemma_sort_by_keys,
    lemma_sorted_values_strict, lemma_stable_order_is_permutation, lex_ordered, lex_values,
    sort_by_keys, sort_rows_by_keys, sort_rows_by_lex_keys, sort_u64, sorted_values, stable_order,
    strictly_increasing,
};
use crate::table::{
    column, column_keys, column_values, concat_row, desc_asc_key, desc_asc_keys, has_width,
    is_first_key_index, join_first, join_first_match, key_in, key_not_in, lemma_filter_width,
    lemma_join_first_contains, lemma_join_first_row, lemma_split_permutation,
    lemma_unmatched_keys_disjoint, matching, non_matching, rows_have_width, split_by_keys,
    usize_vec, widen,
};
use vstd::prelude::*;

verus! {

/// `lineitem` stably sorted by `l_orderkey`.
pub open spec fn lineitem_sorted(lineitem: Seq<Seq<u64>>) -> Seq<Seq<u64>> {
    sort_by_keys(lineitem, lineitem.map_values(|r: Seq<u64>| r[0] as int))
}

/// 1 for a sorted lineitem row with the same `l_orderkey` as the row before, else 0.
pub open spec fn orderkey_flags(sorted: Seq<Seq<u64>>) -> Seq<u64> {
    same_key_flags(project(sorted, seq![0usize]))
}

/// Running `sum(l_quantity)` within each run of equal `l_orderkey`.
pub open spec fn quantity_sums(sorted: Seq<Seq<u64>>) -> Seq<int> {
    run_sums(orderkey_flags(sorted), column(sorted, 1).map_values(|x: u64| x as int))
}

/// Row `j` of `n` rows with run flags `f` receives the running sum: it is
/// the last row of its run.
pub open spec fn gets_sum(f: Seq<u64>, n: int, j: int) -> bool {
    (j + 1 < n && f[j + 1] == 0) || j == n - 1
}

/// The sorted lineitem rows, those that receive a running sum having it
/// appended as a third column.
pub open spec fn with_group_sums(sorted: Seq<Seq<u64>>, f: Seq<u64>, sums: Seq<int>) -> Seq<Seq<u64>> {
    Seq::new(
        sorted.len(),
        |j: int|
            if gets_sum(f, sorted.len() as int, j) {
                sorted[j].push(sums[j + 1] as u64)
            } else {
                sorted[j]
            },
    )
}

/// The sorted lineitem table, the last row of each `l_orderkey` run carrying
/// the run's `sum(l_quantity)`.
pub open spec fn lineitem_combined(lineitem: Seq<Seq<u64>>) -> Seq<Seq<u64>> {
    let s = lineitem_sorted(lineitem);
    with_group_sums(s, orderkey_flags(s), quantity_sums(s))
}

/// The first `m` sorted rows that receive a running sum, each with that sum
/// appended: one row per run.
pub open spec fn summed_rows(sorted: Seq<Seq<u64>>, f: Seq<u64>, sums: Seq<int>, m: int) -> Seq<Seq<u64>>
    decreases m,
{
    if m <= 0 {
        Seq::empty()
    } else if gets_sum(f, sorted.len() as int, m - 1) {
        summed_rows(sorted, f, sums, m - 1).push(sorted[m - 1].push(sums[m] as u64))
    } else {
        summed_rows(sorted, f, sums, m - 1)
    }
}

/// `select l_orderkey, sum(l_quantity) from lineitem group by l_orderkey`:
/// one row `[l_orderkey, l_quantity, sum(l_quantity)]` per `l_orderkey`, the
/// last sorted row of its run, ascending by `l_orderkey`.
pub open spec fn lineitem_groups(lineitem: Seq<Seq<u64>>) -> Seq<Seq<u64>> {
    let s = lineitem_sorted(lineitem);
    summed_rows(s, orderkey_flags(s), quantity_sums(s), s.len() as int)
}

/// Appends the running sum to the rows that receive it; also returns those
/// rows alone.
pub fn append_group_sums(sorted: &Vec<Vec<u64>>, f: &Vec<u64>, sums: &Vec<u64>) -> (res: (Vec<Vec<u64>>, Vec<Vec<u64>>))
    requires
        f.len() == sorted.len(),
        sums.len() == sorted.len() + 1,
    ensures
        res.0.deep_view() == with_group_sums(
            sorted.deep_view(),
            f@,
            sums@.map_values(|x: u64| x as int),
        ),
        res.1.deep_view() == summed_rows(
            sorted.deep_view(),
            f@,
            sums@.map_values(|x: u64| x as int),
            sorted.len() as int,
        ),
{
    let ghost sv = sorted.deep_view();
    let ghost si = sums@.map_values(|x: u64| x as int);
    let n = sorted.len();
    let mut out: Vec<Vec<u64>> = Vec::new();
    let mut groups: Vec<Vec<u64>> = Vec::new();
    for j in 0..n
        invariant
            n == sorted.len(),
            f.len() == n,
            sums.len() == n + 1,
            sv == sorted.deep_view(),
            si == sums@.map_values(|x: u64| x as int),
            out.deep_view() == with_group_sums(sv, f@, si).take(j as int),
            groups.deep_view() == summed_rows(sv, f@, si, j as int),
    {
        let mut row = sorted[j].clone();
        assert(row@ =~= sv[j as int]);
        if (j + 1 < n && f[j + 1] == 0) || j == n - 1 {
            row.push(sums[j + 1]);
            assert(row.deep_view() =~= row@);
            let ghost old_groups = groups.deep_view();
            groups.push(row.clone());
            assert(groups.deep_view() =~= old_groups.push(row@));
        }
        assert(row.deep_view() =~= row@);
        let ghost old_out = out.deep_view();
        out.push(row);
        assert(out.deep_view() =~= old_out.push(with_group_sums(sv, f@, si)[j as int]));
        assert(with_group_sums(sv, f@, si).take(j + 1) =~= with_group_sums(sv, f@, si).take(j as int).push(
            with_group_sums(sv, f@, si)[j as int],
        ));
    }
    assert(with_group_sums(sv, f@, si).take(n as int) =~= with_group_sums(sv, f@, si));
    (out, groups)
}


/// The lineitem rows extended by their first matching order (`l_orderkey = o_orderkey`).
pub open spec fn lineitem_orders(lineitem: Seq<Seq<u64>>, orders: Seq<Seq<u64>>) -> Seq<Seq<u64>> {
    join_first(lineitem_groups(lineitem), 0, orders, 1)
}

/// Column of the customer key in a joined lineitem-orders row.
pub open spec fn custkey_col() -> int {
    5
}

/// Those rows extended by their first matching customer (`o_custkey = c_custkey`).
pub open spec fn q18_joined(customer: Seq<Seq<u64>>, orders: Seq<Seq<u64>>, lineitem: Seq<Seq<u64>>) -> Seq<
    Seq<u64>,
> {
    join_first(lineitem_orders(lineitem, orders), custkey_col(), customer, 1)
}

/// The group-by columns of a joined row: c_name, c_custkey, o_orderkey,
/// o_orderdate, o_totalprice, followed by its lineitem's group sum.
pub open spec fn join1_cols() -> Seq<usize> {
    seq![7usize, 8usize, 4usize, 3usize, 6usize, 2usize]
}

/// The group key of a joined row, without the sum.
pub open spec fn group_cols() -> Seq<usize> {
    seq![7usize, 8usize, 4usize, 3usize, 6usize]
}

/// The five key columns of a `join1` row.
pub open spec fn key5_cols() -> Seq<usize> {
    seq![0usize, 1usize, 2usize, 3usize, 4usize]
}

/// The joined rows projected onto the group-by columns and the sum,
/// stably sorted by the five key values read lexicographically, so that the
/// rows of each group are contiguous.
pub open spec fn q18_join1(customer: Seq<Seq<u64>>, orders: Seq<Seq<u64>>, lineitem: Seq<Seq<u64>>) -> Seq<
    Seq<u64>,
> {
    let p = project(q18_joined(customer, orders, lineitem), join1_cols());
    sort_by_keys(p, lex_values(project(p, key5_cols())))
}

/// Order-by key: `o_totalprice` descending, then `o_orderdate` ascending.
pub open spec fn price_date_key(r: Seq<u64>) -> int {
    desc_asc_key(r, 4, 3)
}

/// The grouped rows (key, then total of the lineitem sums), one per
/// distinct key in order of first appearance, then ordered by price
/// descending and date ascending.
pub open spec fn q18_grouped(customer: Seq<Seq<u64>>, orders: Seq<Seq<u64>>, lineitem: Seq<Seq<u64>>) -> Seq<
    Seq<u64>,
> {
    let j = q18_joined(customer, orders, lineitem);
    let g = group_rows(project(j, group_cols()), column(j, 2).map_values(|x: u64| x as int));
    sort_by_keys(g, g.map_values(|r: Seq<u64>| price_date_key(r)))
}

/// The inputs on which the witness is defined (elsewhere the computation
/// indexes past a row's end or overflows a `u64`).
pub open spec fn q18_defined(customer: Seq<Seq<u64>>, orders: Seq<Seq<u64>>, lineitem: Seq<Seq<u64>>) -> bool {
    let j = q18_joined(customer, orders, lineitem);
    &&& has_width(lineitem, 2)
    &&& has_width(orders, 2)
    &&& has_width(customer, 2)
    &&& forall|i: int| 0 <= i < lineitem.len() + 1 ==> #[trigger] quantity_sums(lineitem_sorted(lineitem))[i] <= u64::MAX
    &&& has_width(lineitem_orders(lineitem, orders), 6)
    &&& has_width(j, 9)
    &&& totals_fit(project(j, group_cols()), column(j, 2).map_values(|x: u64| x as int))
}

/// The witness of the query-18 circuit.
pub struct Q18Witness {
    /// `lineitem` sorted by `l_orderkey`, the last row of each run carrying
    /// the run's `sum(l_quantity)`.
    pub l_combined: Vec<Vec<u64>>,
    /// Same-`l_orderkey`-as-previous flags of the sorted lineitem rows.
    pub orderkey_groupby_check: Vec<u64>,
    /// Running `sum(l_quantity)` per run of equal `l_orderkey`, starting at 0.
    pub sum_quantity: Vec<u64>,
    /// Rows with a join partner: lineitem groups (by orders), orders (by
    /// lineitem groups), lineitem-orders (by customer), customer (by
    /// lineitem-orders).
    pub join_value: Vec<Vec<Vec<u64>>>,
    /// The rows of the same four tables without a join partner.
    pub disjoin_value: Vec<Vec<Vec<u64>>>,
    /// The result of both joins.
    pub cartesian_product: Vec<Vec<u64>>,
    /// The distinct join keys of each `disjoin_value` table.
    pub dis_vectors: Vec<Vec<u64>>,
    /// `dis_vectors[0] ++ dis_vectors[1]` and `dis_vectors[2] ++ dis_vectors[3]`, sorted.
    pub concatenated_vectors: Vec<Vec<u64>>,
    /// Group-by columns and sum of each joined row, sorted lexicographically
    /// by the group-by columns.
    pub join1: Vec<Vec<u64>>,
    /// Same-key-as-previous flags of `join1`.
    pub equal_check: Vec<u64>,
    /// Running sums of the last `join1` column per run of equal keys, starting at 0.
    pub sum_profit: Vec<u128>,
    /// Grouped and ordered result rows.
    pub grouped_data: Vec<Vec<u64>>,
}


/// The distinct values of column `c` of `t`, in order of first appearance.
pub open spec fn distinct_column(t: Seq<Seq<u64>>, c: int) -> Seq<u64> {
    column(t, c).remove_duplicates(Seq::empty())
}

/// What each field of the query-18 witness holds.
pub open spec fn q18_witness_spec(
    customer: Seq<Seq<u64>>,
    orders: Seq<Seq<u64>>,
    lineitem: Seq<Seq<u64>>,
    w: Q18Witness,
) -> bool {
    let ls = lineitem_sorted(lineitem);
    let lc = lineitem_combined(lineitem);
    let lg = lineitem_groups(lineitem);
    let lo = lineitem_orders(lineitem, orders);
    let j = q18_joined(customer, orders, lineitem);
    let j1 = q18_join1(customer, orders, lineitem);
    let jv = w.join_value.deep_view();
    let dj = w.disjoin_value.deep_view();
    let dis = w.dis_vectors.deep_view();
    &&& w.l_combined.deep_view() == lc
    &&& w.orderkey_groupby_check@ == orderkey_flags(ls)
    &&& w.sum_quantity@.map_values(|x: u64| x as int) == quantity_sums(ls)
    &&& jv.len() == 4 && dj.len() == 4
    &&& jv[0] == matching(lg, 0, orders, 1) && dj[0] == non_matching(lg, 0, orders, 1)
    &&& jv[1] == matching(orders, 1, lg, 0) && dj[1] == non_matching(orders, 1, lg, 0)
    &&& jv[2] == matching(lo, 5, customer, 1) && dj[2] == non_matching(lo, 5, customer, 1)
    &&& jv[3] == matching(customer, 1, lo, 5) && dj[3] == non_matching(customer, 1, lo, 5)
    &&& w.cartesian_product.deep_view() == j
    &&& dis.len() == 4
    &&& dis[0] == distinct_column(dj[0], 0) && dis[1] == distinct_column(dj[1], 1)
    &&& dis[2] == distinct_column(dj[2], 5) && dis[3] == distinct_column(dj[3], 1)
    &&& w.concatenated_vectors.deep_view().len() == 2
    &&& w.concatenated_vectors.deep_view()[0] == sorted_values(dis[0] + dis[1])
    &&& w.concatenated_vectors.deep_view()[1] == sorted_values(dis[2] + dis[3])
    &&& w.join1.deep_view() == j1
    &&& w.equal_check@ == same_key_flags(project(j1, key5_cols()))
    &&& w.sum_profit@.map_values(|x: u128| x as int) == run_sums(
        same_key_flags(project(j1, key5_cols())),
        column(j1, 5).map_values(|x: u64| x as int),
    )
    &&& w.grouped_data.deep_view() == q18_grouped(customer, orders, lineitem)
}

/// Computes the query-18 witness; `None` exactly when it is not defined
/// (see `q18_defined`).
pub fn q18_witness_checked(customer: &Vec<Vec<u64>>, orders: &Vec<Vec<u64>>, lineitem: &Vec<Vec<u64>>) -> (res: Option<Q18Witness>)
    ensures
        match res {
            Some(w) => q18_defined(customer.deep_view(), orders.deep_view(), lineitem.deep_view())
                && q18_witness_spec(customer.deep_view(), orders.deep_view(), lineitem.deep_view(), w),
            None => !q18_defined(customer.deep_view(), orders.deep_view(), lineitem.deep_view()),
        },
{
    let ghost cv = customer.deep_view();
    let ghost ov = orders.deep_view();
    let ghost lv = lineitem.deep_view();
    if !rows_have_width(lineitem, 2) || !rows_have_width(orders, 2) || !rows_have_width(customer, 2) {
        return None;
    }
    // select l_orderkey, sum(l_quantity) from lineitem group by l_orderkey
    let lkeys = column_keys(lineitem, 0);
    let sorted = sort_rows_by_keys(lineitem, &lkeys);
    let ghost sv = sorted.deep_view();
    proof {
        lemma_sort_by_keys(lv, lv.map_values(|r: Seq<u64>| r[0] as int));
        assert forall|i: int| 0 <= i < sv.len() implies #[trigger] sv[i].len() >= 2 by {
            assert(sv[i] == lv[stable_order(lv.map_values(|r: Seq<u64>| r[0] as int))[i]]);
        }
    }
    let key0 = usize_vec(&[0]);
    assert(key0@ =~= seq![0usize]);
    let flags = key_flags(&project_rows(&sorted, &key0));
    let qty = column_values(&sorted, 1);
    proof {
        assert forall|i: int| 0 <= i < flags.len() implies #[trigger] flags@[i] <= 1 by {}
    }
    let sums = match running_sums_u64(&flags, &qty) {
        Some(s) => s,
        None => {
            proof {
                let i = choose|i: int| 0 <= i <= flags.len() && run_sum(flags@, ints_of_u64(qty@), i) > u64::MAX;
                assert(ints_of_u64(qty@) =~= column(sv, 1).map_values(|x: u64| x as int));
                assert(quantity_sums(sv)[i] == run_sum(flags@, ints_of_u64(qty@), i));
            }
            return None;
        },
    };
    proof {
        assert(ints_of_u64(qty@) =~= column(sv, 1).map_values(|x: u64| x as int));
        assert(sums@.map_values(|x: u64| x as int) =~= ints_of_u64(sums@));
    }
    assert(flags.len() == sorted.len());
    assert(ints_of_u64(sums@).len() == sums.len());
    assert(run_sums(flags@, ints_of_u64(qty@)).len() == flags.len() + 1);
    assert(sums.len() == sorted.len() + 1);
    let (l_combined, groups) = append_group_sums(&sorted, &flags, &sums);
    let ghost lc = l_combined.deep_view();
    let ghost lg = groups.deep_view();
    proof {
        assert(lc == lineitem_combined(lv));
        assert(lg == lineitem_groups(lv));
        assert forall|i: int| 0 <= i < lg.len() implies #[trigger] lg[i].len() >= 3 by {
            lemma_summed_rows_member(sv, flags@, quantity_sums(sv), sv.len() as int, i);
            let j = choose|j: int| 0 <= j < sv.len() && lg[i] == sv[j].push(quantity_sums(sv)[j + 1] as u64);
            assert(sv[j].len() >= 2);
        }
    }
    // (group by l_orderkey) join orders
    let (jv0, dj0) = split_by_keys(&groups, 0, orders, 1);
    let (jv1, dj1) = split_by_keys(orders, 1, &groups, 0);
    let (lo, _) = join_first_match(&groups, 0, orders, 1);
    if !rows_have_width(&lo, 6) {
        return None;
    }
    // ... join customer
    let (jv2, dj2) = split_by_keys(&lo, 5, customer, 1);
    let (jv3, dj3) = split_by_keys(customer, 1, &lo, 5);
    let (cart, _) = join_first_match(&lo, 5, customer, 1);
    if !rows_have_width(&cart, 9) {
        return None;
    }
    let ghost jn = cart.deep_view();
    proof {
        lemma_filter_width(lg, key_not_in(ov, 1, 0), 2);
        lemma_filter_width(ov, key_not_in(lg, 0, 1), 2);
        lemma_filter_width(lo.deep_view(), key_not_in(cv, 1, 5), 6);
        lemma_filter_width(cv, key_not_in(lo.deep_view(), 5, 1), 2);
    }
    // distinct keys without a partner, and their sorted concatenations
    let dis0 = dedup_first(&column_values(&dj0, 0));
    let dis1 = dedup_first(&column_values(&dj1, 1));
    let dis2 = dedup_first(&column_values(&dj2, 5));
    let dis3 = dedup_first(&column_values(&dj3, 1));
    let cat0 = sort_u64(&concat_row(&dis0, &dis1));
    let cat1 = sort_u64(&concat_row(&dis2, &dis3));
    // group by c_name, c_custkey, o_orderkey, o_orderdate, o_totalprice
    let jcols = usize_vec(&[7, 8, 4, 3, 6, 2]);
    assert(jcols@ =~= join1_cols());
    proof {
        assert forall|k: int| 0 <= k < jcols@.len() implies has_width(jn, #[trigger] jcols@[k] + 1) by {}
    }
    let proj = project_rows(&cart, &jcols);
    let ghost pv = proj.deep_view();
    let k5 = usize_vec(&[0, 1, 2, 3, 4]);
    assert(k5@ =~= key5_cols());
    proof {
        lemma_project_width(jn, join1_cols());
        assert(join1_cols().len() == 6);
        assert forall|k: int| 0 <= k < k5@.len() implies has_width(pv, #[trigger] k5@[k] + 1) by {}
        lemma_project_keys_width(pv, key5_cols());
    }
    let jkeys = project_rows(&proj, &k5);
    proof {
        let kv = jkeys.deep_view();
        assert(kv == project(pv, key5_cols()));
        assert forall|a: int, b: int| 0 <= a < kv.len() && 0 <= b < kv.len() implies
            (#[trigger] kv[a]).len() == (#[trigger] kv[b]).len() by {}
    }
    let join1 = sort_rows_by_lex_keys(&proj, &jkeys);
    let ghost j1 = join1.deep_view();
    proof {
        lemma_sort_by_keys(pv, lex_values(project(pv, key5_cols())));
        assert forall|i: int| 0 <= i < j1.len() implies #[trigger] j1[i].len() >= 6 by {
            assert(j1[i] == pv[stable_order(lex_values(project(pv, key5_cols())))[i]]);
        }
    }
    proof {
        assert forall|k: int| 0 <= k < k5@.len() implies has_width(j1, #[trigger] k5@[k] + 1) by {}
    }
    let equal_check = key_flags(&project_rows(&join1, &k5));
    let profit = widen(&column_values(&join1, 5));
    proof {
        assert forall|i: int| 0 <= i < equal_check.len() implies #[trigger] equal_check@[i] <= 1 by {}
        let pi = ints_of_u128(profit@);
        assert forall|i: int| 0 <= i < pi.len() implies 0 <= #[trigger] pi[i] <= u64::MAX by {
            assert(pi[i] == column(j1, 5)[i] as int);
        }
        assert forall|i: int| 0 <= i <= equal_check.len() implies run_sum(equal_check@, pi, i) <= u128::MAX by {
            lemma_run_sum_bound(equal_check@, pi, u64::MAX as int, i);
            assert(i * (u64::MAX as int) <= u128::MAX) by (nonlinear_arith)
                requires
                    0 <= i <= usize::MAX + 1,
            ;
        }
    }
    let sum_profit = match running_sums_u128(&equal_check, &profit) {
        Some(s) => s,
        None => {
            proof {
                let i = choose|i: int| 0 <= i <= equal_check.len() && run_sum(equal_check@, ints_of_u128(profit@), i) > u128::MAX;
                assert(run_sum(equal_check@, ints_of_u128(profit@), i) <= u128::MAX);
            }
            return None;
        },
    };
    // sum per group, in order of first appearance
    let gcols = usize_vec(&[7, 8, 4, 3, 6]);
    assert(gcols@ =~= group_cols());
    proof {
        assert forall|k: int| 0 <= k < gcols@.len() implies has_width(jn, #[trigger] gcols@[k] + 1) by {}
    }
    let gkeys = project_rows(&cart, &gcols);
    let gvals = widen(&column_values(&cart, 2));
    assert(gkeys.deep_view().len() == gkeys.len());
    assert(gkeys.len() == cart.len());
    let grouped = match group_totals(&gkeys, &gvals) {
        Some(g) => g,
        None => {
            return None;
        },
    };
    // order by o_totalprice desc, o_orderdate
    let ghost gv = grouped.deep_view();
    proof {
        lemma_project_width(jn, group_cols());
        assert(group_cols().len() == 5);
        lemma_group_rows_width(project(jn, group_cols()), column(jn, 2).map_values(|x: u64| x as int), 5);
    }
    let okeys = desc_asc_keys(&grouped, 4, 3);
    assert(ints_of_u128(okeys@) =~= gv.map_values(|r: Seq<u64>| price_date_key(r)));
    let grouped_data = sort_rows_by_keys(&grouped, &okeys);
    let join_value = vec![jv0, jv1, jv2, jv3];
    let disjoin_value = vec![dj0, dj1, dj2, dj3];
    let dis_vectors = vec![dis0, dis1, dis2, dis3];
    let concatenated_vectors = vec![cat0, cat1];
    let w = Q18Witness {
        l_combined,
        orderkey_groupby_check: flags,
        sum_quantity: sums,
        join_value,
        disjoin_value,
        cartesian_product: cart,
        dis_vectors,
        concatenated_vectors,
        join1,
        equal_check,
        sum_profit,
        grouped_data,
    };
    proof {
        assert(w.join_value.deep_view() =~= seq![jv0.deep_view(), jv1.deep_view(), jv2.deep_view(), jv3.deep_view()]);
        assert(w.disjoin_value.deep_view() =~= seq![dj0.deep_view(), dj1.deep_view(), dj2.deep_view(), dj3.deep_view()]);
        assert(dis0.deep_view() =~= dis0@);
        assert(dis1.deep_view() =~= dis1@);
        assert(dis2.deep_view() =~= dis2@);
        assert(dis3.deep_view() =~= dis3@);
        assert(cat0.deep_view() =~= cat0@);
        assert(cat1.deep_view() =~= cat1@);
        assert(w.dis_vectors.deep_view() =~= seq![dis0@, dis1@, dis2@, dis3@]);
        assert(w.concatenated_vectors.deep_view() =~= seq![cat0@, cat1@]);
        assert(ints_of_u128(profit@) =~= column(j1, 5).map_values(|x: u64| x as int));
        assert(sum_profit@.map_values(|x: u128| x as int) =~= ints_of_u128(sum_profit@));
        assert(ints_of_u128(gvals@) =~= column(jn, 2).map_values(|x: u64| x as int));
    }
    Some(w)
}


/// Computes the query-18 witness.
pub fn q18_witness(customer: &Vec<Vec<u64>>, orders: &Vec<Vec<u64>>, lineitem: &Vec<Vec<u64>>) -> (w: Q18Witness)
    requires
        q18_defined(customer.deep_view(), orders.deep_view(), lineitem.deep_view()),
    ensures
        q18_witness_spec(customer.deep_view(), orders.deep_view(), lineitem.deep_view(), w),
{
    q18_witness_checked(customer, orders, lineitem).unwrap()
}


/// The sorted lineitem table has contiguous `l_orderkey` groups.
proof fn lemma_sorted_lineitem_contiguous(lineitem: Seq<Seq<u64>>)
    requires
        has_width(lineitem, 2),
    ensures
        keys_contiguous(project(lineitem_sorted(lineitem), seq![0usize])),
        has_width(lineitem_sorted(lineitem), 2),
        lineitem_sorted(lineitem).len() == lineitem.len(),
{
    let ks = lineitem.map_values(|r: Seq<u64>| r[0] as int);
    lemma_sort_by_keys(lineitem, ks);
    let o = stable_order(ks);
    let ls = lineitem_sorted(lineitem);
    let keys = project(ls, seq![0usize]);
    assert forall|i: int| 0 <= i < ls.len() implies #[trigger] ls[i].len() >= 2 by {
        assert(ls[i] == lineitem[o[i]]);
    }
    assert forall|a: int, b: int, c: int|
        0 <= a < b < c < keys.len() && #[trigger] keys[a] == #[trigger] keys[c] implies #[trigger] keys[b] == keys[a] by {
        assert(keys[a] == row_key(ls[a], seq![0usize]));
        assert(keys[b] == row_key(ls[b], seq![0usize]));
        assert(keys[c] == row_key(ls[c], seq![0usize]));
        assert(keys[a][0] == ls[a][0] && keys[b][0] == ls[b][0] && keys[c][0] == ls[c][0]);
        assert(ls[a] == lineitem[o[a]] && ls[b] == lineitem[o[b]] && ls[c] == lineitem[o[c]]);
        assert(ks[o[a]] <= ks[o[b]] && ks[o[b]] <= ks[o[c]]);
        assert(ls[a][0] == ls[b][0]);
        assert(keys[b] =~= keys[a]);
    }
}

/// Group-by law of `select l_orderkey, sum(l_quantity) from lineitem group
/// by l_orderkey`: every sorted lineitem row that receives a group sum
/// receives the total `l_quantity` of its `l_orderkey` over the whole
/// `lineitem` table.
pub proof fn law_q18_orderkey_sums(lineitem: Seq<Seq<u64>>, j: int)
    requires
        has_width(lineitem, 2),
        0 <= j < lineitem.len(),
        gets_sum(orderkey_flags(lineitem_sorted(lineitem)), lineitem.len() as int, j),
    ensures
        quantity_sums(lineitem_sorted(lineitem))[j + 1] == key_total(
            project(lineitem, seq![0usize]),
            column(lineitem, 1).map_values(|x: u64| x as int),
            seq![lineitem_sorted(lineitem)[j][0]],
        ),
{
    let ks = lineitem.map_values(|r: Seq<u64>| r[0] as int);
    lemma_sort_by_keys(lineitem, ks);
    lemma_sorted_lineitem_contiguous(lineitem);
    let o = stable_order(ks);
    lemma_stable_order_is_permutation(ks, o);
    let ls = lineitem_sorted(lineitem);
    let n = ls.len() as int;
    let keys = project(ls, seq![0usize]);
    let v = column(ls, 1).map_values(|x: u64| x as int);
    let f = orderkey_flags(ls);
    lemma_run_sum_contiguous(keys, v, j);
    assert forall|m: int| j < m < keys.len() implies #[trigger] keys[m] != keys[j] by {
        if keys[m] == keys[j] {
            assert(keys[j + 1] == keys[j]);
            assert(f[j + 1] == 1);
            assert(j + 1 < n);
        }
    }
    lemma_key_total_after_last(keys, v, j, n);
    assert(keys.take(n) =~= keys);
    assert(v.take(n) =~= v);
    let lk = project(lineitem, seq![0usize]);
    let lv = column(lineitem, 1).map_values(|x: u64| x as int);
    assert(keys =~= o.map_values(|i: int| lk[i]));
    assert(v =~= o.map_values(|i: int| lv[i]));
    lemma_key_total_permutation(lk, lv, o, keys[j]);
    assert(keys[j] == row_key(ls[j], seq![0usize]));
    assert(keys[j] =~= seq![ls[j][0]]);
}

/// Law of the sorted lineitem table with group sums: where it carries a
/// group sum, that sum is the total `l_quantity` of the row's `l_orderkey`
/// over the whole `lineitem` table.
pub proof fn law_q18_combined_sums(customer: Seq<Seq<u64>>, orders: Seq<Seq<u64>>, lineitem: Seq<Seq<u64>>, j: int)
    requires
        q18_defined(customer, orders, lineitem),
        0 <= j < lineitem.len(),
        gets_sum(orderkey_flags(lineitem_sorted(lineitem)), lineitem.len() as int, j),
    ensures
        lineitem_combined(lineitem)[j].last() == key_total(
            project(lineitem, seq![0usize]),
            column(lineitem, 1).map_values(|x: u64| x as int),
            seq![lineitem_combined(lineitem)[j][0]],
        ),
{
    law_q18_orderkey_sums(lineitem, j);
    lemma_sorted_lineitem_contiguous(lineitem);
    let ls = lineitem_sorted(lineitem);
    let f = orderkey_flags(ls);
    let v = column(ls, 1).map_values(|x: u64| x as int);
    assert forall|i: int| 0 <= i < f.len() implies #[trigger] f[i] <= 1 by {}
    assert forall|i: int| 0 <= i < v.len() implies 0 <= #[trigger] v[i] <= u64::MAX by {}
    lemma_run_sum_bound(f, v, u64::MAX as int, j + 1);
    assert(quantity_sums(ls)[j + 1] == run_sum(f, v, j + 1));
    assert(quantity_sums(ls)[j + 1] <= u64::MAX);
    let row = ls[j].push(quantity_sums(ls)[j + 1] as u64);
    assert(lineitem_combined(lineitem)[j] == row);
    assert(ls[j].len() >= 2);
    assert(row[0] == ls[j][0]);
    assert(row.last() == quantity_sums(ls)[j + 1] as u64);
}


/// Each summed row is a sorted row that receives its run's sum, with that sum appended.
proof fn lemma_summed_rows_member(sorted: Seq<Seq<u64>>, f: Seq<u64>, sums: Seq<int>, m: int, k: int)
    requires
        0 <= m <= sorted.len(),
        0 <= k < summed_rows(sorted, f, sums, m).len(),
    ensures
        exists|j: int|
            0 <= j < m && gets_sum(f, sorted.len() as int, j) && #[trigger] summed_rows(sorted, f, sums, m)[k]
                == sorted[j].push(sums[j + 1] as u64),
    decreases m,
{
    let prev = summed_rows(sorted, f, sums, m - 1);
    if gets_sum(f, sorted.len() as int, m - 1) && k == prev.len() {
        assert(summed_rows(sorted, f, sums, m)[k] == sorted[m - 1].push(sums[m] as u64));
    } else {
        assert(summed_rows(sorted, f, sums, m)[k] == prev[k]);
        lemma_summed_rows_member(sorted, f, sums, m - 1, k);
    }
}

/// The tables have exactly the columns of the documented encoding.
pub open spec fn q18_schema(customer: Seq<Seq<u64>>, orders: Seq<Seq<u64>>, lineitem: Seq<Seq<u64>>) -> bool {
    &&& forall|i: int| 0 <= i < lineitem.len() ==> #[trigger] lineitem[i].len() == 2
    &&& forall|i: int| 0 <= i < orders.len() ==> #[trigger] orders[i].len() == 4
    &&& forall|i: int| 0 <= i < customer.len() ==> #[trigger] customer[i].len() == 2
}

/// Join law: with the documented encoding, each joined row is
/// `[l_orderkey, l_quantity, sum(l_quantity)] ++ order ++ customer` for an
/// order and a customer of the input tables, it satisfies the query's
/// `o_orderkey = l_orderkey and c_custkey = o_custkey`, and its sum column is
/// the total `l_quantity` of its `l_orderkey` over the whole `lineitem` table.
pub proof fn law_q18_joined_rows(customer: Seq<Seq<u64>>, orders: Seq<Seq<u64>>, lineitem: Seq<Seq<u64>>, i: int)
    requires
        q18_defined(customer, orders, lineitem),
        q18_schema(customer, orders, lineitem),
        0 <= i < q18_joined(customer, orders, lineitem).len(),
    ensures
        ({
            let r = q18_joined(customer, orders, lineitem)[i];
            &&& r.len() == 9
            &&& r[4] == r[0]
            &&& r[8] == r[5]
            &&& orders.contains(r.subrange(3, 7))
            &&& customer.contains(r.subrange(7, 9))
            &&& r[2] == key_total(
                project(lineitem, seq![0usize]),
                column(lineitem, 1).map_values(|x: u64| x as int),
                seq![r[0]],
            )
        }),
{
    let lc = lineitem_combined(lineitem);
    let lg = lineitem_groups(lineitem);
    let lo = lineitem_orders(lineitem, orders);
    let j = q18_joined(customer, orders, lineitem);
    let r = j[i];
    lemma_join_first_row(lo, 5, customer, 1, i);
    let (p, q) = choose|p: int, q: int|
        #![trigger lo[p], customer[q]]
        0 <= p < lo.len() && is_first_key_index(customer, 1, lo[p][5], q) && j[i] == lo[p] + customer[q];
    lemma_join_first_row(lg, 0, orders, 1, p);
    let (p2, q2) = choose|p2: int, q2: int|
        #![trigger lg[p2], orders[q2]]
        0 <= p2 < lg.len() && is_first_key_index(orders, 1, lg[p2][0], q2) && lo[p] == lg[p2] + orders[q2];
    // the grouped row is a sorted lineitem row carrying its run's sum
    lemma_sorted_lineitem_contiguous(lineitem);
    let ls = lineitem_sorted(lineitem);
    let f = orderkey_flags(ls);
    let qs = quantity_sums(ls);
    let n = ls.len() as int;
    lemma_summed_rows_member(ls, f, qs, n, p2);
    let jj = choose|jj: int| 0 <= jj < n && gets_sum(f, n, jj) && #[trigger] summed_rows(ls, f, qs, n)[p2] == ls[jj].push(qs[jj + 1] as u64);
    let ks = lineitem.map_values(|x: Seq<u64>| x[0] as int);
    lemma_sort_by_keys(lineitem, ks);
    lemma_stable_order_is_permutation(ks, stable_order(ks));
    assert(ls[jj] == lineitem[stable_order(ks)[jj]]);
    assert(ls[jj].len() == 2);
    assert(lc[jj] == ls[jj].push(qs[jj + 1] as u64));
    law_q18_combined_sums(customer, orders, lineitem, jj);
    let l3 = lg[p2];
    assert(l3 == lc[jj]);
    assert(l3.len() == 3);
    assert(orders[q2].len() == 4 && customer[q].len() == 2);
    assert(r == l3 + orders[q2] + customer[q]);
    assert(r.subrange(3, 7) =~= orders[q2]);
    assert(r.subrange(7, 9) =~= customer[q]);
    assert(r[4] == orders[q2][1]);
    assert(lo[p][5] == orders[q2][2]);
    assert(l3.last() == l3[2]);
}

/// Law checked by the circuit's permutation arguments: each table is exactly
/// its rows with a join partner followed by those without one, rearranged.
pub proof fn law_q18_partitions(customer: Seq<Seq<u64>>, orders: Seq<Seq<u64>>, lineitem: Seq<Seq<u64>>, w: Q18Witness)
    requires
        q18_witness_spec(customer, orders, lineitem, w),
    ensures
        (w.join_value.deep_view()[0] + w.disjoin_value.deep_view()[0]).to_multiset()
            == lineitem_groups(lineitem).to_multiset(),
        (w.join_value.deep_view()[1] + w.disjoin_value.deep_view()[1]).to_multiset() == orders.to_multiset(),
        (w.join_value.deep_view()[2] + w.disjoin_value.deep_view()[2]).to_multiset()
            == lineitem_orders(lineitem, orders).to_multiset(),
        (w.join_value.deep_view()[3] + w.disjoin_value.deep_view()[3]).to_multiset() == customer.to_multiset(),
{
    let lg = lineitem_groups(lineitem);
    let lo = lineitem_orders(lineitem, orders);
    lemma_split_permutation(lg, 0, orders, 1);
    lemma_split_permutation(orders, 1, lg, 0);
    lemma_split_permutation(lo, 5, customer, 1);
    lemma_split_permutation(customer, 1, lo, 5);
}

/// The distinct unmatched keys of two sides, concatenated, repeat no value.
proof fn lemma_unmatched_concat_distinct(a: Seq<Seq<u64>>, ca: int, b: Seq<Seq<u64>>, cb: int)
    ensures
        (distinct_column(non_matching(a, ca, b, cb), ca) + distinct_column(non_matching(b, cb, a, ca), cb)).no_duplicates(),
{
    let ca_col = column(non_matching(a, ca, b, cb), ca);
    let cb_col = column(non_matching(b, cb, a, ca), cb);
    let x = distinct_column(non_matching(a, ca, b, cb), ca);
    let y = distinct_column(non_matching(b, cb, a, ca), cb);
    lemma_remove_duplicates_distinct(ca_col, Seq::empty());
    lemma_remove_duplicates_distinct(cb_col, Seq::empty());
    ca_col.lemma_remove_duplicates_properties(Seq::empty());
    cb_col.lemma_remove_duplicates_properties(Seq::empty());
    assert(ca_col + Seq::<u64>::empty() =~= ca_col);
    assert(cb_col + Seq::<u64>::empty() =~= cb_col);
    assert forall|i: int, j: int| 0 <= i < x.len() && 0 <= j < y.len() implies x[i] != y[j] by {
        assert(x.contains(x[i]));
        assert(y.contains(y[j]));
        lemma_unmatched_keys_disjoint(a, ca, b, cb, x[i]);
    }
    vstd::seq_lib::lemma_no_dup_in_concat(x, y);
}

/// Law required by the circuit's strict-order gates: both sorted columns of
/// unmatched join keys are strictly increasing, since a key without a partner
/// on one side never lacks a partner on the other.
pub proof fn law_q18_unmatched_keys_increasing(
    customer: Seq<Seq<u64>>,
    orders: Seq<Seq<u64>>,
    lineitem: Seq<Seq<u64>>,
    w: Q18Witness,
)
    requires
        q18_witness_spec(customer, orders, lineitem, w),
    ensures
        strictly_increasing(w.concatenated_vectors.deep_view()[0]),
        strictly_increasing(w.concatenated_vectors.deep_view()[1]),
{
    let lg = lineitem_groups(lineitem);
    let lo = lineitem_orders(lineitem, orders);
    lemma_unmatched_concat_distinct(lg, 0, orders, 1);
    lemma_unmatched_concat_distinct(lo, 5, customer, 1);
    let dis = w.dis_vectors.deep_view();
    lemma_sorted_values_strict(dis[0] + dis[1]);
    lemma_sorted_values_strict(dis[2] + dis[3]);
}

/// Order-by law: the result rows come by `o_totalprice` descending and,
/// among equal prices, by `o_orderdate` ascending.
pub proof fn law_q18_grouped_order(customer: Seq<Seq<u64>>, orders: Seq<Seq<u64>>, lineitem: Seq<Seq<u64>>, w: Q18Witness)
    requires
        q18_defined(customer, orders, lineitem),
        q18_witness_spec(customer, orders, lineitem, w),
    ensures
        desc_asc_ordered(w.grouped_data.deep_view(), 4, 3),
{
    let j = q18_joined(customer, orders, lineitem);
    lemma_project_width(j, group_cols());
    assert(group_cols().len() == 5);
    let g = group_rows(project(j, group_cols()), column(j, 2).map_values(|x: u64| x as int));
    lemma_group_rows_width(project(j, group_cols()), column(j, 2).map_values(|x: u64| x as int), 5);
    lemma_desc_asc_order(g, 4, 3);
    assert(g.map_values(|r: Seq<u64>| price_date_key(r)) =~= g.map_values(|r: Seq<u64>| desc_asc_key(r, 4, 3)));
}

/// Group-by law: the result has exactly one row per distinct
/// `(c_name, c_custkey, o_orderkey, o_orderdate, o_totalprice)` of the joined
/// rows, that key followed by the total of their `sum(l_quantity)` column.
pub proof fn law_q18_grouped_rows(customer: Seq<Seq<u64>>, orders: Seq<Seq<u64>>, lineitem: Seq<Seq<u64>>)
    requires
        q18_defined(customer, orders, lineitem),
    ensures
        is_grouping(
            q18_grouped(customer, orders, lineitem),
            project(q18_joined(customer, orders, lineitem), group_cols()),
            column(q18_joined(customer, orders, lineitem), 2).map_values(|x: u64| x as int),
            5,
        ),
{
    let j = q18_joined(customer, orders, lineitem);
    let keys = project(j, group_cols());
    let v = column(j, 2).map_values(|x: u64| x as int);
    lemma_project_keys_width(j, group_cols());
    assert(group_cols().len() == 5);
    assert(nonneg(v));
    lemma_group_rows_grouping(keys, v, 5);
    let g = group_rows(keys, v);
    lemma_grouping_sorted(g, g.map_values(|r: Seq<u64>| price_date_key(r)), keys, v, 5);
}

/// Law of the circuit's two accumulation gates: each running sum is the one
/// before it, kept when the row continues the group of the row before and
/// dropped otherwise, plus the row's own value (`l_quantity` of the sorted
/// lineitem row; the sum column of the `join1` row).
pub proof fn law_q18_accumulation(customer: Seq<Seq<u64>>, orders: Seq<Seq<u64>>, lineitem: Seq<Seq<u64>>, w: Q18Witness)
    requires
        q18_defined(customer, orders, lineitem),
        q18_witness_spec(customer, orders, lineitem, w),
    ensures
        w.orderkey_groupby_check.len() == w.l_combined.len(),
        w.sum_quantity.len() == w.l_combined.len() + 1,
        w.sum_quantity[0] == 0,
        forall|i: int| 0 <= i < w.l_combined.len() ==>
            #[trigger] w.sum_quantity[i + 1] == w.orderkey_groupby_check[i] * w.sum_quantity[i]
                + w.l_combined.deep_view()[i][1],
        w.equal_check.len() == w.join1.len(),
        w.sum_profit.len() == w.join1.len() + 1,
        w.sum_profit[0] == 0,
        forall|i: int| 0 <= i < w.join1.len() ==>
            #[trigger] w.sum_profit[i + 1] == w.equal_check[i] * w.sum_profit[i] + w.join1.deep_view()[i][5],
{
    lemma_sorted_lineitem_contiguous(lineitem);
    let ls = lineitem_sorted(lineitem);
    let f = orderkey_flags(ls);
    let v = column(ls, 1).map_values(|x: u64| x as int);
    let sq = w.sum_quantity@.map_values(|x: u64| x as int);
    assert(sq == run_sums(f, v));
    assert(f.len() == ls.len());
    assert(w.l_combined.deep_view().len() == ls.len());
    assert(sq.len() == f.len() + 1);
    assert(sq[0] == w.sum_quantity[0]);
    assert forall|i: int| 0 <= i < w.l_combined.len() implies
        #[trigger] w.sum_quantity[i + 1] == w.orderkey_groupby_check[i] * w.sum_quantity[i]
            + w.l_combined.deep_view()[i][1] by {
        assert(sq[i + 1] == run_sum(f, v, i + 1));
        assert(sq[i] == run_sum(f, v, i));
        assert(sq[i + 1] == w.sum_quantity[i + 1] && sq[i] == w.sum_quantity[i]);
        assert(f[i] == w.orderkey_groupby_check[i]);
        assert(ls[i].len() >= 2);
        assert(v[i] == ls[i][1]);
        assert(w.l_combined.deep_view()[i][1] == ls[i][1]);
    }
    let j1 = q18_join1(customer, orders, lineitem);
    let fj = same_key_flags(project(j1, key5_cols()));
    let vj = column(j1, 5).map_values(|x: u64| x as int);
    let sp = w.sum_profit@.map_values(|x: u128| x as int);
    assert(sp == run_sums(fj, vj));
    assert(fj.len() == j1.len());
    assert(w.join1.deep_view().len() == j1.len());
    assert(sp.len() == fj.len() + 1);
    assert(sp[0] == w.sum_profit[0]);
    assert forall|i: int| 0 <= i < w.join1.len() implies
        #[trigger] w.sum_profit[i + 1] == w.equal_check[i] * w.sum_profit[i] + w.join1.deep_view()[i][5] by {
        assert(sp[i + 1] == run_sum(fj, vj, i + 1));
        assert(sp[i] == run_sum(fj, vj, i));
        assert(sp[i + 1] == w.sum_profit[i + 1] && sp[i] == w.sum_profit[i]);
        assert(fj[i] == w.equal_check[i]);
        assert(vj[i] == j1[i][5]);
        assert(run_sum(fj, vj, i + 1) == run_sum(fj, vj, i) * fj[i] + vj[i]);
        assert(w.equal_check[i] * w.sum_profit[i] == fj[i] * sp[i]);
    }
}

/// Aggregation law of `join1`: the rows of each group are contiguous, and the
/// running sum at the last row of a group is the group's total of the sum column.
pub proof fn law_q18_profit_totals(customer: Seq<Seq<u64>>, orders: Seq<Seq<u64>>, lineitem: Seq<Seq<u64>>, i: int)
    requires
        0 <= i < q18_join1(customer, orders, lineitem).len(),
        i + 1 == q18_join1(customer, orders, lineitem).len() || project(
            q18_join1(customer, orders, lineitem),
            key5_cols(),
        )[i + 1] != project(q18_join1(customer, orders, lineitem), key5_cols())[i],
    ensures
        keys_contiguous(project(q18_join1(customer, orders, lineitem), key5_cols())),
        ({
            let j1 = q18_join1(customer, orders, lineitem);
            let k = project(j1, key5_cols());
            let v = column(j1, 5).map_values(|x: u64| x as int);
            run_sums(same_key_flags(k), v)[i + 1] == key_total(k, v, k[i])
        }),
{
    let p = project(q18_joined(customer, orders, lineitem), join1_cols());
    let j1 = q18_join1(customer, orders, lineitem);
    lemma_lex_sorted_contiguous(p, key5_cols());
    lemma_run_sum_at_run_end(project(j1, key5_cols()), column(j1, 5).map_values(|x: u64| x as int), i);
}

/// From any sorted lineitem row, its run ends at a row that receives the
/// run's sum and holds the same `l_orderkey`.
proof fn lemma_run_end(ls: Seq<Seq<u64>>, t: int) -> (j: int)
    requires
        0 <= t < ls.len(),
    ensures
        t <= j < ls.len(),
        gets_sum(orderkey_flags(ls), ls.len() as int, j),
        ls[j][0] == ls[t][0],
    decreases ls.len() - t,
{
    let f = orderkey_flags(ls);
    let n = ls.len() as int;
    let keys = project(ls, seq![0usize]);
    if t == n - 1 || f[t + 1] == 0 {
        t
    } else {
        assert(keys[t + 1] == keys[t]);
        let k1 = row_key(ls[t + 1], seq![0usize]);
        let k0 = row_key(ls[t], seq![0usize]);
        assert(keys[t + 1] == k1 && keys[t] == k0);
        assert(k1[0] == ls[t + 1][0] && k0[0] == ls[t][0]);
        lemma_run_end(ls, t + 1)
    }
}

/// A row that receives its run's sum is among the summed rows.
proof fn lemma_summed_rows_contains(sorted: Seq<Seq<u64>>, f: Seq<u64>, sums: Seq<int>, m: int, j: int)
    requires
        0 <= j < m <= sorted.len(),
        gets_sum(f, sorted.len() as int, j),
    ensures
        summed_rows(sorted, f, sums, m).contains(sorted[j].push(sums[j + 1] as u64)),
    decreases m,
{
    let x = sorted[j].push(sums[j + 1] as u64);
    let prev = summed_rows(sorted, f, sums, m - 1);
    if j == m - 1 {
        assert(summed_rows(sorted, f, sums, m)[prev.len() as int] == x);
    } else {
        lemma_summed_rows_contains(sorted, f, sums, m - 1, j);
        let k = choose|k: int| 0 <= k < prev.len() && prev[k] == x;
        assert(summed_rows(sorted, f, sums, m)[k] == x);
    }
}

/// Completeness law of the join: with the documented encoding, every order
/// that has a lineitem and a customer appears in the join, joined to its
/// `l_orderkey` group row `[l_orderkey, l_quantity, sum(l_quantity)]`, when it
/// is the first order with its `o_orderkey` and the customer is the first with
/// its `c_custkey` (so every order, when those keys are unique).
pub proof fn law_q18_every_order(
    customer: Seq<Seq<u64>>,
    orders: Seq<Seq<u64>>,
    lineitem: Seq<Seq<u64>>,
    x: int,
    y: int,
    m: int,
)
    requires
        q18_defined(customer, orders, lineitem),
        q18_schema(customer, orders, lineitem),
        0 <= m < lineitem.len(),
        0 <= x < orders.len(),
        0 <= y < customer.len(),
        is_first_key_index(orders, 1, lineitem[m][0], x),
        is_first_key_index(customer, 1, orders[x][2], y),
    ensures
        exists|g: Seq<u64>|
            #![trigger lineitem_groups(lineitem).contains(g)]
            lineitem_groups(lineitem).contains(g) && g.len() == 3 && g[0] == orders[x][1]
                && q18_joined(customer, orders, lineitem).contains(g + orders[x] + customer[y])
                && g[2] == key_total(
                project(lineitem, seq![0usize]),
                column(lineitem, 1).map_values(|v: u64| v as int),
                seq![g[0]],
            ),
{
    let ls = lineitem_sorted(lineitem);
    let f = orderkey_flags(ls);
    let qs = quantity_sums(ls);
    let n = ls.len() as int;
    let ks = lineitem.map_values(|r: Seq<u64>| r[0] as int);
    lemma_sort_by_keys(lineitem, ks);
    let o = stable_order(ks);
    assert(o.contains(m));
    let t = choose|t: int| 0 <= t < o.len() && o[t] == m;
    assert(ls[t] == lineitem[m]);
    let j = lemma_run_end(ls, t);
    lemma_summed_rows_contains(ls, f, qs, n, j);
    let g = ls[j].push(qs[j + 1] as u64);
    let lg = lineitem_groups(lineitem);
    assert(lg.contains(g));
    assert(ls[j] == lineitem[o[j]]);
    assert(ls[j].len() == 2);
    assert(g[0] == ls[j][0]);
    assert(g[0] == orders[x][1]);
    law_q18_combined_sums(customer, orders, lineitem, j);
    assert(lineitem_combined(lineitem)[j] == g);
    assert(g.last() == g[2]);
    lemma_join_first_contains(lg, 0, orders, 1, g, x);
    let lo = lineitem_orders(lineitem, orders);
    assert(orders[x].len() == 4);
    assert((g + orders[x])[5] == orders[x][2]);
    lemma_join_first_contains(lo, 5, customer, 1, g + orders[x], y);
}

/// Group-by law of `join1`: its rows come in lexicographic order of
/// `(c_name, c_custkey, o_orderkey, o_orderdate, o_totalprice)`, so each
/// group is one run, and they are the projected joined rows rearranged.
pub proof fn law_q18_join1_sorted(customer: Seq<Seq<u64>>, orders: Seq<Seq<u64>>, lineitem: Seq<Seq<u64>>)
    ensures
        lex_ordered(project(q18_join1(customer, orders, lineitem), key5_cols())),
        keys_contiguous(project(q18_join1(customer, orders, lineitem), key5_cols())),
        q18_join1(customer, orders, lineitem).to_multiset() == project(
            q18_joined(customer, orders, lineitem),
            join1_cols(),
        ).to_multiset(),
{
    let p = project(q18_joined(customer, orders, lineitem), join1_cols());
    lemma_sort_by_keys(p, lex_values(project(p, key5_cols())));
    lemma_lex_sorted_order(p, key5_cols());
    lemma_lex_sorted_contiguous(p, key5_cols());
}

/// Run flag law of the sorted lineitem table: a flag is 0 exactly where the
/// `l_orderkey` differs from the row before, and 1 where it is the same.
pub proof fn law_q18_orderkey_flags(ls: Seq<Seq<u64>>, i: int)
    requires
        has_width(ls, 1),
        0 < i < ls.len(),
    ensures
        (orderkey_flags(ls)[i] == 0) <==> ls[i][0] != ls[i - 1][0],
        (orderkey_flags(ls)[i] == 1) <==> ls[i][0] == ls[i - 1][0],
        orderkey_flags(ls)[0] == 0,
        orderkey_flags(ls).len() == ls.len(),
{
    let keys = project(ls, seq![0usize]);
    assert(keys[i] == row_key(ls[i], seq![0usize]));
    assert(keys[i - 1] == row_key(ls[i - 1], seq![0usize]));
    assert(keys[i] =~= seq![ls[i][0]]);
    assert(keys[i - 1] =~= seq![ls[i - 1][0]]);
    if ls[i][0] != ls[i - 1][0] {
        assert(keys[i][0] != keys[i - 1][0]);
    }
}

/// The sorted lineitem table rearranges `lineitem` with `l_orderkey` ascending.
pub proof fn law_q18_lineitem_sorted(lineitem: Seq<Seq<u64>>)
    requires
        has_width(lineitem, 1),
    ensures
        lineitem_sorted(lineitem).to_multiset() == lineitem.to_multiset(),
        lineitem_sorted(lineitem).len() == lineitem.len(),
        forall|k: int, l: int|
            0 <= k <= l < lineitem.len() ==> #[trigger] lineitem_sorted(lineitem)[k][0] <= #[trigger] lineitem_sorted(
                lineitem,
            )[l][0],
{
    let ks = lineitem.map_values(|r: Seq<u64>| r[0] as int);
    lemma_sort_by_keys(lineitem, ks);
    let o = stable_order(ks);
    let ls = lineitem_sorted(lineitem);
    assert forall|k: int, l: int| 0 <= k <= l < lineitem.len() implies #[trigger] ls[k][0] <= #[trigger] ls[l][0] by {
        assert(ls[k] == lineitem[o[k]] && ls[l] == lineitem[o[l]]);
        assert(ks[o[k]] <= ks[o[l]]);
    }
}

/// Summed rows come with strictly ascending `l_orderkey`.
proof fn lemma_summed_rows_increasing(sorted: Seq<Seq<u64>>, sums: Seq<int>, m: int)
    requires
        has_width(sorted, 1),
        0 <= m <= sorted.len(),
        forall|k: int, l: int| 0 <= k <= l < sorted.len() ==> #[trigger] sorted[k][0] <= #[trigger] sorted[l][0],
    ensures
        forall|a: int, b: int|
            0 <= a < b < summed_rows(sorted, orderkey_flags(sorted), sums, m).len() ==> (#[trigger] summed_rows(
                sorted,
                orderkey_flags(sorted),
                sums,
                m,
            )[a])[0] < (#[trigger] summed_rows(sorted, orderkey_flags(sorted), sums, m)[b])[0],
    decreases m,
{
    let f = orderkey_flags(sorted);
    let n = sorted.len() as int;
    if m > 0 {
        lemma_summed_rows_increasing(sorted, sums, m - 1);
        let prev = summed_rows(sorted, f, sums, m - 1);
        let cur = summed_rows(sorted, f, sums, m);
        if gets_sum(f, n, m - 1) {
            assert forall|a: int, b: int| 0 <= a < b < cur.len() implies (#[trigger] cur[a])[0] < (#[trigger] cur[b])[0] by {
                if b < prev.len() {
                    assert(cur[a] == prev[a] && cur[b] == prev[b]);
                } else {
                    assert(cur[a] == prev[a]);
                    lemma_summed_rows_member(sorted, f, sums, m - 1, a);
                    let ja = choose|ja: int|
                        0 <= ja < m - 1 && gets_sum(f, n, ja) && #[trigger] summed_rows(sorted, f, sums, m - 1)[a]
                            == sorted[ja].push(sums[ja + 1] as u64);
                    assert(f[ja + 1] == 0);
                    law_q18_orderkey_flags(sorted, ja + 1);
                    assert(sorted[ja][0] <= sorted[ja + 1][0]);
                    assert(sorted[ja + 1][0] <= sorted[m - 1][0]);
                    assert(sorted[ja].len() >= 1 && sorted[m - 1].len() >= 1);
                    assert(cur[a][0] == sorted[ja][0]);
                    assert(cur[b] == sorted[m - 1].push(sums[m] as u64));
                    assert(cur[b][0] == sorted[m - 1][0]);
                }
            }
        }
    }
}

/// Group-by law of `select l_orderkey, sum(l_quantity) from lineitem group by
/// l_orderkey`: the group rows come with strictly ascending `l_orderkey`, so
/// one per key; each is a lineitem row followed by the total `l_quantity` of
/// its key over `lineitem`; and every `l_orderkey` of `lineitem` has one.
pub proof fn law_q18_lineitem_groups(customer: Seq<Seq<u64>>, orders: Seq<Seq<u64>>, lineitem: Seq<Seq<u64>>)
    requires
        q18_defined(customer, orders, lineitem),
    ensures
        forall|a: int, b: int|
            0 <= a < b < lineitem_groups(lineitem).len() ==> (#[trigger] lineitem_groups(lineitem)[a])[0] < (
            #[trigger] lineitem_groups(lineitem)[b])[0],
        forall|a: int|
            0 <= a < lineitem_groups(lineitem).len() ==> {
                &&& lineitem.contains((#[trigger] lineitem_groups(lineitem)[a]).drop_last())
                &&& lineitem_groups(lineitem)[a].last() == key_total(
                    project(lineitem, seq![0usize]),
                    column(lineitem, 1).map_values(|x: u64| x as int),
                    seq![lineitem_groups(lineitem)[a][0]],
                )
            },
        forall|m: int|
            0 <= m < lineitem.len() ==> exists|a: int|
                0 <= a < lineitem_groups(lineitem).len() && (#[trigger] lineitem_groups(lineitem)[a])[0]
                    == #[trigger] lineitem[m][0],
{
    let ls = lineitem_sorted(lineitem);
    let f = orderkey_flags(ls);
    let qs = quantity_sums(ls);
    let n = ls.len() as int;
    let lg = lineitem_groups(lineitem);
    let ks = lineitem.map_values(|r: Seq<u64>| r[0] as int);
    lemma_sort_by_keys(lineitem, ks);
    let o = stable_order(ks);
    lemma_sorted_lineitem_contiguous(lineitem);
    law_q18_lineitem_sorted(lineitem);
    lemma_summed_rows_increasing(ls, qs, n);
    assert forall|a: int| 0 <= a < lg.len() implies {
        &&& lineitem.contains((#[trigger] lg[a]).drop_last())
        &&& lg[a].last() == key_total(
            project(lineitem, seq![0usize]),
            column(lineitem, 1).map_values(|x: u64| x as int),
            seq![lg[a][0]],
        )
    } by {
        lemma_summed_rows_member(ls, f, qs, n, a);
        let j = choose|j: int|
            0 <= j < n && gets_sum(f, n, j) && #[trigger] summed_rows(ls, f, qs, n)[a] == ls[j].push(qs[j + 1] as u64);
        assert(lg[a].drop_last() =~= ls[j]);
        assert(ls[j] == lineitem[o[j]]);
        law_q18_combined_sums(customer, orders, lineitem, j);
        assert(lineitem_combined(lineitem)[j] == lg[a]);
        assert(ls[j].len() >= 2);
        assert(lg[a][0] == ls[j][0]);
    }
    assert forall|m: int| 0 <= m < lineitem.len() implies exists|a: int|
        0 <= a < lg.len() && (#[trigger] lg[a])[0] == #[trigger] lineitem[m][0] by {
        assert(o.contains(m));
        let t = choose|t: int| 0 <= t < o.len() && o[t] == m;
        assert(ls[t] == lineitem[m]);
        let j = lemma_run_end(ls, t);
        lemma_summed_rows_contains(ls, f, qs, n, j);
        let x = ls[j].push(qs[j + 1] as u64);
        let a = choose|a: int| 0 <= a < lg.len() && lg[a] == x;
        assert(ls[j].len() >= 2);
        assert(lg[a][0] == ls[j][0]);
    }
}

/// Law of the sorted lineitem table with group sums: a row that does not end
/// its `l_orderkey` run keeps its columns; the row that ends it gets the total
/// `l_quantity` of its `l_orderkey` over `lineitem` appended.
pub proof fn law_q18_combined_rows(customer: Seq<Seq<u64>>, orders: Seq<Seq<u64>>, lineitem: Seq<Seq<u64>>, j: int)
    requires
        q18_defined(customer, orders, lineitem),
        0 <= j < lineitem.len(),
    ensures
        lineitem_combined(lineitem).len() == lineitem.len(),
        j + 1 < lineitem.len() && lineitem_sorted(lineitem)[j + 1][0] == lineitem_sorted(lineitem)[j][0]
            ==> lineitem_combined(lineitem)[j] == lineitem_sorted(lineitem)[j],
        j + 1 == lineitem.len() || lineitem_sorted(lineitem)[j + 1][0] != lineitem_sorted(lineitem)[j][0] ==> {
            let total = key_total(
                project(lineitem, seq![0usize]),
                column(lineitem, 1).map_values(|x: u64| x as int),
                seq![lineitem_sorted(lineitem)[j][0]],
            );
            &&& 0 <= total <= u64::MAX
            &&& lineitem_combined(lineitem)[j] == lineitem_sorted(lineitem)[j].push(total as u64)
        },
{
    let ls = lineitem_sorted(lineitem);
    let f = orderkey_flags(ls);
    let n = ls.len() as int;
    lemma_sorted_lineitem_contiguous(lineitem);
    if j + 1 < n {
        law_q18_orderkey_flags(ls, j + 1);
    }
    if gets_sum(f, n, j) {
        law_q18_orderkey_sums(lineitem, j);
        law_q18_combined_sums(customer, orders, lineitem, j);
    }
}

/// There are at most as many summed rows as sorted rows considered.
proof fn lemma_summed_rows_len(sorted: Seq<Seq<u64>>, f: Seq<u64>, sums: Seq<int>, m: int)
    requires
        0 <= m,
    ensures
        summed_rows(sorted, f, sums, m).len() <= m,
    decreases m,
{
    if m > 0 {
        lemma_summed_rows_len(sorted, f, sums, m - 1);
    }
}

/// Definedness law: with the documented encoding, the witness is defined
/// whenever every `l_quantity` is at most `m` with `n * n * m` fitting in a
/// `u64`, `n` being the number of lineitems.
pub proof fn law_q18_defined_when_small(customer: Seq<Seq<u64>>, orders: Seq<Seq<u64>>, lineitem: Seq<Seq<u64>>, m: int)
    requires
        q18_schema(customer, orders, lineitem),
        0 <= m,
        forall|i: int| 0 <= i < lineitem.len() ==> #[trigger] lineitem[i][1] <= m,
        lineitem.len() * lineitem.len() * m <= u64::MAX,
    ensures
        q18_defined(customer, orders, lineitem),
{
    let n = lineitem.len() as int;
    let ls = lineitem_sorted(lineitem);
    let f = orderkey_flags(ls);
    let qs = quantity_sums(ls);
    let v = column(ls, 1).map_values(|x: u64| x as int);
    let lg = lineitem_groups(lineitem);
    let lo = lineitem_orders(lineitem, orders);
    let j = q18_joined(customer, orders, lineitem);
    let ks = lineitem.map_values(|r: Seq<u64>| r[0] as int);
    lemma_sort_by_keys(lineitem, ks);
    let o = stable_order(ks);
    assert forall|k: int| 0 <= k < n implies (#[trigger] ls[k]).len() == 2 && ls[k][1] <= m by {
        assert(ls[k] == lineitem[o[k]]);
    }
    assert(n * m <= n * n * m) by (nonlinear_arith)
        requires
            0 <= m,
            0 <= n,
    ;
    // running quantity sums fit
    assert(flags_01(f)) by {
        assert forall|i: int| 0 <= i < f.len() implies #[trigger] f[i] <= 1 by {}
    }
    assert forall|i: int| 0 <= i < v.len() implies 0 <= #[trigger] v[i] <= m by {
        assert(v[i] == ls[i][1]);
    }
    assert forall|i: int| 0 <= i < n + 1 implies #[trigger] qs[i] <= u64::MAX by {
        lemma_run_sum_bound(f, v, m, i);
        assert(i * m <= n * m) by (nonlinear_arith)
            requires
                0 <= i <= n,
                0 <= m,
        ;
        assert(qs[i] == run_sum(f, v, i));
    }
    // group rows: three columns, the sum at most n * m
    assert forall|a: int| 0 <= a < lg.len() implies (#[trigger] lg[a]).len() == 3 && lg[a][2] <= n * m by {
        lemma_summed_rows_member(ls, f, qs, n, a);
        let jj = choose|jj: int|
            0 <= jj < n && gets_sum(f, n, jj) && #[trigger] summed_rows(ls, f, qs, n)[a] == ls[jj].push(qs[jj + 1] as u64);
        lemma_run_sum_bound(f, v, m, jj + 1);
        assert((jj + 1) * m <= n * m) by (nonlinear_arith)
            requires
                0 <= jj + 1 <= n,
                0 <= m,
        ;
        assert(qs[jj + 1] == run_sum(f, v, jj + 1));
    }
    // joined rows
    assert forall|i: int| 0 <= i < lo.len() implies (#[trigger] lo[i]).len() == 7 && lo[i][2] <= n * m by {
        lemma_join_first_row(lg, 0, orders, 1, i);
        let (p, q) = choose|p: int, q: int|
            #![trigger lg[p], orders[q]]
            0 <= p < lg.len() && is_first_key_index(orders, 1, lg[p][0], q) && lo[i] == lg[p] + orders[q];
        assert(lg[p].len() == 3);
        assert(orders[q].len() == 4);
    }
    assert forall|i: int| 0 <= i < j.len() implies (#[trigger] j[i]).len() == 9 && j[i][2] <= n * m by {
        lemma_join_first_row(lo, 5, customer, 1, i);
        let (p, q) = choose|p: int, q: int|
            #![trigger lo[p], customer[q]]
            0 <= p < lo.len() && is_first_key_index(customer, 1, lo[p][5], q) && j[i] == lo[p] + customer[q];
        assert(lo[p].len() == 7);
        assert(customer[q].len() == 2);
    }
    // group totals fit
    lemma_summed_rows_len(ls, f, qs, n);
    lg.filter_lemma(key_in(orders, 1, 0));
    lo.filter_lemma(key_in(customer, 1, custkey_col()));
    assert(j.len() <= n);
    let keys = project(j, group_cols());
    let vals = column(j, 2).map_values(|x: u64| x as int);
    assert forall|i: int| 0 <= i < vals.len() implies 0 <= #[trigger] vals[i] <= n * m by {
        assert(vals[i] == j[i][2]);
    }
    assert forall|k: Seq<u64>| keys.contains(k) implies #[trigger] key_total(keys, vals, k) <= u64::MAX by {
        lemma_key_total_bound(keys, vals, k, n * m);
        assert(j.len() * (n * m) <= n * n * m) by (nonlinear_arith)
            requires
                0 <= j.len() <= n,
                0 <= m,
        ;
    }
}

} // verus!
