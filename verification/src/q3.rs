//! Witness of the circuit for TPC-H query 3 (shipping priority):
//!
//! ```text
//! select l_orderkey, sum(l_extendedprice * (1 - l_discount)) as revenue,
//!        o_orderdate, o_shippriority
//! from customer, orders, lineitem
//! where c_mktsegment = ':1' and c_custkey = o_custkey and l_orderkey = o_orderkey
//!   and o_orderdate < date ':2' and l_shipdate > date ':2'
//! group by l_orderkey, o_orderdate, o_shippriority
//! order by revenue desc, o_orderdate
//! ```
//!
//! Tables are integer encoded: `customer` rows are `[c_mktsegment, c_custkey]`,
//! `orders` rows `[o_orderdate, o_shippriority, o_custkey, o_orderkey]`,
//! `lineitem` rows `[l_orderkey, l_extendedprice, l_discount, l_shipdate]`
//! with prices and discounts scaled by 1000; `condition` is
//! `[c_mktsegment value, date]`.

use crate::aggregate::{
    group_rows, group_totals, is_grouping, key_flags, key_total, keys_contiguous,
    lemma_group_rows_grouping, lemma_group_rows_width, lemma_grouping_sorted, lemma_key_total_bound,
    lemma_lex_sorted_contiguous, lemma_lex_sorted_order, lemma_project_keys_width,
    lemma_project_width, lemma_run_sum_at_run_end, lemma_run_sum_le_total, nonneg, project,
    project_rows, run_sum, run_sums, running_sums_u128, same_key_flags, totals_fit,
};
use crate::sort::{
    desc_asc_ordered, ints_of_u128, lemma_desc_asc_order, lemma_sort_by_keys,
    lemma_sort_by_keys_contains, lemma_sorted_values_strict, lex_ordered, lex_values, sort_by_keys,
    sort_rows_by_keys, sort_rows_by_lex_keys, sort_u64, sorted_unique, stable_order,
    strictly_increasing, value_keys,
};
use crate::table::{
    column, column_values, concat_row, condition_check, condition_flags, desc_asc_key,
    desc_asc_keys, filter_rows, first_partners, has_width, join_all, join_all_matches,
    join_first_match, key_not_in, law_selections, lemma_filter_width, lemma_first_partners_row,
    lemma_join_all_contains, lemma_join_all_len, lemma_semijoins_pair_up, lemma_split_permutation,
    lemma_unmatched_keys_disjoint, matching, non_matching, row_satisfies, rows_have_width,
    split_by_keys, usize_vec, Relation,
};
use vstd::prelude::*;

verus! {

/// Customers in the market segment `condition[0]`.
pub open spec fn q3_customers(customer: Seq<Seq<u64>>, segment: u64) -> Seq<Seq<u64>> {
    customer.filter(row_satisfies(0, Relation::Eq, segment))
}

/// Orders placed before `date`.
pub open spec fn q3_orders(orders: Seq<Seq<u64>>, date: u64) -> Seq<Seq<u64>> {
    orders.filter(row_satisfies(0, Relation::Lt, date))
}

/// Lineitems shipped after `date`.
pub open spec fn q3_lineitems(lineitem: Seq<Seq<u64>>, date: u64) -> Seq<Seq<u64>> {
    lineitem.filter(row_satisfies(3, Relation::Gt, date))
}

/// Selected orders joined with selected customers (`o_custkey = c_custkey`):
/// rows `[o_orderdate, o_shippriority, o_custkey, o_orderkey, c_mktsegment, c_custkey]`.
pub open spec fn q3_orders_customers(customer: Seq<Seq<u64>>, orders: Seq<Seq<u64>>, condition: Seq<u64>) -> Seq<Seq<u64>> {
    join_all(q3_orders(orders, condition[1]), 2, q3_customers(customer, condition[0]), 1)
}

/// Selected lineitems joined with those rows (`l_orderkey = o_orderkey`).
pub open spec fn q3_joined(
    customer: Seq<Seq<u64>>,
    orders: Seq<Seq<u64>>,
    lineitem: Seq<Seq<u64>>,
    condition: Seq<u64>,
) -> Seq<Seq<u64>> {
    join_all(q3_lineitems(lineitem, condition[1]), 0, q3_orders_customers(customer, orders, condition), 3)
}

/// Sort keys of joined rows: their group-by key read lexicographically.
pub open spec fn q3_sort_keys(j: Seq<Seq<u64>>) -> Seq<int> {
    lex_values(project(j, q3_group_cols()))
}

/// The joined rows stably sorted by `(l_orderkey, o_orderdate, o_shippriority)`,
/// so that the rows of each group are contiguous.
pub open spec fn q3_sorted(
    customer: Seq<Seq<u64>>,
    orders: Seq<Seq<u64>>,
    lineitem: Seq<Seq<u64>>,
    condition: Seq<u64>,
) -> Seq<Seq<u64>> {
    let j = q3_joined(customer, orders, lineitem, condition);
    sort_by_keys(j, q3_sort_keys(j))
}

/// Group-by columns of a joined row: `l_orderkey`, `o_orderdate`, `o_shippriority`.
pub open spec fn q3_group_cols() -> Seq<usize> {
    seq![0usize, 4usize, 5usize]
}

/// Revenue of a joined row: `l_extendedprice * (1000 - l_discount)`.
pub open spec fn revenue_value(r: Seq<u64>) -> int {
    r[1] * (1000 - r[2])
}

/// Revenues of the rows of `t`.
pub open spec fn revenues(t: Seq<Seq<u64>>) -> Seq<int> {
    t.map_values(|r: Seq<u64>| revenue_value(r))
}

/// The grouped rows `[l_orderkey, o_orderdate, o_shippriority, revenue]`, one
/// per distinct key, ordered by revenue descending and then `o_orderdate`
/// ascending.
pub open spec fn q3_grouped(
    customer: Seq<Seq<u64>>,
    orders: Seq<Seq<u64>>,
    lineitem: Seq<Seq<u64>>,
    condition: Seq<u64>,
) -> Seq<Seq<u64>> {
    let s = q3_sorted(customer, orders, lineitem, condition);
    let g = group_rows(project(s, q3_group_cols()), revenues(s));
    sort_by_keys(g, g.map_values(|r: Seq<u64>| desc_asc_key(r, 3, 1)))
}

/// The inputs on which the witness is defined (elsewhere the computation
/// indexes past a row's end, or overflows or underflows a `u64`).
pub open spec fn q3_defined(
    customer: Seq<Seq<u64>>,
    orders: Seq<Seq<u64>>,
    lineitem: Seq<Seq<u64>>,
    condition: Seq<u64>,
) -> bool {
    let j = q3_joined(customer, orders, lineitem, condition);
    let s = q3_sorted(customer, orders, lineitem, condition);
    &&& condition.len() == 2
    &&& has_width(customer, 1)
    &&& has_width(orders, 1)
    &&& has_width(lineitem, 4)
    &&& has_width(q3_customers(customer, condition[0]), 2)
    &&& has_width(q3_orders(orders, condition[1]), 3)
    &&& has_width(q3_orders_customers(customer, orders, condition), 4)
    &&& has_width(j, 8)
    &&& forall|i: int| 0 <= i < j.len() ==> #[trigger] j[i][2] <= 1000
    &&& totals_fit(project(s, q3_group_cols()), revenues(s))
}

/// The witness of the query-3 circuit.
pub struct Q3Witness {
    /// Per customer: `c_mktsegment = condition[0]`.
    pub c_check: Vec<bool>,
    /// Per order: `o_orderdate < condition[1]`.
    pub o_check: Vec<bool>,
    /// Per lineitem: `l_shipdate > condition[1]`.
    pub l_check: Vec<bool>,
    /// Rows with a join partner: selected orders (by customers), selected
    /// customers (by orders), selected lineitems (by orders-customers),
    /// orders-customers (by lineitems).
    pub join_value: Vec<Vec<Vec<u64>>>,
    /// The rows of the same four tables without a join partner.
    pub disjoin_value: Vec<Vec<Vec<u64>>>,
    /// For each `join_value[0]` row, its first partner in `join_value[1]`.
    pub join1: Vec<Vec<u64>>,
    /// For each `join_value[2]` row, its first partner in `join_value[3]`.
    pub join2: Vec<Vec<u64>>,
    /// `c_custkey` of the customers without a partner.
    pub dis_c_custkey: Vec<u64>,
    /// Distinct `o_custkey` of the orders without a partner, ascending.
    pub dis_o_custkey: Vec<u64>,
    /// `o_orderkey` of the orders-customers rows without a partner.
    pub dis_o_orderkey: Vec<u64>,
    /// Distinct `l_orderkey` of the lineitems without a partner, ascending.
    pub dis_l_orderkey: Vec<u64>,
    /// `dis_o_custkey ++ dis_c_custkey`, sorted.
    pub new_dedup_1: Vec<u64>,
    /// `dis_l_orderkey ++ dis_o_orderkey`, sorted.
    pub new_dedup_2: Vec<u64>,
    /// The joined rows, sorted by `(l_orderkey, o_orderdate, o_shippriority)`.
    pub cartesian_product: Vec<Vec<u64>>,
    /// Same-group-as-previous flags of the sorted joined rows.
    pub equal_check: Vec<u64>,
    /// Running revenue per run of equal group keys, starting at 0.
    pub revenue: Vec<u128>,
    /// Grouped and ordered result rows.
    pub grouped_data: Vec<Vec<u64>>,
}

/// What each field of the query-3 witness holds.
pub open spec fn q3_witness_spec(
    customer: Seq<Seq<u64>>,
    orders: Seq<Seq<u64>>,
    lineitem: Seq<Seq<u64>>,
    condition: Seq<u64>,
    w: Q3Witness,
) -> bool {
    let cc = q3_customers(customer, condition[0]);
    let oc = q3_orders(orders, condition[1]);
    let lc = q3_lineitems(lineitem, condition[1]);
    let oxc = q3_orders_customers(customer, orders, condition);
    let s = q3_sorted(customer, orders, lineitem, condition);
    let f = same_key_flags(project(s, q3_group_cols()));
    let jv = w.join_value.deep_view();
    let dj = w.disjoin_value.deep_view();
    &&& w.c_check@ == condition_flags(customer, 0, Relation::Eq, condition[0])
    &&& w.o_check@ == condition_flags(orders, 0, Relation::Lt, condition[1])
    &&& w.l_check@ == condition_flags(lineitem, 3, Relation::Gt, condition[1])
    &&& jv.len() == 4 && dj.len() == 4
    &&& jv[0] == matching(oc, 2, cc, 1) && dj[0] == non_matching(oc, 2, cc, 1)
    &&& jv[1] == matching(cc, 1, oc, 2) && dj[1] == non_matching(cc, 1, oc, 2)
    &&& jv[2] == matching(lc, 0, oxc, 3) && dj[2] == non_matching(lc, 0, oxc, 3)
    &&& jv[3] == matching(oxc, 3, lc, 0) && dj[3] == non_matching(oxc, 3, lc, 0)
    &&& w.join1.deep_view() == first_partners(jv[0], 2, jv[1], 1)
    &&& w.join2.deep_view() == first_partners(jv[2], 0, jv[3], 3)
    &&& w.dis_c_custkey@ == column(dj[1], 1)
    &&& strictly_increasing(w.dis_o_custkey@)
    &&& (forall|x: u64| w.dis_o_custkey@.contains(x) <==> column(dj[0], 2).contains(x))
    &&& w.dis_o_orderkey@ == column(dj[3], 3)
    &&& strictly_increasing(w.dis_l_orderkey@)
    &&& (forall|x: u64| w.dis_l_orderkey@.contains(x) <==> column(dj[2], 0).contains(x))
    &&& w.new_dedup_1@ == sort_by_keys(
        w.dis_o_custkey@ + w.dis_c_custkey@,
        value_keys(w.dis_o_custkey@ + w.dis_c_custkey@),
    )
    &&& w.new_dedup_2@ == sort_by_keys(
        w.dis_l_orderkey@ + w.dis_o_orderkey@,
        value_keys(w.dis_l_orderkey@ + w.dis_o_orderkey@),
    )
    &&& w.cartesian_product.deep_view() == s
    &&& w.equal_check@ == f
    &&& w.revenue@.map_values(|x: u128| x as int) == run_sums(f, revenues(s))
    &&& w.grouped_data.deep_view() == q3_grouped(customer, orders, lineitem, condition)
}


/// Computes the query-3 witness; `None` exactly when it is not defined
/// (see `q3_defined`).
pub fn q3_witness_checked(
    customer: &Vec<Vec<u64>>,
    orders: &Vec<Vec<u64>>,
    lineitem: &Vec<Vec<u64>>,
    condition: [u64; 2],
) -> (res: Option<Q3Witness>)
    ensures
        match res {
            Some(w) => q3_defined(customer.deep_view(), orders.deep_view(), lineitem.deep_view(), condition@)
                && q3_witness_spec(customer.deep_view(), orders.deep_view(), lineitem.deep_view(), condition@, w),
            None => !q3_defined(customer.deep_view(), orders.deep_view(), lineitem.deep_view(), condition@),
        },
{
    let ghost cv = customer.deep_view();
    let ghost ov = orders.deep_view();
    let ghost lv = lineitem.deep_view();
    let ghost cond = condition@;
    if !rows_have_width(customer, 1) || !rows_have_width(orders, 1) || !rows_have_width(lineitem, 4) {
        return None;
    }
    // selection
    let c_check = condition_check(customer, 0, &Relation::Eq, condition[0]);
    let o_check = condition_check(orders, 0, &Relation::Lt, condition[1]);
    let l_check = condition_check(lineitem, 3, &Relation::Gt, condition[1]);
    let c_combined = filter_rows(customer, 0, &Relation::Eq, condition[0]);
    let o_combined = filter_rows(orders, 0, &Relation::Lt, condition[1]);
    let l_combined = filter_rows(lineitem, 3, &Relation::Gt, condition[1]);
    proof {
        lemma_filter_width(lv, row_satisfies(3, Relation::Gt, cond[1]), 4);
    }
    if !rows_have_width(&c_combined, 2) || !rows_have_width(&o_combined, 3) {
        return None;
    }
    // orders join customer on o_custkey = c_custkey
    let (jv0, dj0) = split_by_keys(&o_combined, 2, &c_combined, 1);
    let (jv1, dj1) = split_by_keys(&c_combined, 1, &o_combined, 2);
    let oxc = join_all_matches(&o_combined, 2, &c_combined, 1);
    if !rows_have_width(&oxc, 4) {
        return None;
    }
    // lineitem join (orders join customer) on l_orderkey = o_orderkey
    let (jv2, dj2) = split_by_keys(&l_combined, 0, &oxc, 3);
    let (jv3, dj3) = split_by_keys(&oxc, 3, &l_combined, 0);
    let joined = join_all_matches(&l_combined, 0, &oxc, 3);
    if !rows_have_width(&joined, 8) {
        return None;
    }
    let ghost jn = joined.deep_view();
    assert(jn == q3_joined(cv, ov, lv, cond));
    proof {
        lemma_filter_width(c_combined.deep_view(), key_not_in(o_combined.deep_view(), 2, 1), 2);
        lemma_filter_width(o_combined.deep_view(), key_not_in(c_combined.deep_view(), 1, 2), 3);
        lemma_filter_width(l_combined.deep_view(), key_not_in(oxc.deep_view(), 3, 0), 4);
        lemma_filter_width(oxc.deep_view(), key_not_in(l_combined.deep_view(), 0, 3), 4);
        lemma_filter_width(o_combined.deep_view(), crate::table::key_in(c_combined.deep_view(), 1, 2), 3);
        lemma_filter_width(c_combined.deep_view(), crate::table::key_in(o_combined.deep_view(), 2, 1), 2);
        lemma_filter_width(l_combined.deep_view(), crate::table::key_in(oxc.deep_view(), 3, 0), 4);
        lemma_filter_width(oxc.deep_view(), crate::table::key_in(l_combined.deep_view(), 0, 3), 4);
    }
    // the rows assigned beside each joined row
    let (_, join1) = join_first_match(&jv0, 2, &jv1, 1);
    let (_, join2) = join_first_match(&jv2, 0, &jv3, 3);
    // join keys without a partner
    let dis_c_custkey = column_values(&dj1, 1);
    let dis_o_custkey = sorted_unique(&column_values(&dj0, 2));
    let dis_o_orderkey = column_values(&dj3, 3);
    let dis_l_orderkey = sorted_unique(&column_values(&dj2, 0));
    let new_dedup_1 = sort_u64(&concat_row(&dis_o_custkey, &dis_c_custkey));
    let new_dedup_2 = sort_u64(&concat_row(&dis_l_orderkey, &dis_o_orderkey));
    // sort by l_orderkey, o_orderdate, o_shippriority
    let gcols = usize_vec(&[0, 4, 5]);
    assert(gcols@ =~= q3_group_cols());
    proof {
        assert forall|k: int| 0 <= k < gcols@.len() implies has_width(jn, #[trigger] gcols@[k] + 1) by {}
        lemma_project_keys_width(jn, q3_group_cols());
    }
    let skeys = project_rows(&joined, &gcols);
    assert(skeys.deep_view() == project(jn, q3_group_cols()));
    proof {
        let kv = skeys.deep_view();
        assert forall|a: int, b: int| 0 <= a < kv.len() && 0 <= b < kv.len() implies
            (#[trigger] kv[a]).len() == (#[trigger] kv[b]).len() by {}
    }
    let sorted = sort_rows_by_lex_keys(&joined, &skeys);
    let ghost sv = sorted.deep_view();
    proof {
        lemma_sort_by_keys(jn, q3_sort_keys(jn));
        lemma_sort_by_keys_contains(jn, q3_sort_keys(jn));
        assert forall|i: int| 0 <= i < sv.len() implies #[trigger] sv[i].len() >= 8 by {
            assert(sv[i] == jn[stable_order(q3_sort_keys(jn))[i]]);
        }
        assert forall|i: int| 0 <= i < sv.len() implies jn.contains(#[trigger] sv[i]) by {
            assert(sv.contains(sv[i]));
        }
    }
    // revenue of each row
    let mut rev: Vec<u128> = Vec::new();
    for i in 0..sorted.len()
        invariant
            sv == sorted.deep_view(),
            jn == q3_joined(cv, ov, lv, cond),
            cv == customer.deep_view(),
            ov == orders.deep_view(),
            lv == lineitem.deep_view(),
            cond == condition@,
            forall|i: int| 0 <= i < sv.len() ==> jn.contains(#[trigger] sv[i]),
            forall|x: Seq<u64>| sv.contains(x) <==> jn.contains(x),
            has_width(sv, 8),
            rev.len() == i,
            forall|k: int| 0 <= k < i ==> #[trigger] rev[k] as int == revenue_value(sv[k]),
            forall|k: int| 0 <= k < i ==> #[trigger] sv[k][2] <= 1000,
    {
        assert(sv[i as int].len() >= 8);
        assert(sorted[i as int]@ =~= sv[i as int]);
        if sorted[i][2] > 1000 {
            proof {
                assert(jn.contains(sv[i as int]));
                let m = choose|m: int| 0 <= m < jn.len() && jn[m] == sv[i as int];
                assert(jn[m][2] > 1000);
            }
            return None;
        }
        let x = sorted[i][1] as u128;
        let y = (1000 - sorted[i][2]) as u128;
        assert(x * y <= u128::MAX) by (nonlinear_arith)
            requires
                x <= u64::MAX,
                y <= 1000,
        ;
        rev.push(x * y);
    }
    assert(ints_of_u128(rev@) =~= revenues(sv));
    proof {
        assert forall|m: int| 0 <= m < jn.len() implies #[trigger] jn[m][2] <= 1000 by {
            assert(jn.contains(jn[m]));
            assert(sv.contains(jn[m]));
            let k = choose|k: int| 0 <= k < sv.len() && sv[k] == jn[m];
            assert(sv[k][2] <= 1000);
        }
    }
    // group by l_orderkey, o_orderdate, o_shippriority
    proof {
        assert forall|k: int| 0 <= k < gcols@.len() implies has_width(sv, #[trigger] gcols@[k] + 1) by {}
    }
    let gkeys = project_rows(&sorted, &gcols);
    let equal_check = key_flags(&gkeys);
    assert(gkeys.deep_view().len() == gkeys.len());
    let grouped = match group_totals(&gkeys, &rev) {
        Some(g) => g,
        None => {
            return None;
        },
    };
    // running revenue: within a run, at most the total of its group
    let ghost gk = gkeys.deep_view();
    proof {
        assert forall|i: int| 0 <= i < equal_check.len() implies #[trigger] equal_check@[i] <= 1 by {}
        let ri = ints_of_u128(rev@);
        assert(nonneg(ri));
        assert forall|i: int| 0 <= i <= equal_check.len() implies run_sum(equal_check@, ri, i) <= u128::MAX by {
            if i > 0 {
                lemma_run_sum_le_total(gk, ri, i - 1);
                assert(gk.contains(gk[i - 1]));
                assert(key_total(gk, ri, gk[i - 1]) <= u64::MAX);
            }
        }
    }
    let revenue = match running_sums_u128(&equal_check, &rev) {
        Some(r) => r,
        None => {
            proof {
                let i = choose|i: int| 0 <= i <= equal_check.len() && run_sum(equal_check@, ints_of_u128(rev@), i) > u128::MAX;
                assert(run_sum(equal_check@, ints_of_u128(rev@), i) <= u128::MAX);
            }
            return None;
        },
    };
    // order by revenue desc, o_orderdate
    proof {
        lemma_project_width(sv, q3_group_cols());
        assert(q3_group_cols().len() == 3);
        lemma_group_rows_width(gk, ints_of_u128(rev@), 3);
    }
    let okeys = desc_asc_keys(&grouped, 3, 1);
    let ghost gv = grouped.deep_view();
    assert(ints_of_u128(okeys@) =~= gv.map_values(|r: Seq<u64>| desc_asc_key(r, 3, 1)));
    let grouped_data = sort_rows_by_keys(&grouped, &okeys);
    let join_value = vec![jv0, jv1, jv2, jv3];
    let disjoin_value = vec![dj0, dj1, dj2, dj3];
    let w = Q3Witness {
        c_check,
        o_check,
        l_check,
        join_value,
        disjoin_value,
        join1,
        join2,
        dis_c_custkey,
        dis_o_custkey,
        dis_o_orderkey,
        dis_l_orderkey,
        new_dedup_1,
        new_dedup_2,
        cartesian_product: sorted,
        equal_check,
        revenue,
        grouped_data,
    };
    proof {
        assert(w.join_value.deep_view() =~= seq![jv0.deep_view(), jv1.deep_view(), jv2.deep_view(), jv3.deep_view()]);
        assert(w.disjoin_value.deep_view() =~= seq![dj0.deep_view(), dj1.deep_view(), dj2.deep_view(), dj3.deep_view()]);
        assert(revenue@.map_values(|x: u128| x as int) =~= ints_of_u128(revenue@));
    }
    Some(w)
}

/// Computes the query-3 witness.
pub fn q3_witness(
    customer: &Vec<Vec<u64>>,
    orders: &Vec<Vec<u64>>,
    lineitem: &Vec<Vec<u64>>,
    condition: [u64; 2],
) -> (w: Q3Witness)
    requires
        q3_defined(customer.deep_view(), orders.deep_view(), lineitem.deep_view(), condition@),
    ensures
        q3_witness_spec(customer.deep_view(), orders.deep_view(), lineitem.deep_view(), condition@, w),
{
    q3_witness_checked(customer, orders, lineitem, condition).unwrap()
}


/// Law checked by the circuit's permutation arguments: each selected table is
/// exactly its rows with a join partner followed by those without one,
/// rearranged.
pub proof fn law_q3_partitions(
    customer: Seq<Seq<u64>>,
    orders: Seq<Seq<u64>>,
    lineitem: Seq<Seq<u64>>,
    condition: Seq<u64>,
    w: Q3Witness,
)
    requires
        q3_witness_spec(customer, orders, lineitem, condition, w),
    ensures
        (w.join_value.deep_view()[0] + w.disjoin_value.deep_view()[0]).to_multiset()
            == q3_orders(orders, condition[1]).to_multiset(),
        (w.join_value.deep_view()[1] + w.disjoin_value.deep_view()[1]).to_multiset()
            == q3_customers(customer, condition[0]).to_multiset(),
        (w.join_value.deep_view()[2] + w.disjoin_value.deep_view()[2]).to_multiset()
            == q3_lineitems(lineitem, condition[1]).to_multiset(),
        (w.join_value.deep_view()[3] + w.disjoin_value.deep_view()[3]).to_multiset()
            == q3_orders_customers(customer, orders, condition).to_multiset(),
{
    let cc = q3_customers(customer, condition[0]);
    let oc = q3_orders(orders, condition[1]);
    let lc = q3_lineitems(lineitem, condition[1]);
    let oxc = q3_orders_customers(customer, orders, condition);
    lemma_split_permutation(oc, 2, cc, 1);
    lemma_split_permutation(cc, 1, oc, 2);
    lemma_split_permutation(lc, 0, oxc, 3);
    lemma_split_permutation(oxc, 3, lc, 0);
}

/// Join law: a row is among the joined rows exactly when it is a selected
/// lineitem, followed by a selected order with that `o_orderkey`, followed by
/// a selected customer with that order's `o_custkey`.
pub proof fn law_q3_joined_rows(
    customer: Seq<Seq<u64>>,
    orders: Seq<Seq<u64>>,
    lineitem: Seq<Seq<u64>>,
    condition: Seq<u64>,
    x: Seq<u64>,
)
    requires
        condition.len() == 2,
        has_width(orders, 4),
    ensures
        q3_sorted(customer, orders, lineitem, condition).contains(x) <==> exists|l: Seq<u64>, o: Seq<u64>, c: Seq<u64>|
            #![trigger q3_lineitems(lineitem, condition[1]).contains(l), q3_orders(orders, condition[1]).contains(o), q3_customers(customer, condition[0]).contains(c)]
            q3_lineitems(lineitem, condition[1]).contains(l) && q3_orders(orders, condition[1]).contains(o)
                && q3_customers(customer, condition[0]).contains(c) && l[0] == o[3] && o[2] == c[1] && x == l + (o + c),
{
    let cc = q3_customers(customer, condition[0]);
    let oc = q3_orders(orders, condition[1]);
    let lc = q3_lineitems(lineitem, condition[1]);
    let oxc = q3_orders_customers(customer, orders, condition);
    let j = q3_joined(customer, orders, lineitem, condition);
    lemma_sort_by_keys_contains(j, q3_sort_keys(j));
    lemma_join_all_contains(lc, 0, oxc, 3, x);
    lemma_filter_width(orders, row_satisfies(0, Relation::Lt, condition[1]), 4);
    if j.contains(x) {
        let (i, k) = choose|i: int, k: int|
            0 <= i < lc.len() && 0 <= k < oxc.len() && #[trigger] lc[i][0] == #[trigger] oxc[k][3] && x == lc[i] + oxc[k];
        lemma_join_all_contains(oc, 2, cc, 1, oxc[k]);
        assert(oxc.contains(oxc[k]));
        let (p, q) = choose|p: int, q: int|
            0 <= p < oc.len() && 0 <= q < cc.len() && #[trigger] oc[p][2] == #[trigger] cc[q][1] && oxc[k] == oc[p] + cc[q];
        assert(oc[p].len() >= 4);
        assert(oxc[k][3] == oc[p][3]);
        assert(lc.contains(lc[i]) && oc.contains(oc[p]) && cc.contains(cc[q]));
    }
    if exists|l: Seq<u64>, o: Seq<u64>, c: Seq<u64>|
        #![trigger lc.contains(l), oc.contains(o), cc.contains(c)]
        lc.contains(l) && oc.contains(o) && cc.contains(c) && l[0] == o[3] && o[2] == c[1] && x == l + (o + c) {
        let (l, o, c) = choose|l: Seq<u64>, o: Seq<u64>, c: Seq<u64>|
            #![trigger lc.contains(l), oc.contains(o), cc.contains(c)]
            lc.contains(l) && oc.contains(o) && cc.contains(c) && l[0] == o[3] && o[2] == c[1] && x == l + (o + c);
        let i = choose|i: int| 0 <= i < lc.len() && lc[i] == l;
        let p = choose|p: int| 0 <= p < oc.len() && oc[p] == o;
        let q = choose|q: int| 0 <= q < cc.len() && cc[q] == c;
        lemma_join_all_contains(oc, 2, cc, 1, o + c);
        assert(oc[p][2] == cc[q][1]);
        assert(oxc.contains(o + c));
        let k = choose|k: int| 0 <= k < oxc.len() && oxc[k] == o + c;
        assert(o.len() >= 4);
        assert(oxc[k][3] == o[3]);
        assert(lc[i][0] == oxc[k][3]);
    }
}

/// Law of the circuit's join gates and lookups: every order with a partner
/// among the customers (and every lineitem with a partner among the joined
/// orders) gets exactly one partner row beside it, a row with a partner on
/// the other side that holds the same join key.
pub proof fn law_q3_partner_rows(
    customer: Seq<Seq<u64>>,
    orders: Seq<Seq<u64>>,
    lineitem: Seq<Seq<u64>>,
    condition: Seq<u64>,
    w: Q3Witness,
)
    requires
        q3_witness_spec(customer, orders, lineitem, condition, w),
    ensures
        w.join1.len() == w.join_value.deep_view()[0].len(),
        w.join2.len() == w.join_value.deep_view()[2].len(),
        forall|i: int| 0 <= i < w.join1.len() ==> {
            &&& #[trigger] w.join1.deep_view()[i][1] == w.join_value.deep_view()[0][i][2]
            &&& w.join_value.deep_view()[1].contains(w.join1.deep_view()[i])
        },
        forall|i: int| 0 <= i < w.join2.len() ==> {
            &&& #[trigger] w.join2.deep_view()[i][3] == w.join_value.deep_view()[2][i][0]
            &&& w.join_value.deep_view()[3].contains(w.join2.deep_view()[i])
        },
{
    let cc = q3_customers(customer, condition[0]);
    let oc = q3_orders(orders, condition[1]);
    let lc = q3_lineitems(lineitem, condition[1]);
    let oxc = q3_orders_customers(customer, orders, condition);
    let jv = w.join_value.deep_view();
    lemma_semijoins_pair_up(oc, 2, cc, 1);
    lemma_semijoins_pair_up(lc, 0, oxc, 3);
    assert(w.join1.deep_view().len() == w.join1.len());
    assert(w.join2.deep_view().len() == w.join2.len());
    assert forall|i: int| 0 <= i < w.join1.len() implies {
        &&& #[trigger] w.join1.deep_view()[i][1] == jv[0][i][2]
        &&& jv[1].contains(w.join1.deep_view()[i])
    } by {
        lemma_first_partners_row(jv[0], 2, jv[1], 1, i);
    }
    assert forall|i: int| 0 <= i < w.join2.len() implies {
        &&& #[trigger] w.join2.deep_view()[i][3] == jv[2][i][0]
        &&& jv[3].contains(w.join2.deep_view()[i])
    } by {
        lemma_first_partners_row(jv[2], 0, jv[3], 3, i);
    }
}

/// Law required by the circuit's strict-order gates: when the unmatched
/// customers' `c_custkey` and the unmatched joined orders' `o_orderkey`
/// repeat no value, both sorted columns of unmatched join keys are strictly
/// increasing.
pub proof fn law_q3_unmatched_keys_increasing(
    customer: Seq<Seq<u64>>,
    orders: Seq<Seq<u64>>,
    lineitem: Seq<Seq<u64>>,
    condition: Seq<u64>,
    w: Q3Witness,
)
    requires
        q3_witness_spec(customer, orders, lineitem, condition, w),
        w.dis_c_custkey@.no_duplicates(),
        w.dis_o_orderkey@.no_duplicates(),
    ensures
        strictly_increasing(w.new_dedup_1@),
        strictly_increasing(w.new_dedup_2@),
{
    let cc = q3_customers(customer, condition[0]);
    let oc = q3_orders(orders, condition[1]);
    let lc = q3_lineitems(lineitem, condition[1]);
    let oxc = q3_orders_customers(customer, orders, condition);
    let a1 = w.dis_o_custkey@;
    let b1 = w.dis_c_custkey@;
    let a2 = w.dis_l_orderkey@;
    let b2 = w.dis_o_orderkey@;
    assert forall|i: int, j: int| 0 <= i < a1.len() && 0 <= j < b1.len() implies a1[i] != b1[j] by {
        assert(a1.contains(a1[i]));
        assert(b1.contains(b1[j]));
        lemma_unmatched_keys_disjoint(oc, 2, cc, 1, a1[i]);
    }
    assert forall|i: int, j: int| 0 <= i < a2.len() && 0 <= j < b2.len() implies a2[i] != b2[j] by {
        assert(a2.contains(a2[i]));
        assert(b2.contains(b2[j]));
        lemma_unmatched_keys_disjoint(lc, 0, oxc, 3, a2[i]);
    }
    assert(a1.no_duplicates()) by {
        assert forall|i: int, j: int| 0 <= i < a1.len() && 0 <= j < a1.len() && i != j implies a1[i] != a1[j] by {
            if i < j { assert(a1[i] < a1[j]); } else { assert(a1[j] < a1[i]); }
        }
    }
    assert(a2.no_duplicates()) by {
        assert forall|i: int, j: int| 0 <= i < a2.len() && 0 <= j < a2.len() && i != j implies a2[i] != a2[j] by {
            if i < j { assert(a2[i] < a2[j]); } else { assert(a2[j] < a2[i]); }
        }
    }
    vstd::seq_lib::lemma_no_dup_in_concat(a1, b1);
    vstd::seq_lib::lemma_no_dup_in_concat(a2, b2);
    lemma_sorted_values_strict(a1 + b1);
    lemma_sorted_values_strict(a2 + b2);
}

/// Order-by law: the result rows come by revenue descending and, among equal
/// revenues, by `o_orderdate` ascending.
pub proof fn law_q3_grouped_order(
    customer: Seq<Seq<u64>>,
    orders: Seq<Seq<u64>>,
    lineitem: Seq<Seq<u64>>,
    condition: Seq<u64>,
    w: Q3Witness,
)
    requires
        q3_defined(customer, orders, lineitem, condition),
        q3_witness_spec(customer, orders, lineitem, condition, w),
    ensures
        desc_asc_ordered(w.grouped_data.deep_view(), 3, 1),
{
    let s = q3_sorted(customer, orders, lineitem, condition);
    let j = q3_joined(customer, orders, lineitem, condition);
    lemma_sort_by_keys_contains(j, q3_sort_keys(j));
    lemma_project_width(s, q3_group_cols());
    assert(q3_group_cols().len() == 3);
    lemma_group_rows_width(project(s, q3_group_cols()), revenues(s), 3);
    let g = group_rows(project(s, q3_group_cols()), revenues(s));
    lemma_desc_asc_order(g, 3, 1);
}

/// Aggregation law: the running revenue never exceeds the total revenue of
/// the group of the row it ends at.
pub proof fn law_q3_revenue_bounded(
    customer: Seq<Seq<u64>>,
    orders: Seq<Seq<u64>>,
    lineitem: Seq<Seq<u64>>,
    condition: Seq<u64>,
    i: int,
)
    requires
        q3_defined(customer, orders, lineitem, condition),
        0 <= i < q3_sorted(customer, orders, lineitem, condition).len(),
    ensures
        ({
            let s = q3_sorted(customer, orders, lineitem, condition);
            let k = project(s, q3_group_cols());
            run_sums(same_key_flags(k), revenues(s))[i + 1] <= key_total(k, revenues(s), k[i])
        }),
{
    let s = q3_sorted(customer, orders, lineitem, condition);
    let j = q3_joined(customer, orders, lineitem, condition);
    let k = project(s, q3_group_cols());
    lemma_sort_by_keys_contains(j, q3_sort_keys(j));
    lemma_sort_by_keys(j, q3_sort_keys(j));
    assert forall|m: int| 0 <= m < s.len() implies 0 <= #[trigger] revenues(s)[m] by {
        assert(s.contains(s[m]));
        let p = choose|p: int| 0 <= p < j.len() && j[p] == s[m];
        assert(j[p][2] <= 1000);
    }
    lemma_run_sum_le_total(k, revenues(s), i);
}

/// Group-by law: the result has exactly one row per distinct
/// `(l_orderkey, o_orderdate, o_shippriority)` of the joined rows, that key
/// followed by the total `l_extendedprice * (1000 - l_discount)` of its rows.
pub proof fn law_q3_grouped_rows(
    customer: Seq<Seq<u64>>,
    orders: Seq<Seq<u64>>,
    lineitem: Seq<Seq<u64>>,
    condition: Seq<u64>,
)
    requires
        q3_defined(customer, orders, lineitem, condition),
    ensures
        is_grouping(
            q3_grouped(customer, orders, lineitem, condition),
            project(q3_sorted(customer, orders, lineitem, condition), q3_group_cols()),
            revenues(q3_sorted(customer, orders, lineitem, condition)),
            3,
        ),
{
    let s = q3_sorted(customer, orders, lineitem, condition);
    let j = q3_joined(customer, orders, lineitem, condition);
    let keys = project(s, q3_group_cols());
    let v = revenues(s);
    lemma_sort_by_keys_contains(j, q3_sort_keys(j));
    lemma_sort_by_keys(j, q3_sort_keys(j));
    assert forall|m: int| 0 <= m < v.len() implies 0 <= #[trigger] v[m] by {
        assert(s.contains(s[m]));
        let p = choose|p: int| 0 <= p < j.len() && j[p] == s[m];
        assert(j[p][2] <= 1000);
    }
    lemma_project_keys_width(s, q3_group_cols());
    assert(q3_group_cols().len() == 3);
    lemma_group_rows_grouping(keys, v, 3);
    let g = group_rows(keys, v);
    lemma_grouping_sorted(g, g.map_values(|r: Seq<u64>| desc_asc_key(r, 3, 1)), keys, v, 3);
}

/// Aggregation law: each running revenue is the one before it, kept when the
/// row continues the group of the row before and dropped otherwise, plus the
/// row's own `l_extendedprice * (1000 - l_discount)`.
pub proof fn law_q3_accumulation(
    customer: Seq<Seq<u64>>,
    orders: Seq<Seq<u64>>,
    lineitem: Seq<Seq<u64>>,
    condition: Seq<u64>,
    w: Q3Witness,
)
    requires
        q3_witness_spec(customer, orders, lineitem, condition, w),
    ensures
        w.equal_check.len() == w.cartesian_product.len(),
        w.revenue.len() == w.cartesian_product.len() + 1,
        w.revenue[0] == 0,
        forall|i: int| 0 <= i < w.cartesian_product.len() ==>
            #[trigger] w.revenue[i + 1] == w.equal_check[i] * w.revenue[i]
                + w.cartesian_product.deep_view()[i][1] * (1000 - w.cartesian_product.deep_view()[i][2]),
{
    let s = q3_sorted(customer, orders, lineitem, condition);
    let f = same_key_flags(project(s, q3_group_cols()));
    let v = revenues(s);
    let r = w.revenue@.map_values(|x: u128| x as int);
    assert(r == run_sums(f, v));
    assert(w.cartesian_product.deep_view().len() == w.cartesian_product.len());
    assert(f.len() == s.len());
    assert(r.len() == f.len() + 1);
    assert(r[0] == w.revenue[0]);
    assert forall|i: int| 0 <= i < w.cartesian_product.len() implies
        #[trigger] w.revenue[i + 1] == w.equal_check[i] * w.revenue[i]
            + w.cartesian_product.deep_view()[i][1] * (1000 - w.cartesian_product.deep_view()[i][2]) by {
        assert(r[i + 1] == run_sum(f, v, i + 1));
        assert(r[i] == run_sum(f, v, i));
        assert(r[i + 1] == w.revenue[i + 1] && r[i] == w.revenue[i]);
        assert(f[i] == w.equal_check[i]);
        assert(v[i] == revenue_value(s[i]));
    }
}

/// Aggregation law: the joined rows of each group are contiguous, and the
/// running revenue at the last row of a group is that group's total revenue.
pub proof fn law_q3_revenue_totals(
    customer: Seq<Seq<u64>>,
    orders: Seq<Seq<u64>>,
    lineitem: Seq<Seq<u64>>,
    condition: Seq<u64>,
    i: int,
)
    requires
        0 <= i < q3_sorted(customer, orders, lineitem, condition).len(),
        i + 1 == q3_sorted(customer, orders, lineitem, condition).len() || project(
            q3_sorted(customer, orders, lineitem, condition),
            q3_group_cols(),
        )[i + 1] != project(q3_sorted(customer, orders, lineitem, condition), q3_group_cols())[i],
    ensures
        keys_contiguous(project(q3_sorted(customer, orders, lineitem, condition), q3_group_cols())),
        ({
            let s = q3_sorted(customer, orders, lineitem, condition);
            let k = project(s, q3_group_cols());
            run_sums(same_key_flags(k), revenues(s))[i + 1] == key_total(k, revenues(s), k[i])
        }),
{
    let j = q3_joined(customer, orders, lineitem, condition);
    let s = q3_sorted(customer, orders, lineitem, condition);
    let k = project(s, q3_group_cols());
    lemma_lex_sorted_contiguous(j, q3_group_cols());
    lemma_run_sum_at_run_end(k, revenues(s), i);
}

/// Group-by law: the joined rows come in lexicographic order of
/// `(l_orderkey, o_orderdate, o_shippriority)`, so each group is one run,
/// and they are the joined rows rearranged.
pub proof fn law_q3_sorted_by_group_key(
    customer: Seq<Seq<u64>>,
    orders: Seq<Seq<u64>>,
    lineitem: Seq<Seq<u64>>,
    condition: Seq<u64>,
)
    ensures
        lex_ordered(project(q3_sorted(customer, orders, lineitem, condition), q3_group_cols())),
        keys_contiguous(project(q3_sorted(customer, orders, lineitem, condition), q3_group_cols())),
        q3_sorted(customer, orders, lineitem, condition).to_multiset() == q3_joined(
            customer,
            orders,
            lineitem,
            condition,
        ).to_multiset(),
{
    let j = q3_joined(customer, orders, lineitem, condition);
    lemma_sort_by_keys(j, q3_sort_keys(j));
    lemma_lex_sorted_order(j, q3_group_cols());
    lemma_lex_sorted_contiguous(j, q3_group_cols());
}

/// Selection law: the selected customers are exactly those of market segment
/// `condition[0]`, the selected orders those placed strictly before the date
/// `condition[1]`, the selected lineitems those shipped strictly after it,
/// each in input order.
pub proof fn law_q3_selections(
    customer: Seq<Seq<u64>>,
    orders: Seq<Seq<u64>>,
    lineitem: Seq<Seq<u64>>,
    condition: Seq<u64>,
)
    ensures
        q3_customers(customer, condition[0]) == customer.filter(|r: Seq<u64>| r[0] == condition[0]),
        q3_orders(orders, condition[1]) == orders.filter(|r: Seq<u64>| r[0] < condition[1]),
        q3_lineitems(lineitem, condition[1]) == lineitem.filter(|r: Seq<u64>| r[3] > condition[1]),
{
    assert(row_satisfies(0, Relation::Eq, condition[0]) =~= (|r: Seq<u64>| r[0] == condition[0]));
    assert(row_satisfies(0, Relation::Lt, condition[1]) =~= (|r: Seq<u64>| r[0] < condition[1]));
    assert(row_satisfies(3, Relation::Gt, condition[1]) =~= (|r: Seq<u64>| r[3] > condition[1]));
}

/// Selection flags law: each flag of the witness says whether its row is
/// selected: customer of segment `condition[0]`, order before the date,
/// lineitem shipped after it.
pub proof fn law_q3_check_flags(
    customer: Seq<Seq<u64>>,
    orders: Seq<Seq<u64>>,
    lineitem: Seq<Seq<u64>>,
    condition: Seq<u64>,
    w: Q3Witness,
)
    requires
        q3_witness_spec(customer, orders, lineitem, condition, w),
    ensures
        w.c_check.len() == customer.len(),
        w.o_check.len() == orders.len(),
        w.l_check.len() == lineitem.len(),
        forall|i: int| 0 <= i < customer.len() ==> (#[trigger] w.c_check[i] <==> customer[i][0] == condition[0]),
        forall|i: int| 0 <= i < orders.len() ==> (#[trigger] w.o_check[i] <==> orders[i][0] < condition[1]),
        forall|i: int| 0 <= i < lineitem.len() ==> (#[trigger] w.l_check[i] <==> lineitem[i][3] > condition[1]),
{
    law_selections(customer, 0, condition[0]);
    law_selections(orders, 0, condition[1]);
    law_selections(lineitem, 3, condition[1]);
    assert forall|i: int| 0 <= i < customer.len() implies (#[trigger] w.c_check[i] <==> customer[i][0] == condition[0]) by {
        assert(w.c_check@[i] == condition_flags(customer, 0, Relation::Eq, condition[0])[i]);
    }
    assert forall|i: int| 0 <= i < orders.len() implies (#[trigger] w.o_check[i] <==> orders[i][0] < condition[1]) by {
        assert(w.o_check@[i] == condition_flags(orders, 0, Relation::Lt, condition[1])[i]);
    }
    assert forall|i: int| 0 <= i < lineitem.len() implies (#[trigger] w.l_check[i] <==> lineitem[i][3] > condition[1]) by {
        assert(w.l_check@[i] == condition_flags(lineitem, 3, Relation::Gt, condition[1])[i]);
    }
}

/// Definedness law: with the documented encoding (customers of two columns,
/// orders and lineitems of four), discounts of at most 1000 and prices of at
/// most `p`, the witness is defined whenever
/// `|lineitem| * |orders| * |customer| * p * 1000` fits in a `u64`.
pub proof fn law_q3_defined_when_small(
    customer: Seq<Seq<u64>>,
    orders: Seq<Seq<u64>>,
    lineitem: Seq<Seq<u64>>,
    condition: Seq<u64>,
    p: int,
)
    requires
        condition.len() == 2,
        forall|i: int| 0 <= i < customer.len() ==> (#[trigger] customer[i]).len() == 2,
        forall|i: int| 0 <= i < orders.len() ==> (#[trigger] orders[i]).len() == 4,
        forall|i: int| 0 <= i < lineitem.len() ==> (#[trigger] lineitem[i]).len() == 4 && lineitem[i][1] <= p
            && lineitem[i][2] <= 1000,
        0 <= p,
        lineitem.len() * (orders.len() * customer.len()) * (p * 1000) <= u64::MAX,
    ensures
        q3_defined(customer, orders, lineitem, condition),
{
    let cc = q3_customers(customer, condition[0]);
    let oc = q3_orders(orders, condition[1]);
    let lc = q3_lineitems(lineitem, condition[1]);
    let oxc = q3_orders_customers(customer, orders, condition);
    let j = q3_joined(customer, orders, lineitem, condition);
    let s = q3_sorted(customer, orders, lineitem, condition);
    lemma_filter_width(customer, row_satisfies(0, Relation::Eq, condition[0]), 2);
    lemma_filter_width(orders, row_satisfies(0, Relation::Lt, condition[1]), 4);
    lemma_filter_width(lineitem, row_satisfies(3, Relation::Gt, condition[1]), 4);
    assert forall|i: int| 0 <= i < oxc.len() implies (#[trigger] oxc[i]).len() >= 6 by {
        assert(oxc.contains(oxc[i]));
        lemma_join_all_contains(oc, 2, cc, 1, oxc[i]);
        let (a, b) = choose|a: int, b: int|
            0 <= a < oc.len() && 0 <= b < cc.len() && #[trigger] oc[a][2] == #[trigger] cc[b][1] && oxc[i] == oc[a] + cc[b];
        assert(oc[a].len() >= 4 && cc[b].len() >= 2);
    }
    assert forall|i: int| 0 <= i < j.len() implies (#[trigger] j[i]).len() >= 8 && j[i][1] <= p && j[i][2] <= 1000 by {
        assert(j.contains(j[i]));
        lemma_join_all_contains(lc, 0, oxc, 3, j[i]);
        let (a, b) = choose|a: int, b: int|
            0 <= a < lc.len() && 0 <= b < oxc.len() && #[trigger] lc[a][0] == #[trigger] oxc[b][3] && j[i] == lc[a] + oxc[b];
        assert(lc.contains(lc[a]));
        lineitem.lemma_filter_contains_rev(row_satisfies(3, Relation::Gt, condition[1]), lc[a]);
        let m = choose|m: int| 0 <= m < lineitem.len() && lineitem[m] == lc[a];
        assert(lc[a].len() >= 4 && oxc[b].len() >= 6);
        assert(j[i][1] == lineitem[m][1] && j[i][2] == lineitem[m][2]);
    }
    // the sorted rows are the joined rows
    lemma_sort_by_keys(j, q3_sort_keys(j));
    lemma_sort_by_keys_contains(j, q3_sort_keys(j));
    let keys = project(s, q3_group_cols());
    let v = revenues(s);
    assert forall|i: int| 0 <= i < v.len() implies 0 <= #[trigger] v[i] <= p * 1000 by {
        assert(s.contains(s[i]));
        let k = choose|k: int| 0 <= k < j.len() && j[k] == s[i];
        assert(s[i][1] <= p && s[i][2] <= 1000);
        let x = s[i][1] as int;
        let y = 1000 - s[i][2];
        assert(0 <= x * y <= p * 1000) by (nonlinear_arith)
            requires
                0 <= x <= p,
                0 <= y <= 1000,
        ;
    }
    // at most |lineitem| * |orders| * |customer| joined rows
    orders.filter_lemma(row_satisfies(0, Relation::Lt, condition[1]));
    customer.filter_lemma(row_satisfies(0, Relation::Eq, condition[0]));
    lineitem.filter_lemma(row_satisfies(3, Relation::Gt, condition[1]));
    lemma_join_all_len(oc, 2, cc, 1);
    lemma_join_all_len(lc, 0, oxc, 3);
    let nl = lineitem.len() as int;
    let no = orders.len() as int;
    let nc = customer.len() as int;
    assert(oc.len() * cc.len() <= no * nc) by (nonlinear_arith)
        requires
            0 <= oc.len() <= no,
            0 <= cc.len() <= nc,
    ;
    assert(lc.len() * oxc.len() <= nl * (no * nc)) by (nonlinear_arith)
        requires
            0 <= lc.len() <= nl,
            0 <= oxc.len() <= no * nc,
    ;
    assert forall|k: Seq<u64>| keys.contains(k) implies #[trigger] key_total(keys, v, k) <= u64::MAX by {
        lemma_key_total_bound(keys, v, k, p * 1000);
        assert(s.len() * (p * 1000) <= nl * (no * nc) * (p * 1000)) by (nonlinear_arith)
            requires
                0 <= s.len() <= nl * (no * nc),
                0 <= p,
        ;
    }
}

} // verus!
