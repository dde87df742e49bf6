use halo2_tpch::q18::{q18_witness, q18_witness_checked};

fn rows(t: &[&[u64]]) -> Vec<Vec<u64>> {
    t.iter().map(|r| r.to_vec()).collect()
}

fn sample() -> (Vec<Vec<u64>>, Vec<Vec<u64>>, Vec<Vec<u64>>) {
    let customer = rows(&[&[10, 1], &[20, 2]]);
    let orders = rows(&[&[100, 7, 1, 500], &[200, 8, 2, 300], &[300, 9, 3, 900]]);
    let lineitem = rows(&[&[7, 5], &[8, 2], &[7, 3], &[8, 4], &[10, 1]]);
    (customer, orders, lineitem)
}

#[test]
fn q18_sorted_lineitem_with_group_sums() {
    let (c, o, l) = sample();
    let w = q18_witness(&c, &o, &l);
    assert_eq!(w.orderkey_groupby_check, vec![0, 1, 0, 1, 0]);
    assert_eq!(w.sum_quantity, vec![0, 5, 8, 2, 6, 1]);
    assert_eq!(
        w.l_combined,
        rows(&[&[7, 5], &[7, 3, 8], &[8, 2], &[8, 4, 6], &[10, 1, 1]])
    );
}

#[test]
fn q18_join_partitions() {
    let (c, o, l) = sample();
    let w = q18_witness(&c, &o, &l);
    assert_eq!(w.join_value[0], rows(&[&[7, 3, 8], &[8, 4, 6]]));
    assert_eq!(w.disjoin_value[0], rows(&[&[10, 1, 1]]));
    assert_eq!(w.join_value[1], rows(&[&[100, 7, 1, 500], &[200, 8, 2, 300]]));
    assert_eq!(w.disjoin_value[1], rows(&[&[300, 9, 3, 900]]));
    assert_eq!(
        w.join_value[2],
        rows(&[&[7, 3, 8, 100, 7, 1, 500], &[8, 4, 6, 200, 8, 2, 300]])
    );
    assert!(w.disjoin_value[2].is_empty());
    assert_eq!(w.join_value[3], rows(&[&[10, 1], &[20, 2]]));
    assert!(w.disjoin_value[3].is_empty());
}

#[test]
fn q18_joined_rows() {
    let (c, o, l) = sample();
    let w = q18_witness(&c, &o, &l);
    assert_eq!(
        w.cartesian_product,
        rows(&[&[7, 3, 8, 100, 7, 1, 500, 10, 1], &[8, 4, 6, 200, 8, 2, 300, 20, 2]])
    );
}

#[test]
fn q18_unmatched_keys() {
    let (c, o, l) = sample();
    let w = q18_witness(&c, &o, &l);
    assert_eq!(w.dis_vectors, vec![vec![10], vec![9], vec![], vec![]]);
    assert_eq!(w.concatenated_vectors, vec![vec![9, 10], vec![]]);
}

#[test]
fn q18_group_by_and_sums() {
    let (c, o, l) = sample();
    let w = q18_witness(&c, &o, &l);
    assert_eq!(
        w.join1,
        rows(&[&[10, 1, 7, 100, 500, 8], &[20, 2, 8, 200, 300, 6]])
    );
    assert_eq!(w.equal_check, vec![0, 0]);
    assert_eq!(w.sum_profit, vec![0, 8, 6]);
}

#[test]
fn q18_order_by_price_desc() {
    let (c, o, l) = sample();
    let w = q18_witness(&c, &o, &l);
    assert_eq!(
        w.grouped_data,
        rows(&[&[10, 1, 7, 100, 500, 8], &[20, 2, 8, 200, 300, 6]])
    );
}

#[test]
fn q18_same_group_accumulates() {
    // two orders of one customer: one result row per order, each with the
    // total quantity of its lineitems
    let c = rows(&[&[10, 1]]);
    let o = rows(&[&[100, 7, 1, 500], &[100, 8, 1, 500]]);
    let l = rows(&[&[7, 5], &[8, 2]]);
    let w = q18_witness(&c, &o, &l);
    assert_eq!(w.l_combined, rows(&[&[7, 5, 5], &[8, 2, 2]]));
    assert_eq!(
        w.cartesian_product,
        rows(&[&[7, 5, 5, 100, 7, 1, 500, 10, 1], &[8, 2, 2, 100, 8, 1, 500, 10, 1]])
    );
    assert_eq!(
        w.grouped_data,
        rows(&[&[10, 1, 7, 100, 500, 5], &[10, 1, 8, 100, 500, 2]])
    );
    assert_eq!(w.equal_check, vec![0, 0]);
}

#[test]
fn q18_orders_by_date_among_equal_prices() {
    let c = rows(&[&[10, 1]]);
    let o = rows(&[&[300, 7, 1, 500], &[100, 8, 1, 500]]);
    let l = rows(&[&[7, 5], &[8, 2]]);
    let w = q18_witness(&c, &o, &l);
    assert_eq!(
        w.grouped_data,
        rows(&[&[10, 1, 8, 100, 500, 2], &[10, 1, 7, 300, 500, 5]])
    );
}

#[test]
fn q18_empty_tables() {
    let w = q18_witness(&vec![], &vec![], &vec![]);
    assert!(w.l_combined.is_empty());
    assert!(w.orderkey_groupby_check.is_empty());
    assert_eq!(w.sum_quantity, vec![0]);
    assert!(w.cartesian_product.is_empty());
    assert_eq!(w.sum_profit, vec![0]);
    assert!(w.grouped_data.is_empty());
    assert_eq!(w.concatenated_vectors, vec![Vec::<u64>::new(), vec![]]);
}

#[test]
fn q18_last_group_of_several_rows_gets_its_sum() {
    // the last run of equal l_orderkey has two rows: its last row carries the
    // run's total, and only that row is joined
    let c = rows(&[&[10, 1]]);
    let o = rows(&[&[100, 7, 1, 500]]);
    let l = rows(&[&[7, 5], &[7, 3]]);
    let w = q18_witness(&c, &o, &l);
    assert_eq!(w.l_combined, rows(&[&[7, 5], &[7, 3, 8]]));
    assert_eq!(w.join_value[0], rows(&[&[7, 3, 8]]));
    assert!(w.disjoin_value[0].is_empty());
    assert_eq!(w.cartesian_product, rows(&[&[7, 3, 8, 100, 7, 1, 500, 10, 1]]));
    assert_eq!(w.grouped_data, rows(&[&[10, 1, 7, 100, 500, 8]]));
}

#[test]
fn q18_every_order_with_lineitems_once() {
    // several lineitems per order, in no particular order
    let c = rows(&[&[11, 1], &[22, 2]]);
    let o = rows(&[&[100, 5, 1, 700], &[200, 6, 2, 900], &[300, 7, 1, 700]]);
    let l = rows(&[&[6, 1], &[5, 2], &[7, 4], &[6, 3], &[5, 5], &[6, 10]]);
    let w = q18_witness(&c, &o, &l);
    assert_eq!(w.orderkey_groupby_check, vec![0, 1, 0, 1, 1, 0]);
    assert_eq!(w.sum_quantity, vec![0, 2, 7, 1, 4, 14, 4]);
    assert_eq!(
        w.cartesian_product,
        rows(&[
            &[5, 5, 7, 100, 5, 1, 700, 11, 1],
            &[6, 10, 14, 200, 6, 2, 900, 22, 2],
            &[7, 4, 4, 300, 7, 1, 700, 11, 1],
        ])
    );
    assert_eq!(
        w.grouped_data,
        rows(&[&[22, 2, 6, 200, 900, 14], &[11, 1, 5, 100, 700, 7], &[11, 1, 7, 300, 700, 4]])
    );
}

#[test]
fn q18_quantity_overflow_is_undefined() {
    let c = rows(&[&[10, 1]]);
    let o = rows(&[&[100, 1, 1, 500]]);
    let l = rows(&[&[1, u64::MAX], &[1, 1]]);
    assert!(q18_witness_checked(&c, &o, &l).is_none());
}

#[test]
fn q18_narrow_rows_are_undefined() {
    let (c, o, _) = sample();
    let l = rows(&[&[7]]);
    assert!(q18_witness_checked(&c, &o, &l).is_none());
    let (_, o, l) = sample();
    let c = rows(&[&[10]]);
    assert!(q18_witness_checked(&c, &o, &l).is_none());
}
