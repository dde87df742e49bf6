use halo2_tpch::q3::{q3_witness, q3_witness_checked};

fn rows(t: &[&[u64]]) -> Vec<Vec<u64>> {
    t.iter().map(|r| r.to_vec()).collect()
}

fn sample() -> (Vec<Vec<u64>>, Vec<Vec<u64>>, Vec<Vec<u64>>, [u64; 2]) {
    let customer = rows(&[&[3367, 1], &[2651, 2], &[3367, 3]]);
    let orders = rows(&[&[10, 0, 1, 100], &[20, 0, 2, 200], &[5, 1, 3, 300], &[50, 0, 1, 400]]);
    let lineitem = rows(&[
        &[100, 1000, 100, 60],
        &[100, 2000, 0, 70],
        &[300, 500, 500, 80],
        &[200, 100, 0, 90],
        &[400, 7, 0, 10],
    ]);
    (customer, orders, lineitem, [3367, 40])
}

#[test]
fn q3_selection_flags() {
    let (c, o, l, cond) = sample();
    let w = q3_witness(&c, &o, &l, cond);
    assert_eq!(w.c_check, vec![true, false, true]);
    assert_eq!(w.o_check, vec![true, true, true, false]);
    assert_eq!(w.l_check, vec![true, true, true, true, false]);
}

#[test]
fn q3_join_partitions() {
    let (c, o, l, cond) = sample();
    let w = q3_witness(&c, &o, &l, cond);
    assert_eq!(w.join_value[0], rows(&[&[10, 0, 1, 100], &[5, 1, 3, 300]]));
    assert_eq!(w.disjoin_value[0], rows(&[&[20, 0, 2, 200]]));
    assert_eq!(w.join_value[1], rows(&[&[3367, 1], &[3367, 3]]));
    assert!(w.disjoin_value[1].is_empty());
    assert_eq!(
        w.join_value[2],
        rows(&[&[100, 1000, 100, 60], &[100, 2000, 0, 70], &[300, 500, 500, 80]])
    );
    assert_eq!(w.disjoin_value[2], rows(&[&[200, 100, 0, 90]]));
    assert_eq!(
        w.join_value[3],
        rows(&[&[10, 0, 1, 100, 3367, 1], &[5, 1, 3, 300, 3367, 3]])
    );
    assert!(w.disjoin_value[3].is_empty());
}

#[test]
fn q3_partner_rows() {
    let (c, o, l, cond) = sample();
    let w = q3_witness(&c, &o, &l, cond);
    assert_eq!(w.join1, rows(&[&[3367, 1], &[3367, 3]]));
    assert_eq!(
        w.join2,
        rows(&[
            &[10, 0, 1, 100, 3367, 1],
            &[10, 0, 1, 100, 3367, 1],
            &[5, 1, 3, 300, 3367, 3],
        ])
    );
}

#[test]
fn q3_unmatched_keys() {
    let (c, o, l, cond) = sample();
    let w = q3_witness(&c, &o, &l, cond);
    assert!(w.dis_c_custkey.is_empty());
    assert_eq!(w.dis_o_custkey, vec![2]);
    assert!(w.dis_o_orderkey.is_empty());
    assert_eq!(w.dis_l_orderkey, vec![200]);
    assert_eq!(w.new_dedup_1, vec![2]);
    assert_eq!(w.new_dedup_2, vec![200]);
}

#[test]
fn q3_joined_and_sorted() {
    let (c, o, l, cond) = sample();
    let w = q3_witness(&c, &o, &l, cond);
    assert_eq!(
        w.cartesian_product,
        rows(&[
            &[100, 1000, 100, 60, 10, 0, 1, 100, 3367, 1],
            &[100, 2000, 0, 70, 10, 0, 1, 100, 3367, 1],
            &[300, 500, 500, 80, 5, 1, 3, 300, 3367, 3],
        ])
    );
    assert_eq!(w.equal_check, vec![0, 1, 0]);
}

#[test]
fn q3_revenue() {
    let (c, o, l, cond) = sample();
    let w = q3_witness(&c, &o, &l, cond);
    assert_eq!(w.revenue, vec![0, 900_000, 2_900_000, 250_000]);
}

#[test]
fn q3_grouped_by_revenue_desc() {
    let (c, o, l, cond) = sample();
    let w = q3_witness(&c, &o, &l, cond);
    assert_eq!(
        w.grouped_data,
        rows(&[&[100, 10, 0, 2_900_000], &[300, 5, 1, 250_000]])
    );
}

#[test]
fn q3_equal_revenue_ordered_by_orderdate() {
    let c = rows(&[&[1, 1]]);
    let o = rows(&[&[2, 0, 1, 20], &[3, 0, 1, 10]]);
    let l = rows(&[&[20, 3, 0, 9], &[10, 3, 0, 9]]);
    let w = q3_witness(&c, &o, &l, [1, 5]);
    assert_eq!(w.grouped_data, rows(&[&[20, 2, 0, 3000], &[10, 3, 0, 3000]]));
}

#[test]
fn q3_groups_are_contiguous() {
    let c = rows(&[&[7, 1], &[7, 9]]);
    let o = rows(&[&[10, 2, 1, 1], &[10, 0, 1, 2], &[10, 0, 1, 5]]);
    let l = rows(&[&[1, 100, 0, 200], &[2, 100, 0, 200], &[1, 100, 0, 200]]);
    let w = q3_witness(&c, &o, &l, [7, 50]);
    let firsts: Vec<u64> = w.cartesian_product.iter().map(|r| r[0]).collect();
    assert_eq!(firsts, vec![1, 1, 2]);
    assert_eq!(w.equal_check, vec![0, 1, 0]);
    assert_eq!(w.revenue, vec![0, 100_000, 200_000, 100_000]);
    assert_eq!(w.grouped_data, rows(&[&[1, 10, 2, 200_000], &[2, 10, 0, 100_000]]));
}

#[test]
fn q3_grouped_by_orderdate() {
    let c = rows(&[&[1, 1]]);
    let o = rows(&[&[5, 0, 1, 9]]);
    let l = rows(&[&[9, 1, 0, 10]]);
    let w = q3_witness(&c, &o, &l, [1, 7]);
    assert_eq!(w.grouped_data, rows(&[&[9, 5, 0, 1000]]));
}

#[test]
fn q3_every_customer_row_joined() {
    // one order, two customers with its key: the order joins both
    let c = rows(&[&[1, 7], &[1, 7]]);
    let o = rows(&[&[1, 0, 7, 30]]);
    let l = rows(&[&[30, 2, 1000, 9]]);
    let w = q3_witness(&c, &o, &l, [1, 5]);
    assert_eq!(
        w.cartesian_product,
        rows(&[&[30, 2, 1000, 9, 1, 0, 7, 30, 1, 7], &[30, 2, 1000, 9, 1, 0, 7, 30, 1, 7]])
    );
    assert_eq!(w.revenue, vec![0, 0, 0]);
    assert_eq!(w.grouped_data, rows(&[&[30, 1, 0, 0]]));
}

#[test]
fn q3_nothing_selected() {
    let (c, o, l, _) = sample();
    let w = q3_witness(&c, &o, &l, [1, 0]);
    assert_eq!(w.c_check, vec![false, false, false]);
    assert!(w.cartesian_product.is_empty());
    assert_eq!(w.revenue, vec![0]);
    assert!(w.grouped_data.is_empty());
}

#[test]
fn q3_discount_above_scale_is_undefined() {
    let c = rows(&[&[1, 7]]);
    let o = rows(&[&[1, 0, 7, 30]]);
    let l = rows(&[&[30, 2, 1001, 9]]);
    assert!(q3_witness_checked(&c, &o, &l, [1, 5]).is_none());
}

#[test]
fn q3_large_keys_are_defined() {
    let c = rows(&[&[1, 7]]);
    let o = rows(&[&[1, u64::MAX, 7, 30]]);
    let l = rows(&[&[30, 2, 0, 9]]);
    let w = q3_witness_checked(&c, &o, &l, [1, 5]).unwrap();
    assert_eq!(w.grouped_data, rows(&[&[30, 1, u64::MAX, 2000]]));
}

#[test]
fn q3_revenue_overflow_is_undefined() {
    let c = rows(&[&[1, 7]]);
    let o = rows(&[&[1, 0, 7, 30]]);
    let l = rows(&[&[30, u64::MAX, 0, 9]]);
    assert!(q3_witness_checked(&c, &o, &l, [1, 5]).is_none());
}

#[test]
fn q3_narrow_rows_are_undefined() {
    let (c, o, _, cond) = sample();
    let l = rows(&[&[30, 2, 0]]);
    assert!(q3_witness_checked(&c, &o, &l, cond).is_none());
    let (_, o, l, cond) = sample();
    let c = rows(&[&[3367]]);
    assert!(q3_witness_checked(&c, &o, &l, cond).is_none());
    // an unselected narrow customer is never indexed past its first column
    let c = rows(&[&[1], &[3367, 1]]);
    assert!(q3_witness_checked(&c, &o, &l, cond).is_some());
}
