use halo2_tpch::q18::q18_witness;
use halo2_tpch::q3::q3_witness;

fn rows(t: &[&[u64]]) -> Vec<Vec<u64>> {
    t.iter().map(|r| r.to_vec()).collect()
}

fn same_rows(mut a: Vec<Vec<u64>>, mut b: Vec<Vec<u64>>) -> bool {
    a.sort();
    b.sort();
    a == b
}

fn strictly_increasing(v: &[u64]) -> bool {
    v.windows(2).all(|w| w[0] < w[1])
}

fn q18_sample() -> (Vec<Vec<u64>>, Vec<Vec<u64>>, Vec<Vec<u64>>) {
    (
        rows(&[&[10, 1], &[20, 2]]),
        rows(&[&[100, 7, 1, 500], &[200, 8, 2, 300], &[300, 9, 3, 900]]),
        rows(&[&[7, 5], &[8, 2], &[7, 3], &[8, 4], &[10, 1]]),
    )
}

#[test]
fn law_q18_partitions_on_sample() {
    let (c, o, l) = q18_sample();
    let w = q18_witness(&c, &o, &l);
    let lo: Vec<Vec<u64>> = w.join_value[2].iter().chain(w.disjoin_value[2].iter()).cloned().collect();
    let groups: Vec<Vec<u64>> = w.l_combined.iter().filter(|r| r.len() == 3).cloned().collect();
    assert!(same_rows([w.join_value[0].clone(), w.disjoin_value[0].clone()].concat(), groups));
    assert!(same_rows([w.join_value[1].clone(), w.disjoin_value[1].clone()].concat(), o.clone()));
    assert_eq!(lo.len(), 2);
    assert!(same_rows([w.join_value[3].clone(), w.disjoin_value[3].clone()].concat(), c.clone()));
}

#[test]
fn law_q18_unmatched_keys_increasing_on_sample() {
    let (c, o, l) = q18_sample();
    let w = q18_witness(&c, &o, &l);
    assert!(strictly_increasing(&w.concatenated_vectors[0]));
    assert!(strictly_increasing(&w.concatenated_vectors[1]));
}

#[test]
fn law_q18_group_sums_are_orderkey_totals() {
    let (c, o, l) = q18_sample();
    let w = q18_witness(&c, &o, &l);
    for row in w.l_combined.iter().filter(|r| r.len() == 3) {
        let total: u64 = l.iter().filter(|x| x[0] == row[0]).map(|x| x[1]).sum();
        assert_eq!(row[2], total);
    }
}

#[test]
fn law_q18_grouped_order_on_sample() {
    let (c, o, l) = q18_sample();
    let w = q18_witness(&c, &o, &l);
    for p in w.grouped_data.windows(2) {
        assert!(p[0][4] > p[1][4] || (p[0][4] == p[1][4] && p[0][3] <= p[1][3]));
    }
}

fn q3_sample() -> (Vec<Vec<u64>>, Vec<Vec<u64>>, Vec<Vec<u64>>, [u64; 2]) {
    (
        rows(&[&[3367, 1], &[2651, 2], &[3367, 3]]),
        rows(&[&[10, 0, 1, 100], &[20, 0, 2, 200], &[5, 1, 3, 300], &[50, 0, 1, 400]]),
        rows(&[
            &[100, 1000, 100, 60],
            &[100, 2000, 0, 70],
            &[300, 500, 500, 80],
            &[200, 100, 0, 90],
            &[400, 7, 0, 10],
        ]),
        [3367, 40],
    )
}

#[test]
fn law_q3_partitions_on_sample() {
    let (c, o, l, cond) = q3_sample();
    let w = q3_witness(&c, &o, &l, cond);
    let oc: Vec<Vec<u64>> = o.iter().filter(|r| r[0] < cond[1]).cloned().collect();
    let cc: Vec<Vec<u64>> = c.iter().filter(|r| r[0] == cond[0]).cloned().collect();
    let lc: Vec<Vec<u64>> = l.iter().filter(|r| r[3] > cond[1]).cloned().collect();
    assert!(same_rows([w.join_value[0].clone(), w.disjoin_value[0].clone()].concat(), oc));
    assert!(same_rows([w.join_value[1].clone(), w.disjoin_value[1].clone()].concat(), cc));
    assert!(same_rows([w.join_value[2].clone(), w.disjoin_value[2].clone()].concat(), lc));
}

#[test]
fn law_q3_joined_rows_are_matching_triples() {
    let (c, o, l, cond) = q3_sample();
    let w = q3_witness(&c, &o, &l, cond);
    let mut expected = Vec::new();
    for li in l.iter().filter(|r| r[3] > cond[1]) {
        for oi in o.iter().filter(|r| r[0] < cond[1]) {
            for ci in c.iter().filter(|r| r[0] == cond[0]) {
                if li[0] == oi[3] && oi[2] == ci[1] {
                    expected.push([li.clone(), oi.clone(), ci.clone()].concat());
                }
            }
        }
    }
    assert!(same_rows(w.cartesian_product.clone(), expected));
}

#[test]
fn law_q3_partner_rows_on_sample() {
    let (c, o, l, cond) = q3_sample();
    let w = q3_witness(&c, &o, &l, cond);
    assert_eq!(w.join1.len(), w.join_value[0].len());
    assert_eq!(w.join2.len(), w.join_value[2].len());
}

#[test]
fn law_q3_unmatched_keys_increasing_on_sample() {
    let (c, o, l, cond) = q3_sample();
    let w = q3_witness(&c, &o, &l, cond);
    assert!(strictly_increasing(&w.new_dedup_1));
    assert!(strictly_increasing(&w.new_dedup_2));
}

#[test]
fn law_q3_grouped_order_and_revenue_bound_on_sample() {
    let (c, o, l, cond) = q3_sample();
    let w = q3_witness(&c, &o, &l, cond);
    for p in w.grouped_data.windows(2) {
        assert!(p[0][3] > p[1][3] || (p[0][3] == p[1][3] && p[0][1] <= p[1][1]));
    }
    let max_total = w.grouped_data.iter().map(|r| r[3]).max().unwrap() as u128;
    assert!(w.revenue.iter().all(|x| *x <= max_total));
}

#[test]
fn law_q18_joined_rows_on_sample() {
    let (c, o, l) = q18_sample();
    let w = q18_witness(&c, &o, &l);
    assert!(!w.cartesian_product.is_empty());
    for r in &w.cartesian_product {
        assert_eq!(r.len(), 9);
        assert_eq!(r[4], r[0]);
        assert_eq!(r[8], r[5]);
        assert!(o.contains(&r[3..7].to_vec()));
        assert!(c.contains(&r[7..9].to_vec()));
        let total: u64 = l.iter().filter(|x| x[0] == r[0]).map(|x| x[1]).sum();
        assert_eq!(r[2], total);
    }
}

#[test]
fn law_q18_grouped_rows_on_sample() {
    let (c, o, l) = q18_sample();
    let w = q18_witness(&c, &o, &l);
    let key = |r: &Vec<u64>| vec![r[7], r[8], r[4], r[3], r[6]];
    for (a, g) in w.grouped_data.iter().enumerate() {
        assert_eq!(g.len(), 6);
        let total: u64 = w.cartesian_product.iter().filter(|r| key(r) == g[..5].to_vec()).map(|r| r[2]).sum();
        assert!(total > 0);
        assert_eq!(g[5], total);
        assert!(w.grouped_data[a + 1..].iter().all(|h| h[..5] != g[..5]));
    }
    for r in &w.cartesian_product {
        assert!(w.grouped_data.iter().any(|g| g[..5].to_vec() == key(r)));
    }
}

#[test]
fn law_q3_grouped_rows_on_sample() {
    let (c, o, l, cond) = q3_sample();
    let w = q3_witness(&c, &o, &l, cond);
    let key = |r: &Vec<u64>| vec![r[0], r[4], r[5]];
    assert!(!w.grouped_data.is_empty());
    for (a, g) in w.grouped_data.iter().enumerate() {
        assert_eq!(g.len(), 4);
        let rows_of_key: Vec<&Vec<u64>> = w.cartesian_product.iter().filter(|r| key(r) == g[..3].to_vec()).collect();
        assert!(!rows_of_key.is_empty());
        let total: u64 = rows_of_key.iter().map(|r| r[1] * (1000 - r[2])).sum();
        assert_eq!(g[3], total);
        assert!(w.grouped_data[a + 1..].iter().all(|h| h[..3] != g[..3]));
    }
    for r in &w.cartesian_product {
        assert!(w.grouped_data.iter().any(|g| g[..3].to_vec() == key(r)));
    }
}

#[test]
fn law_q18_accumulation_on_sample() {
    let (c, o, l) = q18_sample();
    let w = q18_witness(&c, &o, &l);
    assert_eq!(w.sum_quantity[0], 0);
    for i in 0..w.l_combined.len() {
        assert_eq!(
            w.sum_quantity[i + 1],
            w.orderkey_groupby_check[i] * w.sum_quantity[i] + w.l_combined[i][1]
        );
    }
    assert_eq!(w.sum_profit[0], 0);
    for i in 0..w.join1.len() {
        assert_eq!(
            w.sum_profit[i + 1],
            w.equal_check[i] as u128 * w.sum_profit[i] + w.join1[i][5] as u128
        );
    }
}

#[test]
fn law_q3_accumulation_on_sample() {
    let (c, o, l, cond) = q3_sample();
    let w = q3_witness(&c, &o, &l, cond);
    assert_eq!(w.revenue[0], 0);
    assert!(!w.cartesian_product.is_empty());
    for i in 0..w.cartesian_product.len() {
        let r = &w.cartesian_product[i];
        assert_eq!(
            w.revenue[i + 1],
            w.equal_check[i] as u128 * w.revenue[i] + r[1] as u128 * (1000 - r[2]) as u128
        );
    }
}

#[test]
fn law_q3_partner_rows_hold_join_keys() {
    let (c, o, l, cond) = q3_sample();
    let w = q3_witness(&c, &o, &l, cond);
    assert!(!w.join1.is_empty());
    for (i, p) in w.join1.iter().enumerate() {
        assert_eq!(p[1], w.join_value[0][i][2]);
        assert!(w.join_value[1].contains(p));
    }
    assert!(!w.join2.is_empty());
    for (i, p) in w.join2.iter().enumerate() {
        assert_eq!(p[3], w.join_value[2][i][0]);
        assert!(w.join_value[3].contains(p));
    }
}

fn q18_multi_sample() -> (Vec<Vec<u64>>, Vec<Vec<u64>>, Vec<Vec<u64>>) {
    (
        rows(&[&[11, 1], &[22, 2]]),
        rows(&[&[100, 5, 1, 700], &[200, 6, 2, 900], &[300, 7, 1, 700], &[400, 8, 2, 100]]),
        rows(&[&[6, 1], &[5, 2], &[7, 4], &[6, 3], &[5, 5], &[6, 10], &[9, 1]]),
    )
}

#[test]
fn law_q18_every_order_on_sample() {
    let (c, o, l) = q18_multi_sample();
    let w = q18_witness(&c, &o, &l);
    let mut seen = 0;
    for ord in &o {
        let total: u64 = l.iter().filter(|x| x[0] == ord[1]).map(|x| x[1]).sum();
        let has_item = l.iter().any(|x| x[0] == ord[1]);
        if let Some(cust) = c.iter().find(|x| x[1] == ord[2]) {
            if has_item {
                seen += 1;
                assert!(w.cartesian_product.iter().any(|r| r[0] == ord[1]
                    && r[2] == total
                    && r[3..7].to_vec() == *ord
                    && r[7..9].to_vec() == *cust));
            }
        }
    }
    assert_eq!(seen, 3);
    assert_eq!(w.cartesian_product.len(), 3);
}

#[test]
fn law_q18_profit_totals_on_sample() {
    let (c, o, l) = q18_multi_sample();
    let w = q18_witness(&c, &o, &l);
    let n = w.join1.len();
    assert!(n > 0);
    for i in 0..n {
        if i + 1 == n || w.join1[i + 1][..5] != w.join1[i][..5] {
            let total: u128 = w.join1.iter().filter(|r| r[..5] == w.join1[i][..5]).map(|r| r[5] as u128).sum();
            assert_eq!(w.sum_profit[i + 1], total);
        }
    }
}

#[test]
fn law_q3_revenue_totals_on_sample() {
    let (c, o, l, cond) = q3_sample();
    let w = q3_witness(&c, &o, &l, cond);
    let key = |r: &Vec<u64>| vec![r[0], r[4], r[5]];
    let cp = &w.cartesian_product;
    let n = cp.len();
    assert!(n > 1);
    for i in 0..n {
        if i + 1 == n || key(&cp[i + 1]) != key(&cp[i]) {
            let total: u128 = cp.iter().filter(|r| key(r) == key(&cp[i])).map(|r| r[1] as u128 * (1000 - r[2]) as u128).sum();
            assert_eq!(w.revenue[i + 1], total);
        }
    }
}

#[test]
fn law_q3_sorted_by_group_key_on_sample() {
    let c = rows(&[&[7, 1], &[7, 9]]);
    let o = rows(&[&[10, 2, 1, 1], &[10, 0, 1, 2], &[10, 0, 1, 5]]);
    let l = rows(&[&[2, 100, 0, 200], &[1, 100, 0, 200], &[2, 50, 0, 200], &[1, 100, 0, 200]]);
    let w = q3_witness(&c, &o, &l, [7, 50]);
    let keys: Vec<Vec<u64>> = w.cartesian_product.iter().map(|r| vec![r[0], r[4], r[5]]).collect();
    assert_eq!(keys.len(), 4);
    for p in keys.windows(2) {
        assert!(p[0] <= p[1]);
    }
}

#[test]
fn law_q18_join1_sorted_on_sample() {
    let (c, o, l) = q18_multi_sample();
    let w = q18_witness(&c, &o, &l);
    assert_eq!(w.join1.len(), 3);
    for p in w.join1.windows(2) {
        assert!(p[0][..5] <= p[1][..5]);
    }
}
