use halo2_tpch::aggregate::{
    dedup_first, find_row, group_totals, key_flags, project_rows, rows_equal, running_sums_u128,
    running_sums_u64,
};
use halo2_tpch::sort::{sort_rows_by_keys, sort_u64, sorted_unique, stable_sort_order};
use halo2_tpch::table::{
    column_values, concat_row, condition_check, desc_asc_keys, filter_rows, join_all_matches,
    join_first_match, rows_have_width, split_by_keys, Relation,
};

fn rows(t: &[&[u64]]) -> Vec<Vec<u64>> {
    t.iter().map(|r| r.to_vec()).collect()
}

#[test]
fn stable_order_keeps_ties_in_place() {
    assert_eq!(stable_sort_order(&vec![3, 1, 3, 0, 1]), vec![3, 1, 4, 0, 2]);
    assert_eq!(stable_sort_order(&vec![]), Vec::<usize>::new());
}

#[test]
fn rows_sorted_by_keys_are_stable() {
    let t = rows(&[&[1, 10], &[0, 20], &[1, 30], &[0, 40]]);
    let out = sort_rows_by_keys(&t, &vec![1, 0, 1, 0]);
    assert_eq!(out, rows(&[&[0, 20], &[0, 40], &[1, 10], &[1, 30]]));
}

#[test]
fn values_sorted_and_made_unique() {
    assert_eq!(sort_u64(&vec![5, 1, 5, 0]), vec![0, 1, 5, 5]);
    assert_eq!(sorted_unique(&vec![5, 1, 5, 0, 1]), vec![0, 1, 5]);
    assert_eq!(sorted_unique(&vec![]), Vec::<u64>::new());
}

#[test]
fn dedup_keeps_first_occurrences() {
    assert_eq!(dedup_first(&vec![4, 2, 4, 3, 2]), vec![4, 2, 3]);
}

#[test]
fn split_by_partner() {
    let t = rows(&[&[1, 9], &[2, 9], &[3, 9]]);
    let other = rows(&[&[0, 3], &[0, 1]]);
    let (hit, miss) = split_by_keys(&t, 0, &other, 1);
    assert_eq!(hit, rows(&[&[1, 9], &[3, 9]]));
    assert_eq!(miss, rows(&[&[2, 9]]));
}

#[test]
fn join_to_first_partner() {
    let a = rows(&[&[1], &[2], &[1]]);
    let b = rows(&[&[1, 5], &[1, 6], &[3, 7]]);
    let (joined, partners) = join_first_match(&a, 0, &b, 0);
    assert_eq!(joined, rows(&[&[1, 1, 5], &[1, 1, 5]]));
    assert_eq!(partners, rows(&[&[1, 5], &[1, 5]]));
}

#[test]
fn join_to_every_partner() {
    let a = rows(&[&[1], &[2], &[3]]);
    let b = rows(&[&[1, 5], &[1, 6], &[3, 7]]);
    let joined = join_all_matches(&a, 0, &b, 0);
    assert_eq!(joined, rows(&[&[1, 1, 5], &[1, 1, 6], &[3, 3, 7]]));
}

#[test]
fn flags_and_running_sums() {
    let keys = project_rows(&rows(&[&[4, 1], &[4, 2], &[5, 3], &[4, 4]]), &vec![0]);
    assert_eq!(keys, rows(&[&[4], &[4], &[5], &[4]]));
    let f = key_flags(&keys);
    assert_eq!(f, vec![0, 1, 0, 0]);
    assert_eq!(running_sums_u64(&f, &vec![1, 2, 3, 4]), Some(vec![0, 1, 3, 3, 4]));
    assert_eq!(running_sums_u128(&f, &vec![1, 2, 3, 4]), Some(vec![0, 1, 3, 3, 4]));
    assert_eq!(running_sums_u64(&vec![0, 1], &vec![u64::MAX, 1]), None);
    assert_eq!(running_sums_u64(&vec![0, 0], &vec![u64::MAX, 1]), Some(vec![0, u64::MAX, 1]));
}

#[test]
fn totals_per_key_in_first_appearance_order() {
    let keys = rows(&[&[4], &[5], &[4]]);
    assert_eq!(group_totals(&keys, &vec![1, 2, 3]), Some(rows(&[&[4, 4], &[5, 2]])));
    assert_eq!(group_totals(&keys, &vec![u64::MAX as u128, 0, 1]), None);
    assert_eq!(group_totals(&keys, &vec![u64::MAX as u128, 0, 0]), Some(rows(&[&[4, u64::MAX], &[5, 0]])));
}

#[test]
fn descending_then_ascending_keys() {
    let keys = desc_asc_keys(&rows(&[&[7, 2], &[9, 1]]), 0, 1);
    assert_eq!(keys[0], ((u64::MAX - 7) as u128) * (1u128 << 64) + 2);
    assert_eq!(keys[1], ((u64::MAX - 9) as u128) * (1u128 << 64) + 1);
    assert!(keys[1] < keys[0]);
}

#[test]
fn selection_by_condition() {
    let t = rows(&[&[3, 1], &[7, 2], &[5, 3]]);
    assert_eq!(condition_check(&t, 0, &Relation::Lt, 5), vec![true, false, false]);
    assert_eq!(condition_check(&t, 0, &Relation::Eq, 5), vec![false, false, true]);
    assert_eq!(filter_rows(&t, 0, &Relation::Gt, 4), rows(&[&[7, 2], &[5, 3]]));
}

#[test]
fn row_helpers() {
    let t = rows(&[&[3, 1], &[7]]);
    assert!(rows_have_width(&t, 1));
    assert!(!rows_have_width(&t, 2));
    assert_eq!(column_values(&t, 0), vec![3, 7]);
    assert_eq!(concat_row(&vec![1, 2], &vec![3]), vec![1, 2, 3]);
    assert!(rows_equal(&vec![1, 2], &vec![1, 2]));
    assert!(!rows_equal(&vec![1, 2], &vec![1]));
    assert_eq!(find_row(&t, &vec![7]), Some(1));
    assert_eq!(find_row(&t, &vec![8]), None);
}
