use lib::scores::{
    counting_sort, custom_sort, hoare_partition, quicksort_in_place, standard_sort, string_to_data, read_player_data,
    write_scores_to_buff, COUNT_LIMIT,
};

#[test]
fn partition_splits_around_the_middle_score() {
    let mut v: Vec<u32> = vec![3, 9, 1, 7, 5];
    let pivot = v[2];
    let split = hoare_partition(&mut v, 0, 4);
    assert!(split < 4);
    for k in 0..=split {
        assert!(v[k] >= pivot);
    }
    for k in (split + 1)..5 {
        assert!(v[k] <= pivot);
    }
    let mut sorted = v.clone();
    sorted.sort();
    assert_eq!(sorted, vec![1, 3, 5, 7, 9]);
}

#[test]
fn partition_of_one_entry_stays() {
    let mut v: Vec<u32> = vec![4, 8, 2];
    let split = hoare_partition(&mut v, 1, 1);
    assert_eq!(split, 1);
    assert_eq!(v, vec![4, 8, 2]);
}

#[test]
fn quicksort_sorts_a_range_descending() {
    let mut v: Vec<u32> = vec![100, 5, 42, 17, 99, 3, 0];
    quicksort_in_place(&mut v, 1, 5);
    assert_eq!(v, vec![100, 99, 42, 17, 5, 3, 0]);
}

#[test]
fn quicksort_leaves_empty_range() {
    let mut v: Vec<u32> = vec![1, 2, 3];
    quicksort_in_place(&mut v, 2, 1);
    assert_eq!(v, vec![1, 2, 3]);
}

#[test]
fn counting_sort_sorts_small_scores_descending() {
    let mut v: Vec<u32> = vec![7, 3, 9999, 0, 3, 12];
    counting_sort(&mut v, 1, 6);
    assert_eq!(v, vec![7, 9999, 12, 3, 3, 0]);
    assert_eq!(COUNT_LIMIT, 10000);
}

#[test]
fn custom_sort_mixes_large_and_small_scores() {
    let v: Vec<u32> = vec![5, 20000, 3, 15000, 9999, 10000, 5];
    assert_eq!(custom_sort(v), vec![20000, 15000, 10000, 9999, 5, 5, 3]);
}

#[test]
fn custom_sort_edge_cases() {
    assert_eq!(custom_sort(vec![]), Vec::<u32>::new());
    assert_eq!(custom_sort(vec![1, 2, 3]), vec![3, 2, 1]);
    assert_eq!(custom_sort(vec![30000, 10000, 20000]), vec![30000, 20000, 10000]);
    assert_eq!(custom_sort(vec![20000, 5]), vec![20000, 5]);
    assert_eq!(custom_sort(vec![5, 20000]), vec![20000, 5]);
}

#[test]
fn standard_and_custom_sorts_agree() {
    let v: Vec<u32> = vec![12, 40000, 0, 7, 10001, 9998, 12, 65535, 4294967295];
    assert_eq!(standard_sort(v.clone()), custom_sort(v.clone()));
    assert_eq!(standard_sort(v), vec![4294967295, 65535, 40000, 10001, 9998, 12, 12, 7, 0]);
}

#[test]
fn player_data_is_read_into_columns_and_totals() {
    let data = string_to_data("1 2 3 4 5\n6 7 8 9 10\n11 12".to_string());
    assert_eq!(data.len(), 6);
    assert_eq!(data[0], vec![1, 6]);
    assert_eq!(data[1], vec![2, 7]);
    assert_eq!(data[4], vec![5, 10]);
    assert_eq!(data[5], vec![15, 40]);
}

#[test]
fn player_totals_wrap_around() {
    let data = string_to_data("4294967295 1 0 0 0".to_string());
    assert_eq!(data[5], vec![0]);
}

#[test]
fn player_data_with_a_bad_word_is_refused() {
    assert!(read_player_data("1 2 x 4 5".to_string()).is_none());
    assert!(read_player_data("1 2 4294967296 4 5".to_string()).is_none());
    assert_eq!(read_player_data("7 8 9 1 2".to_string()).unwrap()[5], vec![27]);
    assert_eq!(string_to_data(String::new()), vec![Vec::<u32>::new(); 6]);
}

#[test]
fn scores_are_written_one_per_line() {
    let mut out = String::from("> ");
    let scores: Vec<Vec<u32>> = vec![vec![9, 8], vec![30, 2, 1]];
    write_scores_to_buff(&mut out, &scores, "SKILL_BASKET", 1);
    assert_eq!(out, "> SKILL_BASKET\n30\n2\n1\n");
}
