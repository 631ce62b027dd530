use mmr::errors::MmrError;
use mmr::helpers::{
    array_deduplicate, bit_length, element_index_to_leaf_index, elements_count_to_leaf_count,
    find_peaks, find_siblings, get_peak_info, leaf_count_to_append_no_merges,
};

#[test]
fn bit_length_values() {
    assert_eq!(bit_length(0), 0);
    assert_eq!(bit_length(1), 1);
    assert_eq!(bit_length(2), 2);
    assert_eq!(bit_length(7), 3);
    assert_eq!(bit_length(8), 4);
}

#[test]
fn find_peaks_valid_counts() {
    assert_eq!(find_peaks(0), Vec::<u64>::new());
    assert_eq!(find_peaks(1), vec![1]);
    assert_eq!(find_peaks(3), vec![3]);
    assert_eq!(find_peaks(4), vec![3, 4]);
    assert_eq!(find_peaks(7), vec![7]);
    assert_eq!(find_peaks(10), vec![7, 10]);
    assert_eq!(find_peaks(11), vec![7, 10, 11]);
}

#[test]
fn find_peaks_mountain_sizes_sum_to_count() {
    // the successive peak differences are the mountain sizes; they sum to
    // the count exactly, for every valid count
    for n in [1u64, 3, 4, 7, 8, 10, 11, 15, 16, 18, 19, 22, 25, 26] {
        let peaks = find_peaks(n);
        if peaks.is_empty() {
            continue;
        }
        let mut prev = 0u64;
        let mut total = 0u64;
        for p in &peaks {
            total += p - prev;
            prev = *p;
        }
        assert_eq!(total, n);
        assert_eq!(*peaks.last().unwrap(), n);
    }
}

#[test]
fn find_peaks_invalid_counts_give_empty() {
    assert_eq!(find_peaks(2), Vec::<u64>::new());
    assert_eq!(find_peaks(5), Vec::<u64>::new());
    assert_eq!(find_peaks(6), Vec::<u64>::new());
    assert_eq!(find_peaks(9), Vec::<u64>::new());
}

#[test]
fn leaf_count_conversions() {
    assert_eq!(elements_count_to_leaf_count(0), Ok(0));
    assert_eq!(elements_count_to_leaf_count(1), Ok(1));
    assert_eq!(elements_count_to_leaf_count(3), Ok(2));
    assert_eq!(elements_count_to_leaf_count(4), Ok(3));
    assert_eq!(elements_count_to_leaf_count(7), Ok(4));
    assert_eq!(elements_count_to_leaf_count(10), Ok(6));
    assert_eq!(elements_count_to_leaf_count(2), Err(MmrError::InvalidCount));
    assert_eq!(elements_count_to_leaf_count(5), Err(MmrError::InvalidCount));
    assert_eq!(elements_count_to_leaf_count(6), Err(MmrError::InvalidCount));
}

#[test]
fn element_index_to_leaf_index_cases() {
    assert_eq!(element_index_to_leaf_index(0), Err(MmrError::InvalidIndex));
    assert_eq!(element_index_to_leaf_index(1), Ok(0));
    assert_eq!(element_index_to_leaf_index(2), Ok(1));
    // node 3 is an internal node, not a leaf
    assert_eq!(element_index_to_leaf_index(3), Err(MmrError::InvalidIndex));
    assert_eq!(element_index_to_leaf_index(4), Ok(2));
    assert_eq!(element_index_to_leaf_index(5), Ok(3));
    assert_eq!(element_index_to_leaf_index(8), Ok(4));
}

#[test]
fn append_no_merges_counts_trailing_ones() {
    assert_eq!(leaf_count_to_append_no_merges(0b0111), 3);
    assert_eq!(leaf_count_to_append_no_merges(0b0110), 0);
    assert_eq!(leaf_count_to_append_no_merges(0), 0);
    assert_eq!(leaf_count_to_append_no_merges(1), 1);
    assert_eq!(leaf_count_to_append_no_merges(0b1011), 2);
    assert_eq!(leaf_count_to_append_no_merges(u64::MAX >> 2), 62);
}

#[test]
fn find_siblings_in_one_mountain() {
    // seven nodes: leaves 1, 2, 4, 5; internal 3, 6; peak 7
    assert_eq!(find_siblings(1, 7), Ok(vec![2, 6]));
    assert_eq!(find_siblings(2, 7), Ok(vec![1, 6]));
    assert_eq!(find_siblings(4, 7), Ok(vec![5, 3]));
    assert_eq!(find_siblings(5, 7), Ok(vec![4, 3]));
}

#[test]
fn find_siblings_rejects_non_leaves() {
    assert_eq!(find_siblings(0, 7), Err(MmrError::InvalidIndex));
    assert_eq!(find_siblings(3, 7), Err(MmrError::InvalidIndex));
    assert_eq!(find_siblings(6, 7), Err(MmrError::InvalidIndex));
}

#[test]
fn get_peak_info_first_and_last_mountain() {
    // 11 = 7 + 3 + 1: peaks 7, 10, 11 with heights 2, 1, 0
    assert_eq!(get_peak_info(11, 1), (0, 2));
    assert_eq!(get_peak_info(11, 5), (0, 2));
    assert_eq!(get_peak_info(11, 7), (0, 2));
    assert_eq!(get_peak_info(11, 8), (1, 1));
    assert_eq!(get_peak_info(11, 10), (1, 1));
    assert_eq!(get_peak_info(11, 11), (2, 0));
    assert_eq!(get_peak_info(1, 1), (0, 0));
}

#[test]
fn array_deduplicate_keeps_each_value_once() {
    assert_eq!(array_deduplicate(vec![3, 1, 3, 2, 1]), vec![3, 1, 2]);
    assert_eq!(array_deduplicate(Vec::new()), Vec::<u64>::new());
    assert_eq!(array_deduplicate(vec![5, 5, 5]), vec![5]);
}
