use merkle_bit::constants::KEY_LEN;
use merkle_bit::utils::tree_utils::{
    calc_min_split_index, check_descendants, choose_zero, fast_log_2, first_diff_bit,
    is_descendant, key_eq, split_bit, split_pairs,
};

#[test]
fn it_chooses_the_right_branch_easy() {
    let key = [0x0F; KEY_LEN];
    for i in 0..8 {
        let expected_branch;
        if i < 4 {
            expected_branch = true;
        } else {
            expected_branch = false;
        }
        let branch = choose_zero(&key, i);
        assert_eq!(branch, expected_branch);
    }
}

#[test]
fn it_chooses_the_right_branch_medium() {
    let key = [0x55; KEY_LEN];
    for i in 0..8 {
        let expected_branch;
        if i % 2 == 0 {
            expected_branch = true;
        } else {
            expected_branch = false;
        }
        let branch = choose_zero(&key, i);
        assert_eq!(branch, expected_branch);
    }
    let key = [0xAA; KEY_LEN];
    for i in 0..8 {
        let expected_branch;
        if i % 2 == 0 {
            expected_branch = false;
        } else {
            expected_branch = true;
        }
        let branch = choose_zero(&key, i);
        assert_eq!(branch, expected_branch);
    }
}

#[test]
fn it_chooses_the_right_branch_hard() {
    let key = [0x68; KEY_LEN];
    for i in 0..8 {
        let expected_branch;
        if i == 1 || i == 2 || i == 4 {
            expected_branch = false;
        } else {
            expected_branch = true;
        }
        let branch = choose_zero(&key, i);
        assert_eq!(branch, expected_branch);
    }

    let key = [0xAB; KEY_LEN];
    for i in 0..8 {
        let expected_branch;
        if i == 0 || i == 2 || i == 4 || i == 6 || i == 7 {
            expected_branch = false;
        } else {
            expected_branch = true;
        }
        let branch = choose_zero(&key, i);
        assert_eq!(branch, expected_branch);
    }
}

#[test]
fn it_splits_an_all_zeros_sorted_list_of_pairs() {
    let zero_key = [0x00u8; KEY_LEN];
    let key_vec = vec![
        &zero_key, &zero_key, &zero_key, &zero_key, &zero_key, &zero_key, &zero_key, &zero_key,
        &zero_key, &zero_key,
    ];
    let keys = key_vec;

    let result = split_pairs(&keys, 0);
    assert_eq!(result.0.len(), 10);
    assert_eq!(result.1.len(), 0);
    for i in 0..result.0.len() {
        assert_eq!(*result.0[i], [0x00u8; KEY_LEN]);
    }
}

#[test]
fn it_splits_an_all_ones_sorted_list_of_pairs() {
    let one_key = [0xFFu8; KEY_LEN];
    let keys = vec![
        &one_key, &one_key, &one_key, &one_key, &one_key, &one_key, &one_key, &one_key,
        &one_key, &one_key,
    ];
    let result = split_pairs(&keys, 0);
    assert_eq!(result.0.len(), 0);
    assert_eq!(result.1.len(), 10);
    for i in 0..result.1.len() {
        assert_eq!(*result.1[i], [0xFFu8; KEY_LEN]);
    }
}

#[test]
fn it_splits_an_even_length_sorted_list_of_pairs() {
    let zero_key = [0x00u8; KEY_LEN];
    let one_key = [0xFFu8; KEY_LEN];
    let keys = vec![
        &zero_key, &zero_key, &zero_key, &zero_key, &zero_key, &one_key, &one_key, &one_key,
        &one_key, &one_key,
    ];
    let result = split_pairs(&keys, 0);
    assert_eq!(result.0.len(), 5);
    assert_eq!(result.1.len(), 5);
    for i in 0..result.0.len() {
        assert_eq!(*result.0[i], [0x00u8; KEY_LEN]);
    }
    for i in 0..result.1.len() {
        assert_eq!(*result.1[i], [0xFFu8; KEY_LEN]);
    }
}

#[test]
fn it_splits_an_odd_length_sorted_list_of_pairs_with_more_zeros() {
    let zero_key = [0x00u8; KEY_LEN];
    let one_key = [0xFFu8; KEY_LEN];
    let keys = vec![
        &zero_key, &zero_key, &zero_key, &zero_key, &zero_key, &zero_key, &one_key, &one_key,
        &one_key, &one_key, &one_key,
    ];
    let result = split_pairs(&keys, 0);
    assert_eq!(result.0.len(), 6);
    assert_eq!(result.1.len(), 5);
    for i in 0..result.0.len() {
        assert_eq!(*result.0[i], [0x00u8; KEY_LEN]);
    }
    for i in 0..result.1.len() {
        assert_eq!(*result.1[i], [0xFFu8; KEY_LEN]);
    }
}

#[test]
fn it_splits_an_odd_length_sorted_list_of_pairs_with_more_ones() {
    let zero_key = [0x00u8; KEY_LEN];
    let one_key = [0xFFu8; KEY_LEN];
    let keys = vec![
        &zero_key, &zero_key, &zero_key, &zero_key, &zero_key, &one_key, &one_key, &one_key,
        &one_key, &one_key, &one_key,
    ];

    let result = split_pairs(&keys, 0);
    assert_eq!(result.0.len(), 5);
    assert_eq!(result.1.len(), 6);
    for i in 0..result.0.len() {
        assert_eq!(*result.0[i], [0x00u8; KEY_LEN]);
    }
    for i in 0..result.1.len() {
        assert_eq!(*result.1[i], [0xFFu8; KEY_LEN]);
    }
}

#[test]
fn it_splits_an_empty_list_of_pairs() {
    let keys: Vec<&[u8; KEY_LEN]> = vec![];
    let result = split_pairs(&keys, 17);
    assert_eq!(result.0.len(), 0);
    assert_eq!(result.1.len(), 0);
}

#[test]
fn it_splits_at_the_first_key_with_a_set_bit() {
    let a = [0x00u8; KEY_LEN];
    let mut b = [0x00u8; KEY_LEN];
    b[1] = 0x10;
    let c = [0x00u8; KEY_LEN];
    let keys = vec![&a, &b, &c];
    let result = split_pairs(&keys, 11);
    assert_eq!(result.0.len(), 1);
    assert_eq!(result.1.len(), 2);
    assert_eq!(*result.1[0], b);
    assert_eq!(*result.1[1], c);
}

#[test]
fn the_split_bit_of_keys_that_differ_in_the_first_bit_is_zero() {
    let k1 = [0x00u8; KEY_LEN];
    let mut k2 = [0x00u8; KEY_LEN];
    k2[0] = 0x80;
    assert_eq!(split_bit(&k1, &k2), Some(0));
    assert_eq!(split_bit(&k2, &k1), Some(0));
    assert_eq!(first_diff_bit(&k1, &k2), Some(0));
}

#[test]
fn the_split_bit_of_single_byte_keys_that_differ_in_the_last_bit_is_seven() {
    let k1 = [0x00u8];
    let k2 = [0x01u8];
    assert_eq!(first_diff_bit(&k1, &k2), Some(7));
}

#[test]
fn the_split_bit_counts_the_bytes_before_the_difference() {
    let k1 = [0x5Au8; KEY_LEN];
    let mut k2 = [0x5Au8; KEY_LEN];
    k2[31] = 0x5B;
    assert_eq!(split_bit(&k1, &k2), Some(255));
    k2[17] = 0x4A;
    assert_eq!(split_bit(&k1, &k2), Some(17 * 8 + 3));
    assert_eq!(first_diff_bit(&[1u8, 2, 3], &[1u8, 2, 0x83]), Some(16));
}

#[test]
fn equal_keys_have_no_split_bit() {
    let k1 = [0x77u8; KEY_LEN];
    assert_eq!(split_bit(&k1, &k1.clone()), None);
    assert_eq!(first_diff_bit(&[9u8, 9], &[9u8, 9]), None);
    assert!(key_eq(&k1, &k1.clone()));
    let mut k2 = k1;
    k2[20] = 0;
    assert!(!key_eq(&k1, &k2));
}

#[test]
fn fast_log_2_gives_the_highest_set_bit() {
    assert_eq!(fast_log_2(0), 0);
    assert_eq!(fast_log_2(1), 0);
    assert_eq!(fast_log_2(2), 1);
    assert_eq!(fast_log_2(3), 1);
    assert_eq!(fast_log_2(0x10), 4);
    assert_eq!(fast_log_2(0x7F), 6);
    assert_eq!(fast_log_2(0x80), 7);
    assert_eq!(fast_log_2(0xFF), 7);
}

#[test]
fn a_key_is_a_descendant_when_it_agrees_before_the_split_index() {
    let branch_key = [0xF0u8; KEY_LEN];
    let mut key = [0xF0u8; KEY_LEN];
    key[1] = 0xF1;
    assert!(is_descendant(&key, &branch_key, 15));
    assert!(!is_descendant(&key, &branch_key, 16));
    assert!(is_descendant(&branch_key, &branch_key, 255));
}

#[test]
fn check_descendants_gives_the_run_of_keys_below_the_branch() {
    let branch_key = [0x40u8; KEY_LEN];
    let low = [0x00u8; KEY_LEN];
    let mut in_1 = [0x40u8; KEY_LEN];
    in_1[5] = 1;
    let mut in_2 = [0x40u8; KEY_LEN];
    in_2[0] = 0x41;
    let high = [0x80u8; KEY_LEN];
    let keys = vec![&low, &in_1, &in_2, &high];
    let below = check_descendants(&keys, 7, &branch_key);
    assert_eq!(below.len(), 2);
    assert_eq!(*below[0], in_1);
    assert_eq!(*below[1], in_2);
    let below = check_descendants(&keys, 8, &branch_key);
    assert_eq!(below.len(), 1);
    assert_eq!(*below[0], in_1);
    let below = check_descendants(&keys, 1, &branch_key);
    assert_eq!(below.len(), 3);
    let none = vec![&low, &high];
    assert_eq!(check_descendants(&none, 2, &branch_key).len(), 0);
}

#[test]
fn calc_min_split_index_gives_the_first_bit_at_which_a_key_differs() {
    let branch_key = [0x00u8; KEY_LEN];
    let mut a = [0x00u8; KEY_LEN];
    a[3] = 0x08;
    let mut b = [0x00u8; KEY_LEN];
    b[2] = 0x01;
    assert_eq!(calc_min_split_index(&[&a, &b], &branch_key), 23);
    assert_eq!(calc_min_split_index(&[&a], &branch_key), 28);
    assert_eq!(calc_min_split_index(&[&branch_key], &branch_key), 255);
    assert_eq!(calc_min_split_index(&[], &branch_key), 255);
}
