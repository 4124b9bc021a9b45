use deflate::chained_hash_table::{filled_hash_table, update_hash, ChainedHashTable, HASH_BYTES};
use deflate::matching::{get_match_length, longest_match, longest_match_current};

/// Test that match lengths are calculated correctly
#[test]
fn match_length() {
    let test_arr = [5u8, 5, 5, 5, 5, 9, 9, 2, 3, 5, 5, 5, 5, 5];
    let l = get_match_length(&test_arr, 9, 0);
    assert_eq!(l, 5);
    let l2 = get_match_length(&test_arr, 9, 7);
    assert_eq!(l2, 0);
    let l3 = get_match_length(&test_arr, 10, 0);
    assert_eq!(l3, 4);
}

/// Test that we get the longest of the matches
#[test]
fn get_longest_match() {
    let test_data = b"xTest data, Test_data,zTest data";
    let hash_table = filled_hash_table(&test_data[..23 + 1 + HASH_BYTES - 1]);

    let (length, distance) = longest_match_current(test_data, &hash_table);

    // We check that we get the longest match, rather than the shorter, but closer one.
    assert_eq!(distance, 22);
    assert_eq!(length, 9);
    let test_arr2 = [10u8, 10, 10, 10, 10, 10, 10, 10, 2, 3, 5, 10, 10, 10, 10, 10];
    let hash_table = filled_hash_table(&test_arr2[..HASH_BYTES + 1 + 1 + 2]);
    let (length, distance) = longest_match_current(&test_arr2, &hash_table);

    assert_eq!(distance, 1);
    assert_eq!(length, 4);
}

/// Make sure we can get a match at index zero
#[test]
fn match_index_zero() {
    let test_data = b"AAAAAAA";

    let mut hash_table = ChainedHashTable::from_starting_values(test_data[0], test_data[1]);
    for (n, &b) in test_data[2..5].iter().enumerate() {
        hash_table.add_hash_value(n, b);
    }

    let (match_length, match_dist) = longest_match(test_data, &hash_table, 2, 0, 4096);

    assert_eq!(match_dist, 1);
    assert!(match_length > 2);
}

#[test]
fn match_length_stops_at_258() {
    let data = vec![1u8; 1000];
    assert_eq!(get_match_length(&data, 1, 0), 258);
    assert_eq!(get_match_length(&data, 900, 0), 100);
    assert_eq!(get_match_length(&data, 1000, 0), 0);
    assert_eq!(get_match_length(&data, 0, 0), 258);
}

#[test]
fn equally_long_matches_go_to_the_nearest() {
    let data = b"abcd-abcd-abcd";
    let table = filled_hash_table(&data[..13]);
    assert_eq!(longest_match(data, &table, 10, 2, 4096), (4, 5));
}

#[test]
fn search_is_cut_by_the_number_of_checks() {
    let data = b"abcX-abcY-abcd-abcd";
    let table = filled_hash_table(&data[..18]);
    assert_eq!(longest_match(data, &table, 15, 2, 4096), (4, 5));
    let far = b"abcde-abcX-abcY-abcde";
    let table = filled_hash_table(&far[..19]);
    assert_eq!(longest_match(far, &table, 16, 2, 4096), (5, 16));
    assert_eq!(longest_match(far, &table, 16, 2, 1), (3, 5));
    assert_eq!(longest_match(far, &table, 16, 2, 0), (0, 0));
    assert_eq!(longest_match(far, &table, 16, 3, 2), (0, 0));
}

#[test]
fn no_search_where_nothing_can_be_gained() {
    let data = vec![3u8; 600];
    let table = filled_hash_table(&data[..300]);
    assert_eq!(longest_match(&data, &table, 0, 2, 4096), (0, 0));
    assert_eq!(longest_match(&data, &table, 100, 258, 4096), (0, 0));
    assert_eq!(longest_match(&data, &table, 598, 2, 4096), (0, 0));
    assert_eq!(longest_match(&data, &table, 599, 0, 4096), (0, 0));
    assert_eq!(longest_match(&data, &table, 700, 2, 4096), (0, 0));
    assert_eq!(longest_match(&data, &table, 100, 2, 4096), (258, 1));
    assert_eq!(longest_match(&data, &table, 100, 257, 4096), (258, 1));
}

#[test]
fn hash_chain_links_positions() {
    let data = b"AAAAAAA";
    let mut table = ChainedHashTable::from_starting_values(data[0], data[1]);
    table.add_hash_value(0, data[2]);
    assert_eq!(table.current_head(), 0);
    table.add_hash_value(1, data[3]);
    table.add_hash_value(2, data[4]);
    assert_eq!(table.current_head(), 2);
    assert_eq!(table.get_prev(2), 1);
    assert_eq!(table.get_prev(1), 0);
    assert_eq!(table.get_prev(0), 0);
    assert_eq!(table.get_prev(2 + 32768), 1);
}

#[test]
fn rolling_hash_values() {
    assert_eq!(update_hash(0, 0x41), 0x41);
    assert_eq!(update_hash(0x41, 0x42), (0x41 << 5) ^ 0x42);
    assert_eq!(update_hash(0x7fff, 0), 0x7fe0);
    assert_eq!(update_hash(0xffff, 0xff), 0x7f1f);
}
