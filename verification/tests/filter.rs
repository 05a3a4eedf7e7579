use bitcoin_gcs::{Filter, FilterError, DEFAULT_P};

const KEY: (u64, u64) = (0x0706050403020100, 0x0F0E0D0C0B0A0908);

fn next_random(state: &mut u64) -> u64 {
    *state ^= *state << 13;
    *state ^= *state >> 7;
    *state ^= *state << 17;
    *state
}

fn random_items(state: &mut u64, count: usize) -> Vec<Vec<u8>> {
    let mut items = Vec::new();
    for _ in 0..count {
        items.push(next_random(state).to_le_bytes().to_vec());
    }
    items
}

#[test]
fn default_p_is_twenty() {
    assert_eq!(DEFAULT_P, 20);
}

#[test]
fn empty_build_has_no_data_and_no_members() {
    let filter = Filter::build(19, (0, 0), &Vec::new()).unwrap();
    assert_eq!(filter.n(), 0);
    assert_eq!(filter.p(), 19);
    assert_eq!(filter.as_bytes().len(), 0);
    assert!(filter.is_empty());
    assert!(!filter.is_member((0, 0), &[]));
    assert!(!filter.is_member((0, 0), &[0]));
    assert!(!filter.is_member(KEY, b"anything"));
    assert!(!filter.is_member_any((0, 0), &vec![vec![0u8], vec![1u8]]));
}

#[test]
fn three_single_byte_items() {
    let items = vec![vec![0x00u8], vec![0x01u8], vec![0x02u8]];
    let filter = Filter::build(20, KEY, &items).unwrap();
    assert_eq!(filter.n(), 3);
    assert_eq!(filter.p(), 20);
    assert!(!filter.is_empty());
    assert_eq!(
        filter.as_bytes(),
        &[0x92, 0xbe, 0x78, 0x27, 0xdd, 0x93, 0xb7, 0xc5, 0x80]
    );
    assert!(filter.is_member(KEY, &[0x00]));
    assert!(filter.is_member(KEY, &[0x01]));
    assert!(filter.is_member(KEY, &[0x02]));
    assert!(!filter.is_member(KEY, &[0xFF]));
}

#[test]
fn member_under_another_key_is_not_found() {
    let items = vec![vec![0x00u8], vec![0x01u8], vec![0x02u8]];
    let filter = Filter::build(20, KEY, &items).unwrap();
    assert!(!filter.is_member((1, 2), &[0x00]));
}

#[test]
fn reversed_items_give_identical_bytes() {
    let mut state = 0x9E37_79B9_7F4A_7C15u64;
    let items = random_items(&mut state, 1000);
    let mut reversed = items.clone();
    reversed.reverse();
    let forward = Filter::build(20, KEY, &items).unwrap();
    let backward = Filter::build(20, KEY, &reversed).unwrap();
    assert_eq!(forward.n(), 1000);
    assert_eq!(forward.as_bytes().len(), 2699);
    assert_eq!(forward.as_bytes(), backward.as_bytes());
}

#[test]
fn every_added_item_is_a_member() {
    let mut state = 0x9E37_79B9_7F4A_7C15u64;
    let items = random_items(&mut state, 1000);
    let filter = Filter::build(20, KEY, &items).unwrap();
    for item in items.iter() {
        assert!(filter.is_member(KEY, item));
    }
}

#[test]
fn any_of_the_added_items_matches() {
    let mut state = 0x9E37_79B9_7F4A_7C15u64;
    let items = random_items(&mut state, 1000);
    let filter = Filter::build(20, KEY, &items).unwrap();
    assert!(filter.is_member_any(KEY, &items));
    assert!(filter.is_member_any(KEY, &vec![items[999].clone()]));
    assert!(filter.is_member_any(KEY, &vec![vec![0xEEu8; 3], items[500].clone()]));
}

#[test]
fn thousand_other_items_do_not_match() {
    let mut state = 0x9E37_79B9_7F4A_7C15u64;
    let items = random_items(&mut state, 1000);
    let others = random_items(&mut state, 1000);
    let filter = Filter::build(20, KEY, &items).unwrap();
    assert!(!filter.is_member_any(KEY, &others));
    for other in others.iter() {
        assert!(!filter.is_member(KEY, other));
    }
}

#[test]
fn any_of_no_items_is_false() {
    let filter = Filter::build(20, KEY, &vec![vec![1u8]]).unwrap();
    assert!(!filter.is_member_any(KEY, &Vec::new()));
}

#[test]
fn any_agrees_with_single_queries() {
    let mut state = 42u64;
    let items = random_items(&mut state, 50);
    let filter = Filter::build(4, KEY, &items).unwrap();
    let queries = random_items(&mut state, 200);
    let mut expected = false;
    for query in queries.iter() {
        expected = expected || filter.is_member(KEY, query);
    }
    assert!(expected);
    assert_eq!(filter.is_member_any(KEY, &queries), expected);
    for query in queries.iter() {
        assert_eq!(
            filter.is_member_any(KEY, &vec![query.clone()]),
            filter.is_member(KEY, query)
        );
    }
}

#[test]
fn repeated_items_are_each_coded() {
    let once = Filter::build(20, KEY, &vec![vec![7u8]]).unwrap();
    let twice = Filter::build(20, KEY, &vec![vec![7u8], vec![7u8]]).unwrap();
    assert_eq!(once.n(), 1);
    assert_eq!(twice.n(), 2);
    assert_ne!(once.as_bytes(), twice.as_bytes());
    assert!(once.is_member(KEY, &[7]));
    assert!(twice.is_member(KEY, &[7]));
}

#[test]
fn values_are_coded_in_ascending_order() {
    // 1, 5, 9 with two remainder bits: steps 1, 4, 4 are 0|01, 10|00, 10|00.
    let filter = Filter::from_values(2, vec![5, 1, 9]).unwrap();
    assert_eq!(filter.n(), 3);
    assert_eq!(filter.p(), 2);
    assert_eq!(filter.as_bytes(), &[0b0011_0001, 0b0000_0000]);
    let sorted = Filter::from_values(2, vec![1, 5, 9]).unwrap();
    assert_eq!(sorted.as_bytes(), filter.as_bytes());
}

#[test]
fn equal_values_are_coded_as_a_zero_step() {
    // 3, 3 with one remainder bit: steps 3, 0 are 10|1, 0|0.
    let filter = Filter::from_values(1, vec![3, 3]).unwrap();
    assert_eq!(filter.n(), 2);
    assert_eq!(filter.as_bytes(), &[0b1010_0000]);
    let single = Filter::from_values(1, vec![3]).unwrap();
    assert_eq!(single.as_bytes(), &[0b1010_0000]);
    assert_eq!(single.n(), 1);
}

#[test]
fn zero_remainder_width_is_plain_unary() {
    // 2, 3 with no remainder bits: steps 2, 1 are 110, 10.
    let filter = Filter::from_values(0, vec![3, 2]).unwrap();
    assert_eq!(filter.as_bytes(), &[0b1101_0000]);
    assert!(filter.contains_value(2));
    assert!(filter.contains_value(3));
    assert!(!filter.contains_value(0));
    assert!(!filter.contains_value(1));
    assert!(!filter.contains_value(4));
}

#[test]
fn widest_remainder_is_thirty_two_bits() {
    let filter = Filter::from_values(32, vec![0x1_2345_6789, 0xABCD_EF01]).unwrap();
    // ABCDEF01: 0 | ABCDEF01; step 0x1_2345_6789 - 0xABCD_EF01 = 0x7777_7888: 0 | 77777888.
    assert_eq!(
        filter.as_bytes(),
        &[0x55, 0xE6, 0xF7, 0x80, 0x9D, 0xDD, 0xDE, 0x22, 0x00]
    );
    assert!(filter.contains_value(0xABCD_EF01));
    assert!(filter.contains_value(0x1_2345_6789));
    assert!(!filter.contains_value(0x7777_7888));
}

#[test]
fn stream_of_whole_bytes_gets_no_padding() {
    // 0x55 with seven remainder bits is 0|1010101: eight bits.
    let filter = Filter::from_values(7, vec![0x55]).unwrap();
    assert_eq!(filter.as_bytes(), &[0x55]);
    assert!(filter.contains_value(0x55));
    let two = Filter::from_values(7, vec![0x55, 0x55]).unwrap();
    assert_eq!(two.as_bytes(), &[0x55, 0x00]);
}

#[test]
fn from_values_of_nothing_is_empty() {
    let filter = Filter::from_values(20, Vec::new()).unwrap();
    assert_eq!(filter.n(), 0);
    assert_eq!(filter.as_bytes().len(), 0);
    assert!(!filter.contains_value(0));
    assert!(!filter.contains_any_value(vec![0, 1, 2]));
}

#[test]
fn contains_value_finds_exactly_the_coded_values() {
    let filter = Filter::from_values(2, vec![5, 1, 9]).unwrap();
    for value in 0..20u64 {
        assert_eq!(
            filter.contains_value(value),
            value == 1 || value == 5 || value == 9
        );
    }
    assert!(!filter.contains_value(u64::MAX));
}

#[test]
fn zero_is_found_only_as_first_value() {
    let with_zero = Filter::from_values(2, vec![4, 0]).unwrap();
    assert!(with_zero.contains_value(0));
    assert!(with_zero.contains_value(4));
    let without_zero = Filter::from_values(2, vec![5, 1, 9]).unwrap();
    assert!(!without_zero.contains_value(0));
    assert!(!without_zero.contains_any_value(vec![0]));
    assert!(with_zero.contains_any_value(vec![0]));
}

#[test]
fn contains_any_value_walks_both_sides() {
    let filter = Filter::from_values(2, vec![5, 1, 9]).unwrap();
    assert!(filter.contains_any_value(vec![9]));
    assert!(filter.contains_any_value(vec![100, 5, 0]));
    assert!(filter.contains_any_value(vec![2, 3, 4, 6, 7, 8, 9]));
    assert!(filter.contains_any_value(vec![1, 1, 1]));
    assert!(!filter.contains_any_value(vec![0, 2, 3, 4, 6, 7, 8, 10, 11]));
    assert!(!filter.contains_any_value(vec![u64::MAX, 0]));
    assert!(!filter.contains_any_value(Vec::new()));
}

#[test]
fn reading_stops_after_n_values() {
    // The bytes code 1, 5, 9; a filter of one item reads only the first.
    let filter = Filter::from_bytes(1, 2, vec![0b0011_0001, 0b0000_0000]);
    assert!(filter.contains_value(1));
    assert!(!filter.contains_value(5));
    assert!(!filter.contains_value(9));
    assert!(!filter.contains_any_value(vec![5, 9]));
    assert!(filter.contains_any_value(vec![9, 1]));
    let two = Filter::from_bytes(2, 2, vec![0b0011_0001, 0b0000_0000]);
    assert!(two.contains_value(5));
    assert!(!two.contains_value(9));
}

#[test]
fn padding_is_not_read_as_a_value() {
    // 3 with one remainder bit is 10|1; the five padding bits would read as
    // two zero steps.
    let filter = Filter::from_values(1, vec![3]).unwrap();
    assert_eq!(filter.as_bytes(), &[0b1010_0000]);
    assert!(filter.contains_value(3));
    assert!(!filter.contains_value(4));
    let padded = Filter::from_values(1, vec![0]).unwrap();
    assert_eq!(padded.as_bytes(), &[0b0000_0000]);
    assert!(padded.contains_value(0));
    assert!(!padded.contains_value(1));
}

#[test]
fn truncated_data_gives_false_not_a_fault() {
    let items = vec![vec![0x00u8], vec![0x01u8], vec![0x02u8]];
    let whole = Filter::build(20, KEY, &items).unwrap();
    let cut = Filter::from_bytes(3, 20, whole.as_bytes()[..2].to_vec());
    assert!(!cut.is_member(KEY, &[0x00]));
    assert!(!cut.is_member(KEY, &[0x01]));
    assert!(!cut.is_member(KEY, &[0x02]));
    assert!(!cut.is_member_any(KEY, &items));
    let none = Filter::from_bytes(3, 20, Vec::new());
    assert!(!none.is_member(KEY, &[0x00]));
    assert!(!none.is_member_any(KEY, &items));
}

#[test]
fn endless_unary_gives_false_not_a_fault() {
    let filter = Filter::from_bytes(5, 20, vec![0xFF; 64]);
    assert!(!filter.is_member(KEY, &[0x00]));
    assert!(!filter.contains_value(0));
    assert!(!filter.contains_value(u64::MAX));
    assert!(!filter.contains_any_value(vec![0, 1, u64::MAX]));
}

#[test]
fn quotient_and_remainder_combine() {
    // One bit of quotient, the closing zero, then 32 remainder bits spelling 1.
    let filter = Filter::from_bytes(1, 32, vec![0x80, 0x00, 0x00, 0x00, 0x40]);
    assert!(filter.contains_value((1 << 32) + 1));
    assert!(!filter.contains_value(1 << 32));
    assert!(!filter.contains_value(1));
    // One bit short of the remainder: nothing is coded.
    let short = Filter::from_bytes(1, 32, vec![0x80, 0x00, 0x00, 0x00]);
    assert!(!short.contains_value((1 << 32) + 1));
    assert!(!short.contains_value(1 << 32));
}

#[test]
fn parameter_guards_on_build() {
    assert_eq!(
        Filter::build(33, KEY, &vec![vec![1u8]]).err(),
        Some(FilterError::InvalidParameter)
    );
    assert_eq!(
        Filter::build(255, KEY, &Vec::new()).err(),
        Some(FilterError::InvalidParameter)
    );
    assert_eq!(
        Filter::from_values(33, vec![1, 2]).err(),
        Some(FilterError::InvalidParameter)
    );
    assert!(Filter::build(32, KEY, &vec![vec![1u8]]).is_ok());
    assert!(Filter::build(0, KEY, &vec![vec![1u8]]).is_ok());
}

#[test]
fn from_bytes_keeps_what_it_is_given() {
    let filter = Filter::from_bytes(7, 20, vec![1, 2, 3]);
    assert_eq!(filter.n(), 7);
    assert_eq!(filter.p(), 20);
    assert_eq!(filter.as_bytes(), &[1, 2, 3]);
    assert!(!filter.is_empty());
    let empty = Filter::from_bytes(0, 32, vec![9, 9]);
    assert!(empty.is_empty());
    assert_eq!(empty.as_bytes(), &[9, 9]);
    assert!(!empty.is_member(KEY, &[9]));
}

#[test]
fn clone_keeps_the_filter() {
    let filter = Filter::build(20, KEY, &vec![vec![1u8], vec![2u8]]).unwrap();
    let copy = filter.clone();
    assert_eq!(copy.n(), filter.n());
    assert_eq!(copy.p(), filter.p());
    assert_eq!(copy.as_bytes(), filter.as_bytes());
    assert!(copy.is_member(KEY, &[1]));
}

#[test]
fn same_numbers_in_any_order_give_the_same_filter() {
    let a = Filter::from_values(5, vec![700, 3, 3, 64, 1000]).unwrap();
    let b = Filter::from_values(5, vec![3, 1000, 64, 3, 700]).unwrap();
    let c = Filter::from_values(5, vec![3, 1000, 64, 700]).unwrap();
    assert_eq!(a.as_bytes(), b.as_bytes());
    assert_eq!(a.n(), b.n());
    assert_ne!(a.n(), c.n());
    assert_ne!(a.as_bytes(), c.as_bytes());
}

#[test]
fn built_filter_stays_within_its_bit_budget() {
    let mut state = 7u64;
    for count in [1usize, 2, 10, 100, 1000] {
        for p in [0u8, 1, 8, 20, 32] {
            let items = random_items(&mut state, count);
            let filter = Filter::build(p, KEY, &items).unwrap();
            assert!(filter.as_bytes().len() * 8 < count * (p as usize + 2) + 8);
        }
    }
}
