use hyperloglog_rs::prelude::{
    unique_values_from_sorted_iterators, Hybrid, Hybridazable, HyperLogLog, HyperLogLogError,
};
use std::collections::HashSet;

fn splitmix64(mut x: u64) -> u64 {
    x = x.wrapping_add(0x9E37_79B9_7F4A_7C15);
    x = (x ^ (x >> 30)).wrapping_mul(0xBF58_476D_1CE4_E5B9);
    x = (x ^ (x >> 27)).wrapping_mul(0x94D0_49BB_1331_11EB);
    x ^ (x >> 31)
}

fn xorshift64(mut x: u64) -> u64 {
    x ^= x << 13;
    x ^= x >> 7;
    x ^= x << 17;
    x
}

fn iter_random_values(
    sample_size: u64,
    maximal_value: Option<u64>,
    mut random_state: u64,
) -> impl Iterator<Item = u64> {
    (0..sample_size).map(move |_| {
        random_state = splitmix64(xorshift64(random_state));
        match maximal_value {
            Some(maximum) => random_state % maximum,
            None => random_state,
        }
    })
}

fn is_strictly_sorted(values: &[u64]) -> bool {
    values.windows(2).all(|pair| pair[0] < pair[1])
}

#[test]
fn test_unique_values_from_sorted_iterators() {
    let number_of_iterations = 10;
    let mut random_state = splitmix64(3456789456776543);

    for _ in 0..number_of_iterations {
        random_state = splitmix64(random_state);
        let mut left = iter_random_values(1000, None, random_state).collect::<Vec<_>>();
        left.sort();
        random_state = splitmix64(random_state);
        let mut right = iter_random_values(1000, None, random_state).collect::<Vec<_>>();
        right.sort();
        assert!(is_strictly_sorted(&left));
        assert!(is_strictly_sorted(&right));

        let unique_values = unique_values_from_sorted_iterators(&left, &right);
        let unique_values_set = u32::try_from(
            left.iter()
                .chain(right.iter())
                .collect::<std::collections::HashSet<_>>()
                .len(),
        )
        .unwrap();
        assert_eq!(unique_values, unique_values_set);
    }
}

#[test]
fn test_hybrid_plusplus() {
    let number_of_iterations = 10;
    let mut hybrid: Hybrid<10, 6> = Hybrid::new().unwrap();

    // The estimations up until the number of words is reached should be exact.
    for _ in 0..number_of_iterations {
        hybrid.clear();
        assert!(hybrid.is_empty());
        let cardinality: f64 = hybrid.exact_cardinality().unwrap() as f64;
        assert_eq!(cardinality, 0.0_f64);

        assert!(hybrid.is_hybrid());
        let mut exact_set = std::collections::HashSet::new();
        let mut random_state = splitmix64(3456789456776543);

        for element in iter_random_values(1000, None, random_state) {
            random_state = splitmix64(random_state);
            hybrid.insert(&element);
            exact_set.insert(element);
            assert!(hybrid.may_contain(&element));
            if !hybrid.is_hybrid() {
                break;
            }
            let estimated_cardinality: f64 = hybrid.exact_cardinality().unwrap() as f64;
            assert_eq!(estimated_cardinality, exact_set.len() as f64);
        }
    }
}

#[test]
fn test_unique_values_small_cases() {
    assert_eq!(unique_values_from_sorted_iterators(&[], &[]), 0);
    assert_eq!(unique_values_from_sorted_iterators(&[1, 2, 3], &[]), 3);
    assert_eq!(unique_values_from_sorted_iterators(&[], &[4, 9]), 2);
    assert_eq!(unique_values_from_sorted_iterators(&[1, 2, 3], &[1, 2, 3]), 3);
    assert_eq!(unique_values_from_sorted_iterators(&[1, 3, 5], &[2, 4, 6]), 6);
    assert_eq!(unique_values_from_sorted_iterators(&[1, 3, 5, 7, 9], &[5]), 5);
    assert_eq!(unique_values_from_sorted_iterators(&[5], &[1, 3, 5, 7, 9]), 5);
    assert_eq!(unique_values_from_sorted_iterators(&[0, u64::MAX], &[u64::MAX]), 2);
    assert_eq!(unique_values_from_sorted_iterators(&[10, 20], &[1, 2, 30, 40]), 6);
}

#[test]
fn test_unique_values_with_overlap() {
    let number_of_iterations = 10;
    let mut random_state = splitmix64(3456789456776543);
    for _ in 0..number_of_iterations {
        random_state = splitmix64(random_state);
        let mut left: Vec<u64> = iter_random_values(1000, Some(1500), random_state).collect();
        left.sort();
        left.dedup();
        random_state = splitmix64(random_state);
        let mut right: Vec<u64> = iter_random_values(1000, Some(1500), random_state).collect();
        right.sort();
        right.dedup();
        let expected = left.iter().chain(right.iter()).collect::<HashSet<_>>().len();
        assert!(expected < left.len() + right.len());
        assert_eq!(unique_values_from_sorted_iterators(&left, &right), expected as u32);
        assert_eq!(unique_values_from_sorted_iterators(&right, &left), expected as u32);
    }
}

#[test]
fn test_hybrid_rejects_unsupported_parameters() {
    assert_eq!(Hybrid::<3, 6>::new(), Err(HyperLogLogError::UnsupportedPrecision));
    assert_eq!(Hybrid::<19, 6>::new(), Err(HyperLogLogError::UnsupportedPrecision));
    assert_eq!(Hybrid::<10, 3>::new(), Err(HyperLogLogError::UnsupportedBits));
    assert_eq!(Hybrid::<10, 9>::new(), Err(HyperLogLogError::UnsupportedBits));
    assert_eq!(Hybrid::<3, 3>::new_hybrid(), Err(HyperLogLogError::UnsupportedPrecision));
    assert!(Hybrid::<4, 4>::new().is_ok());
    assert!(Hybrid::<18, 8>::new_hybrid().is_ok());
}

#[test]
fn test_hybrid_capacity_is_the_number_of_words() {
    // Ten six-bit registers in a word: 1024 registers take 103 words.
    assert_eq!(Hybrid::<10, 6>::new().unwrap().capacity(), 103);
    // Sixteen four-bit registers in a word.
    assert_eq!(Hybrid::<4, 4>::new().unwrap().capacity(), 1);
    assert_eq!(Hybrid::<4, 6>::new().unwrap().capacity(), 2);
    assert_eq!(Hybrid::<4, 8>::new().unwrap().capacity(), 2);
    assert_eq!(Hybrid::<18, 8>::new().unwrap().capacity(), 32768);
    assert_eq!(Hybrid::<12, 5>::new().unwrap().capacity(), 342);
}

#[test]
fn test_hybrid_is_exact_up_to_capacity() {
    let mut hybrid: Hybrid<8, 6> = Hybrid::new().unwrap();
    let capacity = hybrid.capacity();
    assert_eq!(capacity, 26);
    for k in 0..capacity {
        assert!(!hybrid.is_full());
        assert!(hybrid.insert_hash(splitmix64(k as u64)));
        assert!(hybrid.is_hybrid());
        assert_eq!(hybrid.exact_cardinality(), Some(k + 1));
        assert_eq!(hybrid.number_of_hashes(), k + 1);
        // A second insertion of the same digest changes nothing.
        assert!(!hybrid.insert_hash(splitmix64(k as u64)));
        assert_eq!(hybrid.exact_cardinality(), Some(k + 1));
    }
    assert!(hybrid.is_full());
    // A digest that the full list holds still changes nothing.
    assert!(!hybrid.insert_hash(splitmix64(3)));
    assert!(hybrid.is_hybrid());
    // The first new digest beyond the capacity turns the counter to registers.
    assert!(hybrid.insert_hash(splitmix64(capacity as u64)));
    assert!(!hybrid.is_hybrid());
    assert_eq!(hybrid.exact_cardinality(), None);
    assert_eq!(hybrid.number_of_hashes(), 0);
    assert!(hybrid.iter_sorted_hashes().is_empty());
}

#[test]
fn test_hybrid_keeps_its_list_sorted_and_unique() {
    let mut hybrid: Hybrid<10, 6> = Hybrid::new().unwrap();
    for hash in [50u64, 10, 40, 10, 30, 50, 20, u64::MAX, 0, 30] {
        hybrid.insert_hash(hash);
    }
    assert_eq!(hybrid.iter_sorted_hashes(), vec![0, 10, 20, 30, 40, 50, u64::MAX]);
    assert_eq!(hybrid.exact_cardinality(), Some(7));
    assert!(hybrid.contains_hash(40));
    assert!(hybrid.may_contain_hash(40));
    assert!(!hybrid.contains_hash(41));
    assert!(!hybrid.may_contain_hash(41));
    assert!(hybrid.contains(&7u8) == hybrid.may_contain(&7u8));
    assert!(!hybrid.is_empty());
}

#[test]
fn test_promotion_equals_direct_insertion() {
    let mut hybrid: Hybrid<6, 5> = Hybrid::new().unwrap();
    let mut direct: HyperLogLog<6, 5> = HyperLogLog::new().unwrap();
    let mut random_state = splitmix64(99);
    let mut promoted_at = None;
    for step in 0..500 {
        random_state = splitmix64(random_state);
        // Every third digest is one that was seen before.
        let hash = if step % 3 == 2 { splitmix64(splitmix64(99)) } else { random_state };
        let was_hybrid = hybrid.is_hybrid();
        hybrid.insert_hash(hash);
        direct.insert_hash(hash);
        if !was_hybrid {
            // Once promoted, never back.
            assert!(!hybrid.is_hybrid());
        }
        if was_hybrid && !hybrid.is_hybrid() {
            promoted_at = Some(step);
        }
        assert_eq!(hybrid.to_counter(), direct);
        assert!(hybrid.may_contain_hash(hash));
    }
    assert!(promoted_at.is_some());
    assert!(!hybrid.is_hybrid());
    assert_eq!(hybrid.to_counter().get_registers(), direct.get_registers());
}

#[test]
fn test_dehybridize_replays_the_list() {
    let mut hybrid: Hybrid<5, 6> = Hybrid::new().unwrap();
    let mut direct: HyperLogLog<5, 6> = HyperLogLog::new().unwrap();
    for hash in [0xF000_0000u64, 0x0000_0001, 0x8000_0000] {
        hybrid.insert_hash(hash);
        direct.insert_hash(hash);
    }
    assert!(hybrid.is_hybrid());
    let copy = hybrid.clone();
    hybrid.dehybridize();
    assert!(!hybrid.is_hybrid());
    assert!(copy.is_hybrid());
    assert_eq!(hybrid.to_counter(), direct);
    assert_eq!(copy.to_counter(), direct);
    // A second call changes nothing.
    let before = hybrid.clone();
    hybrid.dehybridize();
    assert_eq!(hybrid, before);
    // The registers of the three digests, by hand.
    let registers = direct.get_registers();
    assert_eq!(registers[30], 28);
    assert_eq!(registers[0], 27);
    assert_eq!(registers[16], 28);
    assert_eq!(direct.get_number_of_zero_registers(), 29);
}

#[test]
fn test_hybrid_union_of_two_lists_is_exact() {
    // Five and seven elements, two of them shared: ten in the union.
    let mut left: Hybrid<10, 6> = Hybrid::new().unwrap();
    let mut right: Hybrid<10, 6> = Hybrid::new().unwrap();
    for element in [1u64, 2, 3, 4, 5] {
        left.insert(&element);
    }
    for element in [4u64, 5, 6, 7, 8, 9, 10] {
        right.insert(&element);
    }
    assert!(left.is_hybrid() && right.is_hybrid());
    assert!(!left.is_union_estimate_non_deterministic(&right));
    assert_eq!(left.exact_cardinality(), Some(5));
    assert_eq!(right.exact_cardinality(), Some(7));
    assert_eq!(left.exact_union_cardinality(&right), Some(10));
    assert_eq!(right.exact_union_cardinality(&left), Some(10));
    assert_eq!(left.exact_union_cardinality(&left), Some(5));
}

#[test]
fn test_mixed_union_goes_through_registers() {
    let mut saturated: Hybrid<6, 6> = Hybrid::new().unwrap();
    let mut hybrid: Hybrid<6, 6> = Hybrid::new().unwrap();
    let mut left_direct: HyperLogLog<6, 6> = HyperLogLog::new().unwrap();
    let mut right_direct: HyperLogLog<6, 6> = HyperLogLog::new().unwrap();
    let mut random_state = splitmix64(3456789456776543);
    while saturated.is_hybrid() {
        random_state = splitmix64(random_state);
        saturated.insert(&random_state);
        left_direct.insert(random_state);
    }
    for _ in 0..3 {
        random_state = splitmix64(random_state);
        hybrid.insert(&random_state);
        right_direct.insert(random_state);
    }
    assert!(hybrid.is_hybrid());
    assert!(!saturated.is_hybrid());
    assert!(hybrid.is_union_estimate_non_deterministic(&saturated));
    assert!(saturated.is_union_estimate_non_deterministic(&hybrid));
    assert!(saturated.is_union_estimate_non_deterministic(&saturated));
    assert_eq!(hybrid.exact_union_cardinality(&saturated), None);
    assert_eq!(saturated.exact_union_cardinality(&hybrid), None);
    assert_eq!(saturated.exact_union_cardinality(&saturated), None);

    let expected = left_direct.clone().bitor(&right_direct);
    assert_eq!(hybrid.union_counter(&saturated), expected);
    assert_eq!(saturated.union_counter(&hybrid), expected);
    // The hybrid side stays as it was.
    assert!(hybrid.is_hybrid());
    assert_eq!(hybrid.exact_cardinality(), Some(3));

    hybrid.dehybridize();
    assert_eq!(hybrid.to_counter(), right_direct);
    assert_eq!(saturated.to_counter(), left_direct);
    assert_eq!(hybrid.union_counter(&saturated), expected);
}

#[test]
fn test_hybrid_clear_goes_back_to_the_list() {
    let mut hybrid: Hybrid<4, 4> = Hybrid::new().unwrap();
    assert!(hybrid.is_empty());
    hybrid.insert_hash(1);
    assert!(hybrid.is_full());
    hybrid.insert_hash(2);
    assert!(!hybrid.is_hybrid());
    assert!(!hybrid.is_empty());
    assert!(!hybrid.is_full());
    hybrid.clear();
    assert!(hybrid.is_hybrid());
    assert!(hybrid.is_empty());
    assert_eq!(hybrid.exact_cardinality(), Some(0));
    hybrid.insert_hash(2);
    hybrid.dehybridize();
    hybrid.clear_words();
    assert!(hybrid.is_hybrid());
    assert_eq!(hybrid.number_of_hashes(), 0);
}

#[test]
fn test_promoted_counter_fills_up() {
    let mut hybrid: Hybrid<4, 6> = Hybrid::new().unwrap();
    for index in 0..16u64 {
        // The bit right below the index bits is set: rank 1.
        hybrid.insert_hash((index << 28) | 0x0800_0000);
    }
    assert!(!hybrid.is_hybrid());
    assert!(hybrid.is_full());
    assert!(!hybrid.is_empty());
    assert_eq!(hybrid.to_counter().get_number_of_zero_registers(), 0);
    assert_eq!(hybrid.to_counter().get_registers(), vec![1u32; 16]);
    assert!(hybrid.may_contain_hash((3 << 28) | 0x0800_0000));
    assert!(hybrid.may_contain_hash((3 << 28) | 0x0F00_0000));
    // Rank 2 and rank 29 in a register that holds 1.
    assert!(!hybrid.may_contain_hash((3 << 28) | 0x0400_0000));
    assert!(!hybrid.may_contain_hash(3 << 28));
}

#[test]
fn test_hybrid_insert_reports_change() {
    let mut hybrid: Hybrid<4, 6> = Hybrid::new().unwrap();
    assert!(hybrid.hybrid_insert(&1u32));
    assert!(!hybrid.hybrid_insert(&1u32));
    assert!(hybrid.contains(&1u32));
    assert!(hybrid.insert(&2u32));
    assert!(!hybrid.insert(&2u32));
    assert!(hybrid.is_hybrid());
    assert!(hybrid.insert(&3u32));
    assert!(!hybrid.is_hybrid());
    // In registers, the same element never changes the counter again.
    assert!(!hybrid.insert(&3u32));
    assert!(!hybrid.insert(&1u32));
    assert!(hybrid.may_contain(&1u32));
    assert!(hybrid.may_contain(&2u32));
    assert!(hybrid.may_contain(&3u32));
}

#[test]
fn test_hybrid_equality() {
    let mut first: Hybrid<6, 6> = Hybrid::new().unwrap();
    let mut second: Hybrid<6, 6> = Hybrid::new().unwrap();
    assert_eq!(first, second);
    for hash in [5u64, 3, 9] {
        first.insert_hash(hash);
    }
    for hash in [9u64, 5, 3, 5] {
        second.insert_hash(hash);
    }
    assert_eq!(first, second);
    assert_eq!(first.clone(), second);
    second.dehybridize();
    // The same elements, but one counter knows them exactly.
    assert_ne!(first, second);
    first.dehybridize();
    assert_eq!(first, second);
    first.insert_hash(0xFFFF_FFFF);
    assert_ne!(first, second);
}
