use hyperloglog_rs::hyperloglog::{HyperLogLog, HyperLogLogError};
use std::collections::HashSet;

fn splitmix64(mut x: u64) -> u64 {
    x = x.wrapping_add(0x9E37_79B9_7F4A_7C15);
    x = (x ^ (x >> 30)).wrapping_mul(0xBF58_476D_1CE4_E5B9);
    x = (x ^ (x >> 27)).wrapping_mul(0x94D0_49BB_1331_11EB);
    x ^ (x >> 31)
}

fn xorshift64(mut x: u64) -> u64 {
    x ^= x << 13;
    x ^= x >> 7;
    x ^= x << 17;
    x
}

fn get_alpha(number_of_registers: usize) -> f32 {
    match number_of_registers {
        16 => 0.673,
        32 => 0.697,
        64 => 0.709,
        _ => 0.7213 / (1.0 + 1.079 / number_of_registers as f32),
    }
}

/// The estimate of the three ranges, computed from what the counter hands out.
fn estimate<const P: usize, const B: usize>(counter: &HyperLogLog<P, B>) -> f32 {
    let m = counter.len() as f32;
    let harmonic_sum: f32 = counter
        .get_registers()
        .iter()
        .map(|&register| 2.0_f32.powi(-(register as i32)))
        .sum();
    let raw = get_alpha(counter.len()) * m * m / harmonic_sum;
    let zeros = counter.get_number_of_zero_registers();
    let two_32 = (1u64 << 32) as f32;
    if raw <= 2.5 * m && zeros > 0 {
        m * (m / zeros as f32).ln()
    } else if raw >= two_32 / 30.0 {
        -two_32 * (-raw / two_32).ln_1p()
    } else {
        raw
    }
}

fn random_counter<const P: usize, const B: usize>(seed: u64, elements: usize) -> HyperLogLog<P, B> {
    let mut counter = HyperLogLog::<P, B>::new().unwrap();
    let mut state = splitmix64(seed);
    for _ in 0..elements {
        state = splitmix64(state);
        counter.insert_hash(state);
    }
    counter
}

fn count_zeros(registers: &[u32]) -> usize {
    registers.iter().filter(|&&register| register == 0).count()
}

#[test]
fn test_new_counter_is_empty() {
    let counter = HyperLogLog::<10, 6>::new().unwrap();
    assert_eq!(counter.len(), 1024);
    assert_eq!(counter.get_number_of_bits(), 10);
    assert_eq!(counter.get_number_of_zero_registers(), 1024);
    assert_eq!(counter.get_number_of_non_zero_registers(), 0);
    assert_eq!(counter.get_registers(), vec![0u32; 1024]);
    assert!(counter.is_empty());
    assert!(!counter.is_full());
    assert_eq!(HyperLogLog::<4, 4>::new().unwrap().len(), 16);
    assert_eq!(HyperLogLog::<18, 8>::new().unwrap().len(), 262144);
    assert_eq!(HyperLogLog::<18, 8>::new().unwrap().get_number_of_zero_registers(), 262144);
}

#[test]
fn test_new_rejects_unsupported_parameters() {
    assert_eq!(HyperLogLog::<3, 6>::new(), Err(HyperLogLogError::UnsupportedPrecision));
    assert_eq!(HyperLogLog::<0, 6>::new(), Err(HyperLogLogError::UnsupportedPrecision));
    assert_eq!(HyperLogLog::<19, 6>::new(), Err(HyperLogLogError::UnsupportedPrecision));
    assert_eq!(HyperLogLog::<64, 6>::new(), Err(HyperLogLogError::UnsupportedPrecision));
    assert_eq!(HyperLogLog::<10, 3>::new(), Err(HyperLogLogError::UnsupportedBits));
    assert_eq!(HyperLogLog::<10, 0>::new(), Err(HyperLogLogError::UnsupportedBits));
    assert_eq!(HyperLogLog::<10, 9>::new(), Err(HyperLogLogError::UnsupportedBits));
    // The precision is looked at first.
    assert_eq!(HyperLogLog::<3, 3>::new(), Err(HyperLogLogError::UnsupportedPrecision));
    for_each_supported_pair();
}

fn for_each_supported_pair() {
    assert!(HyperLogLog::<4, 4>::new().is_ok());
    assert!(HyperLogLog::<4, 8>::new().is_ok());
    assert!(HyperLogLog::<18, 4>::new().is_ok());
    assert!(HyperLogLog::<18, 8>::new().is_ok());
    assert!(HyperLogLog::<11, 5>::new().is_ok());
    assert!(HyperLogLog::<16, 7>::new().is_ok());
}

#[test]
fn test_insert_hash_known_values() {
    let mut counter = HyperLogLog::<4, 6>::new().unwrap();
    // Index 15, nothing below the index bits: rank 29.
    assert!(counter.insert_hash(0xF000_0000));
    assert_eq!(counter.get_register(15), 29);
    assert_eq!(counter.get_number_of_zero_registers(), 15);
    // Index 0, the bit right below the index bits: rank 1.
    assert!(counter.insert_hash(0x0800_0000));
    assert_eq!(counter.get_register(0), 1);
    assert_eq!(counter.get_number_of_zero_registers(), 14);
    // Index 0 again, three zeros first: rank 4. The register rises.
    assert!(counter.insert_hash(0x0100_0000));
    assert_eq!(counter.get_register(0), 4);
    assert_eq!(counter.get_number_of_zero_registers(), 14);
    // A smaller rank changes nothing.
    assert!(!counter.insert_hash(0x0400_0000));
    assert_eq!(counter.get_register(0), 4);
    // The high 32 bits of a digest are not looked at.
    assert!(!counter.insert_hash(0xFFFF_FFFF_0100_0000));
    assert!(counter.insert_hash(0xABCD_EF01_7000_0001));
    assert_eq!(counter.get_register(7), 28);
    let mut expected = vec![0u32; 16];
    expected[0] = 4;
    expected[7] = 28;
    expected[15] = 29;
    assert_eq!(counter.get_registers(), expected);
    assert_eq!(counter.get_number_of_non_zero_registers(), 3);
}

#[test]
fn test_insert_hash_at_largest_precision() {
    let mut counter = HyperLogLog::<18, 6>::new().unwrap();
    assert!(counter.insert_hash(0xFFFF_FFFF));
    assert_eq!(counter.get_register(262143), 1);
    assert!(counter.insert_hash(0xFFFF_C000));
    assert_eq!(counter.get_register(262143), 15);
    assert!(counter.insert_hash(0));
    assert_eq!(counter.get_register(0), 15);
    assert!(counter.insert_hash(0x0000_4001));
    assert_eq!(counter.get_register(1), 14);
    assert_eq!(counter.get_number_of_zero_registers(), 262144 - 3);
}

#[test]
fn test_rank_is_cut_to_the_register_width() {
    // Four bits hold at most 15, and the rank here is 29.
    let mut counter = HyperLogLog::<4, 4>::new().unwrap();
    assert!(counter.insert_hash(0xF000_0000));
    assert_eq!(counter.get_register(15), 15);
    assert_eq!(counter.get_register(14), 0);
    assert!(!counter.insert_hash(0xF000_0000));
    assert!(counter.may_contain_hash(0xF000_0000));
    assert!(counter.insert_hash(0xE000_0100));
    assert_eq!(counter.get_register(14), 15);
    assert_eq!(counter.get_register(13), 0);
    assert_eq!(counter.get_register(15), 15);
    // Five bits hold 29.
    let mut counter = HyperLogLog::<4, 5>::new().unwrap();
    counter.insert_hash(0xF000_0000);
    assert_eq!(counter.get_register(15), 29);
}

#[test]
fn test_insert_is_idempotent() {
    let mut once = HyperLogLog::<8, 5>::new().unwrap();
    let mut twice = HyperLogLog::<8, 5>::new().unwrap();
    let mut state = splitmix64(7);
    for _ in 0..2000 {
        state = splitmix64(state);
        once.insert_hash(state);
        twice.insert_hash(state);
        assert!(!twice.insert_hash(state));
        assert_eq!(once, twice);
    }
    let mut once = HyperLogLog::<8, 5>::new().unwrap();
    let mut twice = HyperLogLog::<8, 5>::new().unwrap();
    for element in ["Hello", "World", "Hello"] {
        once.insert(element);
        twice.insert(element);
        twice.insert(element);
    }
    assert_eq!(once, twice);
    assert!(once.may_contain(&"Hello"));
    assert!(once.may_contain(&"World"));
    assert_eq!(once.get_number_of_non_zero_registers(), 2);
}

#[test]
fn test_insert_hashes_the_element() {
    // Different elements reach different registers, the same element the same one.
    let mut counter = HyperLogLog::<12, 6>::new().unwrap();
    for element in 0..200u64 {
        counter.insert(element);
    }
    assert!(counter.get_number_of_non_zero_registers() > 150);
    let before = counter.clone();
    for element in 0..200u64 {
        counter.insert(element);
    }
    assert_eq!(counter, before);
    for element in 0..200u64 {
        assert!(counter.may_contain(&element));
    }
}

#[test]
fn test_zero_register_count_is_exact() {
    let mut counter = HyperLogLog::<9, 6>::new().unwrap();
    let mut other = random_counter::<9, 6>(5, 300);
    let mut state = splitmix64(11);
    for step in 0..3000 {
        state = splitmix64(state);
        counter.insert_hash(state);
        let registers = counter.get_registers();
        assert_eq!(counter.get_number_of_zero_registers(), count_zeros(&registers));
        assert_eq!(
            counter.get_number_of_non_zero_registers(),
            registers.len() - count_zeros(&registers)
        );
        if step % 500 == 250 {
            counter.bitand_assign(&other);
            let registers = counter.get_registers();
            assert_eq!(counter.get_number_of_zero_registers(), count_zeros(&registers));
        }
        if step % 500 == 499 {
            other.insert_hash(splitmix64(state));
            counter.bitor_assign(&other);
            let registers = counter.get_registers();
            assert_eq!(counter.get_number_of_zero_registers(), count_zeros(&registers));
        }
    }
}

#[test]
fn test_from_registers_round_trip() {
    let registers: Vec<u32> = (0..16).map(|index| (index * 4 + 1) % 64).collect();
    let counter = HyperLogLog::<4, 6>::from_registers(&registers).unwrap();
    assert_eq!(counter.get_registers(), registers);
    assert_eq!(counter.get_number_of_zero_registers(), 0);

    let registers: Vec<u32> = (0..1024).map(|index| (index % 3) * 15).collect();
    let counter = HyperLogLog::<10, 5>::from_registers(&registers).unwrap();
    assert_eq!(counter.get_registers(), registers);
    assert_eq!(counter.get_number_of_zero_registers(), 342);
    assert_eq!(counter.get_number_of_non_zero_registers(), 682);

    let counter = random_counter::<7, 6>(3, 1000);
    let again = HyperLogLog::<7, 6>::from_registers(&counter.get_registers()).unwrap();
    assert_eq!(again, counter);

    let empty = HyperLogLog::<4, 8>::from_registers(&[0; 16]).unwrap();
    assert_eq!(empty, HyperLogLog::<4, 8>::new().unwrap());
    let full = HyperLogLog::<4, 8>::from_registers(&[255; 16]).unwrap();
    assert_eq!(full.get_registers(), vec![255u32; 16]);
    assert!(full.is_full());
}

#[test]
fn test_from_registers_rejects_bad_input() {
    assert_eq!(
        HyperLogLog::<4, 6>::from_registers(&[0; 15]),
        Err(HyperLogLogError::WrongNumberOfRegisters)
    );
    assert_eq!(
        HyperLogLog::<4, 6>::from_registers(&[0; 17]),
        Err(HyperLogLogError::WrongNumberOfRegisters)
    );
    assert_eq!(
        HyperLogLog::<4, 6>::from_registers(&[]),
        Err(HyperLogLogError::WrongNumberOfRegisters)
    );
    let mut registers = [1u32; 16];
    registers[15] = 64;
    assert_eq!(
        HyperLogLog::<4, 6>::from_registers(&registers),
        Err(HyperLogLogError::RegisterTooLarge)
    );
    registers[15] = 63;
    assert!(HyperLogLog::<4, 6>::from_registers(&registers).is_ok());
    registers[0] = u32::MAX;
    assert_eq!(
        HyperLogLog::<4, 6>::from_registers(&registers),
        Err(HyperLogLogError::RegisterTooLarge)
    );
    assert_eq!(
        HyperLogLog::<3, 6>::from_registers(&[0; 8]),
        Err(HyperLogLogError::UnsupportedPrecision)
    );
    assert_eq!(
        HyperLogLog::<4, 9>::from_registers(&[0; 16]),
        Err(HyperLogLogError::UnsupportedBits)
    );
    // The number of registers is looked at before their values.
    assert_eq!(
        HyperLogLog::<4, 4>::from_registers(&[16; 3]),
        Err(HyperLogLogError::WrongNumberOfRegisters)
    );
}

#[test]
fn test_iter_hands_out_every_register() {
    let counter = random_counter::<6, 6>(21, 100);
    let registers = counter.get_registers();
    let mut cursor = counter.iter();
    let mut seen = Vec::new();
    while let Some(register) = cursor.next() {
        seen.push(register);
    }
    assert_eq!(seen, registers);
    assert_eq!(cursor.next(), None);
    assert_eq!(cursor.next(), None);
    assert_eq!(seen.len(), counter.len());
}

#[test]
fn test_union_of_known_registers() {
    let first_registers = [1, 2, 3, 4, 5, 6, 7, 8, 9, 10, 11, 12, 13, 14, 15, 16];
    let second_registers = [9, 9, 9, 9, 9, 9, 9, 9, 9, 9, 9, 9, 9, 9, 9, 19];
    let expected = [9, 9, 9, 9, 9, 9, 9, 9, 9, 10, 11, 12, 13, 14, 15, 19];

    let hll1 = HyperLogLog::<4, 5>::from_registers(&first_registers).unwrap();
    let hll2 = HyperLogLog::<4, 5>::from_registers(&second_registers).unwrap();
    let union = hll1.bitor(&hll2);
    assert_eq!(union.get_registers(), expected);
    assert_eq!(union.get_number_of_zero_registers(), 0);
}

#[test]
fn test_intersection_of_known_registers() {
    let first_registers = [1, 2, 3, 4, 5, 6, 7, 8, 9, 10, 11, 12, 13, 14, 15, 0];
    let second_registers = [9, 9, 9, 9, 9, 9, 9, 9, 9, 9, 9, 9, 9, 0, 9, 19];
    let expected = [1, 2, 3, 4, 5, 6, 7, 8, 9, 9, 9, 9, 9, 0, 9, 0];

    // Twelve five-bit registers in a word: two words, 24 slots, 8 of them padding.
    let hll1 = HyperLogLog::<4, 5>::from_registers(&first_registers).unwrap();
    let hll2 = HyperLogLog::<4, 5>::from_registers(&second_registers).unwrap();
    assert_eq!(hll1.get_number_of_padding_registers(), 8);
    let intersection = hll1.bitand(&hll2);
    assert_eq!(intersection.get_registers(), expected);
    // The padding registers are not counted.
    assert_eq!(intersection.get_number_of_zero_registers(), 2);
    assert_eq!(intersection.get_number_of_non_zero_registers(), 14);
}

#[test]
fn test_padding_registers() {
    assert_eq!(HyperLogLog::<4, 4>::new().unwrap().get_number_of_padding_registers(), 0);
    assert_eq!(HyperLogLog::<4, 6>::new().unwrap().get_number_of_padding_registers(), 4);
    assert_eq!(HyperLogLog::<4, 7>::new().unwrap().get_number_of_padding_registers(), 2);
    assert_eq!(HyperLogLog::<10, 6>::new().unwrap().get_number_of_padding_registers(), 6);
    assert_eq!(HyperLogLog::<10, 8>::new().unwrap().get_number_of_padding_registers(), 0);
    assert_eq!(HyperLogLog::<18, 5>::new().unwrap().get_number_of_padding_registers(), 8);
}

#[test]
fn test_union_is_commutative_associative_and_idempotent() {
    let a = random_counter::<8, 6>(1, 300);
    let b = random_counter::<8, 6>(2, 40);
    let d = random_counter::<8, 6>(3, 5000);
    let empty = HyperLogLog::<8, 6>::new().unwrap();

    assert_eq!(a.clone().bitor(&b), b.clone().bitor(&a));
    assert_eq!(a.clone().bitor(&b).bitor(&d), a.clone().bitor(&b.clone().bitor(&d)));
    assert_eq!(a.clone().bitor(&a), a);
    assert_eq!(a.clone().bitor(&empty), a);
    assert_eq!(empty.clone().bitor(&a), a);

    let mut assigned = a.clone();
    assigned.bitor_assign(&b);
    assert_eq!(assigned, a.clone().bitor(&b));
    let merged = assigned.get_registers();
    let (left, right) = (a.get_registers(), b.get_registers());
    for index in 0..merged.len() {
        assert_eq!(merged[index], left[index].max(right[index]));
    }
    assert_eq!(assigned.get_number_of_zero_registers(), count_zeros(&merged));
}

#[test]
fn test_union_is_the_counter_of_both_streams() {
    let mut left = HyperLogLog::<10, 6>::new().unwrap();
    let mut right = HyperLogLog::<10, 6>::new().unwrap();
    let mut both = HyperLogLog::<10, 6>::new().unwrap();
    let mut state = splitmix64(77);
    for step in 0..5000 {
        state = splitmix64(state);
        if step % 2 == 0 {
            left.insert_hash(state);
        } else {
            right.insert_hash(state);
        }
        both.insert_hash(state);
    }
    assert_eq!(left.bitor(&right), both);
}

#[test]
fn test_intersection_is_commutative_and_idempotent() {
    let a = random_counter::<8, 6>(1, 300);
    let b = random_counter::<8, 6>(2, 40);
    let empty = HyperLogLog::<8, 6>::new().unwrap();

    assert_eq!(a.clone().bitand(&b), b.clone().bitand(&a));
    assert_eq!(a.clone().bitand(&empty), empty);
    assert_eq!(empty.clone().bitand(&a), empty);
    assert_eq!(a.clone().bitand(&a), a);

    let mut assigned = a.clone();
    assigned.bitand_assign(&b);
    assert_eq!(assigned, a.clone().bitand(&b));
    let merged = assigned.get_registers();
    let (left, right) = (a.get_registers(), b.get_registers());
    for index in 0..merged.len() {
        assert_eq!(merged[index], left[index].min(right[index]));
    }
    assert_eq!(assigned.get_number_of_zero_registers(), count_zeros(&merged));
    assert!(count_zeros(&merged) > 0);
}

#[test]
fn test_may_contain() {
    let mut counter = HyperLogLog::<6, 6>::new().unwrap();
    assert!(!counter.may_contain_hash(0x1234_5678));
    counter.insert_hash(0x1234_5678);
    assert!(counter.may_contain_hash(0x1234_5678));
    // Same register, smaller rank: a false positive.
    assert!(counter.may_contain_hash(0x1334_5678));
    // Same register, larger rank.
    assert!(!counter.may_contain_hash(0x1004_5678));
    // Another register.
    assert!(!counter.may_contain_hash(0x2234_5678));
}

#[test]
fn test_estimate_of_few_elements() {
    let mut hll = HyperLogLog::<10, 6>::new().unwrap();
    hll.insert("Hello");
    hll.insert("World");
    assert!(estimate(&hll) >= 2.0);
    assert!(estimate(&hll) < 2.1);

    let mut hll = HyperLogLog::<8, 6>::new().unwrap();
    hll.insert(1u8);
    let mut hll2 = HyperLogLog::<8, 6>::new().unwrap();
    hll2.insert(2u8);
    hll.bitor_assign(&hll2);
    assert!(estimate(&hll) > 2.0 - 0.1);
    assert!(estimate(&hll) < 2.0 + 0.1);

    let mut hll = HyperLogLog::<8, 6>::new().unwrap();
    hll.insert(1u8);
    let mut hll2 = HyperLogLog::<8, 6>::new().unwrap();
    hll2.insert(1u8);
    hll.bitor_assign(&hll2);
    assert!(estimate(&hll) > 1.0 - 0.1);
    assert!(estimate(&hll) < 1.0 + 0.1);

    let mut hll3 = HyperLogLog::<16, 6>::new().unwrap();
    hll3.insert(3u8);
    hll3.insert(4u8);
    let mut hll4 = HyperLogLog::<16, 6>::new().unwrap();
    hll4.insert(5u8);
    hll4.insert(6u8);
    hll3.bitor_assign(&hll4);
    assert!(estimate(&hll3) > 4.0 - 0.1);
    assert!(estimate(&hll3) < 4.0 + 0.1);
}

#[test]
fn test_estimate_of_intersections() {
    let mut hll = HyperLogLog::<8, 6>::new().unwrap();
    hll.insert(1u8);
    let mut hll2 = HyperLogLog::<8, 6>::new().unwrap();
    hll2.insert(2u8);
    hll.bitand_assign(&hll2);
    assert!(estimate(&hll) < 0.1);

    let mut hll = HyperLogLog::<8, 6>::new().unwrap();
    hll.insert(1u8);
    let mut hll2 = HyperLogLog::<8, 6>::new().unwrap();
    hll2.insert(1u8);
    hll.bitand_assign(&hll2);
    assert!(estimate(&hll) > 1.0 - 0.1);
    assert!(estimate(&hll) < 1.0 + 0.1);

    let mut hll3 = HyperLogLog::<16, 6>::new().unwrap();
    hll3.insert(3u8);
    hll3.insert(5u8);
    hll3.insert(6u8);
    let mut hll4 = HyperLogLog::<16, 6>::new().unwrap();
    hll4.insert(5u8);
    hll4.insert(6u8);
    hll3.bitand_assign(&hll4);
    assert!(estimate(&hll3) > 2.0 - 0.1);
    assert!(estimate(&hll3) < 2.0 + 0.1);

    let mut hll1 = HyperLogLog::<14, 5>::new().unwrap();
    hll1.insert(&1);
    hll1.insert(&2);
    let intersection = hll1.clone().bitand(&HyperLogLog::<14, 5>::new().unwrap());
    assert_eq!(HyperLogLog::<14, 5>::new().unwrap(), intersection);
    let union = hll1.clone().bitor(&HyperLogLog::<14, 5>::new().unwrap());
    assert_eq!(union, hll1);
}

fn mean_error_rate<const P: usize, const B: usize>() -> f64 {
    let number_of_elements = 100_000;
    let number_of_iterations = 10;
    let mut total_error_rate = 0.0_f64;
    let mut random_state = splitmix64(534543539_u64);
    for _ in 0..number_of_iterations {
        let mut hll = HyperLogLog::<P, B>::new().unwrap();
        assert!(hll.is_empty());
        let mut exact_set = HashSet::new();
        for _ in 0..number_of_elements {
            random_state = splitmix64(xorshift64(random_state));
            hll.insert(&random_state);
            exact_set.insert(random_state);
        }
        assert!(hll.may_contain(&random_state));
        assert!(!hll.is_empty());
        let registers = hll.get_registers();
        assert_eq!(hll.get_number_of_zero_registers(), count_zeros(&registers));
        let exact = exact_set.len() as f64;
        total_error_rate += (estimate(&hll) as f64 - exact).abs() / exact;
    }
    total_error_rate / number_of_iterations as f64
}

fn error_rate(precision: usize) -> f64 {
    1.04 / ((1u64 << precision) as f64).sqrt()
}

#[test]
fn test_statistical_accuracy_at_precision_10() {
    assert!(mean_error_rate::<10, 6>() <= error_rate(10));
    assert!(mean_error_rate::<10, 5>() <= error_rate(10));
}

#[test]
fn test_statistical_accuracy_at_precision_4() {
    assert!(mean_error_rate::<4, 6>() <= error_rate(4));
    assert!(mean_error_rate::<4, 5>() <= error_rate(4));
}

#[test]
fn test_statistical_accuracy_at_precision_8() {
    assert!(mean_error_rate::<8, 6>() <= error_rate(8));
    assert!(mean_error_rate::<8, 5>() <= error_rate(8));
}

#[test]
fn test_statistical_accuracy_at_precision_12() {
    assert!(mean_error_rate::<12, 6>() <= error_rate(12));
    assert!(mean_error_rate::<12, 5>() <= error_rate(12));
}

#[test]
fn test_statistical_accuracy_at_precision_16() {
    assert!(mean_error_rate::<16, 6>() <= error_rate(16));
    assert!(mean_error_rate::<16, 5>() <= error_rate(16));
}

#[test]
fn test_equality_looks_at_the_registers_only() {
    // The same registers, reached by insertions and handed over at once.
    let mut inserted = HyperLogLog::<4, 6>::new().unwrap();
    inserted.insert_hash(0x0800_0000);
    inserted.insert_hash(0x0100_0000);
    inserted.insert_hash(0xF000_0000);
    inserted.insert_hash(0x7000_0001);
    let mut registers = vec![0u32; 16];
    registers[0] = 4;
    registers[7] = 28;
    registers[15] = 29;
    let handed_over = HyperLogLog::<4, 6>::from_registers(&registers).unwrap();
    assert_eq!(inserted, handed_over);
    assert_eq!(inserted.clone(), handed_over);

    // An intersection that empties a counter gives the empty counter.
    let mut left = HyperLogLog::<4, 6>::new().unwrap();
    left.insert_hash(0x1000_0000);
    let mut right = HyperLogLog::<4, 6>::new().unwrap();
    right.insert_hash(0x2000_0000);
    assert_ne!(left, right);
    left.bitand_assign(&right);
    assert_eq!(left, HyperLogLog::<4, 6>::new().unwrap());

    registers[15] = 28;
    assert_ne!(inserted, HyperLogLog::<4, 6>::from_registers(&registers).unwrap());
}
