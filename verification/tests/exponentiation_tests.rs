use rand::Rng;
use rust_aads::algebra::binary_exponentiation;
use std::ops::Mul;

/// Iterative exponentiation, multiply `result` by `element` `power` times
fn iterative_exponentiation<T: Copy + Mul<Output = T>>(element: T, power: u64) -> T {
    assert!(power > 0);

    let mut result = element;
    for _ in 1..power {
        result = result * element;
    }

    return result;
}

#[test]
/// Precomputed test
fn basic_test() {
    let correct: i32 = 9_765_625;
    let testing = binary_exponentiation(25, 5);
    assert_eq!(correct, testing);
}

#[test]
/// Some small numbers to not overflow `u64`
fn small_random_numbers() {
    let mut rng = rand::thread_rng();
    let element: u64 = rng.gen_range(1..=15);
    let power: u64 = rng.gen_range(1..=15);

    let correct = iterative_exponentiation(element, power);
    let testing = binary_exponentiation(element, power);
    assert_eq!(correct, testing);
}

#[test]
/// The first powers, one by one
fn first_powers() {
    assert_eq!(binary_exponentiation(7u64, 1), 7);
    assert_eq!(binary_exponentiation(7u64, 2), 49);
    assert_eq!(binary_exponentiation(7u64, 3), 343);
    assert_eq!(binary_exponentiation(7u64, 4), 2401);
    assert_eq!(binary_exponentiation(-3i64, 5), -243);
    assert_eq!(binary_exponentiation(-3i64, 6), 729);
    assert_eq!(binary_exponentiation(2u64, 63), 1u64 << 63);
    assert_eq!(binary_exponentiation(1i8, 1_000_000_007), 1);
}

#[test]
/// Every power of every small base agrees with repeated multiplication
fn all_small_powers() {
    for element in 1u64..=15 {
        for power in 1u64..=15 {
            let correct = iterative_exponentiation(element, power);
            assert_eq!(binary_exponentiation(element, power), correct);
        }
    }
}
