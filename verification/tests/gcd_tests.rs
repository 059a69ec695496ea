use rand::Rng;
use rust_aads::algebra::extended_euclidean_gcd;

/// Compute GCD of two common iteratively (loop over all numbers 1..=a)
fn iterative_gcd(a: i32, b: i32) -> i32 {
    let mut res = 1;
    for i in 1..=a {
        if a % i == 0 && b % i == 0 {
            res = i;
        }
    }

    return res;
}

#[test]
/// Coprime numbers, 100 and 17. x and y can be 8 and -47.
fn basic_coprime_test() {
    let (a, b) = (100, 17);
    let (mut x, mut y) = (1, 0);
    let g = extended_euclidean_gcd(a, b, &mut x, &mut y);
    assert_eq!(g, 1);
    assert_eq!(a * x + b * y, g);
}

#[test]
/// Not coprime numbers, 392 = 56 * 7 and 560 = 56 * 10. x and y can be 3 and -2
fn basic_not_coprime_test() {
    let (a, b) = (392, 560);
    let (mut x, mut y) = (1, 0);
    let g = extended_euclidean_gcd(a, b, &mut x, &mut y);
    assert_eq!(g, 56);
    assert_eq!(a * x + b * y, g);
}

#[test]
/// Pair of two small numbers
fn random_small_numbers_test() {
    let mut rng = rand::thread_rng();
    let (a, b) = (rng.gen_range(1..=100), rng.gen_range(1..100));
    let (mut x, mut y) = (1, 0);
    let g_test = extended_euclidean_gcd(a, b, &mut x, &mut y);
    let g_correct = iterative_gcd(a, b);
    assert_eq!(g_test, g_correct);
    assert_eq!(a * x + b * y, g_test);
}

#[test]
/// Pair of two large numbers
fn random_large_numbers_test() {
    let mut rng = rand::thread_rng();
    let (a, b) = (rng.gen_range(1000..=10000), rng.gen_range(1000..=10000));
    let (mut x, mut y) = (1, 0);
    let g_test = extended_euclidean_gcd(a, b, &mut x, &mut y);
    let g_correct = iterative_gcd(a, b);
    assert_eq!(g_test, g_correct);
    assert_eq!(a * x + b * y, g_test);
}

#[test]
/// Generate 1000 random pairs
fn random_1000_tests() {
    let mut rng = rand::thread_rng();
    for _ in 0..1000 {
        let (a, b) = (rng.gen_range(1..=10000), rng.gen_range(1..=10000));
        let (mut x, mut y) = (1, 0);
        let g_test = extended_euclidean_gcd(a, b, &mut x, &mut y);
        let g_correct = iterative_gcd(a, b);
        assert_eq!(g_test, g_correct);
        assert_eq!(a * x + b * y, g_test);
    }
}

#[test]
/// Where one number divides the other, it is the greatest common divisor
fn one_divides_the_other() {
    let (mut x, mut y) = (0, 0);
    assert_eq!(extended_euclidean_gcd(70, 140, &mut x, &mut y), 70);
    assert_eq!(70 * x + 140 * y, 70);
    assert_eq!(extended_euclidean_gcd(140, 70, &mut x, &mut y), 70);
    assert_eq!(140 * x + 70 * y, 70);
    assert_eq!(extended_euclidean_gcd(1, 9999, &mut x, &mut y), 1);
    assert_eq!(x + 9999 * y, 1);
    assert_eq!(iterative_gcd(70, 140), 70);
}

#[test]
/// The coefficients that the algorithm leaves, for a few pairs
fn coefficients() {
    let (mut x, mut y) = (0, 0);
    assert_eq!(extended_euclidean_gcd(100, 17, &mut x, &mut y), 1);
    assert_eq!((x, y), (8, -47));

    assert_eq!(extended_euclidean_gcd(392, 560, &mut x, &mut y), 56);
    assert_eq!((x, y), (3, -2));

    assert_eq!(extended_euclidean_gcd(1, 1, &mut x, &mut y), 1);
    assert_eq!((x, y), (0, 1));

    assert_eq!(extended_euclidean_gcd(12, 4, &mut x, &mut y), 4);
    assert_eq!((x, y), (0, 1));

    assert_eq!(extended_euclidean_gcd(4, 12, &mut x, &mut y), 4);
    assert_eq!((x, y), (1, 0));
}

#[test]
/// The coefficients do not depend on what `x` and `y` held before, and their products with
/// the greatest common divisor keep within `b` and `a`
fn coefficients_depend_on_the_numbers_alone() {
    for a in 1..=60 {
        for b in 1..=60 {
            let (mut x, mut y) = (1, 0);
            let g = extended_euclidean_gcd(a, b, &mut x, &mut y);
            let (mut x2, mut y2) = (-12345, 678);
            let g2 = extended_euclidean_gcd(a, b, &mut x2, &mut y2);
            assert_eq!((g, x, y), (g2, x2, y2));
            assert_eq!(a * x + b * y, g);
            assert!((g * x).abs() <= b && (g * y).abs() <= a);
        }
    }
    let (mut x, mut y) = (5, 5);
    assert_eq!(extended_euclidean_gcd(2, 2, &mut x, &mut y), 2);
    assert_eq!((x, y), (0, 1));
    assert_eq!(extended_euclidean_gcd(240, 46, &mut x, &mut y), 2);
    assert_eq!((x, y), (-9, 47));
}

#[test]
/// Numbers at the upper end of `i32`
fn greatest_numbers() {
    let (mut x, mut y) = (0i32, 0i32);
    let (a, b) = (i32::MAX, i32::MAX - 1);
    let g = extended_euclidean_gcd(a, b, &mut x, &mut y);
    assert_eq!(g, 1);
    assert_eq!(a as i64 * x as i64 + b as i64 * y as i64, 1);

    let g = extended_euclidean_gcd(i32::MAX, i32::MAX, &mut x, &mut y);
    assert_eq!(g, i32::MAX);
    assert_eq!((x, y), (0, 1));

    // two neighbours in the Fibonacci sequence take the most steps
    let (a, b) = (1_836_311_903, 1_134_903_170);
    let g = extended_euclidean_gcd(a, b, &mut x, &mut y);
    assert_eq!(g, 1);
    assert_eq!(a as i64 * x as i64 + b as i64 * y as i64, 1);
}
