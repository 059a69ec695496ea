use rand::Rng;
use rust_aads::segtree::SegmentTree;

/// Combination function for adding i32s
fn add_i32s(a: i32, b: i32) -> i32 {
    return a + b;
}

/// Naive iterative implementation of computing function on segment
fn compute_function_on_segment<T: Copy>(
    v: &Vec<T>,
    func: fn(T, T) -> T,
    l_idx: usize,
    r_idx: usize,
) -> T {
    let mut result: T = v[l_idx];
    for i in l_idx + 1..r_idx {
        result = func(result, v[i]);
    }
    return result;
}

#[test]
/// Check sum of all pairs of `[l..r]` indices in `[1..=10]` array
fn basic_get_add_test() {
    let v: Vec<i32> = vec![1, 2, 3, 4, 5, 6, 7, 8, 9, 10];
    let n = v.len();
    let segtree: SegmentTree<i32> = SegmentTree::new(&v, 0, add_i32s);

    for l_idx in 0..n {
        for r_idx in l_idx + 1..=n {
            let sum_correct: i32 = compute_function_on_segment(&v, add_i32s, l_idx, r_idx);
            let sum_computed_by_segtree: i32 = segtree.get(l_idx, r_idx);
            assert_eq!(sum_computed_by_segtree, sum_correct);
        }
    }
}

#[test]
/// Check sum of all pairs of `[l..r]` indices in random 1000-element array
fn random_1000_i32s_get_add_test() {
    let mut rng = rand::thread_rng();

    let n: usize = 1000;
    let v: Vec<i32> = (0..n).map(|_| rng.gen_range(-1000..1000)).collect();
    let segtree: SegmentTree<i32> = SegmentTree::new(&v, 0, add_i32s);

    for l_idx in 0..n {
        for r_idx in l_idx + 1..=n {
            let sum_correct: i32 = compute_function_on_segment(&v, add_i32s, l_idx, r_idx);
            let sum_computed_by_segtree: i32 = segtree.get(l_idx, r_idx);
            assert_eq!(sum_computed_by_segtree, sum_correct);
        }
    }
}

#[test]
/// Change every element in 100-element random array and check sum of all pairs of `[l..r]` indices
fn random_100_i32s_get_set_add_test() {
    let mut rng = rand::thread_rng();
    let n: usize = 100;
    // Generate n random elements in range -10..10
    let mut v: Vec<i32> = (0..n).map(|_| rng.gen_range(-10..10)).collect();
    let mut segtree: SegmentTree<i32> = SegmentTree::new(&v, 0, add_i32s);

    for idx_to_change in 0..n {
        let new_val = rng.gen_range(-10..10);
        v[idx_to_change] = new_val;
        segtree.set(idx_to_change, new_val);

        for l_idx in 0..n {
            for r_idx in l_idx + 1..=n {
                let sum_correct: i32 = compute_function_on_segment(&v, add_i32s, l_idx, r_idx);
                let sum_computed_by_segtree: i32 = segtree.get(l_idx, r_idx);
                assert_eq!(sum_computed_by_segtree, sum_correct);
            }
        }
    }
}

#[test]
/// Sums over `1..=10`, before and after the element at index 4 becomes 100
fn sums_before_and_after_an_update() {
    let v: Vec<i32> = vec![1, 2, 3, 4, 5, 6, 7, 8, 9, 10];
    let mut segtree: SegmentTree<i32> = SegmentTree::new(&v, 0, add_i32s);
    assert_eq!(segtree.get(0, 10), 55);
    assert_eq!(segtree.get(2, 5), 12);

    segtree.set(4, 100);
    assert_eq!(segtree.get(2, 5), 107);
    assert_eq!(segtree.get(0, 10), 150);
}

#[test]
/// A range that does not hold the updated index keeps its answer
fn update_leaves_other_ranges_alone() {
    let v: Vec<i32> = vec![4, -2, 9, 7, 1, 3];
    let mut segtree: SegmentTree<i32> = SegmentTree::new(&v, 0, add_i32s);
    segtree.set(3, 50);
    assert_eq!(segtree.get(0, 3), 11);
    assert_eq!(segtree.get(4, 6), 4);
    assert_eq!(segtree.get(3, 4), 50);
    assert_eq!(segtree.get(2, 5), 60);
    assert_eq!(segtree.get(0, 6), 65);
}

/// Composition of the maps `x -> a * x + b` modulo 1_000_003, first `p`, then `q`
fn compose(p: (u64, u64), q: (u64, u64)) -> (u64, u64) {
    let m = 1_000_003;
    ((p.0 * q.0) % m, (q.0 * p.1 + q.1) % m)
}

#[test]
/// An associative combination that does not commute is folded from left to right
fn keeps_the_order_of_the_operands() {
    let v: Vec<(u64, u64)> = vec![(2, 3), (5, 7), (11, 13), (17, 19), (23, 29), (31, 37), (41, 43)];
    let n = v.len();
    let mut segtree: SegmentTree<(u64, u64)> = SegmentTree::new(&v, (1, 0), compose);
    assert_eq!(segtree.get(0, 2), (10, 22));
    assert_eq!(segtree.get(1, 3), (55, 90));
    assert_ne!(compose(v[1], v[0]), compose(v[0], v[1]));
    for l_idx in 0..n {
        for r_idx in l_idx + 1..=n {
            let correct = compute_function_on_segment(&v, compose, l_idx, r_idx);
            assert_eq!(segtree.get(l_idx, r_idx), correct);
        }
    }
    segtree.set(2, (3, 1));
    assert_eq!(segtree.get(1, 4), (255, 393));
}

/// The smaller of two numbers; it is never called on `u32::MAX`
fn smaller(a: u32, b: u32) -> u32 {
    assert!(a != u32::MAX && b != u32::MAX);
    if a < b {
        a
    } else {
        b
    }
}

#[test]
/// The combination of two values: the identity on either side, or on both, is left out and
/// the combination function is not called on it
fn combine_leaves_out_the_identity() {
    let id = u32::MAX;
    let v: Vec<u32> = vec![4, 6];
    let segtree: SegmentTree<u32> = SegmentTree::new(&v, id, smaller);
    assert_eq!(segtree.__combine(id, 7), 7);
    assert_eq!(segtree.__combine(7, id), 7);
    assert_eq!(segtree.__combine(id, id), id);
    assert_eq!(segtree.__combine(7, 9), 7);
    assert_eq!(segtree.__combine(9, 7), 7);
}

#[test]
/// Values equal to the identity are left out of the combination, on either side
fn identity_is_neutral() {
    let id = u32::MAX;
    let v: Vec<u32> = vec![id, 8, id, id, 3, 9, id];
    let segtree: SegmentTree<u32> = SegmentTree::new(&v, id, smaller);
    assert_eq!(segtree.get(0, 1), id);
    assert_eq!(segtree.get(2, 4), id);
    assert_eq!(segtree.get(0, 2), 8);
    assert_eq!(segtree.get(1, 3), 8);
    assert_eq!(segtree.get(0, 4), 8);
    assert_eq!(segtree.get(3, 5), 3);
    assert_eq!(segtree.get(4, 7), 3);
    assert_eq!(segtree.get(5, 7), 9);
    assert_eq!(segtree.get(0, 7), 3);
}

/// Sum of two numbers and one more: associative, and sensitive to how many values it is given
fn add_and_one(a: i32, b: i32) -> i32 {
    a + b + 1
}

#[test]
/// A value equal to the identity counts as absent, also where the combination
/// would have made something of it
fn value_equal_to_identity_counts_as_absent() {
    let v: Vec<i32> = vec![0, 5, 0, 2];
    let segtree: SegmentTree<i32> = SegmentTree::new(&v, 0, add_and_one);
    assert_eq!(add_and_one(add_and_one(add_and_one(0, 5), 0), 2), 10);
    assert_eq!(segtree.get(0, 4), 8);
    assert_eq!(segtree.get(0, 2), 5);
    assert_eq!(segtree.get(1, 3), 5);
    assert_eq!(segtree.get(2, 3), 0);
    assert_eq!(segtree.get(2, 4), 2);
    assert_eq!(segtree.get(1, 4), 8);
}

#[test]
/// The greatest index that `set` takes is the last of the sequence; the length of the
/// sequence is no index
fn set_at_the_last_index() {
    let v: Vec<i32> = vec![1, 2, 3, 4, 5];
    let n = v.len();
    let mut segtree: SegmentTree<i32> = SegmentTree::new(&v, 0, add_i32s);
    segtree.set(n - 1, 50);
    assert_eq!(segtree.get(n - 1, n), 50);
    assert_eq!(segtree.get(0, n), 60);
    assert_eq!(segtree.get(0, n - 1), 10);
}

#[test]
/// A tree built from what the one-element queries of another return answers alike
fn rebuilt_tree_answers_alike() {
    let v: Vec<i32> = vec![5, 0, -3, 12, 0, 7, 7, -1, 4];
    let n = v.len();
    let mut segtree: SegmentTree<i32> = SegmentTree::new(&v, 0, add_i32s);
    segtree.set(1, 6);
    segtree.set(8, -9);

    let read_back: Vec<i32> = (0..n).map(|i| segtree.get(i, i + 1)).collect();
    assert_eq!(read_back, vec![5, 6, -3, 12, 0, 7, 7, -1, -9]);

    let rebuilt: SegmentTree<i32> = SegmentTree::new(&read_back, 0, add_i32s);
    for l_idx in 0..n {
        for r_idx in l_idx + 1..=n {
            assert_eq!(rebuilt.get(l_idx, r_idx), segtree.get(l_idx, r_idx));
        }
    }
}

#[test]
/// Trees over no value and over one value
fn smallest_trees() {
    let none: Vec<i32> = vec![];
    let _empty: SegmentTree<i32> = SegmentTree::new(&none, 0, add_i32s);

    let one: Vec<i32> = vec![42];
    let mut single: SegmentTree<i32> = SegmentTree::new(&one, 0, add_i32s);
    assert_eq!(single.get(0, 1), 42);
    single.set(0, -7);
    assert_eq!(single.get(0, 1), -7);
}

#[test]
/// Lengths around the powers of two, with updates at both ends
fn lengths_around_powers_of_two() {
    for n in [2usize, 3, 4, 5, 7, 8, 9, 15, 16, 17, 31, 33] {
        let mut v: Vec<i32> = (0..n as i32).map(|k| 3 * k - 7).collect();
        let mut segtree: SegmentTree<i32> = SegmentTree::new(&v, 0, add_i32s);
        segtree.set(0, 1000);
        v[0] = 1000;
        segtree.set(n - 1, -1000);
        v[n - 1] = -1000;
        for l_idx in 0..n {
            for r_idx in l_idx + 1..=n {
                let correct = compute_function_on_segment(&v, add_i32s, l_idx, r_idx);
                assert_eq!(segtree.get(l_idx, r_idx), correct);
            }
        }
    }
}

#[test]
/// A closure that captures its modulus serves as the combination
fn closure_as_combination() {
    let modulus = 7u32;
    let v: Vec<u32> = vec![3, 4, 5, 6, 2];
    let segtree = SegmentTree::new(&v, 0, move |a: u32, b: u32| (a + b) % modulus);
    assert_eq!(segtree.get(0, 2), 0);
    assert_eq!(segtree.get(0, 5), 6);
    assert_eq!(segtree.get(2, 4), 4);
}
