use rand::Rng;
use rust_aads::sortings::{bubble_sort, counting_sort, insertion_sort, selection_sort};

/// Checks if v is sorted
fn is_sorted<T: Copy + Ord>(v: &Vec<T>) -> bool {
    let n = v.len();
    for i in 1..n {
        if v[i - 1] > v[i] {
            return false;
        }
    }
    return true;
}

/// Basic 10 elements test, compares sorting_func result with correct result
///
/// # Arguments:
/// * sorting_func - sorting function (accepts Vec of i32s)
fn basic_10_elements_test(sorting_func: fn(&mut Vec<i32>)) {
    let mut v: Vec<i32> = vec![6, 4, 7, 2, 3, 9, 1, 8, 10, 5];
    let correct: Vec<i32> = vec![1, 2, 3, 4, 5, 6, 7, 8, 9, 10];

    (sorting_func)(&mut v);
    assert_eq!(correct, v);
}

/// Randomly generated 1000 int32s test, checks if sorting_func result is sorted
///
/// # Arguments:
/// * sorting_func - sorting function (accepts Vec of i32s)
fn random_1000_i32s_test(sorting_func: fn(&mut Vec<i32>)) {
    let mut rng = rand::thread_rng();
    let n: usize = 1000;
    // Generate n random elements in range -1000..1000
    let mut v: Vec<i32> = (0..n).map(|_| rng.gen_range(-1000..1000)).collect();

    // Call sorting function with v
    (sorting_func)(&mut v);
    // Check if v is sorted
    assert!(is_sorted(&v));
}

#[test]
/// Nested for loop iterating over testing functions and sorting functions
fn test_all_sorting_functions() {
    let sorting_functions = [bubble_sort, selection_sort, insertion_sort, counting_sort];
    let testing_functions = [basic_10_elements_test, random_1000_i32s_test];
    for sorting_function in sorting_functions.iter() {
        for testing_function in testing_functions.iter() {
            (testing_function)(*sorting_function);
        }
    }
}

/// The four sorts, each with its name
fn all_sorts() -> [(&'static str, fn(&mut Vec<i32>)); 4] {
    [
        ("bubble", bubble_sort),
        ("selection", selection_sort),
        ("insertion", insertion_sort),
        ("counting", counting_sort),
    ]
}

#[test]
/// The vector without elements and the vector of one element stay as they are
fn shortest_vectors() {
    for (name, sort) in all_sorts() {
        let mut none: Vec<i32> = vec![];
        sort(&mut none);
        assert_eq!(none, Vec::<i32>::new(), "{}", name);

        let mut one: Vec<i32> = vec![-3];
        sort(&mut one);
        assert_eq!(one, vec![-3], "{}", name);
    }
}

#[test]
/// Equal elements are kept, each as often as it occurred
fn keeps_repeated_elements() {
    for (name, sort) in all_sorts() {
        let mut v: Vec<i32> = vec![3, -1, 3, 0, -1, 3, 2, 0, -5, 2];
        sort(&mut v);
        assert_eq!(v, vec![-5, -1, -1, 0, 0, 2, 2, 3, 3, 3], "{}", name);
    }
}

#[test]
/// Sorted and reversed inputs
fn sorted_and_reversed_inputs() {
    for (name, sort) in all_sorts() {
        let mut up: Vec<i32> = vec![-4, -2, 0, 1, 5, 8];
        sort(&mut up);
        assert_eq!(up, vec![-4, -2, 0, 1, 5, 8], "{}", name);

        let mut down: Vec<i32> = vec![8, 5, 1, 0, -2, -4];
        sort(&mut down);
        assert_eq!(down, vec![-4, -2, 0, 1, 5, 8], "{}", name);

        let mut two: Vec<i32> = vec![2, 1];
        sort(&mut two);
        assert_eq!(two, vec![1, 2], "{}", name);
    }
}

#[test]
/// The result holds what the input held: it agrees with the sort of the standard library
fn random_inputs_agree_with_std() {
    let mut rng = rand::thread_rng();
    for (name, sort) in all_sorts() {
        for n in [2usize, 3, 10, 57, 200] {
            let v: Vec<i32> = (0..n).map(|_| rng.gen_range(-50..50)).collect();
            let mut expected = v.clone();
            expected.sort();
            let mut sorted = v.clone();
            sort(&mut sorted);
            assert_eq!(sorted, expected, "{}", name);
        }
    }
}

#[test]
/// Counting sort at the ends of the range of `i32`
fn counting_sort_near_the_bounds() {
    let mut low: Vec<i32> = vec![i32::MIN + 2, i32::MIN, i32::MIN + 1, i32::MIN];
    counting_sort(&mut low);
    assert_eq!(low, vec![i32::MIN, i32::MIN, i32::MIN + 1, i32::MIN + 2]);

    let mut high: Vec<i32> = vec![i32::MAX, i32::MAX - 3, i32::MAX, i32::MAX - 1];
    counting_sort(&mut high);
    assert_eq!(high, vec![i32::MAX - 3, i32::MAX - 1, i32::MAX, i32::MAX]);
}

#[test]
/// The generic sorts on other element types
fn generic_sorts_on_other_types() {
    let mut words: Vec<&str> = vec!["pear", "apple", "fig", "apple", "date"];
    bubble_sort(&mut words);
    assert_eq!(words, vec!["apple", "apple", "date", "fig", "pear"]);

    let mut pairs: Vec<(u8, i64)> = vec![(2, -1), (1, 5), (2, -7), (0, 0), (1, 4)];
    selection_sort(&mut pairs);
    assert_eq!(pairs, vec![(0, 0), (1, 4), (1, 5), (2, -7), (2, -1)]);

    let mut letters: Vec<char> = vec!['q', 'a', 'z', 'm', 'a'];
    insertion_sort(&mut letters);
    assert_eq!(letters, vec!['a', 'a', 'm', 'q', 'z']);
}
