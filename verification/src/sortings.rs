//! Four sorting routines: bubble, selection, insertion and counting sort.
//!
//! Each sorts a vector in place. What "sorted" means is stated once, in
//! [`sorted`]: no element exceeds one that stands after it. That the result
//! holds the elements of the input, each as often as the input did, is stated
//! over the multisets of the two sequences.

use core::cmp::Ordering;
use std::collections::HashMap;
use vstd::multiset::Multiset;
use vstd::prelude::*;
use vstd::seq_lib::{to_multiset_build, to_multiset_contains, to_multiset_len, to_multiset_update};
use vstd::std_specs::cmp::PartialOrdSpec;

verus! {

/// Whether `a` is greater than `b` in the order of `T`.
pub open spec fn exceeds<T: PartialOrd>(a: T, b: T) -> bool {
    a.partial_cmp_spec(&b) == Some(Ordering::Greater)
}

/// Whether the comparisons of `T` decide an order that a sort can rely on:
/// `>` computes [`exceeds`], of two elements at most one exceeds the other,
/// and "does not exceed" is transitive.
pub open spec fn orders<T: PartialOrd>() -> bool {
    &&& T::obeys_partial_cmp_spec()
    &&& forall|a: T, b: T| #[trigger] exceeds(a, b) ==> !exceeds(b, a)
    &&& forall|a: T, b: T, c: T|
        !#[trigger] exceeds(a, b) && !#[trigger] exceeds(b, c) ==> !exceeds(a, c)
}

/// Whether no element of `s` exceeds an element that stands after it.
pub open spec fn sorted<T: PartialOrd>(s: Seq<T>) -> bool {
    forall|i: int, j: int| #![trigger s[i], s[j]] 0 <= i < j < s.len() ==> !exceeds(s[i], s[j])
}

/// Exchanging two elements of a sequence leaves its multiset as it was.
proof fn lemma_swap_keeps_multiset<T>(s: Seq<T>, i: int, j: int)
    requires
        0 <= i < s.len(),
        0 <= j < s.len(),
    ensures
        s.update(i, s[j]).update(j, s[i]).to_multiset() == s.to_multiset(),
{
    broadcast use vstd::multiset::group_multiset_axioms;

    let t = s.update(i, s[j]);
    to_multiset_update(s, i, s[j]);
    to_multiset_update(t, j, s[i]);
    to_multiset_contains(s, s[i]);
    assert(s.contains(s[i]));
    assert(t[j] == s[j]);
    assert(t.update(j, s[i]).to_multiset() =~= s.to_multiset());
}

/// Exchanges the elements at the indices `i` and `j`.
fn swap<T: Copy>(v: &mut Vec<T>, i: usize, j: usize)
    requires
        i < old(v).len(),
        j < old(v).len(),
    ensures
        final(v)@ == old(v)@.update(i as int, old(v)@[j as int]).update(j as int, old(v)@[i as int]),
        final(v)@.to_multiset() == old(v)@.to_multiset(),
{
    proof {
        lemma_swap_keeps_multiset(v@, i as int, j as int);
    }
    let at_i = v[i];
    let at_j = v[j];
    v[i] = at_j;
    v[j] = at_i;
}

/// Sorts `v` by bubble sort, in quadratic time.
pub fn bubble_sort<T: Ord + Copy>(v: &mut Vec<T>)
    requires
        orders::<T>(),
    ensures
        sorted(final(v)@),
        final(v)@.to_multiset() == old(v)@.to_multiset(),
{
    let n: usize = v.len();
    for i in 0..n
        invariant
            v.len() == n,
            orders::<T>(),
            v@.to_multiset() == old(v)@.to_multiset(),
            forall|a: int, b: int| n - i <= a < b < n ==> !exceeds(v@[a], v@[b]),
            forall|a: int, b: int| 0 <= a < n - i <= b < n ==> !exceeds(v@[a], v@[b]),
    {
        for j in 0..n - i - 1
            invariant
                v.len() == n,
                i < n,
                orders::<T>(),
                v@.to_multiset() == old(v)@.to_multiset(),
                forall|a: int, b: int| n - i <= a < b < n ==> !exceeds(v@[a], v@[b]),
                forall|a: int, b: int| 0 <= a < n - i <= b < n ==> !exceeds(v@[a], v@[b]),
                forall|k: int| 0 <= k <= j ==> !exceeds(#[trigger] v@[k], v@[j as int]),
        {
            let ghost before = v@;
            let out_of_order = v[j] > v[j + 1];
            assert(out_of_order == exceeds(before[j as int], before[j + 1]));
            if out_of_order {
                swap(v, j, j + 1);
            }
            proof {
                assert forall|k: int| 0 <= k <= j + 1 implies !exceeds(
                    #[trigger] v@[k],
                    v@[j + 1],
                ) by {
                    if k < j {
                        assert(v@[k] == before[k]);
                        assert(!exceeds(before[k], before[j as int]));
                        if out_of_order {
                            assert(v@[j + 1] == before[j as int]);
                        } else {
                            assert(!exceeds(before[j as int], before[j + 1]));
                            assert(!exceeds(before[k], before[j + 1]));
                        }
                    } else if k == j {
                        if out_of_order {
                            assert(!exceeds(before[j + 1], before[j as int]));
                        }
                    } else {
                        assert(exceeds(v@[k], v@[k]) ==> !exceeds(v@[k], v@[k]));
                    }
                }
            }
        }
    }
}

/// Sorts `v` by selection sort, in quadratic time.
pub fn selection_sort<T: Copy + Ord>(v: &mut Vec<T>)
    requires
        orders::<T>(),
    ensures
        sorted(final(v)@),
        final(v)@.to_multiset() == old(v)@.to_multiset(),
{
    let n: usize = v.len();
    if n == 0 {
        return ;
    }
    for i in 0..n - 1
        invariant
            v.len() == n,
            n > 0,
            orders::<T>(),
            v@.to_multiset() == old(v)@.to_multiset(),
            forall|a: int, b: int| 0 <= a < b < i ==> !exceeds(v@[a], v@[b]),
            forall|a: int, b: int| 0 <= a < i <= b < n ==> !exceeds(v@[a], v@[b]),
    {
        // find the least of the elements from `i` on and put it at `i`
        let mut first_idx = i;
        for j in i + 1..n
            invariant
                v.len() == n,
                i < n - 1,
                i <= first_idx < n,
                orders::<T>(),
                forall|k: int| i <= k < j ==> !exceeds(v@[first_idx as int], #[trigger] v@[k]),
        {
            let ghost least = v@[first_idx as int];
            let smaller = v[first_idx] > v[j];
            assert(smaller == exceeds(least, v@[j as int]));
            if smaller {
                first_idx = j;
            }
            proof {
                assert forall|k: int| i <= k < j + 1 implies !exceeds(
                    v@[first_idx as int],
                    #[trigger] v@[k],
                ) by {
                    if k < j {
                        assert(!exceeds(least, v@[k]));
                        if smaller {
                            assert(!exceeds(v@[j as int], least));
                        }
                    } else if smaller {
                        assert(exceeds(v@[k], v@[k]) ==> !exceeds(v@[k], v@[k]));
                    }
                }
            }
        }
        let ghost before = v@;
        swap(v, i, first_idx);
        proof {
            assert forall|a: int, b: int| 0 <= a < i + 1 <= b < n implies !exceeds(
                v@[a],
                v@[b],
            ) by {
                // where the element now at `b` stood before the exchange
                let from = if b == first_idx {
                    i as int
                } else {
                    b
                };
                assert(v@[b] == before[from]);
                if a < i {
                    assert(!exceeds(before[a], before[from]));
                } else {
                    assert(!exceeds(before[first_idx as int], before[from]));
                }
            }
            assert forall|a: int, b: int| 0 <= a < b < i + 1 implies !exceeds(v@[a], v@[b]) by {
                if b == i {
                    assert(!exceeds(before[a], before[first_idx as int]));
                }
            }
        }
    }
}

/// Sorts `v` by insertion sort, in quadratic time.
pub fn insertion_sort<T: Copy + Ord>(v: &mut Vec<T>)
    requires
        orders::<T>(),
    ensures
        sorted(final(v)@),
        final(v)@.to_multiset() == old(v)@.to_multiset(),
{
    let n: usize = v.len();
    let mut i: usize = 1;
    while i < n
        invariant
            v.len() == n,
            1 <= i,
            orders::<T>(),
            v@.to_multiset() == old(v)@.to_multiset(),
            forall|a: int, b: int| 0 <= a < b < i && b < n ==> !exceeds(v@[a], v@[b]),
        decreases n - i,
    {
        let mut j = i;
        while j > 0 && v[j - 1] > v[j]
            invariant
                v.len() == n,
                0 <= j <= i < n,
                orders::<T>(),
                v@.to_multiset() == old(v)@.to_multiset(),
                forall|a: int, b: int|
                    0 <= a < b <= i && a != j && b != j ==> !exceeds(v@[a], v@[b]),
                forall|b: int| j < b <= i ==> !exceeds(v@[j as int], #[trigger] v@[b]),
            decreases j,
        {
            let ghost before = v@;
            assert(exceeds(before[j - 1], before[j as int]));
            swap(v, j, j - 1);
            j -= 1;
            proof {
                assert forall|b: int| j < b <= i implies !exceeds(
                    v@[j as int],
                    #[trigger] v@[b],
                ) by {
                    if b == j + 1 {
                        assert(!exceeds(before[j + 1], before[j as int]));
                    } else {
                        assert(!exceeds(before[j + 1], before[b]));
                    }
                }
                assert forall|a: int, b: int|
                    0 <= a < b <= i && a != j && b != j implies !exceeds(v@[a], v@[b]) by {
                    if a == j + 1 {
                        assert(!exceeds(before[j as int], before[b]));
                    } else if b == j + 1 {
                        assert(!exceeds(before[a], before[j as int]));
                    } else {
                        assert(!exceeds(before[a], before[b]));
                    }
                }
            }
        }
        proof {
            assert forall|a: int, b: int| 0 <= a < b < i + 1 implies !exceeds(v@[a], v@[b]) by {
                if b == j && a < j - 1 {
                    assert(!exceeds(v@[a], v@[j - 1]));
                    assert(!exceeds(v@[j - 1], v@[j as int]));
                }
            }
        }
        i += 1;
    }
}

/// How many elements of `s` are less than `x`.
spec fn below(s: Seq<i32>, x: int) -> nat
    decreases s.len(),
{
    if s.len() == 0 {
        0
    } else {
        below(s.drop_last(), x) + if s.last() < x {
            1nat
        } else {
            0nat
        }
    }
}

/// No element of a sequence is less than `x` where each of them is `x` or more.
proof fn lemma_below_none(s: Seq<i32>, x: int)
    requires
        forall|k: int| 0 <= k < s.len() ==> s[k] >= x,
    ensures
        below(s, x) == 0,
    decreases s.len(),
{
    if s.len() > 0 {
        lemma_below_none(s.drop_last(), x);
    }
}

/// The elements of a sequence that are less than `x` are no more than the
/// sequence has elements, and as many where each of them is less than `x`.
proof fn lemma_below_bounds(s: Seq<i32>, x: int)
    ensures
        below(s, x) <= s.len(),
        (forall|k: int| 0 <= k < s.len() ==> s[k] < x) ==> below(s, x) == s.len(),
    decreases s.len(),
{
    if s.len() > 0 {
        lemma_below_bounds(s.drop_last(), x);
    }
}

/// The elements less than `x + 1` are those less than `x` and those equal to `x`.
proof fn lemma_below_step(s: Seq<i32>, x: i32)
    ensures
        below(s, x + 1) == below(s, x as int) + s.to_multiset().count(x),
    decreases s.len(),
{
    broadcast use vstd::multiset::group_multiset_axioms;

    if s.len() == 0 {
        assert(s.to_multiset().len() == 0) by {
            to_multiset_len(s);
        }
    } else {
        lemma_below_step(s.drop_last(), x);
        to_multiset_build(s.drop_last(), s.last());
        assert(s.drop_last().push(s.last()) =~= s);
    }
}

/// Sorts `v` by counting sort: it counts how often each value occurs and
/// writes the values from the least to the greatest, each as often as it
/// occurred. The time is linear in the length of `v` and in the distance of
/// its least and greatest element.
pub fn counting_sort(v: &mut Vec<i32>)
    ensures
        sorted(final(v)@),
        final(v)@.to_multiset() == old(v)@.to_multiset(),
{
    broadcast use {vstd::std_specs::hash::group_hash_axioms, vstd::multiset::group_multiset_axioms};

    let n = v.len();
    if n == 0 {
        return ;
    }
    // how often each element occurs
    let mut counter: HashMap<i32, u64> = HashMap::new();
    let mut min_element = v[0];
    let mut max_element = v[0];
    let ghost orig = v@;
    assert(orig.subrange(0, 0).to_multiset() =~= Multiset::empty()) by {
        to_multiset_len(orig.subrange(0, 0));
    }
    for idx in 0..n
        invariant
            v@ == orig,
            0 < n == orig.len(),
            min_element <= orig[0] <= max_element,
            forall|k: int| 0 <= k < idx ==> min_element <= #[trigger] orig[k] <= max_element,
            forall|x: i32|
                counter@.contains_key(x) <==> orig.subrange(0, idx as int).to_multiset().count(x)
                    > 0,
            forall|x: i32|
                counter@.contains_key(x) ==> counter@[x] == orig.subrange(
                    0,
                    idx as int,
                ).to_multiset().count(x),
    {
        let el = v[idx];
        if el < min_element {
            min_element = el;
        }
        if max_element < el {
            max_element = el;
        }
        proof {
            let seen = orig.subrange(0, idx as int);
            to_multiset_len(seen);
            to_multiset_build(seen, el);
            assert(seen.push(el) =~= orig.subrange(0, idx + 1));
        }
        let new_cnt: u64;
        match counter.get(&el) {
            Some(old_cnt) => new_cnt = *old_cnt + 1,
            None => new_cnt = 1,
        }
        counter.insert(el, new_cnt);
    }
    assert(orig.subrange(0, n as int) =~= orig);

    // `v_idx` is where the next element is written
    let mut v_idx: usize = 0;
    let mut val: i64 = min_element as i64;
    proof {
        lemma_below_bounds(orig, val as int);
        assert(below(orig, val as int) == 0) by {
            lemma_below_none(orig, val as int);
        }
        assert(v@.subrange(0, 0).to_multiset() =~= Multiset::empty()) by {
            to_multiset_len(v@.subrange(0, 0));
        }
        assert forall|x: i32| x < val implies orig.to_multiset().count(x) == 0 by {
            to_multiset_contains(orig, x);
            if orig.contains(x) {
                let k = choose|k: int| 0 <= k < orig.len() && orig[k] == x;
                assert(min_element <= orig[k]);
            }
        }
    }
    while val <= max_element as i64
        invariant
            v.len() == n,
            n == orig.len(),
            min_element <= val <= max_element + 1,
            forall|k: int| 0 <= k < n ==> min_element <= #[trigger] orig[k] <= max_element,
            forall|x: i32| counter@.contains_key(x) <==> orig.to_multiset().count(x) > 0,
            forall|x: i32| counter@.contains_key(x) ==> counter@[x] == orig.to_multiset().count(x),
            v_idx == below(orig, val as int),
            v_idx <= n,
            forall|k: int| 0 <= k < v_idx ==> #[trigger] v@[k] < val,
            forall|a: int, b: int| 0 <= a < b < v_idx ==> v@[a] <= v@[b],
            forall|x: i32|
                v@.subrange(0, v_idx as int).to_multiset().count(x) == if x < val {
                    orig.to_multiset().count(x)
                } else {
                    0
                },
        decreases max_element + 1 - val,
    {
        let value: i32 = val as i32;
        proof {
            lemma_below_step(orig, value);
            lemma_below_bounds(orig, val + 1);
        }
        match counter.get(&value) {
            Some(cnt) => {
                let ghost start = v_idx;
                for written in 0..*cnt
                    invariant
                        v.len() == n,
                        n == orig.len(),
                        value == val,
                        *cnt == orig.to_multiset().count(value),
                        start == below(orig, val as int),
                        start + *cnt <= n,
                        v_idx == start + written,
                        written <= *cnt,
                        forall|k: int| 0 <= k < v_idx ==> #[trigger] v@[k] <= val,
                        forall|a: int, b: int| 0 <= a < b < v_idx ==> v@[a] <= v@[b],
                        forall|x: i32|
                            v@.subrange(0, v_idx as int).to_multiset().count(x) == if x < val {
                                orig.to_multiset().count(x)
                            } else if x == val {
                                written as nat
                            } else {
                                0
                            },
                {
                    let ghost out = v@.subrange(0, v_idx as int);
                    v[v_idx] = value;
                    proof {
                        to_multiset_build(out, value);
                        assert(out.push(value) =~= v@.subrange(0, v_idx + 1));
                    }
                    v_idx += 1;
                }
            },
            None => {},
        }
        val += 1;
    }
    proof {
        lemma_below_bounds(orig, val as int);
        assert(v@.subrange(0, n as int) =~= v@);
        assert forall|x: i32| v@.to_multiset().count(x) == orig.to_multiset().count(x) by {
            if x >= val {
                if orig.to_multiset().count(x) > 0 {
                    to_multiset_contains(orig, x);
                    let k = choose|k: int| 0 <= k < orig.len() && orig[k] == x;
                    assert(orig[k] <= max_element);
                }
            }
        }
        assert(v@.to_multiset() =~= orig.to_multiset());
    }
}

} // verus!
