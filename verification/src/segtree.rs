//! A segment tree over an arbitrary associative combination function.
//!
//! The tree answers range queries and point updates in logarithmic time. Its
//! contracts are stated over the sequence of values the tree stands for (its
//! view) and over the left-to-right [`fold`](crate::fold::fold) of a range of
//! that sequence.
//!
//! The combination function is an executable function value. Contracts speak
//! of it through a mathematical function `g` that [`describes`] it: whatever
//! the executable function returns on two values is what `g` gives for them,
//! and `g` is associative. Both are asked only of what can be reached from the
//! values of the tree, the folds of their ranges, so that a function serves
//! that is defined on a part of its type: a sum that must not overflow, over
//! values whose sums do not. [`lemma_total_combines`] is for the functions
//! that are defined and associative everywhere.
//!
//! A tree of maxima, and what its caller proves:
//!
//! ```text
//! fn larger(a: u64, b: u64) -> (r: u64)
//!     ensures
//!         r == if a >= b { a } else { b },
//! {
//!     if a >= b { a } else { b }
//! }
//!
//! fn greatest_of_the_first_two(v: &Vec<u64>) -> (r: u64)
//!     requires
//!         2 <= v.len() <= 1000,
//!     ensures
//!         r == if v[0] >= v[1] { v[0] } else { v[1] },
//! {
//!     broadcast use vstd::laws_eq::group_laws_eq;
//!
//!     let ghost g = |a: u64, b: u64| if a >= b { a } else { b };
//!     proof {
//!         lemma_total_combines(larger, 0u64, g, v@);
//!     }
//!     let tree = SegmentTree::new(v, 0, larger);
//!     let r = tree.get(0, 2);
//!     proof {
//!         assert(tree.combines_by(g));
//!         assert(v@.subrange(0, 2) =~= seq![v[0]].push(v[1]));
//!         lemma_fold_single(g, 0u64, v[0]);
//!         lemma_fold_push(g, 0u64, seq![v[0]], v[1]);
//!     }
//!     r
//! }
//! ```
//!
//! Two choices are worth knowing:
//!
//! * A value equal to the identity counts as absent. It is never handed to
//!   the combination function, so that function need not know the identity;
//!   in return a value of the sequence that equals the identity contributes
//!   nothing to a combination, even where the function would have made
//!   something of it.
//! * `set` takes the indices of the sequence and no other: the length of the
//!   sequence is not an index. `get` takes the ranges that are not empty and
//!   lie within the sequence. What lies outside is excluded by the
//!   preconditions, and no check is made at run time.

use crate::fold::{
    associative, fold, lemma_associative_splits, lemma_fold_single, lemma_update_inside,
    lemma_update_outside, merge, splits, splits_at,
};
use vstd::laws_eq::obeys_concrete_eq;
use vstd::prelude::*;

verus! {

/// Whether `g` says what `f` computes: on two values other than `identity`,
/// `f` returns nothing but `g(a, b)`.
pub open spec fn models<T, F: Fn(T, T) -> T>(f: F, identity: T, g: spec_fn(T, T) -> T) -> bool {
    forall|a: T, b: T, r: T|
        a != identity && b != identity && #[trigger] call_ensures(f, (a, b), r) ==> r == g(a, b)
}

/// Whether the executable function `f` may be called on the folds of the two
/// parts `s[a..b]` and `s[b..c]` of a range, where neither is the identity.
pub open spec fn accepts_at<T, F: Fn(T, T) -> T>(
    f: F,
    identity: T,
    g: spec_fn(T, T) -> T,
    s: Seq<T>,
    a: int,
    b: int,
    c: int,
) -> bool {
    let x = fold(g, identity, s.subrange(a, b));
    let y = fold(g, identity, s.subrange(b, c));
    x != identity && y != identity ==> call_requires(f, (x, y))
}

/// Whether the executable function `f` may be called on what can be reached
/// from `s`: on the folds of the two parts of every range of `s`, wherever
/// the range is parted.
pub open spec fn accepts_folds<T, F: Fn(T, T) -> T>(
    f: F,
    identity: T,
    g: spec_fn(T, T) -> T,
    s: Seq<T>,
) -> bool {
    forall|a: int, b: int, c: int|
        0 <= a <= b <= c <= s.len() ==> #[trigger] accepts_at(f, identity, g, s, a, b, c)
}

/// Whether `g` describes the combination of the values of `s` by `f`: `f`
/// computes `g`, may be called on what can be reached from `s`, and `g` is
/// associative there.
pub open spec fn describes<T, F: Fn(T, T) -> T>(
    f: F,
    identity: T,
    g: spec_fn(T, T) -> T,
    s: Seq<T>,
) -> bool {
    &&& models(f, identity, g)
    &&& splits(g, identity, s)
    &&& accepts_folds(f, identity, g, s)
}

/// Whether the values of `s` can be combined by `f`: there is a function
/// that [`describes`] the combination.
pub open spec fn combinable<T, F: Fn(T, T) -> T>(f: F, identity: T, s: Seq<T>) -> bool {
    exists|g: spec_fn(T, T) -> T| describes(f, identity, g, s)
}

/// Whether the executable function `f` may be called on every pair of values
/// other than `identity`.
pub open spec fn accepts_all<T, F: Fn(T, T) -> T>(f: F, identity: T) -> bool {
    forall|a: T, b: T| a != identity && b != identity ==> call_requires(f, (a, b))
}

/// A function that may be called on all values and computes an associative
/// function combines the values of every sequence.
pub proof fn lemma_total_combines<T, F: Fn(T, T) -> T>(
    f: F,
    identity: T,
    g: spec_fn(T, T) -> T,
    s: Seq<T>,
)
    requires
        accepts_all(f, identity),
        models(f, identity, g),
        associative(g, identity),
    ensures
        describes(f, identity, g, s),
        combinable(f, identity, s),
{
    lemma_associative_splits(g, identity, s);
    assert forall|a: int, b: int, c: int| 0 <= a <= b <= c <= s.len() implies #[trigger] accepts_at(
        f,
        identity,
        g,
        s,
        a,
        b,
        c,
    ) by {}
}

/// Whether position `j` of the backing array holds a node of the subtree
/// that is rooted at position `v` and covers `[l, r)`: the root, or a node of
/// one of the two subtrees that cover the halves of a range of more than one
/// index.
pub open spec fn is_node(j: int, v: int, l: int, r: int) -> bool
    decreases r - l,
{
    j == v || (r - l > 1 && (is_node(j, 2 * v + 1, l, (l + r) / 2) || is_node(
        j,
        2 * v + 2,
        (l + r) / 2,
        r,
    )))
}

/// Whether the node at position `v` that covers `[l, r)` is a node of the
/// subtree that is rooted at position `top` and covers `[top_l, top_r)`.
pub open spec fn covers(v: int, l: int, r: int, top: int, top_l: int, top_r: int) -> bool
    decreases top_r - top_l,
{
    (v == top && l == top_l && r == top_r) || (top_r - top_l > 1 && (covers(
        v,
        l,
        r,
        2 * top + 1,
        top_l,
        (top_l + top_r) / 2,
    ) || covers(v, l, r, 2 * top + 2, (top_l + top_r) / 2, top_r)))
}

/// Whether position `j` of the backing array lies on the path from position
/// `v`, which covers `[l, r)`, down to the leaf of the index `i`.
pub open spec fn on_path(j: int, v: int, l: int, r: int, i: int) -> bool
    decreases r - l,
{
    j == v || (r - l > 1 && if i < (l + r) / 2 {
        on_path(j, 2 * v + 1, l, (l + r) / 2, i)
    } else {
        on_path(j, 2 * v + 2, (l + r) / 2, r, i)
    })
}

/// The path to a leaf runs over nodes.
pub proof fn lemma_path_of_nodes(j: int, v: int, l: int, r: int, i: int)
    requires
        on_path(j, v, l, r, i),
    ensures
        is_node(j, v, l, r),
    decreases r - l,
{
    if j != v {
        if i < (l + r) / 2 {
            lemma_path_of_nodes(j, 2 * v + 1, l, (l + r) / 2, i);
        } else {
            lemma_path_of_nodes(j, 2 * v + 2, (l + r) / 2, r, i);
        }
    }
}

/// Whether position `j` of the backing array lies in the subtree rooted at
/// position `v`, the children of a position `k` being `2k + 1` and `2k + 2`.
spec fn in_subtree(j: int, v: int) -> bool
    decreases j,
{
    if j <= v || j <= 0 {
        j == v
    } else {
        in_subtree((j - 1) / 2, v)
    }
}

/// Whether `r` is what the identity-aware combination of `a` and `b` under the
/// executable function `f` may return.
pub open spec fn merged<T, F: Fn(T, T) -> T>(f: F, identity: T, a: T, b: T, r: T) -> bool {
    if a == identity {
        r == b
    } else if b == identity {
        r == a
    } else {
        call_ensures(f, (a, b), r)
    }
}

/// Whether the subtree of `tree` rooted at position `v` was combined from
/// `values[l..r]`: a node that covers one index holds the value there, any
/// other node covers the two halves of its range by its two children and
/// holds their combination.
spec fn node_ok<T, F: Fn(T, T) -> T>(
    tree: Seq<T>,
    values: Seq<T>,
    f: F,
    identity: T,
    v: int,
    l: int,
    r: int,
) -> bool
    decreases r - l,
{
    &&& 0 <= l < r <= values.len()
    &&& 0 <= v < tree.len()
    &&& if r - l == 1 {
        tree[v] == values[l]
    } else {
        let m = (l + r) / 2;
        &&& node_ok(tree, values, f, identity, 2 * v + 1, l, m)
        &&& node_ok(tree, values, f, identity, 2 * v + 2, m, r)
        &&& merged(f, identity, tree[2 * v + 1], tree[2 * v + 2], tree[v])
    }
}

/// What lies in the subtree of a child of a node lies in the subtree of the
/// node, below the node.
proof fn lemma_subtree_of_child(j: int, v: int)
    requires
        0 <= v,
        in_subtree(j, 2 * v + 1) || in_subtree(j, 2 * v + 2),
    ensures
        in_subtree(j, v),
        j > v,
    decreases j,
{
    reveal_with_fuel(in_subtree, 3);
    if j > 2 * v + 2 {
        lemma_subtree_of_child((j - 1) / 2, v);
    }
}

/// The subtrees of the two children of a node share no position.
proof fn lemma_subtrees_disjoint(j: int, v: int)
    requires
        0 <= v,
    ensures
        !(in_subtree(j, 2 * v + 1) && in_subtree(j, 2 * v + 2)),
    decreases j,
{
    reveal_with_fuel(in_subtree, 3);
    if j > 2 * v + 2 {
        lemma_subtrees_disjoint((j - 1) / 2, v);
    }
}

/// A subtree stays in order when the array changes only outside it and the
/// values change only outside its range.
proof fn lemma_node_ok_frame<T, F: Fn(T, T) -> T>(
    tree1: Seq<T>,
    values1: Seq<T>,
    tree2: Seq<T>,
    values2: Seq<T>,
    f: F,
    identity: T,
    v: int,
    l: int,
    r: int,
)
    requires
        node_ok(tree1, values1, f, identity, v, l, r),
        tree2.len() == tree1.len(),
        values2.len() == values1.len(),
        forall|j: int| 0 <= j < tree1.len() && in_subtree(j, v) ==> tree2[j] == tree1[j],
        forall|k: int| l <= k < r ==> values2[k] == values1[k],
    ensures
        node_ok(tree2, values2, f, identity, v, l, r),
    decreases r - l,
{
    assert(in_subtree(v, v));
    if r - l > 1 {
        let m = (l + r) / 2;
        assert forall|j: int| 0 <= j < tree1.len() && in_subtree(j, 2 * v + 1) implies tree2[j]
            == tree1[j] by {
            lemma_subtree_of_child(j, v);
        }
        assert forall|j: int| 0 <= j < tree1.len() && in_subtree(j, 2 * v + 2) implies tree2[j]
            == tree1[j] by {
            lemma_subtree_of_child(j, v);
        }
        lemma_node_ok_frame(tree1, values1, tree2, values2, f, identity, 2 * v + 1, l, m);
        lemma_node_ok_frame(tree1, values1, tree2, values2, f, identity, 2 * v + 2, m, r);
        assert(in_subtree(2 * v + 1, 2 * v + 1) && in_subtree(2 * v + 2, 2 * v + 2));
        lemma_subtree_of_child(2 * v + 1, v);
        lemma_subtree_of_child(2 * v + 2, v);
    }
}

/// The two children of a node in order that covers more than one index are
/// in order, and the node holds their combination.
proof fn lemma_children_ok<T, F: Fn(T, T) -> T>(
    tree: Seq<T>,
    values: Seq<T>,
    f: F,
    identity: T,
    v: int,
    l: int,
    r: int,
)
    requires
        node_ok(tree, values, f, identity, v, l, r),
        r - l > 1,
    ensures
        node_ok(tree, values, f, identity, 2 * v + 1, l, (l + r) / 2),
        node_ok(tree, values, f, identity, 2 * v + 2, (l + r) / 2, r),
        merged(f, identity, tree[2 * v + 1], tree[2 * v + 2], tree[v]),
        2 * v + 2 < tree.len(),
{
    assert(node_ok(tree, values, f, identity, 2 * v + 2, (l + r) / 2, r));
}

/// A child of the node `v` stays in order while the subtree of its sibling,
/// which is at `4v + 3 - child`, changes and the values change outside the
/// range of the child.
proof fn lemma_sibling_kept<T, F: Fn(T, T) -> T>(
    tree1: Seq<T>,
    values1: Seq<T>,
    tree2: Seq<T>,
    values2: Seq<T>,
    f: F,
    identity: T,
    v: int,
    child: int,
    l: int,
    r: int,
)
    requires
        0 <= v,
        child == 2 * v + 1 || child == 2 * v + 2,
        node_ok(tree1, values1, f, identity, child, l, r),
        tree2.len() == tree1.len(),
        values2.len() == values1.len(),
        forall|j: int|
            0 <= j < tree1.len() && !in_subtree(j, 4 * v + 3 - child) ==> tree2[j] == tree1[j],
        forall|k: int| l <= k < r ==> values2[k] == values1[k],
    ensures
        node_ok(tree2, values2, f, identity, child, l, r),
{
    assert forall|j: int| 0 <= j < tree1.len() && in_subtree(j, child) implies tree2[j]
        == tree1[j] by {
        lemma_subtrees_disjoint(j, v);
    }
    lemma_node_ok_frame(tree1, values1, tree2, values2, f, identity, child, l, r);
}

/// Writing the combination of its two children, which are in order, to a
/// node puts the node in order.
proof fn lemma_write_parent<T, F: Fn(T, T) -> T>(
    tree: Seq<T>,
    values: Seq<T>,
    f: F,
    identity: T,
    v: int,
    l: int,
    r: int,
    combined: T,
)
    requires
        0 <= v < tree.len(),
        r - l > 1,
        node_ok(tree, values, f, identity, 2 * v + 1, l, (l + r) / 2),
        node_ok(tree, values, f, identity, 2 * v + 2, (l + r) / 2, r),
        merged(f, identity, tree[2 * v + 1], tree[2 * v + 2], combined),
    ensures
        node_ok(tree.update(v, combined), values, f, identity, v, l, r),
{
    let written = tree.update(v, combined);
    let m = (l + r) / 2;
    assert forall|j: int|
        0 <= j < tree.len() && (in_subtree(j, 2 * v + 1) || in_subtree(
            j,
            2 * v + 2,
        )) implies written[j] == tree[j] by {
        lemma_subtree_of_child(j, v);
    }
    lemma_node_ok_frame(tree, values, written, values, f, identity, 2 * v + 1, l, m);
    lemma_node_ok_frame(tree, values, written, values, f, identity, 2 * v + 2, m, r);
}

/// What lies outside the subtree of a node lies outside the subtrees of its
/// children and is not the node.
proof fn lemma_outside_parent(j: int, v: int)
    requires
        0 <= v,
        !in_subtree(j, v),
    ensures
        !in_subtree(j, 2 * v + 1),
        !in_subtree(j, 2 * v + 2),
        j != v,
{
    if in_subtree(j, 2 * v + 1) || in_subtree(j, 2 * v + 2) {
        lemma_subtree_of_child(j, v);
    }
}

/// The root of a subtree in order holds the fold of the values in its range,
/// under every function that describes the combination of the values.
proof fn lemma_node_value<T, F: Fn(T, T) -> T>(
    tree: Seq<T>,
    values: Seq<T>,
    f: F,
    identity: T,
    g: spec_fn(T, T) -> T,
    v: int,
    l: int,
    r: int,
)
    requires
        node_ok(tree, values, f, identity, v, l, r),
        models(f, identity, g),
        splits(g, identity, values),
    ensures
        tree[v] == fold(g, identity, values.subrange(l, r)),
    decreases r - l,
{
    if r - l == 1 {
        assert(values.subrange(l, r) =~= seq![values[l]]);
        lemma_fold_single(g, identity, values[l]);
    } else {
        let m = (l + r) / 2;
        lemma_node_value(tree, values, f, identity, g, 2 * v + 1, l, m);
        lemma_node_value(tree, values, f, identity, g, 2 * v + 2, m, r);
        assert(splits_at(g, identity, values, l, m, r));
    }
}

/// The nodes of a subtree in order are in order.
proof fn lemma_covered_ok<T, F: Fn(T, T) -> T>(
    tree: Seq<T>,
    values: Seq<T>,
    f: F,
    identity: T,
    v: int,
    l: int,
    r: int,
    top: int,
    top_l: int,
    top_r: int,
)
    requires
        node_ok(tree, values, f, identity, top, top_l, top_r),
        covers(v, l, r, top, top_l, top_r),
    ensures
        node_ok(tree, values, f, identity, v, l, r),
    decreases top_r - top_l,
{
    if !(v == top && l == top_l && r == top_r) {
        let m = (top_l + top_r) / 2;
        lemma_children_ok(tree, values, f, identity, top, top_l, top_r);
        if covers(v, l, r, 2 * top + 1, top_l, m) {
            lemma_covered_ok(tree, values, f, identity, v, l, r, 2 * top + 1, top_l, m);
        } else {
            lemma_covered_ok(tree, values, f, identity, v, l, r, 2 * top + 2, m, top_r);
        }
    }
}

/// Where the two children of a node that covers `[l, r)` are in order and
/// the values can be combined, the combination function may be called on
/// what the children hold.
proof fn lemma_children_accepted<T, F: Fn(T, T) -> T>(
    tree: Seq<T>,
    values: Seq<T>,
    f: F,
    identity: T,
    v: int,
    l: int,
    r: int,
)
    requires
        r - l > 1,
        node_ok(tree, values, f, identity, 2 * v + 1, l, (l + r) / 2),
        node_ok(tree, values, f, identity, 2 * v + 2, (l + r) / 2, r),
        combinable(f, identity, values),
    ensures
        tree[2 * v + 1] != identity && tree[2 * v + 2] != identity ==> call_requires(
            f,
            (tree[2 * v + 1], tree[2 * v + 2]),
        ),
{
    let g = choose|g: spec_fn(T, T) -> T| describes(f, identity, g, values);
    let m = (l + r) / 2;
    lemma_node_value(tree, values, f, identity, g, 2 * v + 1, l, m);
    lemma_node_value(tree, values, f, identity, g, 2 * v + 2, m, r);
    assert(accepts_at(f, identity, g, values, l, m, r));
}

/// The part of `values` that the ranges `[l, r)` and `[ql, qr)` share.
spec fn overlap<T>(values: Seq<T>, l: int, r: int, ql: int, qr: int) -> Seq<T> {
    let lo = if l < ql {
        ql
    } else {
        l
    };
    let hi = if r < qr {
        r
    } else {
        qr
    };
    if lo < hi {
        values.subrange(lo, hi)
    } else {
        Seq::empty()
    }
}

/// Segment tree: a sequence of values together with an associative
/// combination function, stored so that the combination of any contiguous
/// range and the replacement of any single value take logarithmic time.
///
/// The nodes live in one array, the root at position 0 and the children of
/// position `k` at `2k + 1` and `2k + 2`. The view of a tree is the sequence
/// of values that it stands for.
#[verifier::reject_recursive_types(T)]
pub struct SegmentTree<T: Eq + Copy, F: Fn(T, T) -> T = fn(T, T) -> T> {
    /// Value of every node; `tree[0]` is the root.
    tree: Vec<T>,
    /// Number of values the tree was built over.
    n: usize,
    /// Element `i` with `combine(e, i) = e` for every `e`.
    identity: T,
    /// The combination function, such as addition or gcd.
    combine_fn: F,
    /// The values that the tree stands for.
    values: Ghost<Seq<T>>,
}

impl<T: Eq + Copy, F: Fn(T, T) -> T> View for SegmentTree<T, F> {
    type V = Seq<T>;

    closed spec fn view(&self) -> Seq<T> {
        self.values@
    }
}

impl<T: Eq + Copy, F: Fn(T, T) -> T> SegmentTree<T, F> {
    /// The identity element the tree was built with.
    pub closed spec fn identity(&self) -> T {
        self.identity
    }

    /// The combination function the tree was built with.
    pub closed spec fn combine_fn(&self) -> F {
        self.combine_fn
    }

    /// The backing array: the value of every node, and the identity where no
    /// node lives.
    pub closed spec fn nodes(&self) -> Seq<T> {
        self.tree@
    }

    /// What holds of a tree whatever its nodes contain.
    spec fn shaped(&self) -> bool {
        &&& obeys_concrete_eq::<T>()
        &&& self.values@.len() == self.n
        &&& self.tree@.len() == 4 * self.n
    }

    /// Well-formedness: the values can be combined by the combination
    /// function, every node was combined from the values in its range, and
    /// the backing array holds the identity where no node lives.
    pub closed spec fn wf(&self) -> bool {
        &&& self.shaped()
        &&& combinable(self.combine_fn, self.identity, self.values@)
        &&& forall|j: int|
            0 <= j < self.tree@.len() && !is_node(j, 0, 0, self.n as int) ==> self.tree@[j]
                == self.identity
        &&& self.n > 0 ==> node_ok(
            self.tree@,
            self.values@,
            self.combine_fn,
            self.identity,
            0,
            0,
            self.n as int,
        )
    }

    /// Whether `g` describes how the tree combines its values.
    pub open spec fn combines_by(&self, g: spec_fn(T, T) -> T) -> bool {
        describes(self.combine_fn(), self.identity(), g, self@)
    }

    /// The answer to the query `[l, r)` where the tree combines by `g`: the
    /// fold of the values in that range.
    pub open spec fn spec_get(&self, g: spec_fn(T, T) -> T, l: int, r: int) -> T {
        fold(g, self.identity(), self@.subrange(l, r))
    }

    /// Builds the segment tree of the values in `v` under `combine_fn` with
    /// identity element `identity`, such as `0` for addition or `1` for
    /// multiplication. An empty `v` gives a tree that admits no query.
    pub fn new(v: &Vec<T>, identity: T, combine_fn: F) -> (tree: SegmentTree<T, F>)
        requires
            4 * v.len() <= usize::MAX,
            obeys_concrete_eq::<T>(),
            combinable(combine_fn, identity, v@),
        ensures
            tree.wf(),
            tree@ == v@,
            tree.identity() == identity,
            tree.combine_fn() == combine_fn,
            tree.nodes().len() == 4 * v.len(),
            forall|j: int|
                0 <= j < 4 * v.len() && !is_node(j, 0, 0, v.len() as int) ==> tree.nodes()[j]
                    == identity,
    {
        let n = v.len();
        let mut storage: Vec<T> = Vec::new();
        let mut k: usize = 0;
        while k < 4 * n
            invariant
                4 * n <= usize::MAX,
                k <= 4 * n,
                storage.len() == k,
                forall|j: int| 0 <= j < k ==> storage@[j] == identity,
            decreases 4 * n - k,
        {
            storage.push(identity);
            k += 1;
        }
        let mut seg_tree = SegmentTree { tree: storage, n, identity, combine_fn, values: Ghost(v@) };
        if n > 0 {
            seg_tree.__build(v, 0, 0, n, Ghost(1));
        }
        seg_tree
    }

    /// Combines two values, leaving out those equal to the identity: where
    /// one of the two is the identity, the other is the result, and the
    /// combination function is called on two values of which neither is.
    pub fn __combine(&self, a: T, b: T) -> (r: T)
        requires
            obeys_concrete_eq::<T>(),
            a != self.identity() && b != self.identity() ==> call_requires(
                self.combine_fn(),
                (a, b),
            ),
        ensures
            merged(self.combine_fn(), self.identity(), a, b, r),
            a == self.identity() ==> r == b,
            b == self.identity() ==> r == a,
            forall|g: spec_fn(T, T) -> T| #[trigger]
                models(self.combine_fn(), self.identity(), g) ==> r == merge(
                    g,
                    self.identity(),
                    a,
                    b,
                ),
    {
        proof {
            reveal(obeys_concrete_eq);
        }
        if a == self.identity {
            b
        } else if b == self.identity {
            a
        } else {
            (self.combine_fn)(a, b)
        }
    }

    /// Builds the subtree at position `tree_id`, which covers
    /// `v[tree_l..tree_r]`. The ghost `span` bounds the position: it is the
    /// number of nodes on the level of `tree_id`.
    fn __build(
        &mut self,
        v: &Vec<T>,
        tree_id: usize,
        tree_l: usize,
        tree_r: usize,
        Ghost(span): Ghost<int>,
    )
        requires
            old(self).shaped(),
            old(self).values@ == v@,
            combinable(old(self).combine_fn, old(self).identity, v@),
            tree_l < tree_r <= v.len(),
            tree_id < 4 * v.len(),
            1 <= span,
            tree_id <= 2 * span - 2,
            span * (tree_r - tree_l - 1) < v.len(),
        ensures
            final(self).shaped(),
            final(self).n == old(self).n,
            final(self).identity == old(self).identity,
            final(self).combine_fn == old(self).combine_fn,
            final(self).values == old(self).values,
            node_ok(
                final(self).tree@,
                v@,
                final(self).combine_fn,
                final(self).identity,
                tree_id as int,
                tree_l as int,
                tree_r as int,
            ),
            forall|j: int|
                0 <= j < old(self).tree@.len() && !in_subtree(j, tree_id as int)
                    ==> final(self).tree@[j] == old(self).tree@[j],
            forall|j: int|
                0 <= j < old(self).tree@.len() && !is_node(
                    j,
                    tree_id as int,
                    tree_l as int,
                    tree_r as int,
                ) ==> final(self).tree@[j] == old(self).tree@[j],
        decreases tree_r - tree_l,
    {
        assert(self.tree.len() == 4 * v.len());
        if tree_r - tree_l == 1 {
            self.tree[tree_id] = v[tree_l];
            return ;
        }
        let ghost size = tree_r - tree_l;
        assert(span < v.len()) by (nonlinear_arith)
            requires
                size >= 2,
                span * (size - 1) < v.len(),
        ;
        let m: usize = (tree_l + tree_r) / 2;
        assert(2 * span * (m - tree_l - 1) < v.len() && 2 * span * (tree_r - m - 1) < v.len())
            by (nonlinear_arith)
            requires
                span >= 1,
                span * (size - 1) < v.len(),
                2 * (m - tree_l) <= size + 1,
                2 * (tree_r - m) <= size + 1,
        ;
        let ghost f = self.combine_fn;
        let ghost id = self.identity;
        let ghost t = tree_id as int;
        let ghost (l, r, mid) = (tree_l as int, tree_r as int, m as int);
        let ghost tree0 = self.tree@;
        self.__build(v, 2 * tree_id + 1, tree_l, m, Ghost(2 * span));
        let ghost tree1 = self.tree@;
        self.__build(v, 2 * tree_id + 2, m, tree_r, Ghost(2 * span));
        let ghost tree2 = self.tree@;
        proof {
            lemma_sibling_kept(tree1, v@, tree2, v@, f, id, t, 2 * t + 1, l, mid);
            lemma_children_accepted(tree2, v@, f, id, t, l, r);
        }
        let combined = self.__combine(self.tree[2 * tree_id + 1], self.tree[2 * tree_id + 2]);
        self.tree[tree_id] = combined;
        proof {
            lemma_write_parent(tree2, v@, f, id, t, l, r, combined);
            assert forall|j: int| 0 <= j < tree0.len() && !in_subtree(j, t) implies self.tree@[j]
                == tree0[j] by {
                lemma_outside_parent(j, t);
            }
            assert forall|j: int| 0 <= j < tree0.len() && !is_node(j, t, l, r) implies self.tree@[j]
                == tree0[j] by {
                assert(!is_node(j, 2 * t + 1, l, mid) && !is_node(j, 2 * t + 2, mid, r));
            }
        }
    }

    /// Combines the values that the subtree at position `tree_id`, which
    /// covers `[tree_l, tree_r)`, shares with the query `[query_l, query_r)`.
    fn __get(
        &self,
        tree_id: usize,
        tree_l: usize,
        tree_r: usize,
        query_l: usize,
        query_r: usize,
    ) -> (result: T)
        requires
            self.shaped(),
            combinable(self.combine_fn, self.identity, self.values@),
            node_ok(
                self.tree@,
                self.values@,
                self.combine_fn,
                self.identity,
                tree_id as int,
                tree_l as int,
                tree_r as int,
            ),
            query_l < query_r,
        ensures
            forall|g: spec_fn(T, T) -> T| #[trigger]
                describes(self.combine_fn, self.identity, g, self.values@) ==> result == fold(
                    g,
                    self.identity,
                    overlap(
                        self.values@,
                        tree_l as int,
                        tree_r as int,
                        query_l as int,
                        query_r as int,
                    ),
                ),
        decreases tree_r - tree_l,
    {
        let ghost f = self.combine_fn;
        let ghost id = self.identity;
        let ghost values = self.values@;
        if query_l <= tree_l && tree_r <= query_r {
            // the node lies within the query
            proof {
                assert forall|g: spec_fn(T, T) -> T| #[trigger]
                    describes(f, id, g, values) implies self.tree@[tree_id as int] == fold(
                    g,
                    id,
                    values.subrange(tree_l as int, tree_r as int),
                ) by {
                    lemma_node_value(
                        self.tree@,
                        values,
                        f,
                        id,
                        g,
                        tree_id as int,
                        tree_l as int,
                        tree_r as int,
                    );
                }
            }
            return self.tree[tree_id];
        } else if tree_r <= query_l || query_r <= tree_l {
            // the node and the query share nothing
            return self.identity;
        }
        assert(self.tree.len() == 4 * self.n && tree_r <= self.n);
        proof {
            lemma_children_ok(
                self.tree@,
                values,
                f,
                id,
                tree_id as int,
                tree_l as int,
                tree_r as int,
            );
        }
        let m: usize = (tree_l + tree_r) / 2;
        let l_child: T = self.__get(2 * tree_id + 1, tree_l, m, query_l, query_r);
        let r_child: T = self.__get(2 * tree_id + 2, m, tree_r, query_l, query_r);
        // what the query shares with the node: `[lo, hi)`, parted at `mid`
        let ghost mid = m as int;
        let ghost lo = if tree_l < query_l {
            query_l as int
        } else {
            tree_l as int
        };
        let ghost hi = if tree_r < query_r {
            tree_r as int
        } else {
            query_r as int
        };
        let ghost left = overlap(values, tree_l as int, mid, query_l as int, query_r as int);
        let ghost right = overlap(values, mid, tree_r as int, query_l as int, query_r as int);
        proof {
            let g = choose|g: spec_fn(T, T) -> T| describes(f, id, g, values);
            assert(describes(f, id, g, values));
            if lo < mid && mid < hi {
                assert(accepts_at(f, id, g, values, lo, mid, hi));
            }
        }
        let result = self.__combine(l_child, r_child);
        proof {
            assert forall|g: spec_fn(T, T) -> T| #[trigger]
                describes(f, id, g, values) implies result == fold(
                g,
                id,
                values.subrange(lo, hi),
            ) by {
                if lo < mid && mid < hi {
                    assert(splits_at(g, id, values, lo, mid, hi));
                } else if lo < mid {
                    assert(left =~= values.subrange(lo, hi));
                } else {
                    assert(right =~= values.subrange(lo, hi));
                }
            }
        }
        result
    }

    /// Returns the combination of the values in `[query_l, query_r)`: their
    /// left-to-right fold, under every function that describes how the tree
    /// combines its values.
    pub fn get(&self, query_l: usize, query_r: usize) -> (result: T)
        requires
            self.wf(),
            query_l < query_r <= self@.len(),
        ensures
            forall|g: spec_fn(T, T) -> T| #[trigger]
                self.combines_by(g) ==> result == self.spec_get(g, query_l as int, query_r as int),
    {
        self.__get(0, 0, self.n, query_l, query_r)
    }

    /// Puts `new_val` in place of the value at index `i` within the subtree
    /// at position `tree_id`, which covers `[tree_l, tree_r)`, and brings the
    /// nodes between that position and the leaf up to date.
    fn __set(&mut self, tree_id: usize, tree_l: usize, tree_r: usize, i: usize, new_val: T)
        requires
            old(self).shaped(),
            combinable(
                old(self).combine_fn,
                old(self).identity,
                old(self).values@.update(i as int, new_val),
            ),
            node_ok(
                old(self).tree@,
                old(self).values@,
                old(self).combine_fn,
                old(self).identity,
                tree_id as int,
                tree_l as int,
                tree_r as int,
            ),
            tree_l <= i < tree_r,
        ensures
            final(self).shaped(),
            final(self).n == old(self).n,
            final(self).identity == old(self).identity,
            final(self).combine_fn == old(self).combine_fn,
            final(self).values == old(self).values,
            node_ok(
                final(self).tree@,
                old(self).values@.update(i as int, new_val),
                final(self).combine_fn,
                final(self).identity,
                tree_id as int,
                tree_l as int,
                tree_r as int,
            ),
            forall|j: int|
                0 <= j < old(self).tree@.len() && !in_subtree(j, tree_id as int)
                    ==> final(self).tree@[j] == old(self).tree@[j],
            forall|j: int|
                0 <= j < old(self).tree@.len() && !on_path(
                    j,
                    tree_id as int,
                    tree_l as int,
                    tree_r as int,
                    i as int,
                ) ==> final(self).tree@[j] == old(self).tree@[j],
        decreases tree_r - tree_l,
    {
        let ghost values = self.values@;
        let ghost updated = self.values@.update(i as int, new_val);
        let ghost tree0 = self.tree@;
        let ghost f = self.combine_fn;
        let ghost id = self.identity;
        let ghost t = tree_id as int;
        if i == tree_l && tree_r - tree_l == 1 {
            self.tree[tree_id] = new_val;
            return ;
        }
        assert(self.tree.len() == 4 * self.n && tree_r <= self.n);
        proof {
            lemma_children_ok(tree0, values, f, id, t, tree_l as int, tree_r as int);
        }
        let m: usize = (tree_l + tree_r) / 2;
        if i < m {
            self.__set(2 * tree_id + 1, tree_l, m, i, new_val);
        } else if m <= i {
            self.__set(2 * tree_id + 2, m, tree_r, i, new_val);
        }
        let ghost tree1 = self.tree@;
        let ghost (l, r, mid) = (tree_l as int, tree_r as int, m as int);
        proof {
            if i < m {
                lemma_sibling_kept(tree0, values, tree1, updated, f, id, t, 2 * t + 2, mid, r);
            } else {
                lemma_sibling_kept(tree0, values, tree1, updated, f, id, t, 2 * t + 1, l, mid);
            }
            lemma_children_accepted(tree1, updated, f, id, t, l, r);
        }
        let combined = self.__combine(self.tree[2 * tree_id + 1], self.tree[2 * tree_id + 2]);
        self.tree[tree_id] = combined;
        proof {
            lemma_write_parent(tree1, updated, f, id, t, l, r, combined);
            assert forall|j: int| 0 <= j < tree0.len() && !in_subtree(j, t) implies self.tree@[j]
                == tree0[j] by {
                lemma_outside_parent(j, t);
            }
            assert forall|j: int|
                0 <= j < tree0.len() && !on_path(j, t, l, r, i as int) implies self.tree@[j]
                == tree0[j] by {
                if i < m {
                    assert(!on_path(j, 2 * t + 1, l, mid, i as int));
                } else {
                    assert(!on_path(j, 2 * t + 2, mid, r, i as int));
                }
            }
        }
    }

    /// Puts `new_val` in place of the value at index `i`. The values have to
    /// be such that they can be combined with `new_val` in that place. Of the
    /// backing array only the nodes on the path from the root to the leaf of
    /// `i` are written.
    pub fn set(&mut self, i: usize, new_val: T)
        requires
            old(self).wf(),
            i < old(self)@.len(),
            combinable(
                old(self).combine_fn(),
                old(self).identity(),
                old(self)@.update(i as int, new_val),
            ),
        ensures
            final(self).wf(),
            final(self)@ == old(self)@.update(i as int, new_val),
            final(self).identity() == old(self).identity(),
            final(self).combine_fn() == old(self).combine_fn(),
            final(self).nodes().len() == old(self).nodes().len(),
            forall|j: int|
                0 <= j < old(self).nodes().len() && !on_path(
                    j,
                    0,
                    0,
                    old(self)@.len() as int,
                    i as int,
                ) ==> final(self).nodes()[j] == old(self).nodes()[j],
    {
        let ghost before = self.tree@;
        self.__set(0, 0, self.n, i, new_val);
        self.values = Ghost(self.values@.update(i as int, new_val));
        proof {
            assert forall|j: int|
                0 <= j < self.tree@.len() && !is_node(j, 0, 0, self.n as int) implies self.tree@[j]
                == self.identity by {
                if on_path(j, 0, 0, self.n as int, i as int) {
                    lemma_path_of_nodes(j, 0, 0, self.n as int, i as int);
                }
                assert(self.tree@[j] == before[j]);
            }
        }
    }

    /// What a well-formed tree is: its values can be combined by its
    /// combination function, they are few enough for their backing array,
    /// which is four times as long, and that array holds the identity where
    /// no node lives.
    pub proof fn lemma_wf(&self)
        requires
            self.wf(),
        ensures
            combinable(self.combine_fn(), self.identity(), self@),
            self.nodes().len() == 4 * self@.len(),
            4 * self@.len() <= usize::MAX,
            forall|j: int|
                0 <= j < self.nodes().len() && !is_node(j, 0, 0, self@.len() as int)
                    ==> self.nodes()[j] == self.identity(),
    {
        assert(self.tree.len() == self.tree@.len());
    }

    /// Every node holds the fold of the values in the range that it covers.
    pub proof fn lemma_node_holds_fold(&self, g: spec_fn(T, T) -> T, v: int, l: int, r: int)
        requires
            self.wf(),
            self.combines_by(g),
            self@.len() > 0,
            covers(v, l, r, 0, 0, self@.len() as int),
        ensures
            0 <= l < r <= self@.len(),
            0 <= v < self.nodes().len(),
            r - l == 1 ==> self.nodes()[v] == self@[l],
            self.nodes()[v] == self.spec_get(g, l, r),
    {
        lemma_covered_ok(
            self.tree@,
            self.values@,
            self.combine_fn,
            self.identity,
            v,
            l,
            r,
            0,
            0,
            self.n as int,
        );
        lemma_node_value(self.tree@, self.values@, self.combine_fn, self.identity, g, v, l, r);
    }

    /// Replacing the value at index `i` by `x` changes the answers to the
    /// queries as it changes the view: a range that does not hold `i` is
    /// answered as before, and the answer for a range that holds `i` has `x`
    /// in the place of the old value.
    pub proof fn lemma_set_then_get(
        &self,
        after: &Self,
        g: spec_fn(T, T) -> T,
        i: int,
        x: T,
        l: int,
        r: int,
    )
        requires
            0 <= i < self@.len(),
            0 <= l < r <= self@.len(),
            after@ == self@.update(i, x),
            after.identity() == self.identity(),
        ensures
            i < l || r <= i ==> after.spec_get(g, l, r) == self.spec_get(g, l, r),
            l <= i < r && splits(g, self.identity(), after@) ==> after.spec_get(g, l, r) == merge(
                g,
                self.identity(),
                merge(g, self.identity(), fold(g, self.identity(), self@.subrange(l, i)), x),
                fold(g, self.identity(), self@.subrange(i + 1, r)),
            ),
    {
        if i < l || r <= i {
            lemma_update_outside(g, self.identity(), self@, i, x, l, r);
        } else if splits(g, self.identity(), after@) {
            lemma_update_inside(g, self.identity(), self@, i, x, l, r);
        }
    }

    /// A tree over the values that the one-element queries of this tree
    /// return, with the same identity, answers every query as this tree does.
    pub proof fn lemma_rebuilt_answers_alike(
        &self,
        rebuilt: &Self,
        g: spec_fn(T, T) -> T,
        l: int,
        r: int,
    )
        requires
            rebuilt.identity() == self.identity(),
            rebuilt@.len() == self@.len(),
            forall|i: int|
                0 <= i < self@.len() ==> #[trigger] rebuilt@[i] == self.spec_get(g, i, i + 1),
            0 <= l < r <= self@.len(),
        ensures
            rebuilt@ == self@,
            rebuilt.spec_get(g, l, r) == self.spec_get(g, l, r),
    {
        assert forall|i: int| 0 <= i < self@.len() implies rebuilt@[i] == self@[i] by {
            assert(self@.subrange(i, i + 1) =~= seq![self@[i]]);
            lemma_fold_single(g, self.identity(), self@[i]);
        }
        assert(rebuilt@ =~= self@);
    }
}

} // verus!
