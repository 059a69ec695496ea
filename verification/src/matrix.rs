//! A dense matrix over an arbitrary element type, with element access and
//! the arithmetic of matrices.
//!
//! The view of a matrix is the sequence of its rows, each row the sequence of
//! its elements. Contracts are stated over that view.

use core::ops::{Add, Index, IndexMut, Mul, Neg, Sub};
use vstd::prelude::*;
use vstd::std_specs::ops::{AddSpec, MulSpec, NegSpec, SubSpec};

verus! {

/// Matrix of elements of type `T`, stored row by row.
pub struct Matrix<T> where T: Clone {
    /// The elements: one vector for each row.
    vals: Vec<Vec<T>>,
    /// Number of rows.
    rows: usize,
    /// Number of columns.
    cols: usize,
}

impl<T: Clone> View for Matrix<T> {
    type V = Seq<Seq<T>>;

    closed spec fn view(&self) -> Seq<Seq<T>> {
        Seq::new(self.vals@.len(), |r: int| self.vals@[r]@)
    }
}

impl<T: Clone> Matrix<T> {
    /// Number of rows that the matrix was made with.
    pub closed spec fn spec_rows(&self) -> nat {
        self.rows as nat
    }

    /// Number of columns that the matrix was made with.
    pub closed spec fn spec_cols(&self) -> nat {
        self.cols as nat
    }

    /// Well-formedness: the matrix has as many rows as it was made with, and
    /// every row has as many elements as the matrix was made with columns.
    pub open spec fn wf(&self) -> bool {
        &&& self@.len() == self.spec_rows()
        &&& forall|r: int| 0 <= r < self@.len() ==> (#[trigger] self@[r]).len() == self.spec_cols()
    }

    /// Whether `(r, c)` is the place of an element.
    pub open spec fn has(&self, r: int, c: int) -> bool {
        0 <= r < self@.len() && 0 <= c < self@[r].len()
    }

    /// Whether `allowed` holds of every element that stands in one of the
    /// rows and columns that the matrix was made with.
    pub open spec fn each_within(&self, allowed: spec_fn(T) -> bool) -> bool {
        forall|r: int, c: int|
            0 <= r < self.spec_rows() && 0 <= c < self.spec_cols() && #[trigger] self.has(r, c)
                ==> allowed(self@[r][c])
    }

    /// Whether `allowed` holds of every element that stands in one of the
    /// rows and columns that the matrix was made with, together with the
    /// element of `other` at the same place, where both exist.
    pub open spec fn each_pair_within(&self, other: &Self, allowed: spec_fn(T, T) -> bool) -> bool {
        forall|r: int, c: int|
            0 <= r < self.spec_rows() && 0 <= c < self.spec_cols() && #[trigger] self.has(r, c)
                && other.has(r, c) ==> allowed(self@[r][c], other@[r][c])
    }

    /// Whether the two matrices were made with the same number of rows and
    /// the same number of columns.
    pub open spec fn same_shape(&self, other: &Self) -> bool {
        self.spec_rows() == other.spec_rows() && self.spec_cols() == other.spec_cols()
    }

    /// Whether the matrix has an element at every place of the rows and
    /// columns that it was made with. A well-formed matrix does; one of which
    /// a row was shortened does not.
    pub open spec fn filled(&self) -> bool {
        forall|r: int, c: int|
            0 <= r < self.spec_rows() && 0 <= c < self.spec_cols() ==> #[trigger] self.has(r, c)
    }
}

/// The rows `m` with `f` applied to every element that stands in one of the
/// first `rows` rows and the first `cols` columns.
pub open spec fn map_within<T>(m: Seq<Seq<T>>, rows: nat, cols: nat, f: spec_fn(T) -> T) -> Seq<
    Seq<T>,
> {
    Seq::new(
        m.len(),
        |r: int|
            Seq::new(
                m[r].len(),
                |c: int|
                    if r < rows && c < cols {
                        f(m[r][c])
                    } else {
                        m[r][c]
                    },
            ),
    )
}

/// A clone has the shape of the matrix, and each of its elements is a clone
/// of the element at the same place.
impl<T: Clone> Clone for Matrix<T> {
    fn clone(&self) -> (copy: Matrix<T>)
        ensures
            copy.same_shape(self),
            copy@.len() == self@.len(),
            forall|r: int| 0 <= r < self@.len() ==> (#[trigger] copy@[r]).len() == self@[r].len(),
            forall|r: int, c: int|
                self.has(r, c) ==> cloned(self@[r][c], #[trigger] copy@[r][c]),
    {
        Matrix { vals: self.vals.clone(), rows: self.rows, cols: self.cols }
    }
}

impl<T: Clone> Matrix<T> where T: Default + Clone {
    /// Makes the matrix of `r` rows and `c` columns in which every element is
    /// a default value of `T`.
    pub fn new(r: usize, c: usize) -> (m: Matrix<T>)
        ensures
            m.wf(),
            m.spec_rows() == r,
            m.spec_cols() == c,
            forall|i: int, j: int|
                0 <= i < r && 0 <= j < c ==> call_ensures(T::default, (), #[trigger] m@[i][j]),
    {
        let mut vals: Vec<Vec<T>> = Vec::new();
        for i in 0..r
            invariant
                vals@.len() == i,
                forall|k: int| 0 <= k < i ==> (#[trigger] vals@[k])@.len() == c,
                forall|k: int, j: int|
                    0 <= k < i && 0 <= j < c ==> call_ensures(
                        T::default,
                        (),
                        #[trigger] vals@[k]@[j],
                    ),
        {
            let mut row: Vec<T> = Vec::new();
            for j in 0..c
                invariant
                    row@.len() == j,
                    forall|k: int| 0 <= k < j ==> call_ensures(T::default, (), #[trigger] row@[k]),
            {
                row.push(T::default());
            }
            vals.push(row);
        }
        Matrix { vals, rows: r, cols: c }
    }
}

/// Gives the row at the index `index`, which has to be the index of a row.
impl<T: Clone> Index<usize> for Matrix<T> {
    type Output = Vec<T>;

    fn index(&self, index: usize) -> (row: &Vec<T>)
        ensures
            row@ == self@[index as int],
    {
        &self.vals[index]
    }
}

impl<T: Clone> vstd::std_specs::core::IndexSpecImpl<usize> for Matrix<T> {
    open spec fn index_req(&self, index: &usize) -> bool {
        *index < self@.len()
    }
}

/// Hands out the row at the index `index`, which has to be the index of a
/// row, for reading and writing.
impl<T: Clone> IndexMut<usize> for Matrix<T> {
    fn index_mut(&mut self, index: usize) -> (row: &mut Vec<T>)
        requires
            index < old(self)@.len(),
        ensures
            row@ == old(self)@[index as int],
            final(self)@ == old(self)@.update(index as int, final(row)@),
            final(self).spec_rows() == old(self).spec_rows(),
            final(self).spec_cols() == old(self).spec_cols(),
    {
        &mut self.vals[index]
    }
}

impl<T: Clone> Matrix<T> {
    /// Gives the element at row `r` and column `c`, or nothing where the
    /// matrix has no such element.
    pub fn get(&self, r: usize, c: usize) -> (element: Option<&T>)
        ensures
            element == if self.has(r as int, c as int) {
                Some(&self@[r as int][c as int])
            } else {
                None
            },
    {
        if r < self.vals.len() {
            let row = &self.vals[r];
            if c < row.len() {
                Some(&row[c])
            } else {
                None
            }
        } else {
            None
        }
    }

    /// Puts `new_val` at row `r` and column `c`, which has to be the place
    /// of an element.
    pub fn set(&mut self, r: usize, c: usize, new_val: T)
        requires
            old(self).has(r as int, c as int),
        ensures
            final(self)@ == old(self)@.update(
                r as int,
                old(self)@[r as int].update(c as int, new_val),
            ),
            final(self).spec_rows() == old(self).spec_rows(),
            final(self).spec_cols() == old(self).spec_cols(),
            old(self).wf() ==> final(self).wf(),
    {
        self.vals[r][c] = new_val;
        assert(self@ =~= old(self)@.update(
            r as int,
            old(self)@[r as int].update(c as int, new_val),
        ));
        assert forall|k: int| 0 <= k < self@.len() implies (#[trigger] self@[k]).len() == old(
            self,
        )@[k].len() by {
            assert(self@[k] == if k == r {
                old(self)@[k].update(c as int, new_val)
            } else {
                old(self)@[k]
            });
        }
    }

    /// Hands out the element at row `r` and column `c`, which has to be the
    /// place of an element, for reading and writing.
    pub fn access(&mut self, r: usize, c: usize) -> (element: &mut T)
        requires
            old(self).has(r as int, c as int),
        ensures
            *element == old(self)@[r as int][c as int],
            final(self)@ == old(self)@.update(
                r as int,
                old(self)@[r as int].update(c as int, *final(element)),
            ),
            final(self).spec_rows() == old(self).spec_rows(),
            final(self).spec_cols() == old(self).spec_cols(),
    {
        &mut self.vals[r][c]
    }
}

/// The rows `a` with every element that stands in one of the first `rows`
/// rows and the first `cols` columns combined by `f` with the element of `b`
/// at the same place.
pub open spec fn zip_within<T>(
    a: Seq<Seq<T>>,
    b: Seq<Seq<T>>,
    rows: nat,
    cols: nat,
    f: spec_fn(T, T) -> T,
) -> Seq<Seq<T>> {
    Seq::new(
        a.len(),
        |r: int|
            Seq::new(
                a[r].len(),
                |c: int|
                    if r < rows && c < cols {
                        f(a[r][c], b[r][c])
                    } else {
                        a[r][c]
                    },
            ),
    )
}

/// Whether `out` is what a walk over the first `cols` columns, row by row,
/// has made of `orig` when it has come to row `r` and column `c`: the places
/// it has passed hold what `target` holds there, all others what `orig`
/// holds.
spec fn rewritten<T>(
    orig: Seq<Seq<T>>,
    target: Seq<Seq<T>>,
    out: Seq<Seq<T>>,
    r: int,
    c: int,
    cols: int,
) -> bool {
    &&& out.len() == orig.len()
    &&& forall|i: int| 0 <= i < orig.len() ==> (#[trigger] out[i]).len() == orig[i].len()
    &&& forall|i: int, j: int|
        0 <= i < orig.len() && 0 <= j < orig[i].len() ==> #[trigger] out[i][j] == if j < cols && (i
            < r || i == r && j < c) {
            target[i][j]
        } else {
            orig[i][j]
        }
}

/// Writing what `target` holds at row `r` and column `c` takes the walk one
/// column further.
proof fn lemma_rewritten_step<T>(
    orig: Seq<Seq<T>>,
    target: Seq<Seq<T>>,
    before: Seq<Seq<T>>,
    r: int,
    c: int,
    cols: int,
)
    requires
        rewritten(orig, target, before, r, c, cols),
        0 <= r < orig.len(),
        0 <= c < orig[r].len(),
        c < cols,
    ensures
        rewritten(
            orig,
            target,
            before.update(r, before[r].update(c, target[r][c])),
            r,
            c + 1,
            cols,
        ),
{
    let after = before.update(r, before[r].update(c, target[r][c]));
    assert forall|i: int, j: int|
        0 <= i < orig.len() && 0 <= j < orig[i].len() implies #[trigger] after[i][j] == if j < cols
        && (i < r || i == r && j < c + 1) {
        target[i][j]
    } else {
        orig[i][j]
    } by {
        assert(after[i][j] == if i == r && j == c {
            target[r][c]
        } else {
            before[i][j]
        });
    }
}

/// Negation of an element.
pub open spec fn negation<T: Neg<Output = T>>() -> spec_fn(T) -> T {
    |x: T| x.neg_spec()
}

/// Negation: the matrix with every element negated, where the matrix is
/// filled; nothing where it is not.
impl<T: Clone + Copy> Neg for Matrix<T> where T: Neg<Output = T> {
    type Output = Option<Matrix<T>>;

    fn neg(self) -> (out: Option<Matrix<T>>)
        ensures
            out is Some <==> self.filled(),
            out matches Some(m) ==> {
                &&& m.same_shape(&self)
                &&& m@ == map_within(self@, self.spec_rows(), self.spec_cols(), negation::<T>())
            },
    {
        let ghost orig = self@;
        let ghost target = map_within(orig, self.spec_rows(), self.spec_cols(), negation::<T>());
        let mut result = self;
        let rows = result.rows;
        let cols = result.cols;
        for r in 0..rows
            invariant
                rows == self.rows == result.rows,
                cols == self.cols == result.cols,
                orig == self@,
                target == map_within(orig, rows as nat, cols as nat, negation::<T>()),
                T::obeys_neg_spec(),
                self.each_within(|x: T| x.neg_req()),
                forall|i: int, j: int| 0 <= i < r && 0 <= j < cols ==> #[trigger] self.has(i, j),
                rewritten(orig, target, result@, r as int, 0, cols as int),
        {
            for c in 0..cols
                invariant
                    rows == self.rows == result.rows,
                    cols == self.cols == result.cols,
                    r < rows,
                    orig == self@,
                    target == map_within(orig, rows as nat, cols as nat, negation::<T>()),
                    T::obeys_neg_spec(),
                    self.each_within(|x: T| x.neg_req()),
                    forall|i: int, j: int|
                        0 <= i < r && 0 <= j < cols ==> #[trigger] self.has(i, j),
                    forall|j: int| 0 <= j < c ==> #[trigger] self.has(r as int, j),
                    rewritten(orig, target, result@, r as int, c as int, cols as int),
            {
                let ghost before = result@;
                match result.get(r, c) {
                    Some(x) => {
                        assert(self.has(r as int, c as int));
                        let negated = x.neg();
                        result.set(r, c, negated);
                        proof {
                            lemma_rewritten_step(orig, target, before, r as int, c as int, cols as int);
                        }
                    },
                    None => {
                        assert(!self.has(r as int, c as int));
                        return None;
                    },
                }
            }
        }
        assert(result@ =~~= target);
        Some(result)
    }
}

/// The result is stated at `neg` over the views of the matrices. It is not
/// stated as an equation between matrices, since two matrices with one view
/// need not be one value.
impl<T: Clone + Copy> vstd::std_specs::ops::NegSpecImpl for Matrix<T> where T: Neg<Output = T> {
    open spec fn obeys_neg_spec() -> bool {
        false
    }

    /// The elements can be negated, and by the rule of `T`.
    open spec fn neg_req(self) -> bool {
        T::obeys_neg_spec() && self.each_within(|x: T| x.neg_req())
    }

    open spec fn neg_spec(self) -> Option<Matrix<T>> {
        None
    }
}

/// Sum of two elements.
pub open spec fn sum<T: Add<Output = T>>() -> spec_fn(T, T) -> T {
    |x: T, y: T| x.add_spec(y)
}

/// Addition: the matrix of the sums of the elements at each place, where the
/// two matrices have the same shape and are filled; nothing otherwise.
impl<T: Clone + Copy> Add for Matrix<T> where T: Add<Output = T> {
    type Output = Option<Matrix<T>>;

    fn add(self, rhs: Self) -> (out: Option<Matrix<T>>)
        ensures
            out is Some <==> self.same_shape(&rhs) && self.filled() && rhs.filled(),
            out matches Some(m) ==> {
                &&& m.same_shape(&self)
                &&& m@ == zip_within(
                    self@,
                    rhs@,
                    self.spec_rows(),
                    self.spec_cols(),
                    sum::<T>(),
                )
            },
    {
        if self.rows != rhs.rows || self.cols != rhs.cols {
            return None;
        }
        let ghost orig = self@;
        let ghost target = zip_within(
            orig,
            rhs@,
            self.spec_rows(),
            self.spec_cols(),
            sum::<T>(),
        );
        let mut result = self;
        let rows = result.rows;
        let cols = result.cols;
        for r in 0..rows
            invariant
                rows == self.rows == result.rows == rhs.rows,
                cols == self.cols == result.cols == rhs.cols,
                orig == self@,
                target == zip_within(orig, rhs@, rows as nat, cols as nat, sum::<T>()),
                T::obeys_add_spec(),
                self.each_pair_within(&rhs, |x: T, y: T| x.add_req(y)),
                forall|i: int, j: int| 0 <= i < r && 0 <= j < cols ==> #[trigger] self.has(i, j),
                forall|i: int, j: int| 0 <= i < r && 0 <= j < cols ==> #[trigger] rhs.has(i, j),
                rewritten(orig, target, result@, r as int, 0, cols as int),
        {
            for c in 0..cols
                invariant
                    rows == self.rows == result.rows == rhs.rows,
                    cols == self.cols == result.cols == rhs.cols,
                    r < rows,
                    orig == self@,
                    target == zip_within(orig, rhs@, rows as nat, cols as nat, sum::<T>()),
                    T::obeys_add_spec(),
                    self.each_pair_within(&rhs, |x: T, y: T| x.add_req(y)),
                    forall|i: int, j: int|
                        0 <= i < r && 0 <= j < cols ==> #[trigger] self.has(i, j),
                    forall|i: int, j: int| 0 <= i < r && 0 <= j < cols ==> #[trigger] rhs.has(i, j),
                    forall|j: int| 0 <= j < c ==> #[trigger] self.has(r as int, j),
                    forall|j: int| 0 <= j < c ==> #[trigger] rhs.has(r as int, j),
                    rewritten(orig, target, result@, r as int, c as int, cols as int),
            {
                let ghost before = result@;
                let lhs_val = match result.get(r, c) {
                    Some(x) => *x,
                    None => {
                        assert(!self.has(r as int, c as int));
                        return None;
                    },
                };
                let rhs_val = match rhs.get(r, c) {
                    Some(x) => *x,
                    None => {
                        assert(!rhs.has(r as int, c as int));
                        return None;
                    },
                };
                assert(self.has(r as int, c as int));
                result.set(r, c, lhs_val + rhs_val);
                proof {
                    lemma_rewritten_step(orig, target, before, r as int, c as int, cols as int);
                }
            }
        }
        assert(result@ =~~= target);
        Some(result)
    }
}

/// The result is stated at `add` over the views of the matrices. It is not
/// stated as an equation between matrices, since two matrices with one view
/// need not be one value.
impl<T: Clone + Copy> vstd::std_specs::ops::AddSpecImpl for Matrix<T> where T: Add<Output = T> {
    open spec fn obeys_add_spec() -> bool {
        false
    }

    /// Where the shapes agree, the elements can be combined place by place,
    /// and by the rule of `T`.
    open spec fn add_req(self, rhs: Matrix<T>) -> bool {
        &&& T::obeys_add_spec()
        &&& self.same_shape(&rhs) ==> self.each_pair_within(&rhs, |x: T, y: T| x.add_req(y))
    }

    open spec fn add_spec(self, rhs: Matrix<T>) -> Option<Matrix<T>> {
        None
    }
}

/// Difference of two elements.
pub open spec fn difference<T: Sub<Output = T>>() -> spec_fn(T, T) -> T {
    |x: T, y: T| x.sub_spec(y)
}

/// Subtraction: the matrix of the differences of the elements at each place,
/// where the two matrices have the same shape and are filled; nothing
/// otherwise.
impl<T: Clone + Copy> Sub for Matrix<T> where T: Sub<Output = T> {
    type Output = Option<Matrix<T>>;

    fn sub(self, rhs: Self) -> (out: Option<Matrix<T>>)
        ensures
            out is Some <==> self.same_shape(&rhs) && self.filled() && rhs.filled(),
            out matches Some(m) ==> {
                &&& m.same_shape(&self)
                &&& m@ == zip_within(
                    self@,
                    rhs@,
                    self.spec_rows(),
                    self.spec_cols(),
                    difference::<T>(),
                )
            },
    {
        if self.rows != rhs.rows || self.cols != rhs.cols {
            return None;
        }
        let ghost orig = self@;
        let ghost target = zip_within(
            orig,
            rhs@,
            self.spec_rows(),
            self.spec_cols(),
            difference::<T>(),
        );
        let mut result = self;
        let rows = result.rows;
        let cols = result.cols;
        for r in 0..rows
            invariant
                rows == self.rows == result.rows == rhs.rows,
                cols == self.cols == result.cols == rhs.cols,
                orig == self@,
                target == zip_within(orig, rhs@, rows as nat, cols as nat, difference::<T>()),
                T::obeys_sub_spec(),
                self.each_pair_within(&rhs, |x: T, y: T| x.sub_req(y)),
                forall|i: int, j: int| 0 <= i < r && 0 <= j < cols ==> #[trigger] self.has(i, j),
                forall|i: int, j: int| 0 <= i < r && 0 <= j < cols ==> #[trigger] rhs.has(i, j),
                rewritten(orig, target, result@, r as int, 0, cols as int),
        {
            for c in 0..cols
                invariant
                    rows == self.rows == result.rows == rhs.rows,
                    cols == self.cols == result.cols == rhs.cols,
                    r < rows,
                    orig == self@,
                    target == zip_within(orig, rhs@, rows as nat, cols as nat, difference::<T>()),
                    T::obeys_sub_spec(),
                    self.each_pair_within(&rhs, |x: T, y: T| x.sub_req(y)),
                    forall|i: int, j: int|
                        0 <= i < r && 0 <= j < cols ==> #[trigger] self.has(i, j),
                    forall|i: int, j: int| 0 <= i < r && 0 <= j < cols ==> #[trigger] rhs.has(i, j),
                    forall|j: int| 0 <= j < c ==> #[trigger] self.has(r as int, j),
                    forall|j: int| 0 <= j < c ==> #[trigger] rhs.has(r as int, j),
                    rewritten(orig, target, result@, r as int, c as int, cols as int),
            {
                let ghost before = result@;
                let lhs_val = match result.get(r, c) {
                    Some(x) => *x,
                    None => {
                        assert(!self.has(r as int, c as int));
                        return None;
                    },
                };
                let rhs_val = match rhs.get(r, c) {
                    Some(x) => *x,
                    None => {
                        assert(!rhs.has(r as int, c as int));
                        return None;
                    },
                };
                assert(self.has(r as int, c as int));
                result.set(r, c, lhs_val - rhs_val);
                proof {
                    lemma_rewritten_step(orig, target, before, r as int, c as int, cols as int);
                }
            }
        }
        assert(result@ =~~= target);
        Some(result)
    }
}

/// The result is stated at `sub` over the views of the matrices. It is not
/// stated as an equation between matrices, since two matrices with one view
/// need not be one value.
impl<T: Clone + Copy> vstd::std_specs::ops::SubSpecImpl for Matrix<T> where T: Sub<Output = T> {
    open spec fn obeys_sub_spec() -> bool {
        false
    }

    /// Where the shapes agree, the elements can be combined place by place,
    /// and by the rule of `T`.
    open spec fn sub_req(self, rhs: Matrix<T>) -> bool {
        &&& T::obeys_sub_spec()
        &&& self.same_shape(&rhs) ==> self.each_pair_within(&rhs, |x: T, y: T| x.sub_req(y))
    }

    open spec fn sub_spec(self, rhs: Matrix<T>) -> Option<Matrix<T>> {
        None
    }
}

/// Multiplication of an element by `factor` on its right.
pub open spec fn scaling<T: Mul<Output = T>>(factor: T) -> spec_fn(T) -> T {
    |x: T| x.mul_spec(factor)
}

/// Multiplication by a scalar: the matrix with every element multiplied by
/// `rhs`.
impl<T: Clone + Copy> Mul<T> for Matrix<T> where T: Mul<Output = T> {
    type Output = Matrix<T>;

    fn mul(self, rhs: T) -> (out: Matrix<T>)
        ensures
            out.same_shape(&self),
            out@ == map_within(self@, self.spec_rows(), self.spec_cols(), scaling(rhs)),
    {
        let ghost orig = self@;
        let ghost target = map_within(orig, self.spec_rows(), self.spec_cols(), scaling(rhs));
        let mut result = self;
        let rows = result.rows;
        let cols = result.cols;
        for r in 0..rows
            invariant
                rows == self.rows == result.rows,
                cols == self.cols == result.cols,
                orig == self@,
                target == map_within(orig, rows as nat, cols as nat, scaling(rhs)),
                T::obeys_mul_spec(),
                self.each_within(|x: T| x.mul_req(rhs)),
                rewritten(orig, target, result@, r as int, 0, cols as int),
        {
            for c in 0..cols
                invariant
                    rows == self.rows == result.rows,
                    cols == self.cols == result.cols,
                    r < rows,
                    orig == self@,
                    target == map_within(orig, rows as nat, cols as nat, scaling(rhs)),
                    T::obeys_mul_spec(),
                    self.each_within(|x: T| x.mul_req(rhs)),
                    rewritten(orig, target, result@, r as int, c as int, cols as int),
            {
                let ghost before = result@;
                match result.get(r, c) {
                    Some(x) => {
                        assert(self.has(r as int, c as int));
                        let scaled = *x * rhs;
                        result.set(r, c, scaled);
                        proof {
                            lemma_rewritten_step(orig, target, before, r as int, c as int, cols as int);
                        }
                    },
                    // no element at this place: on to the next
                    None => {},
                }
            }
        }
        assert(result@ =~~= target);
        result
    }
}

/// The result is stated at `mul` over the views of the matrices. It is not
/// stated as an equation between matrices, since two matrices with one view
/// need not be one value.
impl<T: Clone + Copy> vstd::std_specs::ops::MulSpecImpl<T> for Matrix<T> where T: Mul<Output = T> {
    open spec fn obeys_mul_spec() -> bool {
        false
    }

    /// The elements can be multiplied by `rhs`, and by the rule of `T`.
    open spec fn mul_req(self, rhs: T) -> bool {
        T::obeys_mul_spec() && self.each_within(|x: T| x.mul_req(rhs))
    }

    open spec fn mul_spec(self, rhs: T) -> Matrix<T> {
        self
    }
}

/// The sum of the products of the first `k` elements of `row` with the
/// elements of column `c` of the rows `m`, added up from the left and
/// beginning with `zero`.
pub open spec fn dot<T: Add<Output = T> + Mul<Output = T>>(
    zero: T,
    row: Seq<T>,
    m: Seq<Seq<T>>,
    c: int,
    k: nat,
) -> T
    decreases k,
{
    if k == 0 {
        zero
    } else {
        dot(zero, row, m, c, (k - 1) as nat).add_spec(row[k - 1].mul_spec(m[k - 1][c]))
    }
}

/// Whether every multiplication and addition that [`dot`] makes on elements
/// that exist is allowed.
pub open spec fn dot_allowed<T: Add<Output = T> + Mul<Output = T>>(
    zero: T,
    row: Seq<T>,
    m: Seq<Seq<T>>,
    c: int,
    k: nat,
) -> bool
    decreases k,
{
    k > 0 ==> {
        let i = k - 1;
        &&& dot_allowed(zero, row, m, c, i as nat)
        &&& i < row.len() && i < m.len() && 0 <= c < m[i].len() ==> {
            &&& row[i].mul_req(m[i][c])
            &&& dot(zero, row, m, c, i as nat).add_req(row[i].mul_spec(m[i][c]))
        }
    }
}

/// What is allowed for a sum of products is allowed for its beginning.
proof fn lemma_dot_allowed_prefix<T: Add<Output = T> + Mul<Output = T>>(
    zero: T,
    row: Seq<T>,
    m: Seq<Seq<T>>,
    c: int,
    k: nat,
    j: nat,
)
    requires
        dot_allowed(zero, row, m, c, k),
        j <= k,
    ensures
        dot_allowed(zero, row, m, c, j),
    decreases k,
{
    if j < k {
        lemma_dot_allowed_prefix(zero, row, m, c, (k - 1) as nat, j);
    }
}

/// Whether `x` is the sum of the products of `row` with column `c` of `m`
/// over `k` places, begun with a default value of `T`.
pub open spec fn is_product_entry<T: Default + Add<Output = T> + Mul<Output = T>>(
    x: T,
    row: Seq<T>,
    m: Seq<Seq<T>>,
    c: int,
    k: nat,
) -> bool {
    exists|zero: T| call_ensures(T::default, (), zero) && x == #[trigger] dot(zero, row, m, c, k)
}

impl<T: Clone + Copy + Default> Matrix<T> where T: Mul<Output = T> + Add<Output = T> {
    /// Whether the product with `rhs` finds an element at every place that it
    /// reads: in this matrix at every place of its rows and columns, unless
    /// `rhs` has no column, and in `rhs` at every place of its rows and
    /// columns, unless this matrix has no row.
    pub open spec fn meets(&self, rhs: &Self) -> bool {
        &&& forall|r: int, i: int|
            0 <= r < self.spec_rows() && 0 <= i < self.spec_cols() && rhs.spec_cols() > 0
                ==> #[trigger] self.has(r, i)
        &&& forall|i: int, c: int|
            0 <= i < self.spec_cols() && 0 <= c < rhs.spec_cols() && self.spec_rows() > 0
                ==> #[trigger] rhs.has(i, c)
    }

    /// Whether the sums of products that make up the product with `rhs` are
    /// allowed, whatever default value they begin with.
    pub open spec fn products_allowed(&self, rhs: &Self) -> bool {
        forall|zero: T, r: int, c: int|
            call_ensures(T::default, (), zero) && 0 <= r < self.spec_rows() && r < self@.len() && 0
                <= c < rhs.spec_cols() ==> #[trigger] dot_allowed(
                zero,
                self@[r],
                rhs@,
                c,
                self.spec_cols(),
            )
    }
}

/// Matrix product: the matrix whose element at row `r` and column `c` is the
/// sum of the products of row `r` of this matrix with column `c` of `rhs`,
/// where this matrix has as many columns as `rhs` has rows and the elements
/// to read exist; nothing otherwise.
impl<T: Clone + Copy + Default> Mul for Matrix<T> where T: Mul<Output = T> + Add<Output = T> {
    type Output = Option<Matrix<T>>;

    fn mul(self, rhs: Self) -> (out: Option<Matrix<T>>)
        ensures
            out is Some <==> self.spec_cols() == rhs.spec_rows() && self.meets(&rhs),
            out matches Some(m) ==> {
                &&& m.wf()
                &&& m.spec_rows() == self.spec_rows()
                &&& m.spec_cols() == rhs.spec_cols()
                &&& forall|r: int, c: int|
                    0 <= r < self.spec_rows() && 0 <= c < rhs.spec_cols() ==> is_product_entry(
                        #[trigger] m@[r][c],
                        self@[r],
                        rhs@,
                        c,
                        self.spec_cols(),
                    )
            },
    {
        if !(self.cols == rhs.rows) {
            return None;
        }
        let rows = self.rows;
        let cols = rhs.cols;
        let inner = self.cols;
        let mut result = Matrix::new(rows, cols);
        let ghost init = result@;
        for r in 0..rows
            invariant
                rows == self.rows,
                cols == rhs.cols,
                inner == self.cols == rhs.rows,
                T::obeys_add_spec(),
                T::obeys_mul_spec(),
                self.products_allowed(&rhs),
                result.wf(),
                result.spec_rows() == rows,
                result.spec_cols() == cols,
                init.len() == rows,
                forall|a: int| 0 <= a < rows ==> (#[trigger] init[a]).len() == cols,
                forall|a: int, b: int|
                    0 <= a < rows && 0 <= b < cols ==> call_ensures(
                        T::default,
                        (),
                        #[trigger] init[a][b],
                    ),
                forall|a: int, k: int|
                    0 <= a < r && 0 <= k < inner && cols > 0 ==> #[trigger] self.has(a, k),
                forall|k: int, b: int|
                    0 <= k < inner && 0 <= b < cols && r > 0 ==> #[trigger] rhs.has(k, b),
                forall|a: int, b: int|
                    0 <= a < rows && 0 <= b < cols ==> #[trigger] result@[a][b] == if a < r {
                        dot(init[a][b], self@[a], rhs@, b, inner as nat)
                    } else {
                        init[a][b]
                    },
        {
            for c in 0..cols
                invariant
                    rows == self.rows,
                    cols == rhs.cols,
                    inner == self.cols == rhs.rows,
                    r < rows,
                    T::obeys_add_spec(),
                    T::obeys_mul_spec(),
                    self.products_allowed(&rhs),
                    result.wf(),
                    result.spec_rows() == rows,
                    result.spec_cols() == cols,
                    init.len() == rows,
                    forall|a: int| 0 <= a < rows ==> (#[trigger] init[a]).len() == cols,
                    forall|a: int, b: int|
                        0 <= a < rows && 0 <= b < cols ==> call_ensures(
                            T::default,
                            (),
                            #[trigger] init[a][b],
                        ),
                    forall|a: int, k: int|
                        0 <= a < r && 0 <= k < inner && cols > 0 ==> #[trigger] self.has(a, k),
                    forall|k: int, b: int|
                        0 <= k < inner && 0 <= b < cols && r > 0 ==> #[trigger] rhs.has(k, b),
                    forall|k: int| 0 <= k < inner && c > 0 ==> #[trigger] self.has(r as int, k),
                    forall|k: int, b: int|
                        0 <= k < inner && 0 <= b < c ==> #[trigger] rhs.has(k, b),
                    forall|a: int, b: int|
                        0 <= a < rows && 0 <= b < cols ==> #[trigger] result@[a][b] == if a < r
                            || a == r && b < c {
                            dot(init[a][b], self@[a], rhs@, b, inner as nat)
                        } else {
                            init[a][b]
                        },
            {
                for i in 0..inner
                    invariant
                        rows == self.rows,
                        cols == rhs.cols,
                        inner == self.cols == rhs.rows,
                        r < rows,
                        c < cols,
                        T::obeys_add_spec(),
                        T::obeys_mul_spec(),
                        self.products_allowed(&rhs),
                        result.wf(),
                        result.spec_rows() == rows,
                        result.spec_cols() == cols,
                        init.len() == rows,
                        forall|a: int| 0 <= a < rows ==> (#[trigger] init[a]).len() == cols,
                        forall|a: int, b: int|
                            0 <= a < rows && 0 <= b < cols ==> call_ensures(
                                T::default,
                                (),
                                #[trigger] init[a][b],
                            ),
                        forall|a: int, k: int|
                            0 <= a < r && 0 <= k < inner && cols > 0 ==> #[trigger] self.has(a, k),
                        forall|k: int, b: int|
                            0 <= k < inner && 0 <= b < cols && r > 0 ==> #[trigger] rhs.has(k, b),
                        forall|k: int|
                            0 <= k < inner && c > 0 ==> #[trigger] self.has(r as int, k),
                        forall|k: int, b: int|
                            0 <= k < inner && 0 <= b < c ==> #[trigger] rhs.has(k, b),
                        forall|k: int| 0 <= k < i ==> #[trigger] self.has(r as int, k),
                        forall|k: int| 0 <= k < i ==> #[trigger] rhs.has(k, c as int),
                        forall|a: int, b: int|
                            0 <= a < rows && 0 <= b < cols ==> #[trigger] result@[a][b] == if a < r
                                || a == r && b < c {
                                dot(init[a][b], self@[a], rhs@, b, inner as nat)
                            } else if a == r && b == c {
                                dot(init[a][b], self@[a], rhs@, b, i as nat)
                            } else {
                                init[a][b]
                            },
                {
                    let ghost before = result@;
                    let ghost zero = init[r as int][c as int];
                    assert(result.has(r as int, c as int));
                    let val = match result.get(r, c) {
                        Some(x) => *x,
                        None => return None,
                    };
                    let lhs_val = match self.get(r, i) {
                        Some(x) => *x,
                        None => {
                            assert(!self.has(r as int, i as int));
                            return None;
                        },
                    };
                    let rhs_val = match rhs.get(i, c) {
                        Some(x) => *x,
                        None => {
                            assert(!rhs.has(i as int, c as int));
                            return None;
                        },
                    };
                    proof {
                        assert(self.has(r as int, i as int) && rhs.has(i as int, c as int));
                        assert(call_ensures(T::default, (), zero));
                        assert(dot_allowed(
                            zero,
                            self@[r as int],
                            rhs@,
                            c as int,
                            self.spec_cols(),
                        ));
                        lemma_dot_allowed_prefix(
                            zero,
                            self@[r as int],
                            rhs@,
                            c as int,
                            inner as nat,
                            (i + 1) as nat,
                        );
                        assert(val == before[r as int][c as int]);
                    }
                    let term = lhs_val * rhs_val;
                    let next = val + term;
                    result.set(r, c, next);
                    assert forall|a: int, b: int|
                        0 <= a < rows && 0 <= b < cols implies #[trigger] result@[a][b] == if a < r
                        || a == r && b < c {
                        dot(init[a][b], self@[a], rhs@, b, inner as nat)
                    } else if a == r && b == c {
                        dot(init[a][b], self@[a], rhs@, b, (i + 1) as nat)
                    } else {
                        init[a][b]
                    } by {
                        assert(result@[a][b] == if a == r && b == c {
                            next
                        } else {
                            before[a][b]
                        });
                    }
                }
            }
        }
        proof {
            assert forall|r: int, c: int|
                0 <= r < self.spec_rows() && 0 <= c < rhs.spec_cols() implies is_product_entry(
                #[trigger] result@[r][c],
                self@[r],
                rhs@,
                c,
                self.spec_cols(),
            ) by {
                assert(result@[r][c] == dot(init[r][c], self@[r], rhs@, c, inner as nat));
                assert(call_ensures(T::default, (), init[r][c]));
            }
        }
        Some(result)
    }
}

/// The result is stated at `mul` over the views of the matrices. It is not
/// stated as an equation between matrices, since two matrices with one view
/// need not be one value.
impl<T: Clone + Copy + Default> vstd::std_specs::ops::MulSpecImpl for Matrix<T> where T: Mul<Output = T> + Add<Output = T> {
    open spec fn obeys_mul_spec() -> bool {
        false
    }

    /// Where the shapes fit, the elements can be multiplied and the products
    /// added up, and by the rules of `T`.
    open spec fn mul_req(self, rhs: Matrix<T>) -> bool {
        &&& T::obeys_add_spec()
        &&& T::obeys_mul_spec()
        &&& self.spec_cols() == rhs.spec_rows() ==> self.products_allowed(&rhs)
    }

    open spec fn mul_spec(self, rhs: Matrix<T>) -> Option<Matrix<T>> {
        None
    }
}

} // verus!
