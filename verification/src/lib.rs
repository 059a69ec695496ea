//! Classic algorithms and data structures with machine-checked contracts:
//! a generic segment tree, exponentiation by squaring, the extended Euclidean
//! algorithm, a dense matrix type and four sorting routines.

pub mod algebra;
pub mod fold;
pub mod matrix;
pub mod segtree;
pub mod sortings;
