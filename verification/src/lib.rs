//! A small collection of verified in-memory data structures: a self-balancing
//! ordered binary search tree with two in-order traversal protocols, exact
//! rational arithmetic over reduced fractions, and a row-major matrix.

pub mod avl_iter;
pub mod avl_tree;
pub mod conv;
pub mod frac;
pub mod matrix;
pub mod rational;
