pub mod math;
pub mod order;
pub mod binary_search;
pub mod heap;
pub mod perm;
pub mod sort;
pub mod modulo;
pub mod union_find;
pub mod monoid;
pub mod num;
pub mod segtree;
