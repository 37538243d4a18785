//! Verified data structures and algorithms for competitive programming.

pub mod change_min_max;
pub mod segment_tree;
pub mod union_find;
pub mod gcd;
pub mod modint;
pub mod combinatorics;
pub mod z_algo;
pub mod auto_sort_vec;
pub mod ordering;
pub mod my_string;
pub mod sort_vec_binary_search;
pub mod xor_shift_64;
pub mod grid_util;
pub mod bit_set;
pub mod segment_tree_2d;
pub mod pair_point;
pub mod permutation;
pub mod deletable_binary_heap;
pub mod lazy_segment_tree;
pub mod rooted_tree;
pub mod strongly_connected_component;
pub mod matrix;
pub mod rational;
pub mod mo;
pub mod solver;
pub mod rolling_hash;
pub mod map_counter;
pub mod integer_operation;
pub mod coordinate_compress;
pub mod convex_hull;
pub mod flow;
pub mod manhattan_mst;
pub mod btree_binary_search;
pub mod suffix_array;
pub mod xor_basis;
pub mod line2d;
