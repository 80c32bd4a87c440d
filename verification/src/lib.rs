//! Text indexing on top of a suffix array: rank arrays, nearest smaller
//! values, range minima, LCP intervals, and the string algorithms that
//! consume them (LZ77, Lyndon factorization, Burrows-Wheeler transforms,
//! minimal unique substrings, string attractors).

pub mod attractor;
pub mod bbwt;
pub mod bit_index;
pub mod border;
pub mod bwt;
pub mod bwt_law;
pub mod codec;
pub mod enumerate;
pub mod escape;
pub mod generators;
pub mod interval_tree;
pub mod lyndon;
pub mod lz77;
pub mod mus;
pub mod naive_sort;
pub mod nearest;
pub mod range_min;
pub mod rank_arrays;
pub mod rle;
pub mod rotation;
pub mod sorted;
pub mod suffix_sort;
pub mod text;
pub mod util;
pub mod validate;
pub mod words;
