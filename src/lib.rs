//! Counting quadruples `(i0, i1, i2, i3)` of positions in a sequence of `u64`
//! where `i0` precedes the three others and the value at `i0` equals the
//! product of the values at `i1`, `i2` and `i3`.
//!
//! Two counters are offered: a quadratic one, proved to return the exact
//! count (`model::count_quadruples`, capped at `u64::MAX`), and a
//! sub-quadratic one built on integer factorization and rank queries.
use vstd::prelude::*;

pub mod combinatorics;
pub mod data_sets;
pub mod divisors;
mod int_map;
pub mod model;
pub mod positions;
pub mod primes;
pub mod quadratic;
pub mod subquadratic;

pub use combinatorics::{pair_count, triple_count};
pub use data_sets::{small_unique_numbers, very_big_numbers, very_small_numbers, SIZE};
pub use divisors::{count_triplets, find_dividers, find_first_dividers, find_second_dividers};
pub use positions::{index_positions, FastHashSet, DENSE_KEYS};
pub use quadratic::quadratic_algorithm;
pub use subquadratic::{
    count_elements_2, count_elements_3, count_elements_4, count_greater, count_zeros,
    subquadratic_algorithm, MAX_LEN,
};

verus! {

} // verus!
