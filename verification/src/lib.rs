//! Exact prime counting: the segmented wheel-30 sieve, the Lucy_Hedgehog
//! combinatorial counter, the Lagarias-Miller-Odlyzko counter with the proof
//! that its sums count the primes, and the arithmetic tables and helpers they
//! rest on.

pub mod number_theory;
pub mod roots;
pub mod wheel;
pub mod small_sieve;
pub mod marking;
pub mod presieve;
pub mod segment;
pub mod wheel_count;
pub mod wheel_sieve;
pub mod lucy;
pub mod fmt;
pub mod tables;
pub mod bits;
pub mod pi_sieve;
pub mod p2;
pub mod wheel30;
pub mod display;
pub mod leaves;
pub mod odd_sieve;
pub mod bit_sieve;
pub mod special_leaves;
pub mod lmo;
pub mod leaf_identity;
pub mod easy_leaves;
pub mod squarefree_tree;
pub mod phi0;
pub mod c1;
pub mod big_pi;
pub mod sigma;
pub mod valid_m;
pub mod d_tables;
pub mod hard_leaves;
pub mod dr;
pub mod ac;
pub mod b_term;
