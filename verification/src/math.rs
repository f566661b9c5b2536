//! Number-theoretic utilities.

pub mod conv;
pub mod fermat;
pub mod gcd;
pub mod generator;
pub mod gf;
pub mod gf_comb;
pub mod integer;
pub mod miller_rabin;
pub mod modint;
pub mod prime;
