//! Pollard's p − 1 method: a search for a factor `p` of a composite number
//! whose predecessor `p − 1` is a product of small prime powers.
pub mod binomial;
pub mod congruence;
pub mod decimal;
pub mod divisibility;
pub mod factor;
pub mod laws;
pub mod limbs;
pub mod modular;
pub mod natural;
pub mod powersmooth;
pub mod prime_facts;
pub mod primes;
pub mod report;
pub mod smooth;

pub use factor::{factor, stage_one};
pub use natural::Natural;
pub use report::FactorError;
