//! Enumeration of smooth numbers over a table of primes, with a scanner that
//! looks for gaps between consecutive smooth numbers.

pub mod primes;
pub mod composite;
pub mod generate;
pub mod sorted;
pub mod smooths;
pub mod factor;
pub mod gaps;
