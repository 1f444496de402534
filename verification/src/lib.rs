//! Expressing a large integer as a product of prime powers.
//!
//! The library generates candidate primes up to a bound, encodes and
//! validates a bound-keyed cache of that sequence, and searches over
//! exponent assignments for one whose prime-power product matches a
//! target, reporting an exact match or the closest product seen.

pub mod big;
pub mod cache;
pub mod primes;
pub mod search;
