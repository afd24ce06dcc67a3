//! The filters over storage whose size is fixed at compile time: the same
//! buckets and the same sweeps, in an array instead of a vector.

pub mod buckets;
pub mod classic;
pub mod stable;
