//! Exit-policy analysis: port sets held as bit arrays, the coarsest
//! partition of the port space that a list of exit policies induces, and the
//! cost of merging the parts of that partition.

pub mod bits;
pub mod bitarray;
pub mod policy;
pub mod parse;
pub mod cover;
pub mod supporters;
pub mod analysis;
pub mod greedy;
pub mod coverage;
pub mod display;
pub mod readback;
