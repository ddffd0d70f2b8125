//! A verified kernel that applies a fixed 2x2 linear operator to every one of
//! the N binary axes of a 2^N-length vector, without materializing the N-fold
//! Kronecker-product matrix, together with a small bitstring-statistics
//! utility over measurement count tables.

pub mod bits;
pub mod magnet;
pub mod tensor;
