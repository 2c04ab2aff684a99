//! What the functions of the crate are for, in terms of bytes, numbers and BLAKE3 itself.
pub mod hashes;
pub mod traversals;
pub mod numbers;
pub mod outboards;
pub mod responses;
pub mod validation;
pub mod stores;
pub mod walks;
pub mod decoders;
