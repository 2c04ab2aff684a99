//! Verified streaming of BLAKE3 trees.
//!
//! A blob is hashed as a binary tree over blocks of `1024 << n` bytes. The hash
//! pairs of the inner nodes form the outboard; with it any set of chunk ranges
//! can be sent and checked on arrival, one hash pair or block at a time.
pub mod buffer;
pub mod consistency;
pub mod decode;
pub mod decoded;
pub mod encode;
pub mod error;
pub mod genuine;
pub mod hash;
pub mod io;
pub mod iter;
pub mod laws;
pub mod node;
pub mod num;
pub mod outboard;
pub mod pow;
pub mod ranges;
pub mod response;
pub mod round_trip;
pub mod served;
pub mod source;
pub mod tree;
pub mod validate;
pub mod validated;
pub mod validity;
