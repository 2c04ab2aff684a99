//! What can go wrong.
use vstd::prelude::*;

use crate::node::TreeNode;
use crate::num::ChunkNum;

verus! {

/// An error of the input or the output.
#[verifier::external_type_specification]
#[verifier::external_body]
pub struct ExIoError(std::io::Error);

/// Whether the kind of an error, as `std::io::Error::kind` gives it, is
/// `ErrorKind::UnexpectedEof`.
pub uninterp spec fn is_unexpected_eof(e: std::io::Error) -> bool;

/// `std::io::Error::from` on `ErrorKind::UnexpectedEof`: an error of that kind, for
/// input that ends too early.
#[verifier::external_body]
pub(crate) fn unexpected_eof() -> (r: std::io::Error)
    ensures
        is_unexpected_eof(r),
{
    std::io::Error::from(std::io::ErrorKind::UnexpectedEof)
}

/// Why a response could not be decoded.
#[derive(Debug)]
pub enum DecodeError {
    /// The input failed, or ended too early; or the output failed.
    Io(std::io::Error),
    /// A hash pair does not have the hash that its parent promised.
    ParentHashMismatch(TreeNode),
    /// A block does not have the hash that its parent promised.
    LeafHashMismatch(ChunkNum),
    /// The query is not in canonical form for the size of the blob.
    InvalidQueryRange,
}

/// Why a response could not be encoded.
#[derive(Debug)]
pub enum EncodeError {
    /// The data, the outboard or the output failed.
    Io(std::io::Error),
    /// A hash pair of the outboard does not have the hash that its parent promised.
    ParentHashMismatch(TreeNode),
    /// A block does not have the hash that its parent promised.
    LeafHashMismatch(ChunkNum),
    /// The query is not in canonical form for the size of the blob.
    InvalidQueryRange,
    /// The data and the outboard disagree about the size.
    SizeMismatch,
}

} // verus!
