//! Reading from bytes in memory.
use vstd::prelude::*;

use crate::error;

verus! {

/// Takes the first `len` bytes off the input. Input that is shorter is an error,
/// and stays as it is.
pub(crate) fn read_exact<'a>(from: &mut &'a [u8], len: usize) -> (r: Result<&'a [u8], std::io::Error>)
    ensures
        r is Ok <==> old(from)@.len() >= len,
        r matches Ok(bytes) ==> bytes@ == old(from)@.take(len as int) && final(from)@
            == old(from)@.skip(len as int),
        r is Err ==> final(from)@ == old(from)@,
        r matches Err(e) ==> error::is_unexpected_eof(e),
{
    let input: &'a [u8] = *from;
    if input.len() < len {
        return Err(error::unexpected_eof());
    }
    let (bytes, rest) = input.split_at(len);
    *from = rest;
    assert(bytes@ =~= input@.take(len as int));
    assert(rest@ =~= input@.skip(len as int));
    Ok(bytes)
}

} // verus!
