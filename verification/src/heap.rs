//! Zeroed blocks for the running program.

use vstd::prelude::*;
use crate::error::ErrorKind;

verus! {

/// A block of `size` bytes, all zero. A block of no bytes is refused, and so
/// is one of more bytes than can be addressed.
pub fn jpl_alloc(size: u64) -> (r: Result<Vec<u8>, ErrorKind>)
    ensures
        0 < size <= usize::MAX ==> r is Ok && r->Ok_0@ == Seq::new(size as nat, |i: int| 0u8),
        !(0 < size <= usize::MAX) ==> r == Err::<Vec<u8>, ErrorKind>(ErrorKind::AllocationError),
{
    if size == 0 || size > usize::MAX as u64 {
        return Err(ErrorKind::AllocationError);
    }
    let block = vec![0u8; size as usize];
    assert(block@ =~= Seq::new(size as nat, |i: int| 0u8));
    Ok(block)
}

} // verus!
