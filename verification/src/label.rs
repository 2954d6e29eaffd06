//! What a drawing shows of a node.

use vstd::prelude::*;
use vstd::string::StringSliceAdditionalSpecFns;

verus! {

/// The byte that separates the components of a path.
pub const SEPARATOR: u8 = 0x2F;

/// Where the final path component of a filename begins, as a byte offset:
/// just after the last separator, or at 0 where there is none.
pub fn base_name_start(filename: &str) -> (start: usize)
    ensures
        start <= filename.spec_bytes().len(),
        start > 0 ==> filename.spec_bytes()[start - 1] == SEPARATOR,
        forall|i: int| start <= i < filename.spec_bytes().len() ==> filename.spec_bytes()[i] != SEPARATOR,
{
    let bytes = filename.as_bytes();
    let mut i: usize = bytes.len();
    while i > 0
        invariant
            i <= bytes@.len(),
            bytes@ == filename.spec_bytes(),
            forall|k: int| i <= k < bytes@.len() ==> bytes@[k] != SEPARATOR,
        decreases i,
    {
        if bytes[i - 1] == SEPARATOR {
            return i;
        }
        i -= 1;
    }
    0
}

} // verus!
