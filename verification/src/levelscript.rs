//! Recognising level-script binaries among script files.

use vstd::prelude::*;

verus! {

/// Whether a script binary is a level script: one of exactly eight bytes,
/// or one whose seventh byte is missing or not zero.
pub open spec fn spec_is_levelscript(b: Seq<u8>) -> bool {
    b.len() == 8 || b.len() <= 6 || b[6] != 0
}

/// Tells a level-script binary from an ordinary script binary.
pub fn is_levelscript(byte_array: &Vec<u8>) -> (r: bool)
    ensures
        r == spec_is_levelscript(byte_array@),
{
    if byte_array.len() == 8 {
        true
    } else if byte_array.len() <= 6 {
        true
    } else {
        byte_array[6] != 0
    }
}

} // verus!
