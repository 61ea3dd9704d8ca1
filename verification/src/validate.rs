//! The format validator: a byte block must begin with the text that the
//! format prescribes.

use vstd::prelude::*;
use vstd::string::StringSliceAdditionalSpecFns;
use crate::error::DrsError;
use crate::error::DrsErrorView;

verus! {

/// Checks that `bytes` begins with `expected`. The block may be longer than
/// the text but not shorter. A failure names the file that was being read.
pub fn validate_str(file_name: &str, bytes: &[u8], expected: &str) -> (r: Result<(), DrsError>)
    ensures
        match r {
            Ok(_) => expected.spec_bytes().is_prefix_of(bytes@),
            Err(e) => !expected.spec_bytes().is_prefix_of(bytes@) && e@ == DrsErrorView::InvalidDrs(
                file_name@,
            ),
        },
{
    let text = expected.as_bytes();
    if bytes.len() < text.len() {
        return Err(DrsError::InvalidDrs(file_name.to_owned()));
    }
    let mut i: usize = 0;
    while i < text.len()
        invariant
            i <= text.len() <= bytes.len(),
            text@ == expected.spec_bytes(),
            forall|k: int| 0 <= k < i ==> text@[k] == bytes@[k],
        decreases text.len() - i,
    {
        if bytes[i] != text[i] {
            assert(text@[i as int] != bytes@.subrange(0, text@.len() as int)[i as int]);
            return Err(DrsError::InvalidDrs(file_name.to_owned()));
        }
        i += 1;
    }
    assert(text@ =~= bytes@.subrange(0, text@.len() as int));
    Ok(())
}

} // verus!
