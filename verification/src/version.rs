//! The version of the compiled core.

use vstd::prelude::*;

verus! {

/// Return the exact version of the compiled core.
pub fn core_version() -> (version: String)
    ensures
        version@ == "0.1.0"@,
{
    "0.1.0".to_owned()
}

} // verus!
