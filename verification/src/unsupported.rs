//! Application discovery where the platform offers none.
use vstd::prelude::*;

use crate::options::OpenOption;

verus! {

pub open spec fn unsupported_text() -> Seq<char> {
    "application discovery is not supported on this platform"@
}

/// Discovery on a platform that has no way to list applications: it always
/// fails, saying so.
pub fn discover_open_options() -> (r: Result<Vec<OpenOption>, String>)
    ensures
        r matches Err(e) && e@ == unsupported_text(),
{
    Err("application discovery is not supported on this platform".to_string())
}

} // verus!
