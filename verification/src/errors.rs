//! The one way a search fails.

use vstd::prelude::*;

verus! {

/// No route exists: an endpoint is blocked, the target cannot be reached
/// through free cells, or no free cell can be reached at all.
#[derive(Debug, Clone, Copy, PartialEq, Eq, Structural)]
pub struct NoPathFoundError();

impl NoPathFoundError {
    /// The error's message.
    pub fn to_string(&self) -> (s: String)
        ensures
            s@ == "no path found error"@,
    {
        String::from_str("no path found error")
    }
}

} // verus!
