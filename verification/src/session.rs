//! Identity of one streaming recognition scope.
use vstd::prelude::*;

verus! {

/// Host-neutral identity for one streaming recognition scope.
#[derive(Debug, Clone, Copy, PartialEq, Eq, Hash, Structural)]
pub struct StreamingSessionId {
    pub scope: u64,
    pub item: Option<u64>,
}

impl StreamingSessionId {
    pub fn new(scope: u64, item: Option<u64>) -> (id: Self)
        ensures
            id.scope == scope,
            id.item == item,
    {
        StreamingSessionId { scope, item }
    }
}

} // verus!
