//! The failure type reported by cache operations.

use vstd::prelude::*;

verus! {

/// A typed failure: an invalid pattern, a capture into a reserved name, a
/// matcher build failure, or an I/O failure while streaming.
#[derive(Debug)]
pub struct JsonDataCacheError {
    pub msg: String,
}

impl JsonDataCacheError {
    /// The human-readable description of the failure.
    pub fn message(&self) -> (r: &str)
        ensures
            r@ == self.msg@,
    {
        self.msg.as_str()
    }
}

impl From<String> for JsonDataCacheError {
    fn from(msg: String) -> (r: Self) {
        JsonDataCacheError { msg }
    }
}

impl vstd::std_specs::convert::FromSpecImpl<String> for JsonDataCacheError {
    open spec fn obeys_from_spec() -> bool {
        true
    }

    open spec fn from_spec(msg: String) -> Self {
        JsonDataCacheError { msg }
    }
}

} // verus!
