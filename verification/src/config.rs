//! Configuration passed to the decode entry points.

use vstd::prelude::*;

verus! {

/// Configuration passed to a read function.
#[derive(Clone, Copy, Debug, PartialEq, Eq, Structural)]
pub struct ReadConfig {
    /// When `true`, a decode that leaves unconsumed input fails with
    /// `ReadError::TrailingBytes` instead of ignoring the extra bytes.
    pub error_on_trailing_bytes: bool,
}

impl Default for ReadConfig {
    /// The lenient configuration: trailing bytes are ignored.
    fn default() -> (r: Self)
        ensures
            !r.error_on_trailing_bytes,
    {
        ReadConfig { error_on_trailing_bytes: false }
    }
}

} // verus!
