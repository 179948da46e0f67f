//! What the reader tolerates.

use vstd::prelude::*;

verus! {

/// Configures the reader.
#[derive(Clone, Copy, Debug)]
pub struct JsonConfig {
    /// How deeply arrays and objects may nest.
    pub max_depth: u32,
    /// Whether a comma before a closing bracket or brace is passed over
    /// instead of being refused.
    pub recover_from_errors: bool,
    /// Whether `//` and `/* */` comments are passed over instead of being
    /// refused.
    pub allow_comments: bool,
}

impl JsonConfig {
    /// The strictest reading with the deepest nesting: no recovery, no
    /// comments.
    pub open spec fn strict() -> JsonConfig {
        JsonConfig { max_depth: u32::MAX, recover_from_errors: false, allow_comments: false }
    }
}

impl Default for JsonConfig {
    fn default() -> (r: JsonConfig)
        ensures
            r == JsonConfig::strict(),
    {
        JsonConfig { max_depth: u32::MAX, recover_from_errors: false, allow_comments: false }
    }
}

} // verus!
