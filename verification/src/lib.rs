//! Clipboard translation helper: a dictionary of source/target text mappings,
//! exact lookup, fuzzy search over both sides of each mapping, and a polling
//! state machine that detects a double-copy gesture on the system clipboard.
use vstd::prelude::*;

pub mod monitor;
pub mod search;
pub mod store;
pub mod text;

verus! {

use vstd::string::StringExecFns;

/// The crate's version string, as shown in the menu's about entry.
pub fn get_app_version() -> (r: String)
    ensures
        r@ == "0.1.0"@,
{
    String::from_str("0.1.0")
}

} // verus!
