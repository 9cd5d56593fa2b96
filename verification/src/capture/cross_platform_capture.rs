//! The portable capture fallback: fixed placeholder window metadata.

use vstd::prelude::*;

verus! {

/// The placeholder application name and window title used where no
/// platform-specific window query is available.
pub fn get_focused_window_info() -> (r: Option<(String, String)>)
    ensures
        r matches Some(p) && p.0@ == "Unknown App"@ && p.1@ == "Unknown Window"@,
{
    Some((String::from_str("Unknown App"), String::from_str("Unknown Window")))
}

} // verus!
