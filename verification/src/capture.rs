//! Window metadata for the capture flow.
//!
//! Screenshots and platform window queries live in the application shell;
//! this module holds the portable fallback that names the focused window
//! when no platform backend is wired in.

pub mod cross_platform_capture;

use vstd::prelude::*;

verus! {

/// The focused window's application name and title: the portable
/// placeholder pair.
pub fn get_focused_window_info() -> (r: Option<(String, String)>)
    ensures
        r matches Some(p) && p.0@ == "Unknown App"@ && p.1@ == "Unknown Window"@,
{
    cross_platform_capture::get_focused_window_info()
}

} // verus!
