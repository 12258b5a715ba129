//! The library's trusted boundary: contracts for outside functions that
//! Verus takes on faith. Each item names the function it relies on.

use vstd::prelude::*;

verus! {

/// Relies on `alloc::string::String::push`: its documentation states that it
/// appends the given `char` to the end of the string.
pub assume_specification[ String::push ](s: &mut String, c: char)
    ensures
        final(s)@ == old(s)@.push(c),
;

/// Relies on `chrono::Local::now` and `chrono::DateTime::format` with the
/// `%Y-%m-%d` pattern to render the current local calendar date. The result
/// depends on the system clock and time zone, so nothing is promised of it.
#[verifier::external_body]
pub fn today_string() -> String {
    chrono::Local::now().format("%Y-%m-%d").to_string()
}

} // verus!
