//! The system clock, as far as the collector uses it to time its cycles.
//!
//! Nothing here is proved: these are the declarations under which the
//! verified code may call the standard library's clock. None of them says
//! anything about the values that the clock returns.

use vstd::prelude::*;

verus! {

/// `std::time::SystemTime`, a reading of the system clock. Verified code
/// can hold such a value and hand it on, and sees nothing of its contents.
#[verifier::external_type_specification]
#[verifier::external_body]
pub struct ExSystemTime(std::time::SystemTime);

/// `std::time::SystemTimeError`, the error of `SystemTime::elapsed` where
/// the clock has gone backwards. Opaque to verified code.
#[verifier::external_type_specification]
#[verifier::external_body]
pub struct ExSystemTimeError(std::time::SystemTimeError);

/// `std::time::SystemTime::now` reads the system clock. The call always
/// returns; nothing is claimed of the reading.
pub assume_specification[ std::time::SystemTime::now ]() -> (now: std::time::SystemTime)
;

/// `std::time::SystemTime::elapsed` gives the time passed since the reading
/// was taken, or an error where the clock has since been set back. The call
/// always returns; nothing is claimed of which of the two comes back.
pub assume_specification[ std::time::SystemTime::elapsed ](
    earlier: &std::time::SystemTime,
) -> (elapsed: Result<std::time::Duration, std::time::SystemTimeError>)
;

/// `std::time::Duration::as_millis` gives a duration in whole milliseconds.
/// The call always returns; the duration being opaque, nothing is claimed
/// of the number.
pub assume_specification[ std::time::Duration::as_millis ](
    duration: &std::time::Duration,
) -> (millis: u128)
;

} // verus!
