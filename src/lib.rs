//! Parsing of `sleep` durations: a decimal seconds argument read into
//! whole seconds and nanoseconds, and the rule on which command-line
//! arguments are accepted.
//!
//! A number is read as binary64 arithmetic reads it, with integers only:
//! the value is first rounded to the nearest binary64 number `x` (ties to
//! even, subnormals included), a value from `2^64` up is clamped, the whole
//! seconds are `x` truncated, and the nanoseconds are the binary64 number
//! nearest `frac(x) · 10^9`, truncated.
mod args;
mod binary64;
mod duration;
mod laws;
mod numeral;
mod parse;
mod text;

pub use args::{duration_argument, sleep_request, SleepError};
pub use duration::{Duration, MAX_SECS, NANOS_PER_SEC};
pub use laws::{
    law_clamps_to_max, law_negative_rejected, law_not_a_number_rejected,
    law_truncates_value,
};
pub use numeral::Numeral;
pub use parse::{parsed_duration, str_to_duration, DurationError};
