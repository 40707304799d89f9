use crate::duration::Duration;
use crate::parse::{parsed_duration, str_to_duration, DurationError};
use vstd::prelude::*;

verus! {

/// Why an invocation does not sleep.
#[derive(Clone, Copy, Debug, PartialEq, Eq, Structural)]
pub enum SleepError {
    /// The arguments are not of an accepted shape.
    UsageError,
    /// The duration argument gives no duration.
    Duration(DurationError),
}

/// Which argument holds the duration: the only one, or the second of two
/// when the first is `--`. Any other shape is not accepted.
pub open spec fn duration_argument_index(args: Seq<Seq<char>>) -> Option<int> {
    if args.len() == 1 {
        Some(0)
    } else if args.len() == 2 && args[0] == seq!['-', '-'] {
        Some(1)
    } else {
        None
    }
}

/// The arguments as character sequences.
pub open spec fn arguments_view(args: Seq<String>) -> Seq<Seq<char>> {
    args.map_values(|a: String| a@)
}

/// The index of the argument that holds the duration, in the arguments
/// that follow the program's name.
pub fn duration_argument(args: &Vec<String>) -> (r: Option<usize>)
    ensures
        r matches Some(i) ==> duration_argument_index(arguments_view(args@)) == Some(i as int),
        r is None ==> duration_argument_index(arguments_view(args@)) is None,
{
    let ghost view = arguments_view(args@);
    if args.len() == 1 {
        Some(0)
    } else if args.len() == 2 {
        let first = args[0].as_str();
        assert(first@ == view[0]);
        let dashes = first.unicode_len() == 2 && first.get_char(0) == '-' && first.get_char(1)
            == '-';
        if dashes {
            assert(view[0] =~= seq!['-', '-']);
            Some(1)
        } else {
            assert(view[0] != seq!['-', '-']) by {
                if view[0] == seq!['-', '-'] {
                    assert(view[0][0] == '-' && view[0][1] == '-');
                }
            }
            None
        }
    } else {
        None
    }
}

/// Decides what an invocation with the arguments `args` (the program's name
/// left out) does: sleep for the duration returned, or fail.
pub fn sleep_request(args: &Vec<String>) -> (r: Result<Duration, SleepError>)
    ensures
        match duration_argument_index(arguments_view(args@)) {
            None => r == Err::<Duration, SleepError>(SleepError::UsageError),
            Some(i) => match parsed_duration(args@[i]@) {
                Ok(v) => r matches Ok(d) && d@ == v,
                Err(e) => r == Err::<Duration, SleepError>(SleepError::Duration(e)),
            },
        },
{
    match duration_argument(args) {
        None => Err(SleepError::UsageError),
        Some(i) => match str_to_duration(args[i].as_str()) {
            Ok(d) => Ok(d),
            Err(e) => Err(SleepError::Duration(e)),
        },
    }
}

} // verus!
