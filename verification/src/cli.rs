//! Command-line decisions: how many `-v` flags select which log filter.
use vstd::prelude::*;

verus! {

/// The log filter that a given number of `-v` occurrences selects.
pub open spec fn log_filter_spec(verbosity: u64) -> Seq<char> {
    if verbosity == 0 {
        "error"@
    } else if verbosity == 1 {
        "warn"@
    } else if verbosity == 2 {
        "tlrl=info"@
    } else if verbosity == 3 {
        "tlrl=debug"@
    } else if verbosity == 4 {
        "debug"@
    } else {
        "trace"@
    }
}

/// Maps the number of `-v` flags on the command line to the default log filter.
pub fn log_filter(verbosity: u64) -> (filter: &'static str)
    ensures
        filter@ == log_filter_spec(verbosity),
{
    if verbosity == 0 {
        "error"
    } else if verbosity == 1 {
        "warn"
    } else if verbosity == 2 {
        "tlrl=info"
    } else if verbosity == 3 {
        "tlrl=debug"
    } else if verbosity == 4 {
        "debug"
    } else {
        "trace"
    }
}

} // verus!
