//! Settings of the command line program that are plain decisions.
use vstd::prelude::*;

verus! {

/// The log level for a count of `-v` flags and the quiet flag.
pub open spec fn verbosity_spec(verbose: u8, quiet: bool) -> Seq<char> {
    if verbose == 0 {
        if quiet {
            "error"@
        } else {
            "warn"@
        }
    } else if verbose == 1 {
        "info"@
    } else if verbose == 2 {
        "debug"@
    } else {
        "trace"@
    }
}

/// The log level for a count of `-v` flags and the quiet flag.
pub fn verbosity_name(verbose: u8, quiet: bool) -> (r: &'static str)
    ensures
        r@ == verbosity_spec(verbose, quiet),
{
    match verbose {
        0 => if quiet {
            "error"
        } else {
            "warn"
        },
        1 => "info",
        2 => "debug",
        _ => "trace",
    }
}

} // verus!
