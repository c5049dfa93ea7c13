//! What the command line and the environment ask for.
use vstd::prelude::*;
use vstd::string::*;

verus! {

/// How much is logged.
#[derive(Clone, Copy, Debug, PartialEq, Eq, Structural)]
pub enum LogLevel {
    Info,
    Debug,
    Trace,
}

/// The level that the flag `-v`, given `verbose` times, asks for.
pub fn log_level(verbose: u8) -> (r: LogLevel)
    ensures
        r == (if verbose == 0 {
            LogLevel::Info
        } else if verbose == 1 {
            LogLevel::Debug
        } else {
            LogLevel::Trace
        }),
{
    match verbose {
        0 => LogLevel::Info,
        1 => LogLevel::Debug,
        _ => LogLevel::Trace,
    }
}

/// The directory to download to: `dir`, or the downloads in the directory `home`.
pub fn output_dir(dir: Option<String>, home: &str) -> (r: String)
    ensures
        r@ == (match dir {
            Some(d) => d@,
            None => home@ + "/Downloads"@,
        }),
{
    match dir {
        Some(d) => d,
        None => {
            let mut r = home.to_owned();
            r.append("/Downloads");
            r
        },
    }
}

} // verus!
