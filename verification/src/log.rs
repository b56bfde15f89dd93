//! Lines for the log; the whole program only needs three levels.

use vstd::prelude::*;

use crate::text::push_text;

verus! {

/// What is worth a line.
pub struct Log {
    pub verbose: bool,
}

pub fn set_verbose(log: &mut Log, on: bool)
    ensures
        final(log).verbose == on,
{
    log.verbose = on;
}

/// A line for everybody.
pub fn info(msg: &str) -> (line: String)
    ensures
        line@ == "rvnc: "@ + msg@,
{
    let mut line: String = "rvnc: ".to_owned();
    push_text(&mut line, msg);
    line
}

/// A line about something that is amiss.
pub fn warn(msg: &str) -> (line: String)
    ensures
        line@ == "rvnc: warning: "@ + msg@,
{
    let mut line: String = "rvnc: warning: ".to_owned();
    push_text(&mut line, msg);
    line
}

/// A line for those who want to know more.
pub fn debug(log: &Log, msg: &str) -> (line: Option<String>)
    ensures
        match line {
            Some(l) => log.verbose && l@ == "rvnc: "@ + msg@,
            None => !log.verbose,
        },
{
    if log.verbose {
        Some(info(msg))
    } else {
        None
    }
}

} // verus!
