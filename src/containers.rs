//! Alternative container runtimes found on the host.

use vstd::prelude::*;
use crate::text::{decimal, decimal_of, lines, lines_of, trim, trim_of};
use vstd::string::StrSliceExecFns;
use vstd::string::StringExecFns;

verus! {

/// A runtime and the version line it reported.
#[derive(Debug, Clone, PartialEq, Eq)]
pub struct RuntimeInfo {
    pub name: String,
    pub version: Option<String>,
}

/// The runtimes that answered.
#[derive(Debug, Clone, PartialEq, Eq)]
pub struct ContainersSnapshot {
    pub runtimes: Vec<RuntimeInfo>,
}

impl ContainersSnapshot {
    /// The one-line summary: how many runtimes were found.
    pub fn summary(&self) -> (r: String)
        ensures
            r@ == if self.runtimes@.len() == 0 {
                "No alternative container runtimes detected"@
            } else {
                decimal_of(self.runtimes@.len()) + " runtime(s) detected"@
            },
    {
        if self.runtimes.len() == 0 {
            String::from_str("No alternative container runtimes detected")
        } else {
            let mut r = decimal(self.runtimes.len() as u128);
            r.append(" runtime(s) detected");
            r
        }
    }
}

/// The first line of a version report, trimmed; none when it is blank.
pub open spec fn version_of(output: Seq<char>) -> Option<Seq<char>> {
    let first = if lines_of(output).len() > 0 { lines_of(output)[0] } else { output };
    if trim_of(first).len() == 0 {
        None
    } else {
        Some(trim_of(first))
    }
}

/// The version of a runtime from what it printed.
pub fn extract_version(output: &str) -> (r: Option<String>)
    ensures
        match r {
            Some(v) => version_of(output@) == Some(v@),
            None => version_of(output@) is None,
        },
{
    let ls = lines(output);
    let first = if ls.len() > 0 { trim(ls[0].as_str()) } else { trim(output) };
    if first.as_str().unicode_len() == 0 {
        None
    } else {
        Some(first)
    }
}

} // verus!
