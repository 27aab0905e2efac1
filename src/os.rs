//! Operating system identity: release description and kernel.

use vstd::prelude::*;
use crate::text::owned;
use vstd::string::StringExecFns;

verus! {

/// What the release file and the kernel say about the system.
#[derive(Debug, Clone, PartialEq, Eq)]
pub struct OsSnapshot {
    pub pretty_name: String,
    pub name: String,
    pub version: Option<String>,
    pub version_id: Option<String>,
    pub id_like: Vec<String>,
    pub kernel_release: String,
    pub kernel_version: String,
    pub machine: String,
}

impl OsSnapshot {
    /// The one-line summary: the release name and the kernel release.
    pub fn summary(&self) -> (r: String)
        ensures
            r@ == self.pretty_name@ + " (kernel "@ + self.kernel_release@ + ")"@,
    {
        let mut r = owned(self.pretty_name.as_str());
        r.append(" (kernel ");
        r.append(self.kernel_release.as_str());
        r.append(")");
        r
    }
}

} // verus!
