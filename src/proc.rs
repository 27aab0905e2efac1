//! Memory accounting of the tool's own control group: where to look and how to read it.

use vstd::prelude::*;
use crate::docker::strip_leading;
use crate::text::{ascii_lower_of, owned, parse_u64, str_eq, trim, trim_of, u64_of, views};
use vstd::string::StrSliceExecFns;
use vstd::string::StringExecFns;

verus! {

/// Why a control-group counter could not be read.
#[derive(Debug, Clone, Copy, PartialEq, Eq, Structural)]
pub enum CounterError {
    /// The file holds neither a number nor `max`.
    NotANumber,
}

/// The reading of a control-group counter file: nothing for an empty file, `max` (in any
/// case) or a value at the top of the range, which mean no limit.
pub open spec fn counter_of(content: Seq<char>) -> Result<Option<u64>, CounterError> {
    let t = trim_of(content);
    if t.len() == 0 || ascii_lower_of(t) == "max"@ {
        Ok(None)
    } else {
        match u64_of(t) {
            Some(v) => if v >= u64::MAX - 1 { Ok(None) } else { Ok(Some(v)) },
            None => Err(CounterError::NotANumber),
        }
    }
}

/// Reads a control-group counter file's content.
pub fn parse_counter(content: &str) -> (r: Result<Option<u64>, CounterError>)
    ensures
        r == counter_of(content@),
{
    let t = trim(content);
    let lower = crate::text::ascii_lower(t.as_str());
    if t.as_str().unicode_len() == 0 || str_eq(lower.as_str(), "max") {
        return Ok(None);
    }
    match parse_u64(t.as_str()) {
        Some(v) => if v >= 0xffff_ffff_ffff_fffe { Ok(None) } else { Ok(Some(v)) },
        None => Err(CounterError::NotANumber),
    }
}

/// The directory of control group `relative` under hierarchy root `base`.
pub open spec fn cgroup_dir_of(base: Seq<char>, relative: Seq<char>) -> Seq<char> {
    if relative == "/"@ {
        base
    } else {
        base + "/"@ + strip_leading(relative, '/')
    }
}

/// The directory of control group `relative` under hierarchy root `base`.
pub fn join_cgroup_path(base: &str, relative: &str) -> (r: String)
    ensures
        r@ == cgroup_dir_of(base@, relative@),
{
    if str_eq(relative, "/") {
        return owned(base);
    }
    let mut r = owned(base);
    r.append("/");
    r.append(crate::docker::strip_slashes(relative).as_str());
    r
}

/// One line of a process's cgroup file.
#[derive(Debug, Clone)]
pub struct CgroupLine {
    pub controllers: Vec<String>,
    pub pathname: String,
}

/// Where memory counters may be found: the unified hierarchy or the legacy memory one.
#[derive(Debug, Clone)]
pub struct CgroupMemoryDir {
    pub unified: bool,
    pub dir: String,
    pub relative: String,
}

/// The candidate directories of one cgroup line: the unified hierarchy for a line without
/// controllers, the legacy memory hierarchy for a line with the memory controller.
pub open spec fn line_dirs(l: CgroupLine) -> Seq<(bool, Seq<char>, Seq<char>)> {
    (if l.controllers@.len() == 0 {
        seq![(true, cgroup_dir_of("/sys/fs/cgroup"@, l.pathname@), l.pathname@)]
    } else {
        Seq::empty()
    }) + (if views(l.controllers@).contains("memory"@) {
        seq![(false, cgroup_dir_of("/sys/fs/cgroup/memory"@, l.pathname@), l.pathname@)]
    } else {
        Seq::empty()
    })
}

/// The candidate directories of all lines, in order.
pub open spec fn memory_dirs_of(ls: Seq<CgroupLine>) -> Seq<(bool, Seq<char>, Seq<char>)>
    decreases ls.len(),
{
    if ls.len() == 0 {
        Seq::empty()
    } else {
        memory_dirs_of(ls.drop_last()) + line_dirs(ls.last())
    }
}

/// The view of a candidate directory.
pub open spec fn dir_view(d: CgroupMemoryDir) -> (bool, Seq<char>, Seq<char>) {
    (d.unified, d.dir@, d.relative@)
}

fn has_memory(controllers: &Vec<String>) -> (r: bool)
    ensures
        r == views(controllers@).contains("memory"@),
{
    let mut i: usize = 0;
    while i < controllers.len()
        invariant
            i <= controllers@.len(),
            forall|j: int| 0 <= j < i ==> controllers@[j]@ != "memory"@,
        decreases controllers@.len() - i,
    {
        if str_eq(controllers[i].as_str(), "memory") {
            assert(views(controllers@)[i as int] == "memory"@);
            return true;
        }
        i = i + 1;
    }
    assert(!views(controllers@).contains("memory"@)) by {
        if views(controllers@).contains("memory"@) {
            let j = choose|j: int| 0 <= j < views(controllers@).len() && views(controllers@)[j] == "memory"@;
            assert(controllers@[j]@ == "memory"@);
        }
    }
    false
}

/// The directories to try, in order, for the memory counters of a process's control group.
pub fn cgroup_memory_dirs(lines: &Vec<CgroupLine>) -> (r: Vec<CgroupMemoryDir>)
    ensures
        r@.map_values(|d: CgroupMemoryDir| dir_view(d)) == memory_dirs_of(lines@),
{
    let mut out: Vec<CgroupMemoryDir> = Vec::new();
    let mut i: usize = 0;
    assert(out@.map_values(|d: CgroupMemoryDir| dir_view(d)) =~= memory_dirs_of(lines@.subrange(0, 0)));
    while i < lines.len()
        invariant
            i <= lines@.len(),
            out@.map_values(|d: CgroupMemoryDir| dir_view(d)) == memory_dirs_of(lines@.subrange(0, i as int)),
        decreases lines@.len() - i,
    {
        let l = &lines[i];
        let ghost before = out@.map_values(|d: CgroupMemoryDir| dir_view(d));
        assert(lines@.subrange(0, i + 1).drop_last() == lines@.subrange(0, i as int));
        if l.controllers.len() == 0 {
            out.push(CgroupMemoryDir {
                unified: true,
                dir: join_cgroup_path("/sys/fs/cgroup", l.pathname.as_str()),
                relative: owned(l.pathname.as_str()),
            });
        }
        let ghost mid = out@.map_values(|d: CgroupMemoryDir| dir_view(d));
        assert(mid =~= before + (if l.controllers@.len() == 0 {
            seq![(true, cgroup_dir_of("/sys/fs/cgroup"@, l.pathname@), l.pathname@)]
        } else {
            Seq::<(bool, Seq<char>, Seq<char>)>::empty()
        }));
        if has_memory(&l.controllers) {
            out.push(CgroupMemoryDir {
                unified: false,
                dir: join_cgroup_path("/sys/fs/cgroup/memory", l.pathname.as_str()),
                relative: owned(l.pathname.as_str()),
            });
        }
        assert(out@.map_values(|d: CgroupMemoryDir| dir_view(d)) =~= memory_dirs_of(lines@.subrange(0, i + 1)));
        i = i + 1;
    }
    assert(lines@.subrange(0, lines@.len() as int) == lines@);
    out
}

} // verus!
