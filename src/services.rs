//! Service units as listed by the service manager.

use vstd::prelude::*;
use crate::text::{decimal, decimal_of, join_of, join_range, lines, lines_of, owned, views, words, words_of};
use vstd::string::StringExecFns;

verus! {

/// One unit of a service listing.
#[derive(Debug, Clone, PartialEq, Eq)]
pub struct ServiceInfo {
    pub unit: String,
    pub load: String,
    pub active: String,
    pub sub: String,
    pub description: String,
}

/// Why a listing line yields no unit.
#[derive(Debug, Clone, Copy, PartialEq, Eq, Structural)]
pub enum ServiceLineError {
    Ignored,
    MissingLoad,
    MissingActive,
    MissingSub,
}

/// The error of a listing line, `None` for a valid one.
pub open spec fn service_check(line: Seq<char>) -> Option<ServiceLineError> {
    let ws = words_of(line);
    if ws.len() == 0 {
        Some(ServiceLineError::Ignored)
    } else if ws.len() == 1 {
        Some(ServiceLineError::MissingLoad)
    } else if ws.len() == 2 {
        Some(ServiceLineError::MissingActive)
    } else if ws.len() == 3 {
        Some(ServiceLineError::MissingSub)
    } else {
        None
    }
}

/// `s` is the unit of a valid listing line: four words, then the description.
pub open spec fn service_of_line(line: Seq<char>, s: ServiceInfo) -> bool {
    let ws = words_of(line);
    &&& s.unit@ == ws[0]
    &&& s.load@ == ws[1]
    &&& s.active@ == ws[2]
    &&& s.sub@ == ws[3]
    &&& s.description@ == join_of(ws.subrange(4, ws.len() as int), " "@)
}

/// The unit of one listing line: unit, load, active and sub states, then the description.
pub fn parse_systemctl_line(line: &str) -> (r: Result<ServiceInfo, ServiceLineError>)
    ensures
        match r {
            Ok(s) => service_check(line@) is None && service_of_line(line@, s),
            Err(e) => service_check(line@) == Some(e),
        },
{
    let ws = words(line);
    let n = ws.len();
    if n == 0 {
        return Err(ServiceLineError::Ignored);
    }
    if n == 1 {
        return Err(ServiceLineError::MissingLoad);
    }
    if n == 2 {
        return Err(ServiceLineError::MissingActive);
    }
    if n == 3 {
        return Err(ServiceLineError::MissingSub);
    }
    Ok(ServiceInfo {
        unit: owned(ws[0].as_str()),
        load: owned(ws[1].as_str()),
        active: owned(ws[2].as_str()),
        sub: owned(ws[3].as_str()),
        description: join_range(&ws, 4, n, " "),
    })
}

/// The valid listing lines among `ls`, in order.
pub open spec fn service_lines(ls: Seq<Seq<char>>) -> Seq<Seq<char>>
    decreases ls.len(),
{
    if ls.len() == 0 {
        Seq::empty()
    } else {
        service_lines(ls.drop_last()) + if service_check(ls.last()) is None {
            seq![ls.last()]
        } else {
            Seq::empty()
        }
    }
}

/// The units of a listing; lines that are not units are skipped.
pub fn parse_systemctl_units(output: &str) -> (r: Vec<ServiceInfo>)
    ensures
        r@.len() == service_lines(lines_of(output@)).len(),
        forall|i: int|
            0 <= i < r@.len() ==> service_of_line(service_lines(lines_of(output@))[i], #[trigger] r@[i]),
{
    let ls = lines(output);
    let ghost lv = views(ls@);
    let mut out: Vec<ServiceInfo> = Vec::new();
    let mut i: usize = 0;
    while i < ls.len()
        invariant
            lv == views(ls@),
            i <= ls@.len(),
            out@.len() == service_lines(lv.subrange(0, i as int)).len(),
            forall|j: int|
                0 <= j < out@.len() ==> service_of_line(service_lines(lv.subrange(0, i as int))[j], #[trigger] out@[j]),
        decreases ls@.len() - i,
    {
        let ghost pre = service_lines(lv.subrange(0, i as int));
        assert(lv.subrange(0, i + 1).drop_last() == lv.subrange(0, i as int));
        assert(lv.subrange(0, i + 1).last() == ls@[i as int]@);
        match parse_systemctl_line(ls[i].as_str()) {
            Ok(s) => {
                out.push(s);
                assert forall|j: int| 0 <= j < out@.len() implies service_of_line(service_lines(lv.subrange(0, i + 1))[j], #[trigger] out@[j]) by {
                    if j < pre.len() {
                        assert(service_lines(lv.subrange(0, i + 1))[j] == pre[j]);
                    }
                }
            },
            Err(_) => {
                assert(service_lines(lv.subrange(0, i + 1)) == pre + Seq::<Seq<char>>::empty());
                assert(pre + Seq::<Seq<char>>::empty() == pre);
            },
        }
        i = i + 1;
    }
    assert(lv.subrange(0, ls@.len() as int) == lv);
    out
}

/// Running and failed service units.
#[derive(Debug, Clone, PartialEq, Eq)]
pub struct ServicesSnapshot {
    pub running: Vec<ServiceInfo>,
    pub failed: Vec<ServiceInfo>,
}

impl ServicesSnapshot {
    /// The one-line summary: how many units run and how many failed.
    pub fn summary(&self) -> (r: String)
        ensures
            r@ == decimal_of(self.running@.len()) + " running, "@ + decimal_of(self.failed@.len())
                + " failed services"@,
    {
        let mut r = decimal(self.running.len() as u128);
        r.append(" running, ");
        r.append(decimal(self.failed.len() as u128).as_str());
        r.append(" failed services");
        r
    }
}

} // verus!
