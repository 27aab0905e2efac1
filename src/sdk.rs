//! The section model shared by every data source: context, metadata, status and result record.

use vstd::prelude::*;
use crate::network::NetworkSnapshot;
use crate::text::owned;

verus! {

/// Input handed to every collector; can be extended with further parameters.
#[derive(Debug, Clone)]
pub struct CollectionContext {
    since: Option<String>,
}

impl CollectionContext {
    /// The time filter, if one was set.
    pub closed spec fn since_view(&self) -> Option<Seq<char>> {
        match self.since {
            Some(s) => Some(s@),
            None => None,
        }
    }

    /// A context without a time filter.
    pub fn new() -> (r: Self)
        ensures
            r.since_view() is None,
    {
        CollectionContext { since: None }
    }

    /// A context filtered from `since` on.
    pub fn with_since(since: String) -> (r: Self)
        ensures
            r.since_view() == Some(since@),
    {
        CollectionContext { since: Some(since) }
    }

    /// Replaces the time filter.
    pub fn set_since(&mut self, since: Option<String>)
        ensures
            final(self).since_view() == match since {
                Some(s) => Some(s@),
                None => None::<Seq<char>>,
            },
    {
        self.since = since;
    }

    /// The time filter, if one was set.
    pub fn since(&self) -> (r: Option<&str>)
        ensures
            match r {
                Some(s) => self.since_view() == Some(s@),
                None => self.since_view() is None,
            },
    {
        match &self.since {
            Some(s) => Some(s.as_str()),
            None => None,
        }
    }
}

/// Stable identity of a collector, used for rendering and attribution.
#[derive(Debug, Clone, Copy)]
pub struct CollectorMetadata {
    pub id: &'static str,
    pub title: &'static str,
    pub description: &'static str,
}

/// A data source: a stable identity and a fallible collection from the context.
pub trait Collector {
    /// The collector's identity.
    fn metadata(&self) -> CollectorMetadata;

    /// Collects the collector's section, or the text of its error.
    fn collect(&self, ctx: &CollectionContext) -> Result<Section, String>;
}

/// How a collection went.
#[derive(Debug, Clone, Copy, PartialEq, Eq, Structural)]
pub enum SectionStatus {
    Success,
    Degraded,
    Error,
}

impl SectionStatus {
    /// The external name of the status.
    pub open spec fn name(&self) -> Seq<char> {
        match self {
            SectionStatus::Success => "success"@,
            SectionStatus::Degraded => "degraded"@,
            SectionStatus::Error => "error"@,
        }
    }

    /// The external name of the status (`success`, `degraded` or `error`).
    pub fn as_str(&self) -> (r: &'static str)
        ensures
            r@ == self.name(),
    {
        match self {
            SectionStatus::Success => "success",
            SectionStatus::Degraded => "degraded",
            SectionStatus::Error => "error",
        }
    }
}

/// One mount of the storage section, as the health digest reads it.
/// Ratios are in millionths (`1_000_000` is the whole).
#[derive(Debug, Clone)]
pub struct MountUsage {
    pub mount_point: String,
    pub fs_type: String,
    pub read_only: bool,
    pub operational: bool,
    pub usage_ppm: Option<u32>,
    pub available_bytes: Option<u64>,
    pub inodes_usage_ppm: Option<u32>,
}

/// The part of the storage section that the health digest reads.
#[derive(Debug, Clone)]
pub struct StorageBody {
    pub operating_mounts: Vec<MountUsage>,
}

/// Host memory counters.
#[derive(Debug, Clone, Copy)]
pub struct HostMemory {
    pub total_bytes: Option<u64>,
    pub available_bytes: Option<u64>,
}

/// Memory counters of the control group the tool runs in.
#[derive(Debug, Clone, Copy)]
pub struct CgroupMemory {
    pub limit_bytes: Option<u64>,
    pub usage_bytes: Option<u64>,
}

/// The part of the process section that the health digest reads.
#[derive(Debug, Clone, Copy)]
pub struct MemoryBody {
    pub host: Option<HostMemory>,
    pub cgroup: Option<CgroupMemory>,
}

/// The structured body of a section: typed where the health digest reads it, an open
/// JSON document otherwise.
#[derive(Debug, Clone)]
pub enum SectionBody {
    Empty,
    Error(String),
    Document(String),
    Storage(StorageBody),
    Memory(MemoryBody),
    Network(NetworkSnapshot),
}

/// The result record produced by one collector for one run.
#[derive(Debug, Clone)]
pub struct Section {
    pub id: &'static str,
    pub title: &'static str,
    pub status: SectionStatus,
    pub summary: Option<String>,
    pub body: SectionBody,
    pub notes: Vec<String>,
    pub duration_ms: Option<u64>,
}

impl Section {
    /// A section that is not a success says why.
    pub open spec fn wf(&self) -> bool {
        self.status != SectionStatus::Success ==> self.summary is Some
    }

    /// A successful section without summary or notes.
    pub fn success(id: &'static str, title: &'static str, body: SectionBody) -> (r: Self)
        ensures
            r.id == id,
            r.title == title,
            r.status == SectionStatus::Success,
            r.summary is None,
            r.body == body,
            r.notes@.len() == 0,
            r.duration_ms is None,
            r.wf(),
    {
        Section {
            id,
            title,
            status: SectionStatus::Success,
            summary: None,
            body,
            notes: Vec::new(),
            duration_ms: None,
        }
    }

    /// A degraded section, with the reason as its summary.
    pub fn degraded(id: &'static str, title: &'static str, summary: String, body: SectionBody) -> (r:
        Self)
        ensures
            r.id == id,
            r.title == title,
            r.status == SectionStatus::Degraded,
            r.summary == Some(summary),
            r.body == body,
            r.notes@.len() == 0,
            r.duration_ms is None,
            r.wf(),
    {
        Section {
            id,
            title,
            status: SectionStatus::Degraded,
            summary: Some(summary),
            body,
            notes: Vec::new(),
            duration_ms: None,
        }
    }

    /// A failed section: the error text is both its summary and its body.
    pub fn error(id: &'static str, title: &'static str, error: String) -> (r: Self)
        ensures
            r.id == id,
            r.title == title,
            r.status == SectionStatus::Error,
            r.summary matches Some(s) && s@ == error@,
            r.body matches SectionBody::Error(e) && e@ == error@,
            r.notes@.len() == 0,
            r.duration_ms is None,
            r.wf(),
    {
        let summary = owned(error.as_str());
        Section {
            id,
            title,
            status: SectionStatus::Error,
            summary: Some(summary),
            body: SectionBody::Error(error),
            notes: Vec::new(),
            duration_ms: None,
        }
    }

    /// Whether the section carries warnings.
    pub fn has_notes(&self) -> (r: bool)
        ensures
            r == (self.notes@.len() > 0),
    {
        self.notes.len() > 0
    }
}

} // verus!
