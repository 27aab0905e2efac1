//! Running collectors into sections, and assembling sections into a report with its digest.

use vstd::prelude::*;
use crate::health::{
    build_health_digest, digest_findings, fviews, max_severity, DigestThresholds, HealthDigest,
};
use crate::sdk::{CollectorMetadata, Section, SectionBody, SectionStatus};
use crate::text::{decimal, decimal_of, i64_of, parse_i64};
use vstd::string::StringExecFns;

verus! {

/// The RFC 3339 text of the instant `secs` seconds after the Unix epoch, where chrono can
/// represent that instant.
pub uninterp spec fn rfc3339_of(secs: int) -> Option<Seq<char>>;

/// Relies on chrono's `DateTime::<Utc>::from_timestamp(secs, 0)`, which gives `None` for an
/// instant out of its range, and on `DateTime::to_rfc3339` for the text.
#[verifier::external_body]
fn rfc3339_from_unix(secs: i64) -> (r: Option<String>)
    ensures
        match r {
            Some(s) => rfc3339_of(secs as int) == Some(s@),
            None => rfc3339_of(secs as int) is None,
        },
{
    match chrono::DateTime::<chrono::Utc>::from_timestamp(secs, 0) {
        Some(dt) => Some(dt.to_rfc3339()),
        None => None,
    }
}

/// Relies on `SystemTime::now` and `duration_since(UNIX_EPOCH)`: whole seconds since the
/// epoch, `None` for a clock set before it.
#[verifier::external_body]
fn unix_seconds_now() -> (r: Option<u64>) {
    match std::time::SystemTime::now().duration_since(std::time::UNIX_EPOCH) {
        Ok(d) => Some(d.as_secs()),
        Err(_) => None,
    }
}

/// When and from how many sections a report was generated.
#[derive(Debug, Clone)]
pub struct ReportMetadata {
    pub generated_at: String,
    pub sections: usize,
}

/// The ISO 8601 text of a generation time held as decimal seconds, `unknown` otherwise.
pub open spec fn iso8601_of(generated_at: Seq<char>) -> Seq<char> {
    match i64_of(generated_at) {
        Some(secs) => match rfc3339_of(secs as int) {
            Some(t) => t,
            None => "unknown"@,
        },
        None => "unknown"@,
    }
}

impl ReportMetadata {
    /// The generation time in RFC 3339 form, or `unknown` where it cannot be read.
    pub fn generated_at_iso8601(&self) -> (r: String)
        ensures
            r@ == iso8601_of(self.generated_at@),
    {
        match parse_i64(self.generated_at.as_str()) {
            Some(secs) => match rfc3339_from_unix(secs) {
                Some(t) => t,
                None => String::from_str("unknown"),
            },
            None => String::from_str("unknown"),
        }
    }
}

/// The sections of one run, with generation metadata and the health digest.
#[derive(Debug, Clone)]
pub struct Report {
    pub metadata: ReportMetadata,
    pub sections: Vec<Section>,
    pub health_digest: HealthDigest,
}

impl Report {
    /// The report of `sections`, generated `generated_at` seconds after the epoch.
    pub fn assemble(sections: Vec<Section>, thresholds: DigestThresholds, generated_at: u64) -> (r:
        Report)
        ensures
            r.sections@ == sections@,
            r.metadata.sections == sections@.len(),
            r.metadata.generated_at@ == decimal_of(generated_at as nat),
            fviews(r.health_digest.findings@) == digest_findings(sections@, thresholds),
            r.health_digest.overall == max_severity(fviews(r.health_digest.findings@)),
    {
        let count = sections.len();
        let health_digest = build_health_digest(sections.as_slice(), &thresholds);
        Report {
            metadata: ReportMetadata { generated_at: decimal(generated_at as u128), sections: count },
            sections,
            health_digest,
        }
    }

    /// The report of `sections` under the default thresholds, stamped with the current time.
    pub fn new(sections: Vec<Section>) -> (r: Report)
        ensures
            r.sections@ == sections@,
            r.metadata.sections == sections@.len(),
            fviews(r.health_digest.findings@) == digest_findings(
                sections@,
                DigestThresholds::default_spec(),
            ),
            r.health_digest.overall == max_severity(fviews(r.health_digest.findings@)),
    {
        Report::with_digest_config(sections, DigestThresholds::default_thresholds())
    }

    /// The report of `sections` under `thresholds`, stamped with the current time (`0` for a
    /// clock set before the epoch).
    pub fn with_digest_config(sections: Vec<Section>, thresholds: DigestThresholds) -> (r: Report)
        ensures
            r.sections@ == sections@,
            r.metadata.sections == sections@.len(),
            fviews(r.health_digest.findings@) == digest_findings(sections@, thresholds),
            r.health_digest.overall == max_severity(fviews(r.health_digest.findings@)),
    {
        let now = match unix_seconds_now() {
            Some(s) => s,
            None => 0,
        };
        Report::assemble(sections, thresholds, now)
    }
}

/// What one run of a collector gave: its section, or the text of its error.
pub open spec fn outcome_section(
    meta: CollectorMetadata,
    outcome: Result<Section, String>,
    elapsed_ms: u64,
    r: Section,
) -> bool {
    match outcome {
        Ok(s) => r == Section { duration_ms: Some(elapsed_ms), ..s },
        Err(e) => r.id == meta.id && r.title == meta.title && r.status == SectionStatus::Error
            && (r.summary matches Some(m) && m@ == e@) && (r.body matches SectionBody::Error(b)
            && b@ == e@) && r.notes@.len() == 0 && r.duration_ms == Some(elapsed_ms),
    }
}

/// The section recorded for one collector run: its own section on success, an error
/// section under its metadata on failure; either way with the measured time.
pub fn section_from_outcome(
    meta: &CollectorMetadata,
    outcome: Result<Section, String>,
    elapsed_ms: u64,
) -> (r: Section)
    ensures
        outcome_section(*meta, outcome, elapsed_ms, r),
{
    let mut section = match outcome {
        Ok(section) => section,
        Err(error) => Section::error(meta.id, meta.title, error),
    };
    section.duration_ms = Some(elapsed_ms);
    section
}

/// One finished collector run, as the orchestrator hands it over.
pub struct CollectorRun {
    pub metadata: CollectorMetadata,
    pub outcome: Result<Section, String>,
    pub elapsed_ms: u64,
}

/// The sections of a whole run of the registry, one per collector and in its order.
pub fn collect_sections(runs: Vec<CollectorRun>) -> (r: Vec<Section>)
    ensures
        r@.len() == runs@.len(),
        forall|i: int|
            0 <= i < runs@.len() ==> outcome_section(
                (#[trigger] runs@[i]).metadata,
                runs@[i].outcome,
                runs@[i].elapsed_ms,
                r@[i],
            ),
{
    let mut sections: Vec<Section> = Vec::new();
    let mut runs = runs;
    let ghost all = runs@;
    let n = runs.len();
    let mut rest: Vec<CollectorRun> = Vec::new();
    // Take the runs back to front, then restore the order.
    while runs.len() > 0
        invariant
            runs@.len() + rest@.len() == n,
            n == all.len(),
            runs@ == all.subrange(0, runs@.len() as int),
            forall|j: int| 0 <= j < rest@.len() ==> #[trigger] rest@[j] == all[n - 1 - j],
        decreases runs@.len(),
    {
        let run = runs.pop().unwrap();
        rest.push(run);
    }
    while rest.len() > 0
        invariant
            sections@.len() + rest@.len() == n,
            n == all.len(),
            forall|j: int| 0 <= j < rest@.len() ==> #[trigger] rest@[j] == all[n - 1 - j],
            forall|i: int|
                0 <= i < sections@.len() ==> outcome_section(
                    (#[trigger] all[i]).metadata,
                    all[i].outcome,
                    all[i].elapsed_ms,
                    sections@[i],
                ),
        decreases rest@.len(),
    {
        let run = rest.pop().unwrap();
        let section = section_from_outcome(&run.metadata, run.outcome, run.elapsed_ms);
        sections.push(section);
    }
    sections
}

/// A failing collector never keeps the others from their sections: every run yields exactly
/// one section, a failed run an error section under its own identity with a summary, and a
/// successful run its own section.
pub proof fn lemma_failures_are_contained(runs: Seq<CollectorRun>, sections: Seq<Section>)
    requires
        sections.len() == runs.len(),
        forall|i: int|
            0 <= i < runs.len() ==> outcome_section(
                (#[trigger] runs[i]).metadata,
                runs[i].outcome,
                runs[i].elapsed_ms,
                sections[i],
            ),
    ensures
        forall|i: int|
            0 <= i < runs.len() ==> match (#[trigger] runs[i]).outcome {
                Ok(s) => sections[i].id == s.id && sections[i].status == s.status,
                Err(_) => sections[i].id == runs[i].metadata.id && sections[i].status
                    == SectionStatus::Error && sections[i].summary is Some,
            },
{
}

/// Every section of a run is well formed when the collectors' own sections are: in
/// particular an error section always has a summary.
pub proof fn lemma_error_sections_have_summary(runs: Seq<CollectorRun>, sections: Seq<Section>)
    requires
        sections.len() == runs.len(),
        forall|i: int|
            0 <= i < runs.len() ==> outcome_section(
                (#[trigger] runs[i]).metadata,
                runs[i].outcome,
                runs[i].elapsed_ms,
                sections[i],
            ),
        forall|i: int| 0 <= i < runs.len() ==> match (#[trigger] runs[i]).outcome {
            Ok(s) => s.wf(),
            Err(_) => true,
        },
    ensures
        forall|i: int| 0 <= i < sections.len() ==> (#[trigger] sections[i]).wf(),
        forall|i: int|
            0 <= i < sections.len() && (#[trigger] sections[i]).status == SectionStatus::Error
                ==> sections[i].summary is Some,
{
    assert forall|i: int| 0 <= i < sections.len() implies (#[trigger] sections[i]).wf() by {
        let r = runs[i];
        match r.outcome {
            Ok(s) => {},
            Err(_) => {},
        }
    }
}

} // verus!
