//! The health digest: a rule-based second pass over finished sections that derives
//! prioritised findings against configurable thresholds.

use vstd::prelude::*;
use crate::sdk::{
    CgroupMemory, HostMemory, MemoryBody, MountUsage, Section, SectionBody, SectionStatus,
};
use crate::text::{
    hundredths, hundredths_text, join_range, join_of, lemma_views_push, owned, str_eq, tenths,
    tenths_text, views,
};
use vstd::string::StringExecFns;

verus! {

/// The whole of a ratio in millionths.
pub const RATIO_ONE: u32 = 1_000_000;

/// Bytes in one GiB.
pub const GIB: u64 = 1_073_741_824;

/// Ordered severity of a finding: `Info < Warning < Critical`.
#[derive(Debug, Clone, Copy, PartialEq, Eq, Structural)]
pub enum Severity {
    Info,
    Warning,
    Critical,
}

impl Severity {
    /// Position in the order `Info < Warning < Critical`.
    pub open spec fn rank(&self) -> nat {
        match self {
            Severity::Info => 0,
            Severity::Warning => 1,
            Severity::Critical => 2,
        }
    }

    /// The external name.
    pub open spec fn name(&self) -> Seq<char> {
        match self {
            Severity::Info => "info"@,
            Severity::Warning => "warning"@,
            Severity::Critical => "critical"@,
        }
    }

    /// The name for display.
    pub open spec fn label(&self) -> Seq<char> {
        match self {
            Severity::Info => "Info"@,
            Severity::Warning => "Warning"@,
            Severity::Critical => "Critical"@,
        }
    }

    /// The external name (`info`, `warning`, `critical`).
    pub fn as_str(&self) -> (r: &'static str)
        ensures
            r@ == self.name(),
    {
        match self {
            Severity::Info => "info",
            Severity::Warning => "warning",
            Severity::Critical => "critical",
        }
    }

    /// The name for display (`Info`, `Warning`, `Critical`).
    pub fn display_label(&self) -> (r: &'static str)
        ensures
            r@ == self.label(),
    {
        match self {
            Severity::Info => "Info",
            Severity::Warning => "Warning",
            Severity::Critical => "Critical",
        }
    }

    /// The more severe of the two.
    pub fn max(self, other: Severity) -> (r: Severity)
        ensures
            r == sev_max(self, other),
    {
        if other.rank_exec() > self.rank_exec() {
            other
        } else {
            self
        }
    }

    fn rank_exec(&self) -> (r: u8)
        ensures
            r as nat == self.rank(),
    {
        match self {
            Severity::Info => 0,
            Severity::Warning => 1,
            Severity::Critical => 2,
        }
    }
}

/// The more severe of two severities.
pub open spec fn sev_max(a: Severity, b: Severity) -> Severity {
    if b.rank() > a.rank() {
        b
    } else {
        a
    }
}

/// Numeric limits of the digest rules, as ratios in millionths. Disk limits are ceilings on
/// the used ratio; memory limits are floors on the remaining ratio.
#[derive(Debug, Clone, Copy)]
pub struct DigestThresholds {
    pub disk_warning: u32,
    pub disk_critical: u32,
    pub memory_warning: u32,
    pub memory_critical: u32,
}

/// One of the four thresholds.
#[derive(Debug, Clone, Copy, PartialEq, Eq, Structural)]
pub enum ThresholdName {
    DiskWarning,
    DiskCritical,
    MemoryWarning,
    MemoryCritical,
}

impl ThresholdName {
    /// The configuration key of the threshold.
    pub open spec fn key(&self) -> Seq<char> {
        match self {
            ThresholdName::DiskWarning => "disk_warning"@,
            ThresholdName::DiskCritical => "disk_critical"@,
            ThresholdName::MemoryWarning => "memory_warning"@,
            ThresholdName::MemoryCritical => "memory_critical"@,
        }
    }

    /// The configuration key of the threshold.
    pub fn as_str(&self) -> (r: &'static str)
        ensures
            r@ == self.key(),
    {
        match self {
            ThresholdName::DiskWarning => "disk_warning",
            ThresholdName::DiskCritical => "disk_critical",
            ThresholdName::MemoryWarning => "memory_warning",
            ThresholdName::MemoryCritical => "memory_critical",
        }
    }
}

/// Why a set of thresholds was refused.
#[derive(Debug, Clone, Copy, PartialEq, Eq, Structural)]
pub enum ThresholdError {
    /// The named threshold lies outside `[0, 1]`.
    OutOfRange(ThresholdName),
    /// `disk_warning` exceeds `disk_critical`.
    DiskOrder,
    /// `memory_warning` is below `memory_critical`.
    MemoryOrder,
}

impl DigestThresholds {
    /// Every ratio lies in `[0, 1]`.
    pub open spec fn in_range(&self) -> bool {
        self.disk_warning <= RATIO_ONE && self.disk_critical <= RATIO_ONE
            && self.memory_warning <= RATIO_ONE && self.memory_critical <= RATIO_ONE
    }

    /// The thresholds may be used.
    pub open spec fn valid(&self) -> bool {
        self.in_range() && self.disk_warning <= self.disk_critical
            && self.memory_warning >= self.memory_critical
    }

    /// The error that validation reports, checking range first, in field order, then order.
    pub open spec fn first_error(&self) -> Option<ThresholdError> {
        if self.disk_warning > RATIO_ONE {
            Some(ThresholdError::OutOfRange(ThresholdName::DiskWarning))
        } else if self.disk_critical > RATIO_ONE {
            Some(ThresholdError::OutOfRange(ThresholdName::DiskCritical))
        } else if self.memory_warning > RATIO_ONE {
            Some(ThresholdError::OutOfRange(ThresholdName::MemoryWarning))
        } else if self.memory_critical > RATIO_ONE {
            Some(ThresholdError::OutOfRange(ThresholdName::MemoryCritical))
        } else if self.disk_warning > self.disk_critical {
            Some(ThresholdError::DiskOrder)
        } else if self.memory_warning < self.memory_critical {
            Some(ThresholdError::MemoryOrder)
        } else {
            None
        }
    }

    /// The defaults: disk 90% / 95% used, memory 10% / 5% remaining.
    pub open spec fn default_spec() -> Self {
        DigestThresholds {
            disk_warning: 900_000,
            disk_critical: 950_000,
            memory_warning: 100_000,
            memory_critical: 50_000,
        }
    }

    /// The defaults: disk 90% / 95% used, memory 10% / 5% remaining.
    pub fn default_thresholds() -> (r: Self)
        ensures
            r == Self::default_spec(),
            r.valid(),
    {
        DigestThresholds {
            disk_warning: 900_000,
            disk_critical: 950_000,
            memory_warning: 100_000,
            memory_critical: 50_000,
        }
    }

    /// Accepts thresholds that lie in `[0, 1]` with the less severe limit on the right side.
    pub fn validate(&self) -> (r: Result<(), ThresholdError>)
        ensures
            r is Ok <==> self.valid(),
            r is Err ==> r == Err::<(), ThresholdError>(self.first_error()->0),
            self.valid() <==> self.first_error() is None,
    {
        if self.disk_warning > RATIO_ONE {
            return Err(ThresholdError::OutOfRange(ThresholdName::DiskWarning));
        }
        if self.disk_critical > RATIO_ONE {
            return Err(ThresholdError::OutOfRange(ThresholdName::DiskCritical));
        }
        if self.memory_warning > RATIO_ONE {
            return Err(ThresholdError::OutOfRange(ThresholdName::MemoryWarning));
        }
        if self.memory_critical > RATIO_ONE {
            return Err(ThresholdError::OutOfRange(ThresholdName::MemoryCritical));
        }
        if self.disk_warning > self.disk_critical {
            return Err(ThresholdError::DiskOrder);
        }
        if self.memory_warning < self.memory_critical {
            return Err(ThresholdError::MemoryOrder);
        }
        Ok(())
    }
}

impl Default for DigestThresholds {
    /// The defaults: disk 90% / 95% used, memory 10% / 5% remaining.
    fn default() -> (r: Self)
        ensures
            r == Self::default_spec(),
    {
        Self::default_thresholds()
    }
}

/// Thresholds that pass validation keep the disk warning at or below the disk critical
/// limit, and the memory warning at or above the memory critical limit.
pub proof fn lemma_valid_thresholds_ordered(t: DigestThresholds)
    requires
        t.first_error() is None,
    ensures
        t.disk_warning <= t.disk_critical,
        t.memory_warning >= t.memory_critical,
        t.valid(),
{
}

/// One concern, attributed to the section whose data raised it.
#[derive(Debug, Clone)]
pub struct CriticalFinding {
    pub source_id: String,
    pub source_title: String,
    pub severity: Severity,
    pub message: String,
}

/// The mathematical content of a finding.
pub ghost struct FindingView {
    pub source_id: Seq<char>,
    pub source_title: Seq<char>,
    pub severity: Severity,
    pub message: Seq<char>,
}

impl View for CriticalFinding {
    type V = FindingView;

    open spec fn view(&self) -> FindingView {
        FindingView {
            source_id: self.source_id@,
            source_title: self.source_title@,
            severity: self.severity,
            message: self.message@,
        }
    }
}

/// The digest: the findings in order and their maximum severity.
#[derive(Debug, Clone)]
pub struct HealthDigest {
    pub overall: Severity,
    pub findings: Vec<CriticalFinding>,
}

/// The views of a list of findings.
pub open spec fn fviews(v: Seq<CriticalFinding>) -> Seq<FindingView> {
    v.map_values(|f: CriticalFinding| f@)
}

proof fn lemma_fviews_push(v: Seq<CriticalFinding>, f: CriticalFinding)
    ensures
        fviews(v.push(f)) == fviews(v).push(f@),
{
    assert(fviews(v.push(f)) =~= fviews(v).push(f@));
}

/// A finding about section `s`.
pub open spec fn finding_of(s: Section, severity: Severity, message: Seq<char>) -> FindingView {
    FindingView { source_id: s.id@, source_title: s.title@, severity, message }
}

/// The summary of `s`, or `fallback` where it has none.
pub open spec fn summary_or(s: Section, fallback: Seq<char>) -> Seq<char> {
    match s.summary {
        Some(m) => m@,
        None => fallback,
    }
}

/// The finding that the status of a section raises by itself.
pub open spec fn base_findings(s: Section) -> Seq<FindingView> {
    match s.status {
        SectionStatus::Success => Seq::empty(),
        SectionStatus::Degraded => seq![
            finding_of(s, Severity::Warning, summary_or(s, "Collector reported a degraded state"@)),
        ],
        SectionStatus::Error => seq![
            finding_of(s, Severity::Critical, summary_or(s, "Collector failed"@)),
        ],
    }
}

/// A ratio in millionths as a percentage with one decimal (rounded half up).
pub open spec fn percent_text(ppm: nat) -> Seq<char> {
    tenths_text(((ppm + 500) / 1000) as nat)
}

/// A byte count in GiB with two decimals (rounded half up).
pub open spec fn gib_text(bytes: nat) -> Seq<char> {
    hundredths_text(((bytes * 100 + GIB / 2) / (GIB as int)) as nat)
}

/// The fraction `a / b` (with `b > 0`) as a percentage with one decimal.
pub open spec fn fraction_percent_text(a: nat, b: nat) -> Seq<char> {
    tenths_text(((a * 1000 + b / 2) / b) as nat)
}

/// A triggered signal of the storage rule: its severity and its reason.
pub open spec fn signal(sev: Severity, reason: Seq<char>) -> Seq<(Severity, Seq<char>)> {
    seq![(sev, reason)]
}

/// Used ratio against the configured disk limits.
pub open spec fn usage_signal(m: MountUsage, t: DigestThresholds) -> Seq<(Severity, Seq<char>)> {
    match m.usage_ppm {
        Some(u) => if u >= t.disk_critical {
            signal(Severity::Critical, "usage "@ + percent_text(u as nat) + "%"@)
        } else if u >= t.disk_warning {
            signal(Severity::Warning, "usage "@ + percent_text(u as nat) + "%"@)
        } else {
            Seq::empty()
        },
        None => Seq::empty(),
    }
}

/// Free space against the fixed floors of 2 GiB and 5 GiB.
pub open spec fn free_signal(m: MountUsage) -> Seq<(Severity, Seq<char>)> {
    match m.available_bytes {
        Some(a) => if a <= 2 * GIB {
            signal(Severity::Critical, "free space "@ + gib_text(a as nat) + " GiB"@)
        } else if a <= 5 * GIB {
            signal(Severity::Warning, "free space "@ + gib_text(a as nat) + " GiB"@)
        } else {
            Seq::empty()
        },
        None => Seq::empty(),
    }
}

/// Inode usage against the fixed limits of 90% and 80%.
pub open spec fn inode_signal(m: MountUsage) -> Seq<(Severity, Seq<char>)> {
    match m.inodes_usage_ppm {
        Some(r) => if r >= 900_000 {
            signal(Severity::Critical, "inode usage "@ + percent_text(r as nat) + "%"@)
        } else if r >= 800_000 {
            signal(Severity::Warning, "inode usage "@ + percent_text(r as nat) + "%"@)
        } else {
            Seq::empty()
        },
        None => Seq::empty(),
    }
}

/// Whether a mount point holds the boot files.
pub open spec fn is_boot_mount(p: Seq<char>) -> bool {
    p == "/boot"@ || p == "/boot/efi"@
}

/// The stricter free-space floors of boot volumes: 0.25 GiB and 0.5 GiB.
pub open spec fn boot_signal(m: MountUsage) -> Seq<(Severity, Seq<char>)> {
    if is_boot_mount(m.mount_point@) {
        match m.available_bytes {
            Some(a) => if a <= GIB / 4 {
                signal(Severity::Critical, "boot volume nearly full"@)
            } else if a <= GIB / 2 {
                signal(Severity::Warning, "boot volume low free space"@)
            } else {
                Seq::empty()
            },
            None => Seq::empty(),
        }
    } else {
        Seq::empty()
    }
}

/// Every signal that a mount triggers, in rule order.
pub open spec fn mount_signals(m: MountUsage, t: DigestThresholds) -> Seq<(Severity, Seq<char>)> {
    usage_signal(m, t) + free_signal(m) + inode_signal(m) + boot_signal(m)
}

/// The maximum severity of a list of signals, `Info` for none.
pub open spec fn signals_severity(sig: Seq<(Severity, Seq<char>)>) -> Severity
    decreases sig.len(),
{
    if sig.len() == 0 {
        Severity::Info
    } else {
        sev_max(signals_severity(sig.drop_last()), sig.last().0)
    }
}

/// The reasons of a list of signals.
pub open spec fn signal_reasons(sig: Seq<(Severity, Seq<char>)>) -> Seq<Seq<char>> {
    sig.map_values(|p: (Severity, Seq<char>)| p.1)
}

/// The message of a mount finding.
pub open spec fn mount_message(m: MountUsage, t: DigestThresholds) -> Seq<char> {
    "Mount "@ + m.mount_point@ + " ("@ + m.fs_type@ + ")"@ + used_text(m) + " \u{2014} "@
        + join_of(signal_reasons(mount_signals(m, t)), ", "@)
}

/// The used ratio of a mount in its message, nothing where it is unknown.
pub open spec fn used_text(m: MountUsage) -> Seq<char> {
    match m.usage_ppm {
        Some(u) => ": "@ + percent_text(u as nat) + "% used"@,
        None => Seq::empty(),
    }
}

/// The finding of one mount of the storage section, if any: only operational, writable
/// mounts are judged, and an unknown figure only skips its own signal.
pub open spec fn mount_findings(s: Section, m: MountUsage, t: DigestThresholds) -> Seq<FindingView> {
    if m.operational && !m.read_only && mount_signals(m, t).len() > 0 {
        seq![finding_of(s, signals_severity(mount_signals(m, t)), mount_message(m, t))]
    } else {
        Seq::empty()
    }
}

/// The findings of the first `n` mounts.
pub open spec fn mounts_findings(s: Section, ms: Seq<MountUsage>, t: DigestThresholds) -> Seq<
    FindingView,
>
    decreases ms.len(),
{
    if ms.len() == 0 {
        Seq::empty()
    } else {
        mounts_findings(s, ms.drop_last(), t) + mount_findings(s, ms.last(), t)
    }
}

/// The findings of the storage rule for section `s`.
pub open spec fn storage_findings(s: Section, t: DigestThresholds) -> Seq<FindingView> {
    if s.id@ == "storage"@ {
        match s.body {
            SectionBody::Storage(b) => mounts_findings(s, b.operating_mounts@, t),
            _ => Seq::empty(),
        }
    } else {
        Seq::empty()
    }
}

/// Severity of a remaining ratio `a / b` against the memory floors, `Info` for none.
pub open spec fn memory_severity(a: nat, b: nat, t: DigestThresholds) -> Severity {
    if a * (RATIO_ONE as nat) <= (t.memory_critical as nat) * b {
        Severity::Critical
    } else if a * (RATIO_ONE as nat) <= (t.memory_warning as nat) * b {
        Severity::Warning
    } else {
        Severity::Info
    }
}

/// The finding of the host-memory rule.
pub open spec fn host_findings(s: Section, h: HostMemory, t: DigestThresholds) -> Seq<FindingView> {
    match (h.total_bytes, h.available_bytes) {
        (Some(total), Some(avail)) => if total > 0 && memory_severity(
            avail as nat,
            total as nat,
            t,
        ) != Severity::Info {
            seq![
                finding_of(
                    s,
                    memory_severity(avail as nat, total as nat, t),
                    "Host memory "@ + fraction_percent_text(avail as nat, total as nat)
                        + "% available ("@ + gib_text(avail as nat) + " GiB free)"@,
                ),
            ]
        } else {
            Seq::empty()
        },
        _ => Seq::empty(),
    }
}

/// Headroom left under a control-group limit.
pub open spec fn headroom(limit: nat, usage: nat) -> nat {
    if usage >= limit {
        0
    } else {
        (limit - usage) as nat
    }
}

/// The finding of the control-group memory rule.
pub open spec fn cgroup_findings(s: Section, c: CgroupMemory, t: DigestThresholds) -> Seq<
    FindingView,
> {
    match (c.limit_bytes, c.usage_bytes) {
        (Some(limit), Some(usage)) => {
            let room = headroom(limit as nat, usage as nat);
            if limit > 0 && memory_severity(room, limit as nat, t) != Severity::Info {
                seq![
                    finding_of(
                        s,
                        memory_severity(room, limit as nat, t),
                        "Cgroup memory "@ + fraction_percent_text(room, limit as nat)
                            + "% headroom ("@ + gib_text(room) + " GiB free of limit)"@,
                    ),
                ]
            } else {
                Seq::empty()
            }
        },
        _ => Seq::empty(),
    }
}

/// The findings of the memory rule for section `s`.
pub open spec fn memory_findings(s: Section, t: DigestThresholds) -> Seq<FindingView> {
    if s.id@ == "proc"@ {
        match s.body {
            SectionBody::Memory(b) => (match b.host {
                Some(h) => host_findings(s, h, t),
                None => Seq::empty(),
            }) + (match b.cgroup {
                Some(c) => cgroup_findings(s, c, t),
                None => Seq::empty(),
            }),
            _ => Seq::empty(),
        }
    } else {
        Seq::empty()
    }
}

/// All findings that one section raises, in rule order.
pub open spec fn section_findings(s: Section, t: DigestThresholds) -> Seq<FindingView> {
    base_findings(s) + storage_findings(s, t) + memory_findings(s, t)
}

/// The findings of a list of sections, section by section.
pub open spec fn digest_findings(ss: Seq<Section>, t: DigestThresholds) -> Seq<FindingView>
    decreases ss.len(),
{
    if ss.len() == 0 {
        Seq::empty()
    } else {
        digest_findings(ss.drop_last(), t) + section_findings(ss.last(), t)
    }
}

/// The maximum severity among findings, `Info` for none.
pub open spec fn max_severity(fs: Seq<FindingView>) -> Severity
    decreases fs.len(),
{
    if fs.len() == 0 {
        Severity::Info
    } else {
        sev_max(max_severity(fs.drop_last()), fs.last().severity)
    }
}


/// Each finding is at most as severe as the maximum; the maximum is `Info` for no findings
/// and the severity of some finding otherwise.
pub proof fn lemma_max_severity_is_maximum(fs: Seq<FindingView>)
    ensures
        forall|i: int| 0 <= i < fs.len() ==> fs[i].severity.rank() <= max_severity(fs).rank(),
        fs.len() == 0 ==> max_severity(fs) == Severity::Info,
        fs.len() > 0 ==> exists|i: int| 0 <= i < fs.len() && fs[i].severity == max_severity(fs),
    decreases fs.len(),
{
    if fs.len() > 0 {
        let rest = fs.drop_last();
        lemma_max_severity_is_maximum(rest);
        assert forall|i: int| 0 <= i < fs.len() implies fs[i].severity.rank() <= max_severity(
            fs,
        ).rank() by {
            if i < fs.len() - 1 {
                assert(fs[i] == rest[i]);
            }
        }
        if max_severity(fs) == fs.last().severity {
            assert(fs[fs.len() - 1].severity == max_severity(fs));
        } else {
            if rest.len() == 0 {
                assert(max_severity(rest) == Severity::Info);
            } else {
                let j = choose|j: int| 0 <= j < rest.len() && rest[j].severity == max_severity(rest);
                assert(fs[j] == rest[j]);
            }
        }
    }
}

proof fn lemma_add_signal(sig: Seq<(Severity, Seq<char>)>, x: (Severity, Seq<char>))
    ensures
        signals_severity(sig + seq![x]) == sev_max(signals_severity(sig), x.0),
        signal_reasons(sig + seq![x]) == signal_reasons(sig).push(x.1),
        (sig + seq![x]).len() == sig.len() + 1,
{
    assert((sig + seq![x]).drop_last() =~= sig);
    assert(signal_reasons(sig + seq![x]) =~= signal_reasons(sig).push(x.1));
}

proof fn lemma_add_no_signal(sig: Seq<(Severity, Seq<char>)>)
    ensures
        sig + Seq::<(Severity, Seq<char>)>::empty() == sig,
{
    assert(sig + Seq::<(Severity, Seq<char>)>::empty() =~= sig);
}

fn new_finding(section: &Section, severity: Severity, message: String) -> (r: CriticalFinding)
    ensures
        r@ == finding_of(*section, severity, message@),
{
    CriticalFinding {
        source_id: owned(section.id),
        source_title: owned(section.title),
        severity,
        message,
    }
}

fn percent(ppm: u32) -> (r: String)
    ensures
        r@ == percent_text(ppm as nat),
{
    tenths(((ppm as u128) + 500) / 1000)
}

fn gib(bytes: u64) -> (r: String)
    ensures
        r@ == gib_text(bytes as nat),
{
    hundredths(((bytes as u128) * 100 + (GIB as u128) / 2) / (GIB as u128))
}

fn fraction_percent(a: u64, b: u64) -> (r: String)
    requires
        b > 0,
    ensures
        r@ == fraction_percent_text(a as nat, b as nat),
{
    tenths(((a as u128) * 1000 + (b as u128) / 2) / (b as u128))
}

/// Appends the finding of one storage mount, if it raises one.
fn collect_mount_alert(
    section: &Section,
    m: &MountUsage,
    t: &DigestThresholds,
    findings: &mut Vec<CriticalFinding>,
)
    ensures
        fviews(final(findings)@) == fviews(old(findings)@) + mount_findings(*section, *m, *t),
{
    let ghost start = fviews(findings@);
    if !m.operational || m.read_only {
        assert(fviews(findings@) =~= start + mount_findings(*section, *m, *t));
        return;
    }
    let mut severity = Severity::Info;
    let mut reasons: Vec<String> = Vec::new();
    let ghost mut sig: Seq<(Severity, Seq<char>)> = Seq::empty();
    assert(views(reasons@) =~= signal_reasons(sig));

    match m.usage_ppm {
        Some(u) => {
            if u >= t.disk_critical || u >= t.disk_warning {
                let level = if u >= t.disk_critical { Severity::Critical } else { Severity::Warning };
                let mut reason = String::from_str("usage ");
                reason.append(percent(u).as_str());
                reason.append("%");
                proof {
                    lemma_add_signal(sig, (level, reason@));
                    lemma_views_push(reasons@, reason);
                    sig = sig + seq![(level, reason@)];
                }
                severity = severity.max(level);
                reasons.push(reason);
            } else {
                proof {
                    lemma_add_no_signal(sig);
                }
            }
        },
        None => {
            proof {
                lemma_add_no_signal(sig);
            }
        },
    }
    assert(sig == usage_signal(*m, *t));

    let ghost before = sig;
    match m.available_bytes {
        Some(a) => {
            if a <= 2 * GIB || a <= 5 * GIB {
                let level = if a <= 2 * GIB { Severity::Critical } else { Severity::Warning };
                let mut reason = String::from_str("free space ");
                reason.append(gib(a).as_str());
                reason.append(" GiB");
                proof {
                    lemma_add_signal(sig, (level, reason@));
                    lemma_views_push(reasons@, reason);
                    sig = sig + seq![(level, reason@)];
                }
                severity = severity.max(level);
                reasons.push(reason);
            } else {
                proof {
                    lemma_add_no_signal(sig);
                }
            }
        },
        None => {
            proof {
                lemma_add_no_signal(sig);
            }
        },
    }
    assert(sig == before + free_signal(*m));

    let ghost before = sig;
    match m.inodes_usage_ppm {
        Some(r) => {
            if r >= 800_000 {
                let level = if r >= 900_000 { Severity::Critical } else { Severity::Warning };
                let mut reason = String::from_str("inode usage ");
                reason.append(percent(r).as_str());
                reason.append("%");
                proof {
                    lemma_add_signal(sig, (level, reason@));
                    lemma_views_push(reasons@, reason);
                    sig = sig + seq![(level, reason@)];
                }
                severity = severity.max(level);
                reasons.push(reason);
            } else {
                proof {
                    lemma_add_no_signal(sig);
                }
            }
        },
        None => {
            proof {
                lemma_add_no_signal(sig);
            }
        },
    }
    assert(sig == before + inode_signal(*m));

    let ghost before = sig;
    let boot = str_eq(m.mount_point.as_str(), "/boot") || str_eq(m.mount_point.as_str(), "/boot/efi");
    match m.available_bytes {
        Some(a) => {
            if boot && a <= GIB / 2 {
                let level = if a <= GIB / 4 { Severity::Critical } else { Severity::Warning };
                let reason = if a <= GIB / 4 {
                    String::from_str("boot volume nearly full")
                } else {
                    String::from_str("boot volume low free space")
                };
                proof {
                    lemma_add_signal(sig, (level, reason@));
                    lemma_views_push(reasons@, reason);
                    sig = sig + seq![(level, reason@)];
                }
                severity = severity.max(level);
                reasons.push(reason);
            } else {
                proof {
                    lemma_add_no_signal(sig);
                }
            }
        },
        None => {
            proof {
                lemma_add_no_signal(sig);
            }
        },
    }
    assert(sig == before + boot_signal(*m));
    assert(sig == mount_signals(*m, *t));
    assert(views(reasons@) == signal_reasons(sig));
    assert(severity == signals_severity(sig));
    assert(reasons@.len() == views(reasons@).len());

    if reasons.len() == 0 {
        assert(fviews(findings@) =~= start + mount_findings(*section, *m, *t));
        return;
    }
    let mut message = String::from_str("Mount ");
    message.append(m.mount_point.as_str());
    message.append(" (");
    message.append(m.fs_type.as_str());
    message.append(")");
    match m.usage_ppm {
        Some(u) => {
            let mut used = String::from_str(": ");
            used.append(percent(u).as_str());
            used.append("% used");
            message.append(used.as_str());
        },
        None => {
            assert(message@ + Seq::<char>::empty() == message@);
        },
    }
    message.append(" \u{2014} ");
    message.append(join_range(&reasons, 0, reasons.len(), ", ").as_str());
    assert(views(reasons@).subrange(0, reasons@.len() as int) == views(reasons@));
    let f = new_finding(section, severity, message);
    proof {
        lemma_fviews_push(findings@, f);
    }
    findings.push(f);
    assert(fviews(findings@) =~= start + mount_findings(*section, *m, *t));
}


/// Appends the findings of the storage rule for `section`.
fn collect_storage_alerts(
    section: &Section,
    t: &DigestThresholds,
    findings: &mut Vec<CriticalFinding>,
)
    ensures
        fviews(final(findings)@) == fviews(old(findings)@) + storage_findings(*section, *t),
{
    let ghost start = fviews(findings@);
    if !str_eq(section.id, "storage") {
        assert(fviews(findings@) =~= start + storage_findings(*section, *t));
        return;
    }
    match &section.body {
        SectionBody::Storage(body) => {
            let mounts = &body.operating_mounts;
            let mut i: usize = 0;
            assert(fviews(findings@) =~= start + mounts_findings(
                *section,
                mounts@.subrange(0, 0),
                *t,
            ));
            while i < mounts.len()
                invariant
                    i <= mounts@.len(),
                    fviews(findings@) == start + mounts_findings(
                        *section,
                        mounts@.subrange(0, i as int),
                        *t,
                    ),
                decreases mounts@.len() - i,
            {
                collect_mount_alert(section, &mounts[i], t, findings);
                assert(mounts@.subrange(0, i + 1).drop_last() == mounts@.subrange(0, i as int));
                assert(fviews(findings@) =~= start + mounts_findings(
                    *section,
                    mounts@.subrange(0, i + 1),
                    *t,
                ));
                i = i + 1;
            }
            assert(mounts@.subrange(0, mounts@.len() as int) == mounts@);
        },
        _ => {
            assert(fviews(findings@) =~= start + storage_findings(*section, *t));
        },
    }
}

proof fn lemma_mul_le(x: int, y: int, xm: int, ym: int)
    requires
        0 <= x <= xm,
        0 <= y <= ym,
    ensures
        x * y <= xm * ym,
{
    assert(x * y <= xm * ym) by (nonlinear_arith)
        requires
            0 <= x <= xm,
            0 <= y <= ym,
    ;
}

/// Severity of a remaining ratio `a / b` against the memory floors.
fn memory_level(a: u64, b: u64, t: &DigestThresholds) -> (r: Severity)
    ensures
        r == memory_severity(a as nat, b as nat, *t),
{
    proof {
        lemma_mul_le(a as int, RATIO_ONE as int, u64::MAX as int, RATIO_ONE as int);
        lemma_mul_le(t.memory_critical as int, b as int, u32::MAX as int, u64::MAX as int);
        lemma_mul_le(t.memory_warning as int, b as int, u32::MAX as int, u64::MAX as int);
    }
    if (a as u128) * (RATIO_ONE as u128) <= (t.memory_critical as u128) * (b as u128) {
        Severity::Critical
    } else if (a as u128) * (RATIO_ONE as u128) <= (t.memory_warning as u128) * (b as u128) {
        Severity::Warning
    } else {
        Severity::Info
    }
}

/// Appends the finding of the host-memory rule, if it raises one.
fn collect_host_alert(
    section: &Section,
    h: &HostMemory,
    t: &DigestThresholds,
    findings: &mut Vec<CriticalFinding>,
)
    ensures
        fviews(final(findings)@) == fviews(old(findings)@) + host_findings(*section, *h, *t),
{
    let ghost start = fviews(findings@);
    match (h.total_bytes, h.available_bytes) {
        (Some(total), Some(avail)) => {
            if total > 0 {
                let level = memory_level(avail, total, t);
                match level {
                    Severity::Info => {},
                    _ => {
                        let mut message = String::from_str("Host memory ");
                        message.append(fraction_percent(avail, total).as_str());
                        message.append("% available (");
                        message.append(gib(avail).as_str());
                        message.append(" GiB free)");
                        let f = new_finding(section, level, message);
                        proof {
                            lemma_fviews_push(findings@, f);
                        }
                        findings.push(f);
                    },
                }
            }
        },
        _ => {},
    }
    assert(fviews(findings@) =~= start + host_findings(*section, *h, *t));
}

/// Appends the finding of the control-group memory rule, if it raises one.
fn collect_cgroup_alert(
    section: &Section,
    c: &CgroupMemory,
    t: &DigestThresholds,
    findings: &mut Vec<CriticalFinding>,
)
    ensures
        fviews(final(findings)@) == fviews(old(findings)@) + cgroup_findings(*section, *c, *t),
{
    let ghost start = fviews(findings@);
    match (c.limit_bytes, c.usage_bytes) {
        (Some(limit), Some(usage)) => {
            if limit > 0 {
                let room: u64 = if usage >= limit { 0 } else { limit - usage };
                let level = memory_level(room, limit, t);
                match level {
                    Severity::Info => {},
                    _ => {
                        let mut message = String::from_str("Cgroup memory ");
                        message.append(fraction_percent(room, limit).as_str());
                        message.append("% headroom (");
                        message.append(gib(room).as_str());
                        message.append(" GiB free of limit)");
                        let f = new_finding(section, level, message);
                        proof {
                            lemma_fviews_push(findings@, f);
                        }
                        findings.push(f);
                    },
                }
            }
        },
        _ => {},
    }
    assert(fviews(findings@) =~= start + cgroup_findings(*section, *c, *t));
}

/// Appends the findings of the memory rule for `section`.
fn collect_proc_alerts(section: &Section, t: &DigestThresholds, findings: &mut Vec<CriticalFinding>)
    ensures
        fviews(final(findings)@) == fviews(old(findings)@) + memory_findings(*section, *t),
{
    let ghost start = fviews(findings@);
    if !str_eq(section.id, "proc") {
        assert(fviews(findings@) =~= start + memory_findings(*section, *t));
        return;
    }
    match &section.body {
        SectionBody::Memory(body) => {
            match &body.host {
                Some(h) => collect_host_alert(section, h, t, findings),
                None => {},
            }
            let ghost mid = fviews(findings@);
            match &body.cgroup {
                Some(c) => collect_cgroup_alert(section, c, t, findings),
                None => {},
            }
            assert(fviews(findings@) =~= start + memory_findings(*section, *t));
        },
        _ => {
            assert(fviews(findings@) =~= start + memory_findings(*section, *t));
        },
    }
}

/// The findings of every section against the thresholds, and their maximum severity.
pub fn build_health_digest(sections: &[Section], thresholds: &DigestThresholds) -> (r: HealthDigest)
    ensures
        fviews(r.findings@) == digest_findings(sections@, *thresholds),
        r.overall == max_severity(fviews(r.findings@)),
{
    let mut findings: Vec<CriticalFinding> = Vec::new();
    let mut i: usize = 0;
    assert(fviews(findings@) =~= digest_findings(sections@.subrange(0, 0), *thresholds));
    while i < sections.len()
        invariant
            i <= sections@.len(),
            fviews(findings@) == digest_findings(sections@.subrange(0, i as int), *thresholds),
        decreases sections@.len() - i,
    {
        let section = &sections[i];
        let ghost start = fviews(findings@);
        match section.status {
            SectionStatus::Success => {},
            SectionStatus::Degraded => {
                let message = match &section.summary {
                    Some(s) => owned(s.as_str()),
                    None => String::from_str("Collector reported a degraded state"),
                };
                let f = new_finding(section, Severity::Warning, message);
                proof {
                    lemma_fviews_push(findings@, f);
                }
                findings.push(f);
            },
            SectionStatus::Error => {
                let message = match &section.summary {
                    Some(s) => owned(s.as_str()),
                    None => String::from_str("Collector failed"),
                };
                let f = new_finding(section, Severity::Critical, message);
                proof {
                    lemma_fviews_push(findings@, f);
                }
                findings.push(f);
            },
        }
        assert(fviews(findings@) =~= start + base_findings(*section));
        collect_storage_alerts(section, thresholds, &mut findings);
        collect_proc_alerts(section, thresholds, &mut findings);
        assert(sections@.subrange(0, i + 1).drop_last() == sections@.subrange(0, i as int));
        assert(fviews(findings@) =~= digest_findings(
            sections@.subrange(0, i + 1),
            *thresholds,
        ));
        i = i + 1;
    }
    assert(sections@.subrange(0, sections@.len() as int) == sections@);

    let mut overall = Severity::Info;
    let mut j: usize = 0;
    while j < findings.len()
        invariant
            j <= findings@.len(),
            overall == max_severity(fviews(findings@).subrange(0, j as int)),
        decreases findings@.len() - j,
    {
        assert(fviews(findings@).subrange(0, j + 1).drop_last() == fviews(findings@).subrange(
            0,
            j as int,
        ));
        overall = overall.max(findings[j].severity);
        j = j + 1;
    }
    assert(fviews(findings@).subrange(0, findings@.len() as int) == fviews(findings@));
    HealthDigest { overall, findings }
}

/// Whatever the sections, the digest's overall severity is the maximum severity among its
/// findings, and `Info` when there are none.
pub proof fn lemma_digest_overall(sections: Seq<Section>, t: DigestThresholds, d: HealthDigest)
    requires
        fviews(d.findings@) == digest_findings(sections, t),
        d.overall == max_severity(fviews(d.findings@)),
    ensures
        forall|i: int| 0 <= i < d.findings@.len() ==> d.findings@[i].severity.rank() <= d.overall.rank(),
        d.findings@.len() == 0 ==> d.overall == Severity::Info,
        d.findings@.len() > 0 ==> exists|i: int| 0 <= i < d.findings@.len() && d.findings@[i].severity == d.overall,
{
    let fs = fviews(d.findings@);
    lemma_max_severity_is_maximum(fs);
    assert forall|i: int| 0 <= i < d.findings@.len() implies d.findings@[i].severity.rank() <= d.overall.rank() by {
        assert(fs[i].severity == d.findings@[i].severity);
    }
    if d.findings@.len() > 0 {
        let i = choose|i: int| 0 <= i < fs.len() && fs[i].severity == max_severity(fs);
        assert(d.findings@[i].severity == fs[i].severity);
    }
}

} // verus!
