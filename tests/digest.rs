use vmic::health::{build_health_digest, CriticalFinding, DigestThresholds, Severity, ThresholdError, ThresholdName};
use vmic::report::{collect_sections, section_from_outcome, CollectorRun, Report};
use vmic::sdk::{
    CgroupMemory, CollectorMetadata, HostMemory, MemoryBody, MountUsage, Section, SectionBody,
    SectionStatus, StorageBody,
};

fn storage_section(usage_ppm: u32, available: u64) -> Section {
    Section::success(
        "storage",
        "Storage Overview",
        SectionBody::Storage(StorageBody {
            operating_mounts: vec![MountUsage {
                mount_point: "/data".into(),
                fs_type: "ext4".into(),
                read_only: false,
                operational: true,
                usage_ppm: Some(usage_ppm),
                available_bytes: Some(available),
                inodes_usage_ppm: Some(500_000),
            }],
        }),
    )
}

#[test]
fn default_digest_thresholds_match_updated_values() {
    let thresholds = DigestThresholds::default_thresholds();
    assert_eq!(thresholds.disk_warning, 900_000);
    assert_eq!(thresholds.disk_critical, 950_000);
    assert_eq!(thresholds.memory_warning, 100_000);
    assert_eq!(thresholds.memory_critical, 50_000);
}

#[test]
fn digest_highlights_degraded_sections() {
    let degraded = Section::degraded(
        "demo",
        "Demo",
        "something off".to_string(),
        SectionBody::Document("{}".into()),
    );
    let report = Report::new(vec![degraded]);
    assert_eq!(report.health_digest.overall, Severity::Warning);
    assert_eq!(report.health_digest.findings.len(), 1);
    assert!(report.health_digest.findings[0].message.contains("something off"));
}

#[test]
fn digest_flags_high_disk_usage() {
    let report = Report::new(vec![storage_section(950_000, 5_000_000_000)]);
    assert_eq!(report.health_digest.overall, Severity::Critical);
    assert!(report
        .health_digest
        .findings
        .iter()
        .any(|f| f.source_id == "storage" && f.severity == Severity::Critical));
    assert!(report.health_digest.findings[0].message.contains("95.0%"));
}

#[test]
fn custom_thresholds_trigger_warning() {
    let thresholds = DigestThresholds {
        disk_warning: 800_000,
        disk_critical: 900_000,
        ..DigestThresholds::default()
    };
    let report = Report::with_digest_config(vec![storage_section(850_000, 15_000_000_000)], thresholds);
    assert_eq!(report.health_digest.overall, Severity::Warning);
    assert!(report
        .health_digest
        .findings
        .iter()
        .any(|f| f.source_id == "storage" && f.severity == Severity::Warning));
}

#[test]
fn storage_message_lists_every_reason() {
    let digest = build_health_digest(
        &[storage_section(950_000, 5_000_000_000)],
        &DigestThresholds::default_thresholds(),
    );
    assert_eq!(digest.findings.len(), 1);
    assert_eq!(
        digest.findings[0].message,
        "Mount /data (ext4): 95.0% used \u{2014} usage 95.0%, free space 4.66 GiB"
    );
}

#[test]
fn boot_mount_has_stricter_floor() {
    let section = Section::success(
        "storage",
        "Storage Overview",
        SectionBody::Storage(StorageBody {
            operating_mounts: vec![
                MountUsage {
                    mount_point: "/boot".into(),
                    fs_type: "vfat".into(),
                    read_only: false,
                    operational: true,
                    usage_ppm: Some(100_000),
                    available_bytes: Some(200_000_000),
                    inodes_usage_ppm: None,
                },
                MountUsage {
                    mount_point: "/ro".into(),
                    fs_type: "ext4".into(),
                    read_only: true,
                    operational: true,
                    usage_ppm: Some(999_000),
                    available_bytes: Some(0),
                    inodes_usage_ppm: None,
                },
            ],
        }),
    );
    let digest = build_health_digest(&[section], &DigestThresholds::default_thresholds());
    assert_eq!(digest.findings.len(), 1);
    assert_eq!(digest.findings[0].severity, Severity::Critical);
    assert!(digest.findings[0].message.contains("boot volume nearly full"));
}

#[test]
fn memory_rules_fire_independently() {
    let section = Section::success(
        "proc",
        "Processes",
        SectionBody::Memory(MemoryBody {
            host: Some(HostMemory { total_bytes: Some(1000), available_bytes: Some(40) }),
            cgroup: Some(CgroupMemory { limit_bytes: Some(1000), usage_bytes: Some(920) }),
        }),
    );
    let digest = build_health_digest(&[section], &DigestThresholds::default_thresholds());
    assert_eq!(digest.findings.len(), 2);
    assert_eq!(digest.findings[0].severity, Severity::Critical);
    assert_eq!(digest.findings[0].message, "Host memory 4.0% available (0.00 GiB free)");
    assert_eq!(digest.findings[1].severity, Severity::Warning);
    assert_eq!(digest.findings[1].message, "Cgroup memory 8.0% headroom (0.00 GiB free of limit)");
    assert_eq!(digest.overall, Severity::Critical);
}

#[test]
fn missing_memory_fields_skip_the_rule() {
    let section = Section::success(
        "proc",
        "Processes",
        SectionBody::Memory(MemoryBody {
            host: Some(HostMemory { total_bytes: Some(1000), available_bytes: None }),
            cgroup: None,
        }),
    );
    let digest = build_health_digest(&[section], &DigestThresholds::default_thresholds());
    assert!(digest.findings.is_empty());
    assert_eq!(digest.overall, Severity::Info);
}

#[test]
fn overall_is_maximum_or_info() {
    let empty = build_health_digest(&[], &DigestThresholds::default_thresholds());
    assert_eq!(empty.overall, Severity::Info);
    let sections = vec![
        Section::degraded("a", "A", "meh".into(), SectionBody::Empty),
        Section::error("b", "B", "boom".into()),
        Section::success("c", "C", SectionBody::Empty),
    ];
    let digest = build_health_digest(&sections, &DigestThresholds::default_thresholds());
    let max = digest.findings.iter().map(|f: &CriticalFinding| f.severity as u8).max().unwrap();
    assert_eq!(digest.overall as u8, max);
    assert_eq!(digest.overall, Severity::Critical);
    assert_eq!(digest.findings[1].message, "boom");
}

#[test]
fn thresholds_validation() {
    assert_eq!(DigestThresholds::default_thresholds().validate(), Ok(()));
    let t = DigestThresholds { disk_warning: 960_000, ..DigestThresholds::default_thresholds() };
    assert_eq!(t.validate(), Err(ThresholdError::DiskOrder));
    let t = DigestThresholds { memory_warning: 10_000, ..DigestThresholds::default_thresholds() };
    assert_eq!(t.validate(), Err(ThresholdError::MemoryOrder));
    let t = DigestThresholds { disk_critical: 1_000_001, ..DigestThresholds::default_thresholds() };
    assert_eq!(t.validate(), Err(ThresholdError::OutOfRange(ThresholdName::DiskCritical)));
    assert_eq!(ThresholdName::DiskCritical.as_str(), "disk_critical");
}

#[test]
fn severity_names() {
    assert_eq!(Severity::Warning.as_str(), "warning");
    assert_eq!(Severity::Critical.display_label(), "Critical");
    assert_eq!(SectionStatus::Degraded.as_str(), "degraded");
}

fn meta(id: &'static str) -> CollectorMetadata {
    CollectorMetadata { id, title: "T", description: "D" }
}

#[test]
fn failing_collector_does_not_stop_others() {
    let runs = vec![
        CollectorRun {
            metadata: meta("one"),
            outcome: Ok(Section::success("one", "One", SectionBody::Empty)),
            elapsed_ms: 3,
        },
        CollectorRun { metadata: meta("two"), outcome: Err("exploded".into()), elapsed_ms: 5 },
        CollectorRun {
            metadata: meta("three"),
            outcome: Ok(Section::success("three", "Three", SectionBody::Empty)),
            elapsed_ms: 7,
        },
    ];
    let sections = collect_sections(runs);
    assert_eq!(sections.len(), 3);
    assert_eq!(sections[0].id, "one");
    assert_eq!(sections[0].status, SectionStatus::Success);
    assert_eq!(sections[1].id, "two");
    assert_eq!(sections[1].status, SectionStatus::Error);
    assert_eq!(sections[1].summary.as_deref(), Some("exploded"));
    assert_eq!(sections[1].duration_ms, Some(5));
    assert_eq!(sections[2].id, "three");
    assert_eq!(sections[2].duration_ms, Some(7));
}

#[test]
fn error_section_has_summary() {
    let s = section_from_outcome(&meta("x"), Err("bad".into()), 1);
    assert_eq!(s.status, SectionStatus::Error);
    assert_eq!(s.summary.as_deref(), Some("bad"));
    assert!(!s.has_notes());
    match s.body {
        SectionBody::Error(e) => assert_eq!(e, "bad"),
        _ => panic!("error body expected"),
    }
}

#[test]
fn metadata_provides_iso8601_timestamp() {
    let report = Report::new(Vec::new());
    let iso = report.metadata.generated_at_iso8601();
    assert!(iso.contains('T'));
    assert!(iso.ends_with("+00:00"));
}

#[test]
fn metadata_counts_and_formats() {
    let report = Report::assemble(vec![Section::success("a", "A", SectionBody::Empty)], DigestThresholds::default_thresholds(), 86_400);
    assert_eq!(report.metadata.sections, 1);
    assert_eq!(report.metadata.generated_at, "86400");
    assert_eq!(report.metadata.generated_at_iso8601(), "1970-01-02T00:00:00+00:00");
    let mut bad = report.metadata.clone();
    bad.generated_at = "soon".into();
    assert_eq!(bad.generated_at_iso8601(), "unknown");
}

#[test]
fn unknown_usage_skips_only_its_signal() {
    let section = Section::success(
        "storage",
        "Storage Overview",
        SectionBody::Storage(StorageBody {
            operating_mounts: vec![MountUsage {
                mount_point: "/srv".into(),
                fs_type: "xfs".into(),
                read_only: false,
                operational: true,
                usage_ppm: None,
                available_bytes: Some(1_000_000_000),
                inodes_usage_ppm: Some(850_000),
            }],
        }),
    );
    let digest = build_health_digest(&[section], &DigestThresholds::default());
    assert_eq!(digest.findings.len(), 1);
    assert_eq!(digest.findings[0].severity, Severity::Critical);
    assert_eq!(
        digest.findings[0].message,
        "Mount /srv (xfs) \u{2014} free space 0.93 GiB, inode usage 85.0%"
    );
}
