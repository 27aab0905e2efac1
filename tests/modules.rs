use vmic::containers::{extract_version, ContainersSnapshot, RuntimeInfo};
use vmic::cron::{parse_cron_line, parse_crontab, CronEntry, CronFileSummary, CronSnapshot};
use vmic::docker::{clean_names, normalize_size};
use vmic::health::Severity;
use vmic::os::OsSnapshot;
use vmic::sdk::CollectionContext;
use vmic::security::{analyze_sshd_config_from_str, analyze_sudoers_from_str};
use vmic::services::{parse_systemctl_line, parse_systemctl_units, ServiceInfo, ServicesSnapshot};
use vmic::storage::{classify_mount, is_operational_mount, MountCategory};
use vmic::users::{
    is_interactive_shell, parse_group_line, parse_groups, parse_passwd, parse_passwd_line,
    LineError, UserRecord, UsersSnapshot,
};

#[test]
fn extract_version_returns_first_line() {
    let version = extract_version("podman version 4.5.0\nextra").expect("version");
    assert_eq!(version, "podman version 4.5.0");
    assert_eq!(extract_version("  \n"), None);
}

#[test]
fn snapshot_summary_reports_count() {
    let snapshot = ContainersSnapshot {
        runtimes: vec![RuntimeInfo { name: "podman".into(), version: Some("podman version".into()) }],
    };
    assert_eq!(snapshot.summary(), "1 runtime(s) detected");
    let none = ContainersSnapshot { runtimes: vec![] };
    assert_eq!(none.summary(), "No alternative container runtimes detected");
}

#[test]
fn parse_cron_line_extracts_command() {
    let line = "0 5 * * * root /usr/bin/run-backup";
    let entry = parse_cron_line(line).expect("parsed cron");
    assert_eq!(entry.user, "root");
    assert!(entry.command.contains("run-backup"));
    assert!(entry.schedule.starts_with("0 5"));
    assert_eq!(entry.schedule, "0 5 * * *");
}

#[test]
fn parse_cron_line_supports_macros() {
    let line = "@daily root /usr/local/bin/backup";
    let entry = parse_cron_line(line).expect("parsed macro cron");
    assert_eq!(entry.schedule, "@daily");
    assert_eq!(entry.user, "root");
    assert_eq!(entry.command, "/usr/local/bin/backup");
}

#[test]
fn parse_cron_line_rejects_macro_without_command() {
    let line = "@reboot root";
    let error = parse_cron_line(line).expect_err("missing macro command");
    assert!(error.as_str().contains("missing command"));
}

#[test]
fn snapshot_summary_counts_entries() {
    let snapshot = CronSnapshot {
        system_entries: vec![CronEntry {
            schedule: "0 0 * * *".into(),
            user: "root".into(),
            command: "/bin/true".into(),
        }],
        cron_d: vec![CronFileSummary {
            path: "/etc/cron.d/test".into(),
            entries: vec![CronEntry {
                schedule: "*/5 * * * *".into(),
                user: "alice".into(),
                command: "/bin/echo".into(),
            }],
        }],
    };
    assert_eq!(snapshot.summary(), "2 cron entries");
}

#[test]
fn crontab_skips_comments_and_blanks() {
    let entries = parse_crontab("# header\n\nSHELL=/bin/sh\n*/5 * * * * alice echo hi there\n");
    assert_eq!(entries.len(), 1);
    assert_eq!(entries[0].command, "echo hi there");
}

#[test]
fn clean_names_strips_prefixes() {
    let cleaned = clean_names(Some(vec!["/web".into(), "/api".into()]));
    assert_eq!(cleaned, vec!["web", "api"]);
    assert!(clean_names(None).is_empty());
}

#[test]
fn normalize_size_handles_negative_values() {
    assert_eq!(normalize_size(Some(-1)), None);
    assert_eq!(normalize_size(Some(0)), Some(0));
    assert_eq!(normalize_size(Some(2048)), Some(2048));
}

#[test]
fn summary_includes_kernel_version() {
    let snapshot = OsSnapshot {
        pretty_name: "Test OS".into(),
        name: "test".into(),
        version: Some("1.0".into()),
        version_id: Some("1".into()),
        id_like: vec!["linux".into()],
        kernel_release: "5.0.0-test".into(),
        kernel_version: "#1 SMP".into(),
        machine: "x86_64".into(),
    };
    assert!(snapshot.summary().contains("5.0.0-test"));
    assert_eq!(snapshot.summary(), "Test OS (kernel 5.0.0-test)");
}

#[test]
fn sshd_analysis_detects_insecure_settings() {
    let config = r#"
# Comment line
PasswordAuthentication yes
PermitRootLogin yes
ChallengeResponseAuthentication yes
Protocol 2,1
        "#;
    let analysis = analyze_sshd_config_from_str(config);
    assert_eq!(analysis.findings.len(), 4);
    assert!(analysis.findings.iter().any(|f| f.severity == Severity::Critical));
}

#[test]
fn sshd_analysis_marks_hardening() {
    let config = r#"
KexAlgorithms curve25519-sha256
        "#;
    let analysis = analyze_sshd_config_from_str(config);
    assert!(analysis.hardening_present);
    assert!(analysis.findings.is_empty());
}

#[test]
fn sudoers_analysis_detects_wildcard() {
    let sudoers = "ALL    ALL=(ALL) ALL";
    let analysis = analyze_sudoers_from_str(sudoers);
    assert_eq!(analysis.findings.len(), 1);
    assert_eq!(analysis.findings[0].severity, Severity::Critical);
}

#[test]
fn sudoers_analysis_detects_nopasswd() {
    let sudoers = "%wheel ALL=(ALL) NOPASSWD: ALL";
    let analysis = analyze_sudoers_from_str(sudoers);
    assert_eq!(analysis.findings.len(), 1);
    assert_eq!(analysis.findings[0].severity, Severity::Warning);
    assert_eq!(
        analysis.findings[0].message,
        "Potential password-less sudo entry: %wheel ALL=(ALL) NOPASSWD: ALL"
    );
    assert!(!analysis.includes_dir);
    assert!(analyze_sudoers_from_str("#includedir /etc/sudoers.d\n").includes_dir);
}

#[test]
fn parse_systemctl_line_extracts_description() {
    let line = "cron.service loaded active running Regular background program";
    let info = parse_systemctl_line(line).expect("parsed service");
    assert_eq!(info.unit, "cron.service");
    assert_eq!(info.load, "loaded");
    assert_eq!(info.active, "active");
    assert!(info.description.contains("Regular"));
    assert_eq!(info.description, "Regular background program");
    assert_eq!(parse_systemctl_units("a.service loaded active running A\n\nb\n").len(), 1);
}

#[test]
fn snapshot_summary_counts_services() {
    let snapshot = ServicesSnapshot {
        running: vec![ServiceInfo {
            unit: "cron.service".into(),
            load: "loaded".into(),
            active: "active".into(),
            sub: "running".into(),
            description: "Cron".into(),
        }],
        failed: vec![ServiceInfo {
            unit: "failed.service".into(),
            load: "loaded".into(),
            active: "failed".into(),
            sub: "failed".into(),
            description: "Broken".into(),
        }],
    };
    assert_eq!(snapshot.summary(), "1 running, 1 failed services");
}

#[test]
fn classify_mount_types() {
    assert!(matches!(classify_mount("ext4"), MountCategory::Operating));
    assert!(matches!(classify_mount("tmpfs"), MountCategory::Pseudo));
    assert!(is_operational_mount("/"));
    assert!(is_operational_mount("/var/lib"));
}

#[test]
fn parse_passwd_line_returns_user() {
    let line = "root:x:0:0:root:/root:/bin/bash";
    let user = parse_passwd_line(line).expect("parsed user");
    assert_eq!(user.name, "root");
    assert!(user.system);
    assert_eq!(user.shell, "/bin/bash");
    assert!(user.interactive);
    assert_eq!(parse_passwd_line("# c"), Err(LineError::Ignored));
    assert_eq!(parse_passwd_line("a:x:1"), Err(LineError::Malformed));
    assert_eq!(parse_passwd_line("a:x:q:0:g:/h:/s"), Err(LineError::InvalidUid));
    assert_eq!(parse_passwd("root:x:0:0:root:/root:/bin/bash\nbad\n").len(), 1);
    assert!(!is_interactive_shell("/usr/sbin/nologin"));
}

#[test]
fn snapshot_summary_counts_users() {
    let snapshot = UsersSnapshot {
        users: vec![
            UserRecord {
                name: "root".into(),
                uid: 0,
                gid: 0,
                home: "/root".into(),
                shell: "/bin/bash".into(),
                system: true,
                interactive: true,
                sudo: true,
            },
            UserRecord {
                name: "alice".into(),
                uid: 1000,
                gid: 1000,
                home: "/home/alice".into(),
                shell: "/bin/bash".into(),
                system: false,
                interactive: true,
                sudo: false,
            },
        ],
    };
    assert_eq!(snapshot.summary(), "2 users (1 system, 2 interactive, 1 sudo)");
}

#[test]
fn parse_group_line_extracts_members() {
    let line = "sudo:x:27:alice,bob";
    let group = parse_group_line(line).expect("group");
    assert_eq!(group.name, "sudo");
    assert_eq!(group.gid, 27);
    assert_eq!(group.members.len(), 2);
    assert_eq!(parse_groups("wheel:x:10:\n").len(), 1);
    assert!(parse_groups("wheel:x:10:\n")[0].members.is_empty());
}

#[test]
fn context_keeps_time_filter() {
    let mut ctx = CollectionContext::new();
    assert_eq!(ctx.since(), None);
    ctx.set_since(Some("yesterday".to_string()));
    assert_eq!(ctx.since(), Some("yesterday"));
    assert_eq!(CollectionContext::with_since("today".to_string()).since(), Some("today"));
}
