use vmic::journal::{
    entry_from_fields, extract_after, extract_username_from_failure, format_timestamp, journal_lines,
    summarize_ssh_activity, top_counts, CountEntry, JournalEntry,
};
use vmic::network::{network_section, sort_interfaces, InterfaceInfo, SocketEntry, SocketTables};
use vmic::sdk::{SectionBody, SectionStatus};
use vmic::proc::{cgroup_memory_dirs, join_cgroup_path, parse_counter, CgroupLine, CounterError};
use vmic::storage::{aggregate_usage, decode_mount_field, mount_stat, parse_proc_mounts, MountStat};
use vmic::users::{mark_sudo, parse_groups, parse_passwd};

#[test]
fn decode_mount_field_unescapes_space() {
    let decoded = decode_mount_field("/snap/core20/\\0401234");
    assert_eq!(decoded, "/snap/core20/ 1234");
}

#[test]
fn decode_mount_field_keeps_bad_escapes() {
    assert_eq!(decode_mount_field("a\\09b"), "a\\09b");
    assert_eq!(decode_mount_field("tab\\011x"), "tab\tx");
    assert_eq!(decode_mount_field("end\\"), "end\\");
    assert_eq!(decode_mount_field("\\489"), "\\489");
}

#[test]
fn parse_stream_skips_empty_lines() {
    let sample = "\n\n";
    let entries = journal_lines(sample);
    assert!(entries.is_empty());
    assert_eq!(journal_lines("{\"a\":1}\n  \n{\"b\":2}\n").len(), 2);
}

#[test]
fn parse_line_handles_missing_fields() {
    let entry = entry_from_fields(Some("".into()), None, None, Some("bash".into()));
    assert_eq!(entry.message, "(no message)");
    assert_eq!(entry.source.as_deref(), Some("bash"));
    assert_eq!(entry.timestamp, "unknown");
}

#[test]
fn journal_timestamp_in_milliseconds() {
    assert_eq!(format_timestamp("1500000").as_deref(), Some("1970-01-01T00:00:01.500Z"));
    assert_eq!(format_timestamp("x"), None);
    assert_eq!(format_timestamp("18446744073709551615"), None);
    let far = entry_from_fields(Some("m".into()), Some("18446744073709551615".into()), None, None);
    assert_eq!(far.timestamp, "unknown");
}

#[test]
fn sudo_follows_privileged_groups() {
    let users = parse_passwd("root:x:0:0:r:/root:/bin/bash\nalice:x:1000:1000::/home/alice:/bin/bash\nbob:x:1001:10::/home/bob:/bin/sh\ncarl:x:1002:1002::/home/carl:/bin/sh\n");
    let groups = parse_groups("sudo:x:27:alice\nwheel:x:10:\nusers:x:100:carl\n");
    let marked = mark_sudo(users, &groups);
    let flags: Vec<bool> = marked.iter().map(|u| u.sudo).collect();
    assert_eq!(flags, vec![false, true, true, false]);
    assert_eq!(marked[1].name, "alice");
}

fn iface(name: &str) -> InterfaceInfo {
    InterfaceInfo { name: name.into(), rx_bytes: 1, tx_bytes: 2, rx_packets: 3, tx_packets: 4 }
}

#[test]
fn interfaces_sorted_by_name() {
    let sorted = sort_interfaces(vec![iface("wlan0"), iface("eth0"), iface("lo"), iface("eth0")]);
    let names: Vec<&str> = sorted.iter().map(|i| i.name.as_str()).collect();
    assert_eq!(names, vec!["eth0", "eth0", "lo", "wlan0"]);
}

fn no_tables() -> SocketTables {
    SocketTables { tcp: Ok(vec![]), tcp6: Ok(vec![]), udp: Ok(vec![]), udp6: Ok(vec![]) }
}

#[test]
fn network_section_without_interfaces_is_an_error() {
    let s = network_section(Err("denied".into()), no_tables(), &Vec::new());
    assert_eq!(s.status, SectionStatus::Error);
    assert_eq!(s.summary.as_deref(), Some("failed to read network interfaces"));
    let s = network_section(Ok(vec![]), no_tables(), &Vec::new());
    assert_eq!(s.status, SectionStatus::Error);
    assert_eq!(s.summary.as_deref(), Some("no network interface data available"));
    match s.body {
        SectionBody::Network(n) => {
            assert!(n.interfaces.is_empty());
            assert_eq!(n.listeners.counts.total(), 0);
            assert!(n.listeners.samples.is_empty());
        }
        _ => panic!("network body expected"),
    }
}

#[test]
fn network_section_summarises() {
    let tables = SocketTables {
        tcp: Ok(vec![SocketEntry { local_address: "0.0.0.0:22".into(), inode: 5, listening: true }]),
        tcp6: Err("gone".into()),
        udp: Ok(vec![]),
        udp6: Ok(vec![]),
    };
    let s = network_section(Ok(vec![iface("lo"), iface("eth0")]), tables, &Vec::new());
    assert_eq!(s.status, SectionStatus::Success);
    assert_eq!(s.id, "network");
    assert_eq!(s.summary.as_deref(), Some("2 interfaces, 1 listening sockets"));
    assert_eq!(s.notes, vec!["Failed to read /proc/net/tcp6: gone".to_string()]);
    match s.body {
        SectionBody::Network(n) => {
            assert_eq!(n.interfaces[0].name, "eth0");
            assert_eq!(n.listeners.insights.len(), 1);
            assert_eq!(n.listeners.samples[0].service.as_deref(), Some("ssh"));
        }
        _ => panic!("network body expected"),
    }
}

#[test]
fn proc_mounts_sorted_and_unique() {
    let table = "/dev/sda1 / ext4 rw,relatime 0 0\n\ntmpfs /run tmpfs rw,nosuid 0 0\n/dev/sdb1 /mnt/my\\040disk ext4 ro 0 0\n/dev/sda2 / xfs rw 0 0\n";
    let mounts = parse_proc_mounts(table);
    let points: Vec<&str> = mounts.iter().map(|m| m.mount_point.as_str()).collect();
    assert_eq!(points, vec!["/", "/mnt/my disk", "/run"]);
    assert_eq!(mounts[0].fs_type, "ext4");
    assert_eq!(mounts[0].source, "/dev/sda1");
    assert!(mounts[1].is_read_only());
    assert!(!mounts[0].is_read_only());
    assert_eq!(mounts[2].options, vec!["rw", "nosuid"]);
}

#[test]
fn mount_stat_figures() {
    let s = mount_stat(4096, 1024, 1000, 250, 100, 40, 40);
    assert_eq!(s.total_bytes, 4_096_000);
    assert_eq!(s.available_bytes, 1_024_000);
    assert_eq!(s.used_bytes, 3_072_000);
    assert_eq!(s.usage_ppm, 750_000);
    assert_eq!(s.inodes_used, Some(60));
    assert_eq!(s.inodes_usage_ppm, Some(600_000));
    let z = mount_stat(0, 512, 0, 0, 0, 0, 0);
    assert_eq!(z.usage_ppm, 0);
    assert_eq!(z.inodes_total, None);
}

#[test]
fn cgroup_counters_and_dirs() {
    assert_eq!(parse_counter("max\n"), Ok(None));
    assert_eq!(parse_counter("  MAX "), Ok(None));
    assert_eq!(parse_counter("4096\n"), Ok(Some(4096)));
    assert_eq!(parse_counter("18446744073709551615"), Ok(None));
    assert_eq!(parse_counter(""), Ok(None));
    assert_eq!(parse_counter("lots"), Err(CounterError::NotANumber));
    assert_eq!(join_cgroup_path("/sys/fs/cgroup", "/"), "/sys/fs/cgroup");
    assert_eq!(join_cgroup_path("/sys/fs/cgroup", "/user.slice/a"), "/sys/fs/cgroup/user.slice/a");
    let lines = vec![
        CgroupLine { controllers: vec![], pathname: "/app".into() },
        CgroupLine { controllers: vec!["cpu".into(), "memory".into()], pathname: "/legacy".into() },
        CgroupLine { controllers: vec!["cpu".into()], pathname: "/other".into() },
    ];
    let dirs = cgroup_memory_dirs(&lines);
    assert_eq!(dirs.len(), 2);
    assert!(dirs[0].unified);
    assert_eq!(dirs[0].dir, "/sys/fs/cgroup/app");
    assert!(!dirs[1].unified);
    assert_eq!(dirs[1].dir, "/sys/fs/cgroup/memory/legacy");
}

#[test]
fn ssh_tokens_are_extracted() {
    assert_eq!(
        extract_after("invalid user admin from 10.0.0.5 port 22", "invalid user").as_deref(),
        Some("admin")
    );
    assert_eq!(extract_after("invalid user admin from 10.0.0.5 port 22", "from").as_deref(), Some("10.0.0.5"));
    assert_eq!(extract_after("nothing here", "from"), None);
    assert_eq!(
        extract_username_from_failure("failed password for root from 1.2.3.4").as_deref(),
        Some("root")
    );
    assert_eq!(extract_username_from_failure("failed password"), None);
}

#[test]
fn top_counts_keeps_five_most_frequent() {
    let t: Vec<CountEntry> = [("a", 1), ("b", 7), ("c", 3), ("d", 9), ("e", 2), ("f", 5)]
        .iter()
        .map(|(n, c)| CountEntry { name: n.to_string(), count: *c })
        .collect();
    let top = top_counts(t);
    let names: Vec<&str> = top.iter().map(|c| c.name.as_str()).collect();
    assert_eq!(names, vec!["d", "b", "f", "c", "e"]);
}

#[test]
fn ssh_activity_summary() {
    let entry = |source: &str, message: &str| JournalEntry {
        timestamp: "unknown".into(),
        source: Some(source.into()),
        message: message.into(),
    };
    let entries = vec![
        entry("sshd.service", "Invalid user admin from 10.0.0.5 port 2222"),
        entry("sshd.service", "Failed password for root from 10.0.0.5 port 2222 ssh2"),
        entry("cron.service", "Failed password for nobody from 9.9.9.9"),
        entry("sshd.service", "Accepted publickey for alice from 10.0.0.7"),
    ];
    let summary = summarize_ssh_activity(&entries).expect("ssh activity");
    assert_eq!(summary.invalid_user_count, 1);
    assert_eq!(summary.auth_failure_count, 1);
    assert_eq!(summary.top_hosts[0].name, "10.0.0.5");
    assert_eq!(summary.top_hosts[0].count, 2);
    assert_eq!(summary.top_usernames.len(), 2);
    assert!(summarize_ssh_activity(&entries[3..]).is_none());
}

#[test]
fn aggregate_usage_sums_values() {
    let mounts = vec![
        MountStat {
            total_bytes: 100,
            used_bytes: 40,
            available_bytes: 60,
            usage_ppm: 400_000,
            inodes_total: Some(1000),
            inodes_used: Some(400),
            inodes_available: Some(600),
            inodes_usage_ppm: Some(400_000),
        },
        MountStat {
            total_bytes: 50,
            used_bytes: 10,
            available_bytes: 40,
            usage_ppm: 200_000,
            inodes_total: Some(1000),
            inodes_used: Some(200),
            inodes_available: Some(800),
            inodes_usage_ppm: Some(200_000),
        },
    ];
    let aggregate = aggregate_usage(&mounts);
    assert_eq!(aggregate.total_bytes, 150);
    assert_eq!(aggregate.used_bytes, 50);
    assert_eq!(aggregate.available_bytes, 100);
}
