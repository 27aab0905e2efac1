use vmic::network::{
    build_listener_groups, listener_groups, classify_service, derive_listener_insights, extract_port,
    gather_listeners, is_wildcard_address, extract_container_from_cgroups, ListenerCounts,
    ProcessRecord, SocketEntry, SocketProcessInfo, SocketSample, SocketTables,
};

fn sample(protocol: &str, address: &str, pid: i32, command: &str, uid: u32, container: Option<&str>, service: Option<&str>) -> SocketSample {
    SocketSample {
        protocol: protocol.into(),
        local_address: address.into(),
        state: Some("Listen".into()),
        processes: vec![SocketProcessInfo {
            pid,
            command: command.into(),
            uid,
            container: container.map(|c| c.to_string()),
        }],
        service: service.map(|s| s.to_string()),
    }
}

#[test]
fn listener_counts_total() {
    let counts = ListenerCounts {
        tcp: 2,
        tcp6: 1,
        udp: 3,
        udp6: 0,
    };
    assert_eq!(counts.total(), 6);
}

#[test]
fn build_listener_groups_aggregates_by_container() {
    let samples = vec![
        sample("tcp", "127.0.0.1:80", 100, "nginx", 0, Some("container_a"), Some("http")),
        sample("tcp", "127.0.0.1:443", 100, "nginx", 0, Some("container_a"), Some("https")),
        sample("tcp", "0.0.0.0:22", 1, "sshd", 0, None, Some("ssh")),
    ];

    let groups = build_listener_groups(&samples);
    assert_eq!(groups.len(), 2);

    let container_group = groups
        .iter()
        .find(|group| group.container.as_deref() == Some("container_a"))
        .expect("container group");
    assert_eq!(container_group.socket_count, 2);
    assert_eq!(container_group.process_count, 1);
    assert_eq!(container_group.processes[0].socket_count, 2);
    assert_eq!(container_group.processes[0].protocols, vec!["tcp"]);

    let host_group = groups
        .iter()
        .find(|group| group.container.is_none())
        .expect("host group");
    assert_eq!(host_group.socket_count, 1);
    assert_eq!(host_group.processes[0].local_addresses, vec!["0.0.0.0:22"]);
}

#[test]
fn derive_listener_insights_flags_wildcard_and_legacy() {
    let samples = vec![
        sample("tcp", "0.0.0.0:23", 42, "inetd", 0, None, Some("telnet")),
        sample("tcp", "127.0.0.1:8080", 200, "app", 1000, Some("svc"), Some("http-alt")),
    ];

    let insights = derive_listener_insights(&samples);
    assert_eq!(insights.len(), 2);

    let wildcard = insights
        .iter()
        .find(|insight| insight.rule == "wildcard_listener")
        .expect("wildcard rule");
    assert_eq!(wildcard.sockets.len(), 1);
    assert_eq!(wildcard.sockets[0].pid, Some(42));

    let legacy = insights
        .iter()
        .find(|insight| insight.rule == "legacy_protocol")
        .expect("legacy rule");
    assert_eq!(legacy.sockets[0].service.as_deref(), Some("telnet"));
}

#[test]
fn telnet_on_wildcard_yields_two_insights_in_rule_order() {
    let samples = vec![sample("tcp", "0.0.0.0:23", 7, "inetd", 0, None, Some("telnet"))];
    let insights = derive_listener_insights(&samples);
    assert_eq!(insights.len(), 2);
    assert_eq!(insights[0].rule, "legacy_protocol");
    assert_eq!(insights[1].rule, "wildcard_listener");
    for insight in &insights {
        assert_eq!(insight.severity, "warning");
        assert_eq!(insight.sockets.len(), 1);
        assert_eq!(insight.sockets[0].local_address, "0.0.0.0:23");
        assert_eq!(insight.sockets[0].pid, Some(7));
    }
}

#[test]
fn no_insights_for_private_modern_listeners() {
    let samples = vec![sample("tcp", "127.0.0.1:443", 7, "nginx", 0, None, Some("https"))];
    assert!(derive_listener_insights(&samples).is_empty());
}

#[test]
fn port_and_service_classification() {
    assert_eq!(extract_port("0.0.0.0:22"), Some(22));
    assert_eq!(extract_port("[::]:8443"), Some(8443));
    assert_eq!(extract_port(":::53"), Some(53));
    assert_eq!(extract_port("no-port"), None);
    assert_eq!(extract_port("1.2.3.4:70000"), None);
    assert_eq!(classify_service("TCP", "0.0.0.0:23").as_deref(), Some("telnet"));
    assert_eq!(classify_service("udp", "0.0.0.0:53").as_deref(), Some("dns"));
    assert_eq!(classify_service("udp", "0.0.0.0:22"), None);
    assert_eq!(classify_service("tcp6", "[::]:22"), None);
}

#[test]
fn wildcard_address_forms() {
    assert!(is_wildcard_address("0.0.0.0:80"));
    assert!(is_wildcard_address(":::80"));
    assert!(is_wildcard_address("[::]:80"));
    assert!(is_wildcard_address("[::ffff:0.0.0.0]:80"));
    assert!(!is_wildcard_address("127.0.0.1:80"));
}

#[test]
fn container_from_cgroup_paths() {
    let docker = vec!["/system.slice/docker/abc123/extra".to_string()];
    assert_eq!(extract_container_from_cgroups(&docker).as_deref(), Some("abc123"));
    let kube = vec!["/kubepods/burstable/pod1/ctr9".to_string()];
    assert_eq!(extract_container_from_cgroups(&kube).as_deref(), Some("ctr9"));
    let host = vec!["/user.slice/session-1.scope".to_string()];
    assert_eq!(extract_container_from_cgroups(&host), None);
}

fn entry(address: &str, inode: u64, listening: bool) -> SocketEntry {
    SocketEntry { local_address: address.into(), inode, listening }
}

#[test]
fn counts_are_exact_and_samples_capped() {
    let tcp: Vec<SocketEntry> = (0..15).map(|i| entry(&format!("0.0.0.0:{}", 1000 + i), i, true)).collect();
    let mut tcp = tcp;
    tcp.push(entry("10.0.0.1:5555", 99, false));
    let udp: Vec<SocketEntry> = (0..10).map(|i| entry(&format!("0.0.0.0:{}", 2000 + i), 100 + i, false)).collect();
    let tables = SocketTables {
        tcp: Ok(tcp),
        tcp6: Err("permission denied".into()),
        udp: Ok(udp),
        udp6: Ok(Vec::new()),
    };
    let records = vec![ProcessRecord {
        pid: 10,
        command: Some("daemon".into()),
        uid: None,
        cgroups: Some(vec!["/docker/c1".into()]),
        socket_inodes: vec![0, 100],
    }];
    let (snapshot, notes) = gather_listeners(tables, &records);
    assert_eq!(snapshot.counts.tcp, 15);
    assert_eq!(snapshot.counts.tcp6, 0);
    assert_eq!(snapshot.counts.udp, 10);
    assert_eq!(snapshot.counts.total(), 25);
    assert_eq!(snapshot.samples.len(), 20);
    assert_eq!(snapshot.samples[15].protocol, "udp");
    assert_eq!(snapshot.samples[15].state, None);
    assert_eq!(snapshot.samples[0].state.as_deref(), Some("Listen"));
    assert_eq!(snapshot.samples[0].processes.len(), 1);
    assert_eq!(snapshot.samples[0].processes[0].container.as_deref(), Some("c1"));
    assert_eq!(snapshot.samples[0].processes[0].uid, 0);
    assert!(snapshot.samples[1].processes.is_empty());
    assert_eq!(notes, vec!["Failed to read /proc/net/tcp6: permission denied".to_string()]);
    assert_eq!(snapshot.groups.len(), 1);
    assert_eq!(snapshot.groups[0].socket_count, 2);
}

#[test]
fn few_sockets_are_all_sampled() {
    let tables = SocketTables {
        tcp: Ok(vec![entry("0.0.0.0:22", 1, true)]),
        tcp6: Ok(vec![entry("[::]:22", 2, true)]),
        udp: Ok(vec![entry("0.0.0.0:53", 3, false)]),
        udp6: Ok(vec![]),
    };
    let (snapshot, notes) = gather_listeners(tables, &Vec::new());
    assert!(notes.is_empty());
    assert_eq!(snapshot.counts.total(), snapshot.samples.len());
    assert_eq!(snapshot.samples[2].service.as_deref(), Some("dns"));
}

#[test]
fn container_socket_count_is_sum_of_processes() {
    let samples = vec![
        sample("tcp", "0.0.0.0:80", 1, "a", 0, Some("c"), None),
        sample("tcp", "0.0.0.0:81", 2, "b", 0, Some("c"), None),
        sample("udp", "0.0.0.0:82", 2, "b", 0, Some("c"), None),
        sample("tcp", "0.0.0.0:83", 3, "d", 0, None, None),
    ];
    let groups = build_listener_groups(&samples);
    assert_eq!(groups.len(), 2);
    assert_eq!(groups[0].container.as_deref(), Some("c"));
    for g in &groups {
        let sum: usize = g.processes.iter().map(|p| p.socket_count).sum();
        assert_eq!(g.socket_count, sum);
        assert_eq!(g.process_count, g.processes.len());
    }
    assert_eq!(groups[0].socket_count, 3);
    assert_eq!(groups[0].processes[0].pid, 2);
    assert_eq!(groups[0].processes[0].protocols, vec!["tcp", "udp"]);
}

#[test]
fn guarded_grouping_matches_direct_grouping() {
    let samples = vec![
        sample("tcp", "0.0.0.0:80", 1, "a", 0, Some("c"), None),
        sample("tcp", "0.0.0.0:81", 1, "a", 0, Some("c"), None),
    ];
    let groups = listener_groups(&samples).expect("pairs fit");
    assert_eq!(groups, build_listener_groups(&samples));
    assert_eq!(groups[0].socket_count, 2);
}
