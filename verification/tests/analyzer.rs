use snitch_fw::analyzer::analyze;
use snitch_fw::model::{
    DockerMapping, ExposureStatus, FirewallDecision, FirewallSignal, FirewallSource, Listener,
    Protocol,
};

#[test]
fn loopback_is_local_only() {
    let findings = analyze(
        vec![Listener {
            protocol: Protocol::Tcp,
            local_address: "127.0.0.1".to_string(),
            port: 6379,
            process: Some("redis".to_string()),
            pid: Some(10),
        }],
        Vec::new(),
        Vec::new(),
    );

    assert_eq!(findings[0].status, ExposureStatus::LocalOnly);
}

#[test]
fn loopback_range_with_interface_scope_is_local_only() {
    let findings = analyze(
        vec![Listener {
            protocol: Protocol::Udp,
            local_address: "127.0.0.53%lo".to_string(),
            port: 53,
            process: None,
            pid: None,
        }],
        Vec::new(),
        Vec::new(),
    );

    assert_eq!(findings[0].status, ExposureStatus::LocalOnly);
}

#[test]
fn conflicting_firewall_signals_are_ambiguous() {
    let findings = analyze(
        vec![Listener {
            protocol: Protocol::Tcp,
            local_address: "0.0.0.0".to_string(),
            port: 22,
            process: Some("sshd".to_string()),
            pid: Some(22),
        }],
        vec![
            FirewallSignal {
                source: FirewallSource::Nftables,
                decision: FirewallDecision::Accept,
                protocol: Some(Protocol::Tcp),
                port: Some(22),
                guard: None,
                conditional: false,
                detail: "tcp dport 22 accept".to_string(),
            },
            FirewallSignal {
                source: FirewallSource::Nftables,
                decision: FirewallDecision::Drop,
                protocol: Some(Protocol::Tcp),
                port: Some(22),
                guard: None,
                conditional: false,
                detail: "tcp dport 22 drop".to_string(),
            },
        ],
        Vec::new(),
    );

    assert_eq!(findings[0].status, ExposureStatus::NeedsReview);
}

#[test]
fn conditional_block_with_accept_is_guarded() {
    let findings = analyze(
        vec![Listener {
            protocol: Protocol::Tcp,
            local_address: "0.0.0.0".to_string(),
            port: 22,
            process: Some("sshd".to_string()),
            pid: Some(22),
        }],
        vec![
            FirewallSignal {
                source: FirewallSource::Nftables,
                decision: FirewallDecision::Accept,
                protocol: Some(Protocol::Tcp),
                port: Some(22),
                guard: None,
                conditional: false,
                detail: "tcp dport 22 accept".to_string(),
            },
            FirewallSignal {
                source: FirewallSource::Nftables,
                decision: FirewallDecision::Reject,
                protocol: Some(Protocol::Tcp),
                port: Some(22),
                guard: Some("fail2ban".to_string()),
                conditional: true,
                detail: "tcp dport 22 ip saddr @addr-set-sshd reject".to_string(),
            },
        ],
        Vec::new(),
    );

    assert_eq!(findings[0].status, ExposureStatus::Guarded);
    assert_eq!(findings[0].guards, vec!["fail2ban"]);
}

#[test]
fn docker_mapping_without_listener_is_reported() {
    let findings = analyze(
        Vec::new(),
        Vec::new(),
        vec![DockerMapping {
            host_ip: Some("0.0.0.0".to_string()),
            host_port: Some(8080),
            container_port: 80,
            protocol: Protocol::Tcp,
            container: "web".to_string(),
        }],
    );

    assert_eq!(findings.len(), 1);
    assert_eq!(findings[0].port, 8080);
    assert_eq!(findings[0].status, ExposureStatus::DockerPublished);
}

#[test]
fn container_only_docker_mapping_is_reported() {
    let findings = analyze(
        Vec::new(),
        Vec::new(),
        vec![DockerMapping {
            host_ip: None,
            host_port: None,
            container_port: 5432,
            protocol: Protocol::Tcp,
            container: "postgres".to_string(),
        }],
    );

    assert_eq!(findings.len(), 1);
    assert_eq!(findings[0].port, 5432);
    assert_eq!(findings[0].status, ExposureStatus::ContainerOnly);
}
