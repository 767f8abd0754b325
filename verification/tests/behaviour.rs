use snitch_fw::analyzer::{analyze, collect_findings, is_loopback_bind};
use snitch_fw::display::{
    clamp_selection, display_findings, format_details, format_status, handle_key,
    initial_state, key_for_char, refresh_due, short_docker_name, worst_status, KeyInput,
    LoopAction, ViewMode, ViewState,
};
use snitch_fw::docker::{collect_docker_mappings, parse_docker_line, parse_ports};
use snitch_fw::firewall::{
    collect_firewall_signals, parse_iptables_save, parse_nftables_ruleset, parse_ufw_status,
};
use snitch_fw::model::{
    CommandOutcome, DockerMapping, ExposureStatus, FirewallDecision, FirewallSignal,
    FirewallSource, Listener, PortFinding, Protocol,
};
use snitch_fw::ss::{collect_listeners, parse_ss_output};

fn listener(protocol: Protocol, address: &str, port: u16, process: Option<&str>) -> Listener {
    Listener {
        protocol,
        local_address: address.to_string(),
        port,
        process: process.map(|p| p.to_string()),
        pid: None,
    }
}

fn signal(
    source: FirewallSource,
    decision: FirewallDecision,
    port: Option<u16>,
    guard: Option<&str>,
    conditional: bool,
    detail: &str,
) -> FirewallSignal {
    FirewallSignal {
        source,
        decision,
        protocol: Some(Protocol::Tcp),
        port,
        guard: guard.map(|g| g.to_string()),
        conditional,
        detail: detail.to_string(),
    }
}

fn presence(source: FirewallSource) -> FirewallSignal {
    FirewallSignal {
        source,
        decision: FirewallDecision::Present,
        protocol: None,
        port: None,
        guard: None,
        conditional: false,
        detail: "present".to_string(),
    }
}

// ----------------------------------------------------------------- analyzer

#[test]
fn ipv6_loopback_and_localhost_are_local_only() {
    let findings = analyze(
        vec![
            listener(Protocol::Tcp, "::1", 5000, None),
            listener(Protocol::Tcp, "localhost", 5001, None),
        ],
        vec![signal(FirewallSource::Nftables, FirewallDecision::Accept, Some(5000), None, false, "a")],
        Vec::new(),
    );
    assert_eq!(findings[0].status, ExposureStatus::LocalOnly);
    assert_eq!(findings[0].firewall, "N/A");
    assert_eq!(findings[0].evidence, vec!["bind address ::1 is loopback"]);
    assert_eq!(findings[1].status, ExposureStatus::LocalOnly);
}

#[test]
fn specific_address_without_rules_is_exposed_with_unknown_firewall() {
    let findings = analyze(
        vec![listener(Protocol::Tcp, "10.0.0.5", 8443, Some("app"))],
        Vec::new(),
        Vec::new(),
    );
    assert_eq!(findings[0].status, ExposureStatus::Exposed);
    assert_eq!(findings[0].firewall, "unknown");
    assert_eq!(
        findings[0].evidence,
        vec![
            "bind address 10.0.0.5 is non-loopback",
            "firewall rules were not conclusively parsed yet",
        ]
    );
}

#[test]
fn wildcard_without_verdict_needs_review() {
    let findings = analyze(
        vec![listener(Protocol::Tcp, "*", 25, None)],
        vec![presence(FirewallSource::Nftables), presence(FirewallSource::Ufw)],
        Vec::new(),
    );
    assert_eq!(findings[0].status, ExposureStatus::NeedsReview);
    assert_eq!(findings[0].firewall, "Nftables+Ufw");
    assert_eq!(findings[0].evidence, vec!["wildcard bind requires firewall interpretation"]);
}

#[test]
fn drop_only_is_firewalled() {
    let findings = analyze(
        vec![listener(Protocol::Tcp, "0.0.0.0", 3306, None)],
        vec![signal(FirewallSource::Iptables, FirewallDecision::Drop, Some(3306), None, false, "-A INPUT -p tcp --dport 3306 -j DROP")],
        Vec::new(),
    );
    assert_eq!(findings[0].status, ExposureStatus::Firewalled);
    assert_eq!(findings[0].firewall, "Iptables");
    assert_eq!(findings[0].evidence, vec!["-A INPUT -p tcp --dport 3306 -j DROP"]);
}

#[test]
fn accept_only_is_exposed() {
    let findings = analyze(
        vec![listener(Protocol::Tcp, "0.0.0.0", 443, None)],
        vec![signal(FirewallSource::Ufw, FirewallDecision::Accept, Some(443), None, false, "443/tcp ALLOW IN Anywhere")],
        Vec::new(),
    );
    assert_eq!(findings[0].status, ExposureStatus::Exposed);
    assert_eq!(findings[0].firewall, "Ufw");
}

#[test]
fn accept_with_global_guard_is_guarded() {
    let findings = analyze(
        vec![listener(Protocol::Tcp, "0.0.0.0", 22, None)],
        vec![
            signal(FirewallSource::Ufw, FirewallDecision::Accept, Some(22), None, false, "22/tcp ALLOW IN Anywhere"),
            signal(FirewallSource::Nftables, FirewallDecision::Drop, None, Some("crowdsec"), true, "ip saddr @crowdsec-blacklists drop"),
        ],
        Vec::new(),
    );
    assert_eq!(findings[0].status, ExposureStatus::Guarded);
    assert_eq!(findings[0].guards, vec!["crowdsec"]);
    assert_eq!(findings[0].firewall, "Ufw");
}

#[test]
fn conflicting_sources_are_joined() {
    let findings = analyze(
        vec![listener(Protocol::Tcp, "0.0.0.0", 22, None)],
        vec![
            signal(FirewallSource::Ufw, FirewallDecision::Accept, Some(22), None, false, "allow"),
            signal(FirewallSource::Iptables, FirewallDecision::Reject, Some(22), None, false, "reject"),
        ],
        Vec::new(),
    );
    assert_eq!(findings[0].status, ExposureStatus::NeedsReview);
    assert_eq!(findings[0].firewall, "Ufw+Iptables");
    assert_eq!(
        findings[0].evidence,
        vec![
            "accept signal: allow",
            "blocking signal: reject",
            "conflicting firewall signals require rule-order interpretation",
        ]
    );
}

#[test]
fn guards_are_sorted_and_distinct() {
    let findings = analyze(
        vec![listener(Protocol::Tcp, "0.0.0.0", 22, None)],
        vec![
            signal(FirewallSource::Nftables, FirewallDecision::Drop, None, Some("fail2ban"), true, "x"),
            signal(FirewallSource::Nftables, FirewallDecision::Drop, None, Some("crowdsec"), true, "y"),
            signal(FirewallSource::Nftables, FirewallDecision::Drop, Some(22), Some("fail2ban"), true, "z"),
            signal(FirewallSource::Nftables, FirewallDecision::Drop, Some(80), Some("other"), true, "w"),
        ],
        Vec::new(),
    );
    assert_eq!(findings[0].guards, vec!["crowdsec", "fail2ban"]);
}

#[test]
fn listener_published_by_docker() {
    let findings = analyze(
        vec![listener(Protocol::Tcp, "0.0.0.0", 8080, Some("docker-proxy"))],
        vec![presence(FirewallSource::Iptables)],
        vec![DockerMapping {
            host_ip: Some("0.0.0.0".to_string()),
            host_port: Some(8080),
            container_port: 80,
            protocol: Protocol::Tcp,
            container: "web".to_string(),
        }],
    );
    assert_eq!(findings.len(), 1);
    assert_eq!(findings[0].status, ExposureStatus::DockerPublished);
    assert_eq!(findings[0].firewall, "Iptables");
    assert_eq!(findings[0].docker.as_ref().unwrap().container, "web");
}

#[test]
fn findings_are_ordered_by_port_then_protocol() {
    let findings = analyze(
        vec![
            listener(Protocol::Udp, "0.0.0.0", 53, None),
            listener(Protocol::Tcp, "0.0.0.0", 443, None),
            listener(Protocol::Tcp, "0.0.0.0", 53, None),
            listener(Protocol::Tcp, "127.0.0.1", 22, None),
        ],
        Vec::new(),
        vec![DockerMapping {
            host_ip: None,
            host_port: None,
            container_port: 6379,
            protocol: Protocol::Tcp,
            container: "cache".to_string(),
        }],
    );
    let keys: Vec<(u16, Protocol)> = findings.iter().map(|f| (f.port, f.protocol)).collect();
    assert_eq!(
        keys,
        vec![
            (22, Protocol::Tcp),
            (53, Protocol::Tcp),
            (53, Protocol::Udp),
            (443, Protocol::Tcp),
            (6379, Protocol::Tcp),
        ]
    );
}

#[test]
fn published_port_already_reported_is_not_repeated() {
    let findings = analyze(
        vec![listener(Protocol::Tcp, "0.0.0.0", 8080, None)],
        Vec::new(),
        vec![
            DockerMapping {
                host_ip: Some("0.0.0.0".to_string()),
                host_port: Some(8080),
                container_port: 80,
                protocol: Protocol::Tcp,
                container: "web".to_string(),
            },
            DockerMapping {
                host_ip: Some("::".to_string()),
                host_port: Some(8080),
                container_port: 80,
                protocol: Protocol::Tcp,
                container: "web".to_string(),
            },
        ],
    );
    assert_eq!(findings.len(), 1);
}

#[test]
fn docker_mapping_on_loopback_and_firewalled() {
    let findings = analyze(
        Vec::new(),
        vec![signal(FirewallSource::Nftables, FirewallDecision::Drop, Some(9000), None, false, "tcp dport 9000 drop")],
        vec![
            DockerMapping {
                host_ip: Some("127.0.0.1".to_string()),
                host_port: Some(5432),
                container_port: 5432,
                protocol: Protocol::Tcp,
                container: "db".to_string(),
            },
            DockerMapping {
                host_ip: None,
                host_port: Some(9000),
                container_port: 9000,
                protocol: Protocol::Tcp,
                container: "api".to_string(),
            },
        ],
    );
    assert_eq!(findings[0].status, ExposureStatus::LocalOnly);
    assert_eq!(findings[0].evidence, vec!["Docker publishes host port on loopback address 127.0.0.1"]);
    assert_eq!(findings[1].status, ExposureStatus::Firewalled);
    assert_eq!(findings[1].listen, "*");
    assert_eq!(findings[1].process.as_deref(), Some("docker"));
    assert_eq!(
        findings[1].evidence,
        vec!["Docker publishes host port for container api", "tcp dport 9000 drop"]
    );
}

#[test]
fn container_only_evidence_text() {
    let findings = analyze(
        Vec::new(),
        Vec::new(),
        vec![DockerMapping {
            host_ip: None,
            host_port: None,
            container_port: 5432,
            protocol: Protocol::Tcp,
            container: "postgres".to_string(),
        }],
    );
    assert_eq!(findings[0].listen, "container");
    assert_eq!(
        findings[0].evidence,
        vec!["container postgres exposes this port internally but Docker does not publish it on the host"]
    );
}

#[test]
fn host_only_drops_container_only_findings() {
    let mappings = vec![DockerMapping {
        host_ip: None,
        host_port: None,
        container_port: 5432,
        protocol: Protocol::Tcp,
        container: "postgres".to_string(),
    }];
    let listeners = vec![listener(Protocol::Tcp, "0.0.0.0", 80, None)];
    let all = collect_findings(listeners.clone(), Vec::new(), mappings.clone(), false);
    assert_eq!(all.len(), 2);
    let host = collect_findings(listeners, Vec::new(), mappings, true);
    assert_eq!(host.len(), 1);
    assert_eq!(host[0].port, 80);
}

// ----------------------------------------------------------------- firewall

fn tcp(port: u16) -> Listener {
    listener(Protocol::Tcp, "0.0.0.0", port, None)
}

#[test]
fn iptables_ignores_other_chains_and_partial_ports() {
    let rules = "*filter\n-A OUTPUT -p tcp --dport 22 -j ACCEPT\n-A INPUT -p tcp --dport 2222 -j DROP\n-A DOCKER-USER -p tcp --dport 22 -s 10.0.0.0/8 -j REJECT\nCOMMIT\n";
    let signals = parse_iptables_save(rules, &[tcp(22)]);
    assert_eq!(signals.len(), 1);
    assert_eq!(signals[0].decision, FirewallDecision::Reject);
    assert_eq!(signals[0].source, FirewallSource::Iptables);
    assert_eq!(signals[0].protocol, Some(Protocol::Tcp));
    assert_eq!(signals[0].detail, "-A DOCKER-USER -p tcp --dport 22 -s 10.0.0.0/8 -j REJECT");
}

#[test]
fn iptables_protocol_must_match_listener() {
    let signals = parse_iptables_save("-A INPUT -p udp --dport 53 -j ACCEPT", &[tcp(53)]);
    assert!(signals.is_empty());
}

#[test]
fn nftables_guards_and_context() {
    let ruleset = "table inet crowdsec {\n  chain crowdsec-chain {\n    ip saddr @crowdsec-blacklists drop\n  }\n}\ntable inet f2b-table {\n  chain f2b-chain {\n    tcp dport 22 ip saddr @addr-set-sshd reject\n  }\n}\ntable inet filter {\n  chain input {\n    tcp dport 80 accept\n  }\n}\n";
    let signals = parse_nftables_ruleset(ruleset, &[tcp(22), tcp(80)]);
    assert_eq!(signals.len(), 3);
    assert_eq!(signals[0].guard.as_deref(), Some("crowdsec"));
    assert_eq!(signals[0].port, None);
    assert!(signals[0].conditional);
    assert_eq!(signals[0].detail, "ip saddr @crowdsec-blacklists drop");
    assert_eq!(signals[1].guard.as_deref(), Some("fail2ban"));
    assert_eq!(signals[1].decision, FirewallDecision::Reject);
    assert_eq!(signals[1].port, Some(22));
    assert_eq!(signals[2].decision, FirewallDecision::Accept);
    assert_eq!(signals[2].port, Some(80));
    assert_eq!(signals[2].guard, None);
    assert!(!signals[2].conditional);
}

#[test]
fn ufw_deny_and_reject() {
    let status = "Status: active\r\n\r\nTo Action From\n22/tcp DENY IN Anywhere\n80 REJECT IN Anywhere\n";
    let signals = parse_ufw_status(status, &[tcp(22), tcp(80)]);
    assert_eq!(signals.len(), 2);
    assert_eq!(signals[0].decision, FirewallDecision::Drop);
    assert_eq!(signals[0].source, FirewallSource::Ufw);
    assert_eq!(signals[1].decision, FirewallDecision::Reject);
    assert_eq!(signals[1].protocol, None);
}

#[test]
fn firewall_outcomes_become_presence_or_unavailable_signals() {
    let signals = collect_firewall_signals(
        &CommandOutcome::Success("table inet filter {\n}\n".to_string()),
        &CommandOutcome::Failed("permission denied".to_string()),
        &CommandOutcome::Success("Status: inactive\n".to_string()),
        &[tcp(22)],
    );
    assert_eq!(signals.len(), 3);
    assert_eq!(signals[0].decision, FirewallDecision::Present);
    assert_eq!(signals[0].detail, "nftables ruleset available, no direct port verdict parsed");
    assert_eq!(signals[1].decision, FirewallDecision::Unavailable);
    assert_eq!(signals[1].detail, "iptables-save failed, often because privileges are missing");
    assert_eq!(signals[2].decision, FirewallDecision::Present);
    assert_eq!(signals[2].detail, "Status: inactive");
    let missing = collect_firewall_signals(
        &CommandOutcome::NotFound,
        &CommandOutcome::NotFound,
        &CommandOutcome::Success(String::new()),
        &[],
    );
    assert_eq!(missing[0].detail, "nft command not found");
    assert_eq!(missing[1].detail, "iptables-save command not found");
    assert_eq!(missing[2].detail, "ufw available");
}

#[test]
fn parsed_firewall_signals_replace_presence() {
    let signals = collect_firewall_signals(
        &CommandOutcome::Success("tcp dport 22 accept\n".to_string()),
        &CommandOutcome::NotFound,
        &CommandOutcome::Failed(String::new()),
        &[tcp(22)],
    );
    assert_eq!(signals.len(), 3);
    assert_eq!(signals[0].decision, FirewallDecision::Accept);
    assert_eq!(signals[2].detail, "ufw status failed");
}

// ----------------------------------------------------------------- docker

#[test]
fn docker_line_without_json_or_names() {
    assert!(parse_docker_line("not json").is_empty());
    let m = parse_docker_line(r#"{"Ports":"[::]:8443->443/tcp"}"#);
    assert_eq!(m.len(), 1);
    assert_eq!(m[0].container, "unknown");
    assert_eq!(m[0].host_ip.as_deref(), Some("[::]"));
    assert_eq!(m[0].host_port, Some(8443));
    assert!(parse_docker_line(r#"{"Names":"x","Ports":"80/sctp, abc"}"#).is_empty());
}

#[test]
fn docker_outcomes() {
    let out = "{\"Names\":\"a\",\"Ports\":\"1/tcp\"}\n{\"Names\":\"b\",\"Ports\":\"0.0.0.0:2->2/udp\"}\n";
    let m = collect_docker_mappings(&CommandOutcome::Success(out.to_string()));
    assert_eq!(m.len(), 2);
    assert_eq!(m[0].container, "a");
    assert_eq!(m[1].protocol, Protocol::Udp);
    assert!(collect_docker_mappings(&CommandOutcome::Failed(String::new())).is_empty());
    assert!(collect_docker_mappings(&CommandOutcome::NotFound).is_empty());
}

// ----------------------------------------------------------------- ss

#[test]
fn ss_output_with_several_lines() {
    let out = "udp UNCONN 0 0 127.0.0.53%lo:53 0.0.0.0:* users:((\"systemd-resolve\",pid=600,fd=13))\nnetlink UNCONN 0 0 rtnl:kernel *\ntcp LISTEN 0 128 \"10.1.2.3:+22\" *:*\ntcp LISTEN 0 128\n";
    let listeners = parse_ss_output(out);
    assert_eq!(listeners.len(), 2);
    assert_eq!(listeners[0].protocol, Protocol::Udp);
    assert_eq!(listeners[0].local_address, "127.0.0.53%lo");
    assert_eq!(listeners[0].process.as_deref(), Some("systemd-resolve"));
    assert_eq!(listeners[0].pid, Some(600));
    assert_eq!(listeners[1].local_address, "10.1.2.3");
    assert_eq!(listeners[1].port, 22);
    assert_eq!(listeners[1].process, None);
    assert_eq!(listeners[1].pid, None);
}

#[test]
fn ss_rejects_out_of_range_ports() {
    assert!(parse_ss_output("tcp LISTEN 0 1 0.0.0.0:65536 0.0.0.0:*").is_empty());
    assert_eq!(parse_ss_output("tcp LISTEN 0 1 0.0.0.0:65535 0.0.0.0:*")[0].port, 65535);
}

#[test]
fn ss_outcomes() {
    let ok = collect_listeners(&CommandOutcome::Success("tcp LISTEN 0 1 0.0.0.0:80 *:*".to_string())).unwrap();
    assert_eq!(ok.len(), 1);
    assert_eq!(
        collect_listeners(&CommandOutcome::Failed("boom".to_string())).unwrap_err(),
        "ss failed: boom"
    );
    assert_eq!(
        collect_listeners(&CommandOutcome::NotFound).unwrap_err(),
        "failed to execute ss; is iproute2 installed?"
    );
}

// ----------------------------------------------------------------- display

fn finding(port: u16, listen: &str, process: Option<&str>, status: ExposureStatus) -> PortFinding {
    PortFinding {
        protocol: Protocol::Tcp,
        port,
        process: process.map(|p| p.to_string()),
        pid: None,
        listen: listen.to_string(),
        firewall: "unknown".to_string(),
        docker: None,
        status,
        guards: Vec::new(),
        evidence: vec![format!("e{}", listen)],
    }
}

#[test]
fn view_modes_cycle_and_filter() {
    assert_eq!(ViewMode::Global.next(), ViewMode::All);
    assert_eq!(ViewMode::Container.next(), ViewMode::Global);
    assert_eq!(ViewMode::Local.label(), "local");
    let findings = vec![
        finding(22, "127.0.0.1", Some("sshd"), ExposureStatus::LocalOnly),
        finding(80, "0.0.0.0", Some("nginx"), ExposureStatus::Exposed),
    ];
    let global = display_findings(&findings, true, ViewMode::Global);
    assert_eq!(global.len(), 1);
    assert_eq!(global[0].port, 80);
    assert_eq!(display_findings(&findings, true, ViewMode::Local)[0].port, 22);
    assert_eq!(display_findings(&findings, false, ViewMode::All).len(), 2);
    assert!(display_findings(&findings, false, ViewMode::Container).is_empty());
}

#[test]
fn wildcard_listeners_group_into_one_row() {
    let mut v6 = finding(80, "::", Some("nginx"), ExposureStatus::NeedsReview);
    v6.guards = vec!["fail2ban".to_string()];
    let findings = vec![finding(80, "0.0.0.0", Some("nginx"), ExposureStatus::Exposed), v6];
    let rows = display_findings(&findings, false, ViewMode::All);
    assert_eq!(rows.len(), 1);
    assert_eq!(rows[0].listen, "0.0.0.0");
    assert_eq!(rows[0].status, ExposureStatus::Exposed);
    assert_eq!(rows[0].guard, "fail2ban");
    assert_eq!(rows[0].docker, "-");
    assert_eq!(rows[0].protocol, "tcp");
    assert_eq!(rows[0].evidence, vec!["e0.0.0.0", "e::", "listeners: 0.0.0.0,::"]);
}

#[test]
fn groups_are_ordered_by_port_process_and_address() {
    let findings = vec![
        finding(80, "10.0.0.2", Some("b"), ExposureStatus::Exposed),
        finding(80, "10.0.0.1", Some("b"), ExposureStatus::Exposed),
        finding(80, "10.0.0.3", Some("a"), ExposureStatus::Exposed),
        finding(22, "10.0.0.9", None, ExposureStatus::Exposed),
    ];
    let rows = display_findings(&findings, false, ViewMode::All);
    let order: Vec<(u16, String, String)> =
        rows.iter().map(|r| (r.port, r.process.clone(), r.listen.clone())).collect();
    assert_eq!(
        order,
        vec![
            (22, "-".to_string(), "10.0.0.9".to_string()),
            (80, "a".to_string(), "10.0.0.3".to_string()),
            (80, "b".to_string(), "10.0.0.1".to_string()),
            (80, "b".to_string(), "10.0.0.2".to_string()),
        ]
    );
}

#[test]
fn docker_names_are_shortened() {
    assert_eq!(short_docker_name(&"web.1.abcdef".to_string()), "web");
    assert_eq!(short_docker_name(&"plain".to_string()), "plain");
    let mut f = finding(8080, "0.0.0.0", Some("docker"), ExposureStatus::DockerPublished);
    f.docker = Some(DockerMapping {
        host_ip: None,
        host_port: Some(8080),
        container_port: 80,
        protocol: Protocol::Tcp,
        container: "stack_web.1.xyz".to_string(),
    });
    let rows = display_findings(&[f], true, ViewMode::All);
    assert_eq!(rows[0].docker, "stack_web");
}

#[test]
fn details_text() {
    let f = finding(443, "0.0.0.0", None, ExposureStatus::Guarded);
    let rows = display_findings(&[f], true, ViewMode::All);
    assert_eq!(
        format_details(&rows[0]),
        "process: - | proto: tcp | listen: 0.0.0.0 | port: 443 | status: guarded\nfirewall: unknown\nguard: -\ndocker: -\nevidence:\ne0.0.0.0"
    );
    assert_eq!(format_status(ExposureStatus::NeedsReview), "needs review");
}

#[test]
fn worst_status_prefers_exposure() {
    assert_eq!(worst_status(ExposureStatus::Firewalled, ExposureStatus::Exposed), ExposureStatus::Exposed);
    assert_eq!(worst_status(ExposureStatus::Guarded, ExposureStatus::DockerPublished), ExposureStatus::Guarded);
    assert_eq!(worst_status(ExposureStatus::LocalOnly, ExposureStatus::ContainerOnly), ExposureStatus::ContainerOnly);
}

#[test]
fn keys_drive_the_view() {
    assert_eq!(key_for_char('q'), KeyInput::Quit);
    assert_eq!(key_for_char('j'), KeyInput::Down);
    assert_eq!(key_for_char('x'), KeyInput::Other);
    let s = ViewState { selected: 0, view_mode: ViewMode::Global };
    let (s1, a1) = handle_key(s, KeyInput::Down, 3);
    assert_eq!((s1.selected, a1), (1, LoopAction::Stay));
    let (s2, _) = handle_key(s1, KeyInput::Down, 3);
    let (s3, _) = handle_key(s2, KeyInput::Down, 3);
    assert_eq!(s3.selected, 2);
    let (s4, _) = handle_key(s3, KeyInput::NextMode, 3);
    assert_eq!(s4, ViewState { selected: 0, view_mode: ViewMode::All });
    let (s5, _) = handle_key(s4, KeyInput::Up, 3);
    assert_eq!(s5.selected, 0);
    assert_eq!(handle_key(s5, KeyInput::Refresh, 3).1, LoopAction::Reload);
    assert_eq!(handle_key(s5, KeyInput::Quit, 3).1, LoopAction::Quit);
    assert_eq!(clamp_selection(7, 3), 2);
    assert_eq!(clamp_selection(7, 0), 0);
    assert_eq!(clamp_selection(1, 3), 1);
}

#[test]
fn iptables_texts_joined_by_newline_parse_as_both() {
    let listeners = [tcp(22), tcp(80)];
    let a = "*filter\n-A INPUT -p tcp --dport 22 -j ACCEPT";
    let b = "-A INPUT -p tcp --dport 80 -j DROP\nCOMMIT";
    let joined = format!("{a}\n{b}");
    let mut both = parse_iptables_save(a, &listeners);
    both.extend(parse_iptables_save(b, &listeners));
    let whole = parse_iptables_save(&joined, &listeners);
    assert_eq!(whole, both);
    assert_eq!(whole.len(), 2);
}

#[test]
fn ufw_texts_joined_by_newline_parse_as_both() {
    let listeners = [tcp(22), tcp(80)];
    let a = "Status: active\r\n22/tcp ALLOW IN Anywhere\r";
    let b = "80/tcp DENY IN Anywhere";
    let joined = format!("{a}\n{b}");
    let mut both = parse_ufw_status(a, &listeners);
    both.extend(parse_ufw_status(b, &listeners));
    let whole = parse_ufw_status(&joined, &listeners);
    assert_eq!(whole.len(), 2);
    assert_eq!(whole, both);
    for s in &whole {
        assert_eq!(s.source, FirewallSource::Ufw);
        assert!(s.guard.is_none());
    }
}

#[test]
fn interface_scope_does_not_change_loopback() {
    let plain = analyze(vec![listener(Protocol::Udp, "127.0.0.53", 53, None)], Vec::new(), Vec::new());
    let scoped = analyze(vec![listener(Protocol::Udp, "127.0.0.53%lo", 53, None)], Vec::new(), Vec::new());
    assert_eq!(plain[0].status, ExposureStatus::LocalOnly);
    assert_eq!(scoped[0].status, ExposureStatus::LocalOnly);
    let other = analyze(vec![listener(Protocol::Tcp, "10.0.0.1%eth0", 80, None)], Vec::new(), Vec::new());
    assert_ne!(other[0].status, ExposureStatus::LocalOnly);
}

#[test]
fn parses_ports_column_of_a_container() {
    let mappings = parse_ports("dns", "0.0.0.0:53->53/udp, 5432/tcp, bogus");
    assert_eq!(mappings.len(), 2);
    assert_eq!(mappings[0].host_ip.as_deref(), Some("0.0.0.0"));
    assert_eq!(mappings[0].host_port, Some(53));
    assert_eq!(mappings[0].container_port, 53);
    assert_eq!(mappings[0].protocol, Protocol::Udp);
    assert_eq!(mappings[0].container, "dns");
    assert_eq!(mappings[1].host_port, None);
    assert_eq!(mappings[1].container_port, 5432);
    assert_eq!(mappings[1].protocol, Protocol::Tcp);
}

#[test]
fn refresh_is_due_after_a_whole_interval() {
    assert!(!refresh_due(1999, 2000));
    assert!(refresh_due(2000, 2000));
    assert!(refresh_due(2500, 2000));
}

#[test]
fn iptables_join_reads_a_final_carriage_return_as_a_line_ending() {
    let listeners = [tcp(22), tcp(80)];
    let a = "-A INPUT -p tcp --dport 22 -j ACCEPT\r";
    let b = "-A INPUT -p tcp --dport 80 -j DROP";
    let joined = format!("{a}\n{b}");
    let mut both = parse_iptables_save(a.trim_end_matches('\r'), &listeners);
    both.extend(parse_iptables_save(b, &listeners));
    let whole = parse_iptables_save(&joined, &listeners);
    assert_eq!(whole, both);
    assert_eq!(whole[0].detail, "-A INPUT -p tcp --dport 22 -j ACCEPT");
    assert_ne!(parse_iptables_save(a, &listeners)[0].detail, whole[0].detail);
}

#[test]
fn loopback_bind_ignores_interface_scope() {
    assert!(is_loopback_bind("127.0.0.53%lo"));
    assert!(is_loopback_bind("127.0.0.53"));
    assert!(is_loopback_bind("::1%lo"));
    assert!(is_loopback_bind("localhost"));
    assert!(!is_loopback_bind("10.0.0.1%lo"));
    assert!(!is_loopback_bind("0.0.0.0"));
    assert!(!is_loopback_bind("localhost.example"));
}

#[test]
fn table_starts_on_first_row_in_global_view() {
    let s = initial_state();
    assert_eq!(s.selected, 0);
    assert_eq!(s.view_mode, ViewMode::Global);
}
