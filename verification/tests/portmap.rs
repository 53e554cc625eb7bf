use meowtail::portmap_manager::{
    parse_portmap, render_portmap, rule_eq, InterfaceChange, PortMapConfig, PortMapError,
    PortMapManager, PortMapRule,
};

fn rule(proto: &str, ep: u16, ip: &str, ipp: u16) -> PortMapRule {
    PortMapRule {
        protocol: proto.to_string(),
        external_port: ep,
        internal_ip: ip.to_string(),
        internal_port: ipp,
    }
}

fn fresh(iface: &str, rules: Vec<PortMapRule>) -> PortMapManager {
    let text = render_portmap(&PortMapConfig { external_interface: iface.to_string(), rules });
    PortMapManager::new("/var/lib/portmap.toml", Some(&text))
}

#[test]
fn iptables_arguments_are_exact() {
    let r = rule("tcp", 8080, "10.0.0.5", 80);
    let (pre, post) = PortMapManager::apply_rule_internal(&r, "eth0", false);
    assert_eq!(
        pre,
        vec![
            "-t", "nat", "-A", "PREROUTING", "-i", "eth0", "-p", "tcp", "--dport", "8080", "-j",
            "DNAT", "--to-destination", "10.0.0.5:80",
        ]
    );
    assert_eq!(
        post,
        vec![
            "-t", "nat", "-A", "POSTROUTING", "-o", "eth0", "-p", "tcp", "--dport", "80", "-d",
            "10.0.0.5", "-j", "MASQUERADE",
        ]
    );
    let (pre_d, post_d) = PortMapManager::apply_rule_internal(&r, "eth0", true);
    assert_eq!(pre_d[2], "-D");
    assert_eq!(post_d[2], "-D");
    // The disable command differs from the enable command only in the flag.
    let mut pre_flip = pre.clone();
    pre_flip[2] = "-D".to_string();
    assert_eq!(pre_d, pre_flip);
    let mut post_flip = post.clone();
    post_flip[2] = "-D".to_string();
    assert_eq!(post_d, post_flip);
}

#[test]
fn state_file_renders_exactly() {
    let c = PortMapConfig {
        external_interface: "eth0".to_string(),
        rules: vec![rule("tcp", 8080, "10.0.0.5", 80)],
    };
    assert_eq!(
        render_portmap(&c),
        "external_interface = \"eth0\"\n\
         \n\
         [[rules]]\n\
         protocol = \"tcp\"\n\
         external_port = 8080\n\
         internal_ip = \"10.0.0.5\"\n\
         internal_port = 80\n"
    );
    let empty = PortMapConfig { external_interface: String::new(), rules: vec![] };
    assert_eq!(render_portmap(&empty), "external_interface = \"\"\n");
}

#[test]
fn state_file_round_trips() {
    let c = PortMapConfig {
        external_interface: "wan0".to_string(),
        rules: vec![rule("tcp", 8080, "10.0.0.5", 80), rule("udp", 53, "10.0.0.9", 5353)],
    };
    let back = parse_portmap(&render_portmap(&c)).unwrap();
    assert_eq!(back.external_interface, "wan0");
    assert_eq!(back.rules.len(), 2);
    assert!(rule_eq(&back.rules[0], &c.rules[0]));
    assert!(rule_eq(&back.rules[1], &c.rules[1]));
}

#[test]
fn state_file_parses_keys_in_any_order_within_a_block() {
    let text = "external_interface = \"eth1\"\n\
                [[rules]]\n\
                internal_port = 443\n\
                protocol = \"tcp\"\n\
                internal_ip = \"192.168.0.2\"\n\
                external_port = 8443\n";
    let c = parse_portmap(text).unwrap();
    assert_eq!(c.external_interface, "eth1");
    assert!(rule_eq(&c.rules[0], &rule("tcp", 8443, "192.168.0.2", 443)));
}

#[test]
fn corrupt_state_files_yield_no_configuration() {
    assert!(parse_portmap("").is_none());
    assert!(parse_portmap("what is this\n").is_none());
    assert!(parse_portmap("external_interface = eth0\n").is_none());
    assert!(parse_portmap("external_interface = \"e\"\n[[rules]]\nprotocol = \"tcp\"\n").is_none());
    assert!(parse_portmap("external_interface = \"e\"\nexternal_interface = \"f\"\n").is_none());
    assert!(
        parse_portmap(
            "external_interface = \"e\"\n[[rules]]\nprotocol = \"tcp\"\nexternal_port = 99999\n"
        )
        .is_none()
    );
    assert!(
        parse_portmap(
            "external_interface = \"e\"\n[[rules]]\nprotocol = \"tcp\"\nexternal_port = 080\n             internal_ip = \"10.0.0.1\"\ninternal_port = 80\n"
        )
        .is_none()
    );
}

#[test]
fn a_manager_without_a_file_starts_empty() {
    let m = PortMapManager::new("/var/lib/portmap.toml", None);
    assert_eq!(m.config.external_interface, "");
    assert_eq!(m.config.rules.len(), 0);
    assert_eq!(m.file_path, "/var/lib/portmap.toml");
    let m = PortMapManager::new("/var/lib/portmap.toml", Some("garbage"));
    assert_eq!(m.config.rules.len(), 0);
}

#[test]
fn add_rule_commits_only_after_firewall_success() {
    let mut m = fresh("eth0", vec![]);
    let r = rule("tcp", 8080, "10.0.0.5", 80);
    let err = m.add_rule(r.clone(), false).unwrap_err();
    assert!(matches!(err, PortMapError::Firewall));
    assert_eq!(m.config.rules.len(), 0);
    let text = m.add_rule(r.clone(), true).unwrap();
    assert_eq!(m.config.rules.len(), 1);
    assert_eq!(text, render_portmap(&m.config));
}

#[test]
fn delete_plan_finds_structural_matches_only() {
    let m = fresh("eth0", vec![rule("tcp", 8080, "10.0.0.5", 80)]);
    let op = m.delete_plan(&rule("tcp", 8080, "10.0.0.5", 80)).unwrap();
    assert!(op.remove);
    assert_eq!(op.iface, "eth0");
    assert!(rule_eq(&op.rule, &rule("tcp", 8080, "10.0.0.5", 80)));
    assert!(m.delete_plan(&rule("udp", 8080, "10.0.0.5", 80)).is_none());
    assert!(m.delete_plan(&rule("tcp", 8081, "10.0.0.5", 80)).is_none());
}

#[test]
fn delete_rule_is_transactional_and_tolerates_absence() {
    let mut m = fresh("eth0", vec![rule("tcp", 1, "10.0.0.1", 1), rule("udp", 2, "10.0.0.2", 2)]);
    // Absent rule: no error, table untouched, text still returned to persist.
    let text = m.delete_rule(&rule("tcp", 9, "10.0.0.9", 9), true).unwrap();
    assert_eq!(m.config.rules.len(), 2);
    assert_eq!(text, render_portmap(&m.config));
    // Present rule with a failed firewall effect: error, table untouched.
    let err = m.delete_rule(&rule("udp", 2, "10.0.0.2", 2), false).unwrap_err();
    assert!(matches!(err, PortMapError::Firewall));
    assert_eq!(m.config.rules.len(), 2);
    // Present rule with a successful effect: removed.
    m.delete_rule(&rule("udp", 2, "10.0.0.2", 2), true).unwrap();
    assert_eq!(m.config.rules.len(), 1);
    assert!(rule_eq(&m.config.rules[0], &rule("tcp", 1, "10.0.0.1", 1)));
}

#[test]
fn delete_removes_only_the_first_of_equal_rules() {
    let r = rule("tcp", 5, "10.0.0.5", 5);
    let mut m = fresh("eth0", vec![r.clone(), r.clone()]);
    m.delete_rule(&r, true).unwrap();
    assert_eq!(m.config.rules.len(), 1);
    assert!(rule_eq(&m.config.rules[0], &r));
}

#[test]
fn add_then_delete_restores_the_table() {
    let before = vec![rule("tcp", 1, "10.0.0.1", 1)];
    let mut m = fresh("eth0", before.clone());
    let r = rule("udp", 2, "10.0.0.2", 2);
    m.add_rule(r.clone(), true).unwrap();
    m.delete_rule(&r, true).unwrap();
    assert_eq!(m.config.rules.len(), before.len());
    assert!(rule_eq(&m.config.rules[0], &before[0]));
}

#[test]
fn apply_all_enables_every_rule_in_order() {
    let m = fresh("eth2", vec![rule("tcp", 1, "10.0.0.1", 1), rule("udp", 2, "10.0.0.2", 2)]);
    let ops = m.apply_all();
    assert_eq!(ops.len(), 2);
    assert!(!ops[0].remove);
    assert_eq!(ops[0].iface, "eth2");
    assert!(rule_eq(&ops[0].rule, &m.config.rules[0]));
    assert!(!ops[1].remove);
    assert!(rule_eq(&ops[1].rule, &m.config.rules[1]));
}

#[test]
fn set_interface_is_a_no_op_when_unchanged() {
    let mut m = fresh("eth0", vec![rule("tcp", 1, "10.0.0.1", 1)]);
    assert!(matches!(m.set_interface("eth0".to_string()), InterfaceChange::Unchanged));
    assert_eq!(m.config.external_interface, "eth0");
    assert_eq!(m.config.rules.len(), 1);
}

#[test]
fn interface_migration_removes_old_bindings_then_reapplies() {
    // Scenario: one rule bound to eth0, then the interface moves to eth1. The
    // firewall must see: remove under eth0, then add under eth1 — leaving no
    // residual eth0-bound entry.
    let r = rule("tcp", 8080, "10.0.0.5", 80);
    let mut m = fresh("eth0", vec![r.clone()]);
    match m.set_interface("eth1".to_string()) {
        InterfaceChange::Changed { cleanup, reapply, file_text } => {
            assert_eq!(cleanup.len(), 1);
            assert!(cleanup[0].remove);
            assert_eq!(cleanup[0].iface, "eth0");
            assert!(rule_eq(&cleanup[0].rule, &r));
            assert_eq!(reapply.len(), 1);
            assert!(!reapply[0].remove);
            assert_eq!(reapply[0].iface, "eth1");
            assert!(rule_eq(&reapply[0].rule, &r));
            assert_eq!(file_text, render_portmap(&m.config));
        }
        InterfaceChange::Unchanged => panic!("the interface did change"),
    }
    assert_eq!(m.config.external_interface, "eth1");
    assert_eq!(m.config.rules.len(), 1);
}

#[test]
fn migration_from_an_empty_interface_skips_cleanup() {
    let r = rule("tcp", 8080, "10.0.0.5", 80);
    let mut m = fresh("", vec![r.clone()]);
    match m.set_interface("eth0".to_string()) {
        InterfaceChange::Changed { cleanup, reapply, .. } => {
            assert_eq!(cleanup.len(), 0);
            assert_eq!(reapply.len(), 1);
            assert_eq!(reapply[0].iface, "eth0");
        }
        InterfaceChange::Unchanged => panic!("the interface did change"),
    }
}

#[test]
fn config_returns_a_deep_copy() {
    let m = fresh("eth0", vec![rule("tcp", 1, "10.0.0.1", 1)]);
    let snapshot = m.config();
    assert_eq!(snapshot.external_interface, m.config.external_interface);
    assert_eq!(snapshot.rules.len(), 1);
    assert!(rule_eq(&snapshot.rules[0], &m.config.rules[0]));
}

#[test]
fn firewall_effects_for_both_halves_target_the_given_rule() {
    let m = fresh("eth0", vec![]);
    let r = rule("udp", 500, "10.0.0.77", 4500);
    let add = m.apply_rule(&r);
    assert!(!add.remove);
    assert_eq!(add.iface, "eth0");
    assert!(rule_eq(&add.rule, &r));
    let del = m.remove_rule(&r);
    assert!(del.remove);
    assert_eq!(del.iface, "eth0");
    assert!(rule_eq(&del.rule, &r));
}
