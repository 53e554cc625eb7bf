use meowtail::ipv4::Ipv4Addr;
use meowtail::udhcpd_config::{StaticLease, UdhcpdConfig, UdhcpdError};
use meowtail::udhcpd_manager::{
    parse_pid, poll_verdict, StopBegin, StopPoll, UdhcpdManager, STOP_POLL_ATTEMPTS,
};

fn ip(a: u8, b: u8, c: u8, d: u8) -> Ipv4Addr {
    Ipv4Addr::new(a, b, c, d)
}

fn manager() -> UdhcpdManager {
    UdhcpdManager::new("udhcpd", "/etc/udhcpd.conf", "/run/udhcpd.pid")
}

#[test]
fn new_keeps_the_three_paths() {
    let m = manager();
    assert_eq!(m.executable_path, "udhcpd");
    assert_eq!(m.config_path, "/etc/udhcpd.conf");
    assert_eq!(m.pid_path, "/run/udhcpd.pid");
}

#[test]
fn defaults_seed_the_documented_values() {
    let m = manager();
    let c = m.create_config_with_defaults("eth0", false, false).unwrap();
    assert_eq!(c.interface.as_deref(), Some("eth0"));
    assert_eq!(c.start, Some(ip(192, 168, 1, 100)));
    assert_eq!(c.end, Some(ip(192, 168, 1, 200)));
    assert_eq!(c.subnet_mask, Some(ip(255, 255, 255, 0)));
    assert_eq!(c.router, Some(ip(192, 168, 1, 1)));
    assert_eq!(c.dns_servers, vec![ip(8, 8, 8, 8), ip(1, 1, 1, 1)]);
    assert_eq!(c.static_leases.len(), 0);
    assert_eq!(c.remaining_lines.len(), 1);
}

#[test]
fn defaults_fail_when_file_exists_without_overwrite() {
    let m = manager();
    let e = m.create_config_with_defaults("eth0", true, false).unwrap_err();
    assert!(matches!(e, UdhcpdError::Io(_)));
    assert_eq!(e.status_code(), 500);
}

#[test]
fn defaults_replace_when_overwrite_is_requested() {
    let m = manager();
    let c = m.create_config_with_defaults("wan0", true, true).unwrap();
    assert_eq!(c.interface.as_deref(), Some("wan0"));
}

#[test]
fn setters_change_exactly_their_field() {
    let m = manager();
    let mut c = UdhcpdConfig::default();
    m.set_dhcp_range(&mut c, ip(10, 0, 0, 10), ip(10, 0, 0, 99));
    m.set_subnet_mask(&mut c, ip(255, 255, 0, 0));
    m.set_gateway(&mut c, ip(10, 0, 0, 1));
    m.set_interface(&mut c, "br0".to_string());
    m.set_dns_servers(&mut c, vec![ip(9, 9, 9, 9)]);
    assert_eq!(c.start, Some(ip(10, 0, 0, 10)));
    assert_eq!(c.end, Some(ip(10, 0, 0, 99)));
    assert_eq!(c.subnet_mask, Some(ip(255, 255, 0, 0)));
    assert_eq!(c.router, Some(ip(10, 0, 0, 1)));
    assert_eq!(c.interface.as_deref(), Some("br0"));
    assert_eq!(c.dns_servers, vec![ip(9, 9, 9, 9)]);
    assert_eq!(c.static_leases.len(), 0);
    assert_eq!(c.remaining_lines.len(), 0);
}

#[test]
fn add_lease_replaces_existing_mac_without_growing() {
    let m = manager();
    let mut c = UdhcpdConfig::default();
    m.add_or_update_static_lease(
        &mut c,
        StaticLease { mac: "aa".to_string(), ip: ip(10, 0, 0, 2) },
    );
    m.add_or_update_static_lease(
        &mut c,
        StaticLease { mac: "bb".to_string(), ip: ip(10, 0, 0, 3) },
    );
    m.add_or_update_static_lease(
        &mut c,
        StaticLease { mac: "aa".to_string(), ip: ip(10, 0, 0, 9) },
    );
    assert_eq!(c.static_leases.len(), 2);
    assert_eq!(c.static_leases[0].mac, "aa");
    assert_eq!(c.static_leases[0].ip, ip(10, 0, 0, 9));
    assert_eq!(c.static_leases[1].mac, "bb");
    assert_eq!(c.static_leases[1].ip, ip(10, 0, 0, 3));
}

#[test]
fn distinct_macs_each_add_one_lease() {
    // The sequential consequence of the mutual-exclusion property: with every
    // mutation serialized, adding leases for distinct MACs grows the table by
    // one each time.
    let m = manager();
    let mut c = UdhcpdConfig::default();
    for i in 0..16u8 {
        let mac = format!("02:00:00:00:00:{:02x}", i);
        m.add_or_update_static_lease(&mut c, StaticLease { mac, ip: ip(10, 0, 1, i) });
        assert_eq!(c.static_leases.len(), (i as usize) + 1);
    }
}

#[test]
fn remove_lease_removes_all_matches() {
    let m = manager();
    let mut c = UdhcpdConfig::default();
    c.static_leases = vec![
        StaticLease { mac: "aa".to_string(), ip: ip(10, 0, 0, 2) },
        StaticLease { mac: "bb".to_string(), ip: ip(10, 0, 0, 3) },
        StaticLease { mac: "aa".to_string(), ip: ip(10, 0, 0, 4) },
    ];
    m.remove_static_lease(&mut c, "aa");
    assert_eq!(c.static_leases.len(), 1);
    assert_eq!(c.static_leases[0].mac, "bb");
    // Removing an absent MAC is a no-op.
    m.remove_static_lease(&mut c, "cc");
    assert_eq!(c.static_leases.len(), 1);
}

#[test]
fn pid_parsing_accepts_what_i32_text_accepts() {
    assert_eq!(parse_pid("1234"), Some(1234));
    assert_eq!(parse_pid(" 42 \n"), Some(42));
    assert_eq!(parse_pid("007"), Some(7));
    assert_eq!(parse_pid("+5"), Some(5));
    assert_eq!(parse_pid("-5"), Some(-5));
    assert_eq!(parse_pid("2147483647"), Some(2147483647));
    assert_eq!(parse_pid("-2147483648"), Some(-2147483648));
    assert_eq!(parse_pid("2147483648"), None);
    assert_eq!(parse_pid(""), None);
    assert_eq!(parse_pid("abc"), None);
    assert_eq!(parse_pid("12 34"), None);
    assert_eq!(parse_pid("-"), None);
}

#[test]
fn get_pid_reports_missing_or_corrupt_files() {
    let m = manager();
    assert!(matches!(m.get_pid(None), Err(UdhcpdError::PidFile(_))));
    let garbage = "not a pid".to_string();
    assert!(matches!(m.get_pid(Some(&garbage)), Err(UdhcpdError::PidFile(_))));
    let good = " 314 ".to_string();
    assert_eq!(m.get_pid(Some(&good)).unwrap(), 314);
}

#[test]
fn is_running_is_false_without_a_valid_pid_file() {
    let m = manager();
    assert!(!m.is_running(None));
    let garbage = "xyz".to_string();
    assert!(!m.is_running(Some(&garbage)));
}

#[test]
fn start_plan_guards_and_spawn_command() {
    let m = manager();
    let e = m.start_plan(true, true).unwrap_err();
    assert!(matches!(e, UdhcpdError::Process(_)));
    assert_eq!(e.status_code(), 409);
    let e = m.start_plan(false, false).unwrap_err();
    assert!(matches!(e, UdhcpdError::Io(_)));
    let cmd = m.start_plan(false, true).unwrap();
    assert_eq!(cmd.program, "udhcpd");
    assert_eq!(cmd.arg, "/etc/udhcpd.conf");
}

#[test]
fn pid_file_text_is_the_decimal_id() {
    let m = manager();
    let text = m.pid_file_contents(1234);
    assert_eq!(text, "1234");
    assert_eq!(parse_pid(&text), Some(1234));
}

#[test]
fn stop_on_missing_or_corrupt_pid_file_is_a_quiet_success_twice() {
    // Idempotence: stopping something not running is not an error, and a
    // second stop right after is the same no-op.
    let m = manager();
    assert!(matches!(m.stop_begin(None), StopBegin::AlreadyStopped));
    assert!(matches!(m.stop_begin(None), StopBegin::AlreadyStopped));
    let garbage = "###".to_string();
    assert!(matches!(m.stop_begin(Some(&garbage)), StopBegin::AlreadyStopped));
    assert!(matches!(m.stop_begin(Some(&garbage)), StopBegin::AlreadyStopped));
}

#[test]
fn poll_verdicts_follow_the_window() {
    assert_eq!(poll_verdict(0, false), StopPoll::Exited);
    assert_eq!(poll_verdict(0, true), StopPoll::KeepWaiting);
    assert_eq!(poll_verdict(29, true), StopPoll::KeepWaiting);
    assert_eq!(poll_verdict(30, true), StopPoll::ForceKill);
    assert_eq!(poll_verdict(30, false), StopPoll::Exited);
}

#[test]
fn ignoring_the_graceful_signal_forces_exactly_one_kill() {
    // A process that stays alive through every probe: the driver waits the
    // whole window, then escalates exactly once.
    let mut waits = 0u32;
    let mut kills = 0u32;
    let mut attempt = 0u32;
    loop {
        match poll_verdict(attempt, true) {
            StopPoll::Exited => panic!("an alive process never reports exited"),
            StopPoll::KeepWaiting => {
                waits += 1;
                attempt += 1;
            }
            StopPoll::ForceKill => {
                kills += 1;
                break;
            }
        }
    }
    assert_eq!(waits, STOP_POLL_ATTEMPTS);
    assert_eq!(kills, 1);
}

#[test]
fn error_status_codes_match_the_api_mapping() {
    assert_eq!(UdhcpdError::Io("x".to_string()).status_code(), 500);
    assert_eq!(UdhcpdError::Process("x".to_string()).status_code(), 409);
    assert_eq!(UdhcpdError::PidFile("x".to_string()).status_code(), 404);
    assert_eq!(UdhcpdError::ConfigParse("x".to_string()).status_code(), 500);
    assert_eq!(UdhcpdError::Signal(3).status_code(), 500);
    assert_eq!(UdhcpdError::InvalidIp("x".to_string()).status_code(), 400);
    assert_eq!(UdhcpdError::InvalidInput("x".to_string()).status_code(), 400);
}

#[test]
fn read_and_write_config_delegate_to_the_codec() {
    let m = manager();
    let c = m.read_config("start 10.0.0.5\n").unwrap();
    assert_eq!(c.start, Some(ip(10, 0, 0, 5)));
    assert_eq!(m.write_config(&c), "start 10.0.0.5\n");
    assert!(matches!(m.read_config("end nope\n"), Err(UdhcpdError::InvalidIp(_))));
}
