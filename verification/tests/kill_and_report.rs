use kill_the_port::kill::{
    add_pid, collect_port_owners, local_port_from_raw, plan_kill, socket_port, Protocol, SocketKind,
};
use kill_the_port::port::{KillResult, PortParseError, Signal};
use kill_the_port::procfs::{
    collect_socket_inodes, link_holds_inode, pid_of_dir_name, socket_inode_of_link,
};
use kill_the_port::report::serde_json_minimal;

const TCP_TABLE: &str = "  sl  local_address rem_address   st tx_queue rx_queue tr tm->when retrnsmt   uid  timeout inode\n   0: 00000000:1F90 00000000:0000 0A 00000000:00000000 00:00000000 00000000  1000        0 4242 1 0000000000000000 100 0 0 10 0\n   1: 0100007F:1F90 0100007F:C350 01 00000000:00000000 00:00000000 00000000  1000        0 5151 1 0000000000000000 20 4 30 10 -1\n   2: 00000000:0050 00000000:0000 0A 00000000:00000000 00:00000000 00000000     0        0 6161 1 0000000000000000 100 0 0 10 0\n";

#[test]
fn test_invalid_protocol() {
    // The protocol check of a kill request on port 3000 with "sctp".
    let result = Protocol::from_name("sctp");
    assert!(result.is_err());
}

#[test]
fn test_find_socket_inodes_invalid_protocol() {
    let result = Protocol::from_name("sctp");
    assert!(result.is_err());
}

#[test]
fn dry_run_with_nothing_found_reports_nothing() {
    // Nothing listens on port 19999: the lookup finds no process.
    assert_eq!(Protocol::from_name("tcp").unwrap(), Protocol::Tcp);
    let plan = plan_kill(19999, vec![], true, Signal::Kill);
    let result = plan.result;
    assert!(result.pids.is_empty());
    assert!(result.error.is_none());
    assert!(plan.targets.is_empty());
}

#[test]
fn empty_lookup_gives_empty_result() {
    let plan = plan_kill(19999, vec![], true, Signal::Kill);
    let result = plan.result;
    assert!(result.pids.is_empty());
    assert!(result.error.is_none());
}

#[test]
fn protocol_names() {
    assert_eq!(Protocol::from_name("tcp").unwrap(), Protocol::Tcp);
    assert_eq!(Protocol::from_name("udp").unwrap(), Protocol::Udp);
    assert_eq!(Protocol::from_name("sctp").unwrap_err(), "unsupported protocol: sctp");
    assert!(Protocol::from_name("TCP").is_err());
    assert!(Protocol::from_name("tcp ").is_err());
    assert!(Protocol::from_name("").is_err());
}

#[test]
fn proc_tables_per_protocol() {
    assert_eq!(Protocol::Tcp.proc_net_tables(), ("/proc/net/tcp", "/proc/net/tcp6"));
    assert_eq!(Protocol::Udp.proc_net_tables(), ("/proc/net/udp", "/proc/net/udp6"));
}

#[test]
fn dry_run_signals_nobody() {
    let plan = plan_kill(3000, vec![10, 20], true, Signal::Term);
    assert!(plan.targets.is_empty());
    assert_eq!(plan.result.pids, vec![10, 20]);
    assert_eq!(plan.result.port, 3000);
    assert!(plan.result.error.is_none());
}

#[test]
fn real_run_signals_every_process_found() {
    let plan = plan_kill(3000, vec![10, 20], false, Signal::Term);
    assert_eq!(plan.targets, vec![10, 20]);
    assert_eq!(plan.signal, Signal::Term);
    assert_eq!(plan.result.pids, vec![10, 20]);
}

#[test]
fn graceful_means_term() {
    assert_eq!(Signal::from_graceful(true), Signal::Term);
    assert_eq!(Signal::from_graceful(false), Signal::Kill);
}

#[test]
fn listening_tcp_socket_is_found() {
    let mut inodes = Vec::new();
    collect_socket_inodes(TCP_TABLE, 8080, Protocol::Tcp, &mut inodes);
    assert_eq!(inodes, vec![4242]);
}

#[test]
fn udp_takes_every_state() {
    let mut inodes = Vec::new();
    collect_socket_inodes(TCP_TABLE, 8080, Protocol::Udp, &mut inodes);
    inodes.sort();
    assert_eq!(inodes, vec![4242, 5151]);
}

#[test]
fn other_ports_and_header_are_ignored() {
    let mut inodes = Vec::new();
    collect_socket_inodes(TCP_TABLE, 80, Protocol::Tcp, &mut inodes);
    assert_eq!(inodes, vec![6161]);
    let mut none = Vec::new();
    collect_socket_inodes(TCP_TABLE, 19999, Protocol::Tcp, &mut none);
    assert!(none.is_empty());
    let mut header_only = Vec::new();
    collect_socket_inodes("sl local_address\n", 0, Protocol::Tcp, &mut header_only);
    assert!(header_only.is_empty());
}

#[test]
fn inodes_are_not_repeated() {
    let mut inodes = vec![4242];
    collect_socket_inodes(TCP_TABLE, 8080, Protocol::Tcp, &mut inodes);
    assert_eq!(inodes, vec![4242]);
}

#[test]
fn short_rows_are_skipped() {
    let table = "header\n 0: 00000000:1F90 00000000:0000 0A 1 2 3 4 5\n";
    let mut inodes = Vec::new();
    collect_socket_inodes(table, 8080, Protocol::Tcp, &mut inodes);
    assert!(inodes.is_empty());
}

#[test]
fn ipv6_rows_and_crlf_lines() {
    let table = "header\r\n 0: 00000000000000000000000000000000:1f90 00000000000000000000000000000000:0000 0A 0:0 0:0 0 1000 0 777 1\r\n";
    let mut inodes = Vec::new();
    collect_socket_inodes(table, 8080, Protocol::Tcp, &mut inodes);
    assert_eq!(inodes, vec![777]);
}

#[test]
fn socket_links() {
    assert_eq!(socket_inode_of_link("socket:[12345]"), Some(12345));
    assert_eq!(socket_inode_of_link("socket:[]"), None);
    assert_eq!(socket_inode_of_link("socket:["), None);
    assert_eq!(socket_inode_of_link("pipe:[12345]"), None);
    assert_eq!(socket_inode_of_link("/dev/null"), None);
    assert!(link_holds_inode("socket:[4242]", &vec![1, 4242]));
    assert!(!link_holds_inode("socket:[4243]", &vec![1, 4242]));
}

#[test]
fn pid_directory_names() {
    assert_eq!(pid_of_dir_name("1234"), Some(1234));
    assert_eq!(pid_of_dir_name("self"), None);
    assert_eq!(pid_of_dir_name(""), None);
    assert_eq!(pid_of_dir_name("4294967296"), None);
}

#[test]
fn local_port_is_read_in_network_order() {
    assert_eq!(local_port_from_raw(0x901F), u16::from_be(0x901F));
    assert_eq!(local_port_from_raw(0xABCD_901F), u16::from_be(0x901F));
    assert_eq!(socket_port(SocketKind::Tcp, Protocol::Tcp, 0x901F), Some(u16::from_be(0x901F)));
    assert_eq!(socket_port(SocketKind::In, Protocol::Udp, 0x5000), Some(u16::from_be(0x5000)));
    assert_eq!(socket_port(SocketKind::Tcp, Protocol::Udp, 0x901F), None);
    assert_eq!(socket_port(SocketKind::In, Protocol::Tcp, 0x901F), None);
    assert_eq!(socket_port(SocketKind::Other, Protocol::Tcp, 0x901F), None);
}

#[test]
fn json_of_no_results() {
    assert_eq!(serde_json_minimal(&[]), "[]");
}

#[test]
fn json_of_results() {
    let results = vec![
        KillResult { port: 3000, pids: vec![12, 345], error: None },
        KillResult { port: 80, pids: vec![], error: Some("bad \"thing\"".to_string()) },
    ];
    assert_eq!(
        serde_json_minimal(&results),
        "[{\"port\":3000,\"pids\":[12,345],\"error\":null},{\"port\":80,\"pids\":[],\"error\":\"bad \\\"thing\\\"\"}]"
    );
}

#[test]
fn summaries() {
    let found = KillResult { port: 3000, pids: vec![1, 2], error: None };
    assert_eq!(found.summary(true), (false, "Port 3000: would kill PID 1, 2".to_string()));
    assert_eq!(found.summary(false), (false, "Port 3000: killed PID 1, 2".to_string()));
    let empty = KillResult { port: 8080, pids: vec![], error: None };
    assert_eq!(empty.summary(false), (true, "Port 8080: no process found".to_string()));
    let failed = KillResult::failed(22, "permission denied".to_string());
    assert_eq!(failed.summary(false), (true, "Port 22: error - permission denied".to_string()));
}

#[test]
fn error_messages() {
    assert_eq!(PortParseError::Invalid("abc".to_string()).message(), "invalid port: 'abc'");
    assert_eq!(PortParseError::Zero.message(), "port 0 is not valid");
    assert_eq!(PortParseError::InvalidRange(5000, 3000).message(), "invalid range: 5000 > 3000");
    assert_eq!(
        PortParseError::RangeTooLarge(1, 5000).message(),
        "range 1-5000 too large (max 1000 ports)"
    );
}

#[test]
fn json_escapes_backslashes_and_control_characters() {
    let results = vec![KillResult {
        port: 1,
        pids: vec![],
        error: Some("a\\b\nc\td\u{1}e\"f".to_string()),
    }];
    assert_eq!(
        serde_json_minimal(&results),
        "[{\"port\":1,\"pids\":[],\"error\":\"a\\\\b\\nc\\td\\u0001e\\\"f\"}]"
    );
    let lone = vec![KillResult { port: 1, pids: vec![], error: Some("\\".to_string()) }];
    assert_eq!(serde_json_minimal(&lone), "[{\"port\":1,\"pids\":[],\"error\":\"\\\\\"}]");
}

#[test]
fn pids_are_added_once() {
    let mut pids = vec![5];
    add_pid(&mut pids, 7);
    add_pid(&mut pids, 5);
    add_pid(&mut pids, 7);
    assert_eq!(pids, vec![5, 7]);
}

#[test]
fn port_owners_from_table_rows() {
    let raw = u16::from_be(8080) as u32;
    let rows = vec![(raw, 10), (raw | 0xFFFF_0000, 11), (u16::from_be(80) as u32, 12), (raw, 10)];
    let mut pids = vec![];
    collect_port_owners(&rows, 8080, &mut pids);
    assert_eq!(pids, vec![10, 11]);
}
