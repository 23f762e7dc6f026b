use netmon::nettop::{
    is_connection_line, parse_addr_port, parse_connection_line, parse_nettop_output,
    parse_process_line, split_name_pid,
};
use netmon::model::Protocol;

#[test]
fn test_split_name_pid() {
    let (name, pid) = split_name_pid("firefox.1234");
    assert_eq!(name, "firefox");
    assert_eq!(pid, 1234);
}

#[test]
fn test_split_name_pid_with_dots() {
    let (name, pid) = split_name_pid("com.apple.WebKit.1234");
    assert_eq!(name, "com.apple.WebKit");
    assert_eq!(pid, 1234);
}

#[test]
fn test_parse_addr_port_ipv4() {
    let (addr, port) = parse_addr_port("192.168.1.1:443");
    assert_eq!(addr, "192.168.1.1");
    assert_eq!(port, 443);
}

#[test]
fn test_parse_addr_port_ipv6_dot() {
    let (addr, port) = parse_addr_port("::1.8021");
    assert_eq!(addr, "::1");
    assert_eq!(port, 8021);
}

#[test]
fn test_parse_addr_port_wildcard() {
    let (addr, port) = parse_addr_port("*:*");
    assert_eq!(addr, "*");
    assert_eq!(port, 0);

    let (addr, port) = parse_addr_port("*.*");
    assert_eq!(addr, "*");
    assert_eq!(port, 0);
}

#[test]
fn test_is_connection_line() {
    assert!(is_connection_line("tcp4 192.168.0.227:50448<->194.15.120.159:1194"));
    assert!(is_connection_line("udp6 *.5353<->*.*"));
    assert!(!is_connection_line("firefox.1234"));
    assert!(!is_connection_line("Microsoft Teams.1263"));
}

#[test]
fn test_parse_full_output() {
    let output = r#",bytes_in,bytes_out,
apsd.376,7387,24329,
tcp4 192.168.0.227:61859<->17.57.146.59:5223,7387,24329,
mDNSResponder.417,1238931,266702,
udp6 *.5353<->*.*,542567,138705,
udp4 *:5353<->*:*,696930,128507,
OneDrive.857,11296,3375,
tcp4 192.168.0.227:50501<->172.211.123.248:443,11296,3375,
"#;
    let processes = parse_nettop_output(output).unwrap();
    assert_eq!(processes.len(), 3);

    let apsd = processes.iter().find(|p| p.name == "apsd").unwrap();
    assert_eq!(apsd.pid, 376);
    assert_eq!(apsd.bytes_in, 7387);
    assert_eq!(apsd.connections.len(), 1);
    assert_eq!(apsd.connections[0].remote_addr, "17.57.146.59");
    assert_eq!(apsd.connections[0].remote_port, 5223);

    let mdns = processes.iter().find(|p| p.name == "mDNSResponder").unwrap();
    assert_eq!(mdns.connections.len(), 2);
}

#[test]
fn end_to_end_two_processes() {
    let output = ",bytes_in,bytes_out,\napsd.376,7387,24329,\ntcp4 192.168.0.227:61859<->17.57.146.59:5223,7387,24329,\nmDNSResponder.417,1238931,266702,\nudp6 *.5353<->*.*,542567,138705,\nudp4 *:5353<->*:*,696930,128507,";
    let ps = parse_nettop_output(output).unwrap();
    assert_eq!(ps.len(), 2);
    assert_eq!(ps[0].name, "apsd");
    assert_eq!(ps[0].pid, 376);
    assert_eq!(ps[0].connections.len(), 1);
    assert_eq!(ps[0].connections[0].remote_addr, "17.57.146.59");
    assert_eq!(ps[0].connections[0].remote_port, 5223);
    assert_eq!(ps[0].connections[0].local_addr, "192.168.0.227");
    assert_eq!(ps[0].connections[0].local_port, 61859);
    assert!(matches!(ps[0].connections[0].protocol, Protocol::Tcp));
    assert_eq!(ps[1].name, "mDNSResponder");
    assert_eq!(ps[1].pid, 417);
    assert_eq!(ps[1].bytes_in, 1238931);
    assert_eq!(ps[1].bytes_out, 266702);
    assert_eq!(ps[1].connections.len(), 2);
    for c in &ps[1].connections {
        assert_eq!(c.remote_addr, "*");
        assert_eq!(c.remote_port, 0);
        assert!(matches!(c.protocol, Protocol::Udp));
    }
    assert_eq!(ps[1].connections[0].local_addr, "*");
    assert_eq!(ps[1].connections[0].local_port, 5353);
}

#[test]
fn parsing_twice_gives_equal_lists() {
    let output = ",bytes_in,bytes_out,\nfoo.1,10,20,\ntcp4 1.2.3.4:80<->5.6.7.8:443,10,20,\n";
    let a = parse_nettop_output(output).unwrap();
    let b = parse_nettop_output(output).unwrap();
    assert_eq!(format!("{:?}", a), format!("{:?}", b));
}

#[test]
fn no_header_gives_no_processes() {
    let ps = parse_nettop_output("apsd.376,7387,24329,\n").unwrap();
    assert!(ps.is_empty());
    let ps = parse_nettop_output("").unwrap();
    assert!(ps.is_empty());
}

#[test]
fn idle_processes_are_dropped() {
    let output = ",bytes_in,bytes_out,\nidle.5,0,0,\nbusy.6,1,0,\nquiet.7,0,0,\nudp4 *:1<->*:*,0,0,\n";
    let ps = parse_nettop_output(output).unwrap();
    let names: Vec<&str> = ps.iter().map(|p| p.name.as_str()).collect();
    assert_eq!(names, vec!["busy", "quiet"]);
}

#[test]
fn connection_before_any_process_is_dropped() {
    let output = ",bytes_in,bytes_out,\ntcp4 1.1.1.1:1<->2.2.2.2:2,5,5,\nfoo.1,3,4,\n";
    let ps = parse_nettop_output(output).unwrap();
    assert_eq!(ps.len(), 1);
    assert_eq!(ps[0].connections.len(), 0);
}

#[test]
fn empty_name_is_never_emitted() {
    let output = ",bytes_in,bytes_out,\n.12,5,5,\ntcp4 1.1.1.1:1<->2.2.2.2:2,5,5,\nok.3,1,1,\n";
    let ps = parse_nettop_output(output).unwrap();
    assert_eq!(ps.len(), 1);
    assert_eq!(ps[0].name, "ok");
    assert!(ps.iter().all(|p| !p.name.is_empty()));
}

#[test]
fn malformed_numbers_read_as_zero() {
    let output = ",bytes_in,bytes_out,\nfoo.1,abc,7,\nbar.2,18446744073709551616,+5,\n";
    let ps = parse_nettop_output(output).unwrap();
    assert_eq!(ps.len(), 2);
    assert_eq!(ps[0].bytes_in, 0);
    assert_eq!(ps[0].bytes_out, 7);
    assert_eq!(ps[1].bytes_in, 0);
    assert_eq!(ps[1].bytes_out, 5);
}

#[test]
fn crlf_lines_and_spaces_are_trimmed() {
    let output = " ,bytes_in,bytes_out,\r\n  foo.9 , 12 , 34 ,\r\n";
    let ps = parse_nettop_output(output).unwrap();
    assert_eq!(ps.len(), 1);
    assert_eq!(ps[0].name, "foo");
    assert_eq!(ps[0].pid, 9);
    assert_eq!(ps[0].bytes_in, 12);
    assert_eq!(ps[0].bytes_out, 34);
}

#[test]
fn name_without_pid_keeps_whole_identifier() {
    let (name, pid) = split_name_pid("Microsoft Teams");
    assert_eq!(name, "Microsoft Teams");
    assert_eq!(pid, 0);
    let (name, pid) = split_name_pid("app.v2");
    assert_eq!(name, "app.v2");
    assert_eq!(pid, 0);
    let (name, pid) = split_name_pid("big.4294967296");
    assert_eq!(name, "big.4294967296");
    assert_eq!(pid, 0);
}

#[test]
fn addr_port_edge_cases() {
    assert_eq!(parse_addr_port("*:5353"), ("*".to_string(), 5353));
    assert_eq!(parse_addr_port("*.5353"), ("*".to_string(), 5353));
    assert_eq!(
        parse_addr_port("fe80::1c9b:e73b:41dd:4aa1%en7.49152"),
        ("fe80::1c9b:e73b:41dd:4aa1%en7".to_string(), 49152)
    );
    assert_eq!(parse_addr_port("host"), ("host".to_string(), 0));
    assert_eq!(parse_addr_port("1.2.3.4:70000"), ("1.2.3.4:70000".to_string(), 0));
    assert_eq!(parse_addr_port(" 10.0.0.1:22 "), ("10.0.0.1".to_string(), 22));
}

#[test]
fn connection_line_protocols() {
    let c = parse_connection_line("tcp6 ::1.80<->::1.5000,1,2,").unwrap();
    assert!(matches!(c.protocol, Protocol::Tcp));
    assert_eq!(c.local_addr, "::1");
    assert_eq!(c.local_port, 80);
    assert_eq!(c.remote_port, 5000);
    assert_eq!(c.bytes_in, 1);
    assert_eq!(c.bytes_out, 2);
    assert!(c.hostname.is_none());
    let c = parse_connection_line("quic 1.1.1.1:1<->2.2.2.2:2,0,0,").unwrap();
    match c.protocol {
        Protocol::Other(tag) => assert_eq!(tag, "quic"),
        _ => panic!("expected another protocol"),
    }
    assert!(parse_connection_line("tcp4 1.1.1.1:1,0,0,").is_none());
    assert!(parse_connection_line("tcp4,0,0,").is_none());
}

#[test]
fn process_line_fields() {
    let p = parse_process_line("firefox.1234,100,200,").unwrap();
    assert_eq!(p.name, "firefox");
    assert_eq!(p.pid, 1234);
    assert_eq!(p.bytes_in, 100);
    assert_eq!(p.bytes_out, 200);
    assert_eq!(p.rate_in, 0);
    assert!(p.path.is_none());
    let p = parse_process_line("lonely").unwrap();
    assert_eq!(p.bytes_in, 0);
    assert_eq!(p.bytes_out, 0);
    assert!(parse_process_line(".5,1,1").is_none());
}
