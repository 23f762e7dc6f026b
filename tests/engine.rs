use netmon::config::Config;
use netmon::dns::{drain_dns_results, update_dns, DnsCache, PendingSet};
use netmon::filter::{filter_processes, matches_folded};
use netmon::model::{Connection, NetworkSnapshot, Process, Protocol, SortField};
use netmon::nettop::parse_nettop_output;
use netmon::rates::{compute_rates, ByteMap};
use netmon::sorting::sort_by_field;
use netmon::state::{ActiveTab, App};

fn process(name: &str, pid: u32, bytes_in: u64, bytes_out: u64) -> Process {
    Process {
        name: name.to_string(),
        pid,
        path: None,
        connections: Vec::new(),
        bytes_in,
        bytes_out,
        rate_in: 0,
        rate_out: 0,
    }
}

fn connection(remote: &str) -> Connection {
    Connection {
        local_addr: "10.0.0.2".to_string(),
        local_port: 5000,
        remote_addr: remote.to_string(),
        remote_port: 443,
        protocol: Protocol::Tcp,
        state: String::new(),
        interface: String::new(),
        bytes_in: 1,
        bytes_out: 1,
        hostname: None,
    }
}

#[test]
fn rate_is_difference_over_interval() {
    let prev = ByteMap::from_processes(&vec![process("a", 1, 100, 50)]);
    let mut cur = vec![process("a", 1, 350, 80)];
    compute_rates(&mut cur, &prev);
    assert_eq!(cur[0].rate_in, 250);
    assert_eq!(cur[0].rate_out, 30);
}

#[test]
fn counter_reset_gives_zero_rate() {
    let prev = ByteMap::from_processes(&vec![process("a", 1, 1000, 1000)]);
    let mut cur = vec![process("a", 1, 10, 2000)];
    compute_rates(&mut cur, &prev);
    assert_eq!(cur[0].rate_in, 0);
    assert_eq!(cur[0].rate_out, 1000);
}

#[test]
fn process_without_previous_keeps_zero_rate() {
    let prev = ByteMap::from_processes(&vec![process("a", 1, 10, 10), process("b", 2, 10, 10)]);
    let mut cur = vec![process("a", 2, 500, 500), process("c", 1, 500, 500)];
    compute_rates(&mut cur, &prev);
    assert_eq!(cur[0].rate_in, 0);
    assert_eq!(cur[1].rate_out, 0);
    assert_eq!(prev.get(&"b".to_string(), 2), Some((10, 10)));
    assert_eq!(prev.get(&"b".to_string(), 3), None);
}

#[test]
fn later_duplicate_key_wins_in_byte_map() {
    let prev = ByteMap::from_processes(&vec![process("a", 1, 10, 10), process("a", 1, 40, 30)]);
    assert_eq!(prev.get(&"a".to_string(), 1), Some((40, 30)));
}

#[test]
fn sorting_by_numeric_fields_descends() {
    let mut ps = vec![process("x", 3, 5, 9), process("y", 1, 50, 1), process("z", 2, 20, 4)];
    ps[0].rate_in = 7;
    ps[1].rate_in = 1;
    ps[2].rate_in = 9;
    sort_by_field(SortField::BytesIn, &mut ps);
    let v: Vec<u64> = ps.iter().map(|p| p.bytes_in).collect();
    assert_eq!(v, vec![50, 20, 5]);
    sort_by_field(SortField::BytesOut, &mut ps);
    let v: Vec<u64> = ps.iter().map(|p| p.bytes_out).collect();
    assert_eq!(v, vec![9, 4, 1]);
    sort_by_field(SortField::RateIn, &mut ps);
    let v: Vec<u64> = ps.iter().map(|p| p.rate_in).collect();
    assert_eq!(v, vec![9, 7, 1]);
    sort_by_field(SortField::Pid, &mut ps);
    let v: Vec<u32> = ps.iter().map(|p| p.pid).collect();
    assert_eq!(v, vec![1, 2, 3]);
}

#[test]
fn sorting_by_connections_descends() {
    let mut ps = vec![process("a", 1, 1, 1), process("b", 2, 1, 1)];
    ps[1].connections.push(connection("1.1.1.1"));
    sort_by_field(SortField::Connections, &mut ps);
    assert_eq!(ps[0].name, "b");
}

#[test]
fn sorting_by_name_ignores_case() {
    let mut ps = vec![process("zeta", 1, 1, 1), process("Alpha", 2, 1, 1), process("beta", 3, 1, 1)];
    sort_by_field(SortField::Name, &mut ps);
    let v: Vec<&str> = ps.iter().map(|p| p.name.as_str()).collect();
    assert_eq!(v, vec!["Alpha", "beta", "zeta"]);
}

#[test]
fn sorting_is_stable() {
    let mut ps = vec![process("a", 1, 5, 0), process("b", 2, 5, 0), process("c", 3, 9, 0)];
    sort_by_field(SortField::BytesIn, &mut ps);
    let v: Vec<&str> = ps.iter().map(|p| p.name.as_str()).collect();
    assert_eq!(v, vec!["c", "a", "b"]);
}

#[test]
fn filter_is_case_insensitive_substring() {
    let mut ps = vec![process("Firefox", 1234, 1, 1), process("Safari", 77, 1, 1)];
    ps[1].path = Some("/Applications/Safari.app".to_string());
    let shown = filter_processes(&ps, &Some("FIRE".to_string()));
    assert_eq!(shown.len(), 1);
    assert_eq!(shown[0].name, "Firefox");
    let shown = filter_processes(&ps, &Some("applications".to_string()));
    assert_eq!(shown.len(), 1);
    assert_eq!(shown[0].name, "Safari");
    let shown = filter_processes(&ps, &Some("23".to_string()));
    assert_eq!(shown.len(), 1);
    assert_eq!(shown[0].pid, 1234);
    assert_eq!(filter_processes(&ps, &None).len(), 2);
    assert_eq!(filter_processes(&ps, &Some(String::new())).len(), 2);
    assert_eq!(filter_processes(&ps, &Some("chrome".to_string())).len(), 0);
}

#[test]
fn exact_name_filter_always_matches() {
    let ps = vec![process("com.apple.WebKit", 9, 1, 1), process("other", 8, 1, 1)];
    let shown = filter_processes(&ps, &Some("com.apple.WebKit".to_string()));
    assert_eq!(shown.len(), 1);
    assert_eq!(shown[0].name, "com.apple.WebKit");
}

#[test]
fn folded_matching_takes_lowered_text() {
    assert!(matches_folded("firefox", "", 1, "fox"));
    assert!(matches_folded("a", "/usr/bin/x", 1, "bin"));
    assert!(matches_folded("a", "", 4096, "409"));
    assert!(!matches_folded("a", "", 4096, "Fox"));
    assert!(matches_folded("a", "", 0, ""));
}

#[test]
fn dns_requests_once_and_uses_cache() {
    let mut cache = DnsCache::new();
    let mut pending = PendingSet::new();
    cache.insert("8.8.8.8".to_string(), Some("dns.google".to_string()));
    let mut p = process("a", 1, 1, 1);
    p.connections.push(connection("8.8.8.8"));
    p.connections.push(connection("1.1.1.1"));
    p.connections.push(connection("1.1.1.1"));
    p.connections.push(connection(""));
    let mut ps = vec![p];
    let reqs = update_dns(&mut ps, &cache, &mut pending);
    assert_eq!(reqs, vec!["1.1.1.1".to_string()]);
    assert_eq!(ps[0].connections[0].hostname.as_deref(), Some("dns.google"));
    assert!(ps[0].connections[1].hostname.is_none());
    assert!(pending.contains("1.1.1.1"));
    let again = update_dns(&mut ps, &cache, &mut pending);
    assert!(again.is_empty());
    drain_dns_results(vec![("1.1.1.1".to_string(), None)], &mut cache, &mut pending);
    assert!(!pending.contains("1.1.1.1"));
    assert!(cache.contains_key("1.1.1.1"));
    let after = update_dns(&mut ps, &cache, &mut pending);
    assert!(after.is_empty());
    assert!(ps[0].connections[1].hostname.is_none());
}

#[test]
fn snapshot_totals_follow_processes() {
    let mut a = process("a", 1, 10, 20);
    a.rate_in = 3;
    a.rate_out = 4;
    a.connections.push(connection("1.1.1.1"));
    let mut b = process("b", 2, u64::MAX, u64::MAX);
    b.rate_in = 5;
    b.connections.push(connection("2.2.2.2"));
    b.connections.push(connection("3.3.3.3"));
    let s = NetworkSnapshot::from_processes(vec![a, b]);
    assert_eq!(s.total_bytes_in, 10 + u64::MAX as u128);
    assert_eq!(s.total_bytes_out, 20 + u64::MAX as u128);
    assert_eq!(s.total_rate_in, 8);
    assert_eq!(s.total_rate_out, 4);
    assert_eq!(s.total_connections, 3);
    let e = NetworkSnapshot::default();
    assert_eq!(e.processes.len(), 0);
    assert_eq!(e.total_connections, 0);
}

#[test]
fn tabs_and_sort_fields_cycle() {
    assert_eq!(ActiveTab::Processes.next(), ActiveTab::Connections);
    assert_eq!(ActiveTab::Connections.next(), ActiveTab::Overview);
    assert_eq!(ActiveTab::Overview.next(), ActiveTab::Processes);
    assert_eq!(ActiveTab::Processes.prev(), ActiveTab::Overview);
    assert_eq!(ActiveTab::Overview.prev(), ActiveTab::Connections);
    let mut f = SortField::Name;
    let mut seen = Vec::new();
    for _ in 0..7 {
        seen.push(f.label());
        f = f.next();
    }
    assert_eq!(f, SortField::Name);
    assert_eq!(seen, vec!["Name", "PID", "Conn", "Down", "Up", "Rate In", "Rate Out"]);
}

#[test]
fn config_names_sort_fields() {
    let c = |s: &str| Config { interval: 2, sort_by: s.to_string() }.parse_sort_field();
    assert_eq!(c("name"), SortField::Name);
    assert_eq!(c("pid"), SortField::Pid);
    assert_eq!(c("conn"), SortField::Connections);
    assert_eq!(c("down"), SortField::BytesIn);
    assert_eq!(c("up"), SortField::BytesOut);
    assert_eq!(c("rate-in"), SortField::RateIn);
    assert_eq!(c("rate-out"), SortField::RateOut);
    assert_eq!(c("bogus"), SortField::RateIn);
}

const REPORT_ONE: &str = ",bytes_in,bytes_out,\nalpha.1,100,10,\ntcp4 10.0.0.2:5000<->9.9.9.9:443,100,10,\nbeta.2,50,500,\n";
const REPORT_TWO: &str = ",bytes_in,bytes_out,\nalpha.1,400,20,\ntcp4 10.0.0.2:5000<->9.9.9.9:443,400,20,\nbeta.2,40,900,\n";

#[test]
fn update_cycle_computes_rates_sorts_and_records_history() {
    let mut app = App::new(SortField::RateIn, 2);
    let reqs = app.update_data(Vec::new(), parse_nettop_output(REPORT_ONE));
    assert_eq!(reqs, vec!["9.9.9.9".to_string()]);
    assert_eq!(app.snapshot.processes.len(), 2);
    assert_eq!(app.bandwidth_history.len(), 1);
    assert_eq!(app.bandwidth_history[0], 0);
    let reqs = app.update_data(
        vec![("9.9.9.9".to_string(), Some("dns9.quad9.net".to_string()))],
        parse_nettop_output(REPORT_TWO),
    );
    assert!(reqs.is_empty());
    let names: Vec<&str> = app.snapshot.processes.iter().map(|p| p.name.as_str()).collect();
    assert_eq!(names, vec!["alpha", "beta"]);
    assert_eq!(app.snapshot.processes[0].rate_in, 300);
    assert_eq!(app.snapshot.processes[0].rate_out, 10);
    assert_eq!(app.snapshot.processes[1].rate_in, 0);
    assert_eq!(app.snapshot.processes[1].rate_out, 400);
    assert_eq!(app.snapshot.total_rate_in, 300);
    assert_eq!(app.snapshot.total_rate_out, 410);
    assert_eq!(app.bandwidth_history[1], 710);
    assert_eq!(
        app.snapshot.processes[0].connections[0].hostname.as_deref(),
        Some("dns9.quad9.net")
    );
}

#[test]
fn failed_fetch_keeps_state() {
    let mut app = App::new(SortField::Name, 2);
    app.update_data(Vec::new(), parse_nettop_output(REPORT_ONE));
    let reqs = app.update_data(Vec::new(), Err("nettop failed".to_string()));
    assert!(reqs.is_empty());
    assert_eq!(app.snapshot.processes.len(), 2);
    assert_eq!(app.bandwidth_history.len(), 1);
}

#[test]
fn pause_freezes_snapshot_and_history() {
    let mut app = App::new(SortField::Name, 2);
    app.update_data(Vec::new(), parse_nettop_output(REPORT_ONE));
    app.paused = true;
    for _ in 0..5 {
        let reqs = app.update_data(Vec::new(), parse_nettop_output(REPORT_TWO));
        assert!(reqs.is_empty());
    }
    assert_eq!(app.bandwidth_history.len(), 1);
    assert_eq!(app.snapshot.processes[0].bytes_in, 100);
    app.paused = false;
    app.update_data(Vec::new(), parse_nettop_output(REPORT_TWO));
    assert_eq!(app.bandwidth_history.len(), 2);
    assert_eq!(app.snapshot.processes[0].bytes_in, 400);
}

#[test]
fn history_keeps_sixty_samples() {
    let mut app = App::new(SortField::Name, 1);
    for _ in 0..65 {
        app.update_data(Vec::new(), parse_nettop_output(REPORT_ONE));
    }
    assert_eq!(app.bandwidth_history.len(), 60);
}

#[test]
fn filter_and_drill_down() {
    let mut app = App::new(SortField::Name, 2);
    app.update_data(Vec::new(), parse_nettop_output(REPORT_ONE));
    app.enter_filter();
    assert!(app.filtering);
    app.filter_input.push_str("BET");
    app.apply_filter();
    assert!(!app.filtering);
    assert_eq!(app.filter_text.as_deref(), Some("BET"));
    assert_eq!(app.filtered_processes().len(), 1);
    app.cancel_filter();
    assert!(app.filter_text.is_none());
    assert_eq!(app.filtered_processes().len(), 2);
    app.enter_filter();
    app.apply_filter();
    assert!(app.filter_text.is_none());
    app.nav_down();
    assert_eq!(app.process_index, 1);
    app.nav_down();
    assert_eq!(app.process_index, 1);
    app.drill_down();
    assert_eq!(app.active_tab, ActiveTab::Connections);
    assert_eq!(app.filter_text.as_deref(), Some("beta"));
    assert_eq!(app.connection_index, 0);
    app.nav_down();
    assert_eq!(app.connection_index, 1);
    app.nav_up();
    app.nav_up();
    assert_eq!(app.connection_index, 0);
    app.cycle_sort();
    assert_eq!(app.sort_field, SortField::Pid);
}

#[test]
fn selection_is_clamped_to_filtered_list() {
    let mut app = App::new(SortField::Name, 2);
    app.update_data(Vec::new(), parse_nettop_output(REPORT_ONE));
    app.process_index = 1;
    app.filter_text = Some("alpha".to_string());
    app.update_data(Vec::new(), parse_nettop_output(REPORT_TWO));
    assert_eq!(app.process_index, 0);
}

#[test]
fn connection_rows_match_endpoint_protocol_or_host() {
    let mut app = App::new(SortField::Name, 2);
    let mut a = process("alpha", 1, 5, 5);
    a.connections.push(connection("9.9.9.9"));
    let mut udp = connection("1.1.1.1");
    udp.protocol = Protocol::Udp;
    udp.remote_port = 0;
    a.connections.push(udp);
    let mut b = process("beta", 2, 5, 5);
    let mut named = connection("8.8.8.8");
    named.hostname = Some("dns.google".to_string());
    b.connections.push(named);
    app.snapshot = NetworkSnapshot::from_processes(vec![a, b]);
    assert_eq!(app.filtered_connections().len(), 3);
    app.filter_text = Some("Alpha".to_string());
    assert_eq!(app.filtered_connections().len(), 2);
    app.filter_text = Some("udp".to_string());
    assert_eq!(app.filtered_connections().len(), 0);
    app.filter_text = Some("9.9.9.9:443".to_string());
    assert_eq!(app.filtered_connections().len(), 0);
    app.filter_text = Some("beta".to_string());
    let rows = app.filtered_connections();
    assert_eq!(rows.len(), 1);
    assert_eq!(rows[0].0.name, "beta");
    assert_eq!(rows[0].1.remote_addr, "8.8.8.8");
}

#[test]
fn protocol_labels() {
    assert_eq!(Protocol::Tcp.label(), "TCP");
    assert_eq!(Protocol::Udp.label(), "UDP");
    assert_eq!(Protocol::Other("icmp".to_string()).label(), "icmp");
}

#[test]
fn dropped_request_is_asked_again() {
    let mut app = App::new(SortField::Name, 2);
    let reqs = app.update_data(Vec::new(), parse_nettop_output(REPORT_ONE));
    assert_eq!(reqs, vec!["9.9.9.9".to_string()]);
    let reqs = app.update_data(Vec::new(), parse_nettop_output(REPORT_ONE));
    assert!(reqs.is_empty());
    app.forget_request("9.9.9.9");
    let reqs = app.update_data(Vec::new(), parse_nettop_output(REPORT_ONE));
    assert_eq!(reqs, vec!["9.9.9.9".to_string()]);
}

#[test]
fn name_order_folds_upper_case() {
    let mut ps = vec![process("apple", 1, 1, 1), process("Banana", 2, 1, 1), process("cherry", 3, 1, 1)];
    sort_by_field(SortField::Name, &mut ps);
    let v: Vec<&str> = ps.iter().map(|p| p.name.as_str()).collect();
    assert_eq!(v, vec!["apple", "Banana", "cherry"]);
}
