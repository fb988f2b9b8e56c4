use tcpcount::conn::{Connection, TcpState};
use tcpcount::filters::ConnectionFilter;
use tcpcount::graph::ActiveConnectionsGraphWidget;
use tcpcount::metrics::HISTORY_CAP;
use tcpcount::monitor::ConnectionMonitor;
use tcpcount::snapshot::{ProcSnapshot, ProcStatus, SocketEntry};
use tcpcount::text::{parse_u16, parse_u32, str_contains, u64_to_string};
use tcpcount::ui::{FilterField, FilterKey, FilterWidget, SortBy};

fn entry(pid: u32, local: u16, addr: &str, rport: u16, host: Option<&str>) -> SocketEntry {
    SocketEntry {
        pid,
        local_port: local,
        remote_port: rport,
        remote_addr: addr.to_string(),
        remote_hostname: host.map(|h| h.to_string()),
        state: TcpState::Established,
    }
}

fn proc_row(pid: u32, name: &str, mem: u64) -> ProcSnapshot {
    ProcSnapshot {
        pid,
        name: name.to_string(),
        exe: Some(format!("/usr/bin/{}", name)),
        memory: mem,
        status: ProcStatus::Run,
    }
}

fn pid_counters(m: &ConnectionMonitor, pid: u32) -> (usize, usize, usize) {
    for e in &m.metrics.by_pid {
        if e.pid == pid {
            return (e.current, e.total, e.max);
        }
    }
    (0, 0, 0)
}

fn host_counters(m: &ConnectionMonitor, host: &str, port: u16) -> (usize, usize, usize) {
    for e in &m.metrics.by_host {
        if e.host == host && e.port == port {
            return (e.current, e.total, e.max);
        }
    }
    (0, 0, 0)
}

#[test]
fn first_snapshot_counts_new_connection() {
    let mut m = ConnectionMonitor::new();
    let sockets = vec![entry(10, 5000, "93.184.216.34", 443, Some("example.com"))];
    let procs = vec![proc_row(10, "curl", 1024)];
    m.refresh(&sockets, &procs, 1000);

    assert_eq!(pid_counters(&m, 10), (1, 1, 1));
    assert_eq!(host_counters(&m, "example.com", 443), (1, 1, 1));
    let active = m.get_active_connections();
    assert_eq!(active.len(), 1);
    assert_eq!(active[0].pid, 10);
    assert!(!active[0].closed);
    assert_eq!(m.get_historical_connections().len(), 0);
}

#[test]
fn absent_connection_closes_into_history() {
    let mut m = ConnectionMonitor::new();
    let sockets = vec![entry(10, 5000, "93.184.216.34", 443, Some("example.com"))];
    let procs = vec![proc_row(10, "curl", 1024)];
    m.refresh(&sockets, &procs, 1000);
    m.refresh(&Vec::new(), &procs, 2000);

    assert_eq!(pid_counters(&m, 10), (0, 1, 1));
    assert_eq!(host_counters(&m, "example.com", 443), (0, 1, 1));
    assert_eq!(m.get_active_connections().len(), 0);
    let hist = m.get_historical_connections();
    assert_eq!(hist.len(), 1);
    assert!(hist[0].closed);
    assert_eq!(hist[0].last_seen, 2000);
}

#[test]
fn reappearing_key_gets_a_new_identifier() {
    let mut m = ConnectionMonitor::new();
    let sockets = vec![entry(10, 5000, "93.184.216.34", 443, Some("example.com"))];
    let procs = vec![proc_row(10, "curl", 1024)];
    m.refresh(&sockets, &procs, 1000);
    let first_id = m.get_active_connections()[0].id;
    m.refresh(&Vec::new(), &procs, 2000);
    m.refresh(&sockets, &procs, 3000);

    let active = m.get_active_connections();
    assert_eq!(active.len(), 1);
    assert_ne!(active[0].id, first_id);
    assert_eq!(pid_counters(&m, 10), (1, 2, 1));
}

#[test]
fn bare_ip_increments_only_pid_counters() {
    let mut m = ConnectionMonitor::new();
    let sockets = vec![entry(10, 5000, "10.0.0.7", 443, None)];
    let procs = vec![proc_row(10, "curl", 1024)];
    m.refresh(&sockets, &procs, 1000);

    assert_eq!(pid_counters(&m, 10), (1, 1, 1));
    assert!(m.metrics.by_host.is_empty());
    assert!(m.metrics.by_process_host.is_empty());
    // the host view still shows the bare address as a group, with max 0
    let rows = m.get_host_metrics(&ConnectionFilter::new());
    assert_eq!(rows.len(), 1);
    assert_eq!(rows[0].host, "10.0.0.7");
    assert_eq!(rows[0].current_connections, 1);
    assert_eq!(rows[0].total_connections, 1);
    assert_eq!(rows[0].max_concurrent, 0);
}

#[test]
fn reobservation_updates_state_not_counters() {
    let mut m = ConnectionMonitor::new();
    let mut sockets = vec![entry(10, 5000, "93.184.216.34", 443, Some("example.com"))];
    let procs = vec![proc_row(10, "curl", 1024)];
    m.refresh(&sockets, &procs, 1000);
    let id = m.get_active_connections()[0].id;
    sockets[0].state = TcpState::CloseWait;
    m.refresh(&sockets, &procs, 2000);

    let active = m.get_active_connections();
    assert_eq!(active.len(), 1);
    assert_eq!(active[0].id, id);
    assert_eq!(active[0].state, TcpState::CloseWait);
    assert_eq!(active[0].first_seen, 1000);
    assert_eq!(active[0].last_seen, 2000);
    assert_eq!(pid_counters(&m, 10), (1, 1, 1));
}

#[test]
fn running_maximum_tracks_high_water_mark() {
    let mut m = ConnectionMonitor::new();
    let procs = vec![proc_row(10, "curl", 1024)];
    let two = vec![
        entry(10, 5000, "93.184.216.34", 443, Some("example.com")),
        entry(10, 5001, "93.184.216.34", 443, Some("example.com")),
    ];
    m.refresh(&two, &procs, 1000);
    assert_eq!(pid_counters(&m, 10), (2, 2, 2));
    assert_eq!(host_counters(&m, "example.com", 443), (2, 2, 2));
    let one = vec![entry(10, 5000, "93.184.216.34", 443, Some("example.com"))];
    m.refresh(&one, &procs, 2000);
    assert_eq!(pid_counters(&m, 10), (1, 2, 2));
    assert_eq!(host_counters(&m, "example.com", 443), (1, 2, 2));
}

#[test]
fn retention_keeps_only_the_most_recent_samples() {
    let mut m = ConnectionMonitor::new();
    let sockets = vec![entry(10, 5000, "10.0.0.7", 443, None)];
    let procs = vec![proc_row(10, "curl", 4)];
    for k in 0..(HISTORY_CAP as u64 + 5) {
        m.refresh(&sockets, &procs, 1000 + k);
    }
    let ts = &m.metrics.sample_timestamps;
    assert_eq!(ts.len(), HISTORY_CAP);
    assert_eq!(ts[0], 1005);
    assert_eq!(ts[ts.len() - 1], 1000 + HISTORY_CAP as u64 + 4);
    for series in &m.metrics.memory_history {
        assert!(series.samples.len() <= HISTORY_CAP);
        assert_eq!(series.samples[0].0, 1005);
    }
}

#[test]
fn views_are_idempotent_between_refreshes() {
    let mut m = ConnectionMonitor::new();
    let sockets = vec![
        entry(10, 5000, "93.184.216.34", 443, Some("example.com")),
        entry(11, 5001, "10.0.0.7", 80, None),
    ];
    let procs = vec![proc_row(10, "curl", 1024), proc_row(11, "wget", 2048)];
    m.refresh(&sockets, &procs, 1000);
    let f = ConnectionFilter::new();

    let h1 = m.get_host_metrics(&f);
    let h2 = m.get_host_metrics(&f);
    assert_eq!(h1.len(), h2.len());
    for (a, b) in h1.iter().zip(h2.iter()) {
        assert_eq!(a.host, b.host);
        assert_eq!(a.port, b.port);
        assert_eq!(a.current_connections, b.current_connections);
        assert_eq!(a.total_connections, b.total_connections);
        assert_eq!(a.max_concurrent, b.max_concurrent);
    }
    let p1 = m.get_process_metrics(&f);
    let p2 = m.get_process_metrics(&f);
    assert_eq!(p1.len(), p2.len());
    for (a, b) in p1.iter().zip(p2.iter()) {
        assert_eq!(a.pid, b.pid);
        assert_eq!(a.name, b.name);
        assert_eq!(a.current_connections, b.current_connections);
        assert_eq!(a.total_connections, b.total_connections);
    }
    let g1 = m.get_connection_history_filtered(&f, None, None);
    let g2 = m.get_connection_history_filtered(&f, None, None);
    assert_eq!(g1, g2);
}

#[test]
fn filter_conjunction_matches_single_criteria() {
    let c = Connection::new(
        1,
        7,
        4000,
        443,
        "93.184.216.34".to_string(),
        Some("example.com".to_string()),
        TcpState::Established,
        5,
    );
    let name = Some("firefox");
    let full = ConnectionFilter::new()
        .with_pid(7)
        .with_process_name("fire".to_string())
        .with_remote_host("example".to_string())
        .with_remote_port(443);
    let by_pid = ConnectionFilter::new().with_pid(7);
    let by_name = ConnectionFilter::new().with_process_name("fire".to_string());
    let by_host = ConnectionFilter::new().with_remote_host("example".to_string());
    let by_port = ConnectionFilter::new().with_remote_port(443);

    let conj = by_pid.matches_connection(&c, name)
        && by_name.matches_connection(&c, name)
        && by_host.matches_connection(&c, name)
        && by_port.matches_connection(&c, name);
    assert_eq!(full.matches_connection(&c, name), conj);
    assert!(full.matches_connection(&c, name));

    let other_port = full.clone().with_remote_port(80);
    assert!(!other_port.matches_connection(&c, name));
}

#[test]
fn name_filter_rejects_nameless_processes() {
    let c = Connection::new(
        1,
        7,
        4000,
        443,
        "93.184.216.34".to_string(),
        None,
        TcpState::Established,
        5,
    );
    let f = ConnectionFilter::new().with_process_name("fire".to_string());
    assert!(!f.matches_connection(&c, None));
}

#[test]
fn host_filter_falls_back_to_address_text() {
    let c = Connection::new(
        1,
        7,
        4000,
        443,
        "93.184.216.34".to_string(),
        Some("example.com".to_string()),
        TcpState::Established,
        5,
    );
    let by_addr = ConnectionFilter::new().with_remote_host("184.216".to_string());
    assert!(by_addr.matches_connection(&c, None));
    let neither = ConnectionFilter::new().with_remote_host("altavista".to_string());
    assert!(!neither.matches_connection(&c, None));
}

#[test]
fn filter_description_lists_criteria() {
    let f = ConnectionFilter::new().with_pid(42).with_remote_port(8080);
    assert_eq!(f.to_string(), "PID: 42, Port: 8080");
    assert_eq!(ConnectionFilter::new().to_string(), "No filters");
    assert!(ConnectionFilter::new().is_empty());
    assert!(!f.is_empty());
}

#[test]
fn numeral_parsing_matches_std() {
    assert_eq!(parse_u32("0"), Some(0));
    assert_eq!(parse_u32("4294967295"), Some(u32::MAX));
    assert_eq!(parse_u32("4294967296"), None);
    assert_eq!(parse_u32("+17"), Some(17));
    assert_eq!(parse_u32(""), None);
    assert_eq!(parse_u32("12a"), None);
    assert_eq!(parse_u16("65535"), Some(65535));
    assert_eq!(parse_u16("65536"), None);
    assert_eq!(u64_to_string(0), "0");
    assert_eq!(u64_to_string(90217), "90217");
}

#[test]
fn substring_search_is_exact() {
    assert!(str_contains("example.com", "ample"));
    assert!(str_contains("example.com", ""));
    assert!(!str_contains("example.com", "org"));
    assert!(!str_contains("ab", "abc"));
}

#[test]
fn filter_widget_builds_and_rejects() {
    let mut w = FilterWidget::new();
    w.show(&ConnectionFilter::new());
    assert!(w.is_active());
    // type a pid
    w.handle_key_event(FilterKey::Char('4'));
    w.handle_key_event(FilterKey::Char('2'));
    assert_eq!(w.get_input_for_current_field(), "42");
    // move to the port field and type a bad port
    w.handle_key_event(FilterKey::Tab);
    w.handle_key_event(FilterKey::Tab);
    w.handle_key_event(FilterKey::Tab);
    w.handle_key_event(FilterKey::Char('9'));
    w.handle_key_event(FilterKey::Char('x'));
    let rejected = w.handle_key_event(FilterKey::Enter);
    assert!(rejected.is_none());
    assert!(w.is_active());
    assert!(w.error.is_some());
    // erase the bad character and apply
    w.handle_key_event(FilterKey::Backspace);
    let applied = w.handle_key_event(FilterKey::Enter);
    let f = applied.expect("filter");
    assert_eq!(f.pid, Some(42));
    assert_eq!(f.remote_port, Some(9));
    assert!(!w.is_active());
}

#[test]
fn filter_widget_show_prefills_from_filter() {
    let mut w = FilterWidget::new();
    let f = ConnectionFilter::new().with_pid(7).with_remote_host("example".to_string());
    w.show(&f);
    assert_eq!(w.get_input_for_current_field(), "7");
    assert_eq!(w.current_field, FilterField::Pid);
    assert_eq!(w.remote_host_input, "example");
}

#[test]
fn sort_and_field_labels() {
    assert_eq!(SortBy::Total.as_str(), "Total");
    assert_eq!(SortBy::Active.as_str(), "Active");
    assert_eq!(SortBy::Max.as_str(), "Max");
    assert_eq!(FilterField::Pid.as_str(), "PID");
    assert_eq!(FilterField::Pid.next(), FilterField::ProcessName);
    assert_eq!(FilterField::Pid.prev(), FilterField::RemotePort);
    assert_eq!(FilterField::RemotePort.next(), FilterField::Pid);
}

#[test]
fn process_records_track_memory_maximum() {
    let mut m = ConnectionMonitor::new();
    let sockets = vec![entry(10, 5000, "10.0.0.7", 443, None)];
    m.refresh(&sockets, &vec![proc_row(10, "curl", 500)], 1000);
    m.refresh(&sockets, &vec![proc_row(10, "curl", 300)], 2000);
    let p = m.get_process(10).expect("process");
    assert_eq!(p.current_memory_usage, 300);
    assert_eq!(p.max_memory_usage, 500);
    assert_eq!(p.first_seen, 1000);
    assert_eq!(p.last_seen, 2000);
}

#[test]
fn memory_history_view_selects_by_filter() {
    let mut m = ConnectionMonitor::new();
    let sockets = vec![
        entry(10, 5000, "10.0.0.7", 443, None),
        entry(11, 5001, "10.0.0.8", 80, None),
    ];
    let procs = vec![proc_row(10, "curl", 500), proc_row(11, "wget", 700)];
    m.refresh(&sockets, &procs, 1000);
    m.refresh(&sockets, &procs, 2000);

    let by_pid = m.get_memory_history_filtered(&ConnectionFilter::new().with_pid(10), None, None);
    assert_eq!(by_pid.len(), 1);
    assert_eq!(by_pid[0].pid, 10);
    assert_eq!(by_pid[0].samples.len(), 2);

    let by_name = m.get_memory_history_filtered(
        &ConnectionFilter::new().with_process_name("wge".to_string()),
        None,
        None,
    );
    assert_eq!(by_name.len(), 1);
    assert_eq!(by_name[0].pid, 11);

    let windowed = m.get_memory_history_filtered(&ConnectionFilter::new(), Some(1500), None);
    for series in &windowed {
        for (t, _) in &series.samples {
            assert!(*t >= 1500);
        }
    }
}

#[test]
fn history_view_counts_active_connections() {
    let mut m = ConnectionMonitor::new();
    let sockets = vec![entry(10, 5000, "10.0.0.7", 443, None)];
    let procs = vec![proc_row(10, "curl", 500)];
    m.refresh(&sockets, &procs, 1000);
    m.refresh(&Vec::new(), &procs, 2000);
    let points = m.get_connection_history_filtered(&ConnectionFilter::new(), None, None);
    assert_eq!(points.len(), 2);
    assert_eq!(points[0], (1000, 1));
    // at the second tick the connection is closed with last_seen 2000, so it
    // still counts as active at that instant
    assert_eq!(points[1], (2000, 1));
    let late = m.get_connection_history_filtered(&ConnectionFilter::new(), Some(1500), None);
    assert_eq!(late.len(), 1);
    assert_eq!(late[0].0, 2000);
}

#[test]
fn process_host_view_prefers_executable_names() {
    let mut m = ConnectionMonitor::new();
    let sockets = vec![entry(10, 5000, "93.184.216.34", 443, Some("example.com"))];
    let procs = vec![proc_row(10, "curl", 500)];
    m.refresh(&sockets, &procs, 1000);
    let rows = m.get_process_host_metrics(&ConnectionFilter::new());
    assert_eq!(rows.len(), 1);
    assert_eq!(rows[0].pid, 10);
    assert_eq!(rows[0].process_name, "/usr/bin/curl");
    assert_eq!(rows[0].host, "example.com");
    assert_eq!(rows[0].port, 443);
    assert_eq!(rows[0].max_concurrent, 1);
    assert!(rows[0].is_alive);
}

#[test]
fn process_view_reports_liveness_and_unknown_names() {
    let mut m = ConnectionMonitor::new();
    let sockets = vec![entry(10, 5000, "10.0.0.7", 443, None)];
    let mut dead = proc_row(10, "curl", 500);
    dead.status = ProcStatus::Zombie;
    m.refresh(&sockets, &vec![dead], 1000);
    let rows = m.get_process_metrics(&ConnectionFilter::new());
    assert_eq!(rows.len(), 1);
    assert_eq!(rows[0].pid, 10);
    assert_eq!(rows[0].name, "curl");
    assert!(!rows[0].is_alive);

    // a pid absent from the process table has no record and shows as Unknown
    let mut m2 = ConnectionMonitor::new();
    m2.refresh(&sockets, &Vec::new(), 1000);
    let rows2 = m2.get_process_metrics(&ConnectionFilter::new());
    assert_eq!(rows2[0].name, "Unknown");
}

#[test]
fn reset_clears_state_but_never_reuses_ids() {
    let mut m = ConnectionMonitor::new();
    let sockets = vec![entry(10, 5000, "10.0.0.7", 443, None)];
    let procs = vec![proc_row(10, "curl", 500)];
    m.refresh(&sockets, &procs, 1000);
    let old_id = m.get_active_connections()[0].id;
    m.reset(2000);
    assert_eq!(m.get_active_connections().len(), 0);
    assert_eq!(m.get_historical_connections().len(), 0);
    assert!(m.metrics.by_pid.is_empty());
    assert!(m.metrics.sample_timestamps.is_empty());
    m.refresh(&sockets, &procs, 3000);
    assert_ne!(m.get_active_connections()[0].id, old_id);
}

#[test]
fn graph_buffer_appends_and_rebuilds() {
    let mut m = ConnectionMonitor::new();
    let sockets = vec![entry(10, 5000, "10.0.0.7", 443, None)];
    let procs = vec![proc_row(10, "curl", 500)];
    m.refresh(&sockets, &procs, 1000);

    let f = ConnectionFilter::new();
    let mut g = ActiveConnectionsGraphWidget::new().with_max_points(3);
    g.set_filter(f.clone(), &m);
    assert_eq!(g.history().as_slice(), &[1]);

    // sampling appends once per interval and evicts past the capacity
    g.update(&f, &m, 2000);
    g.update(&f, &m, 2500); // within the interval: no sample
    g.update(&f, &m, 3000);
    g.update(&f, &m, 4000);
    assert_eq!(g.history().as_slice(), &[1, 1, 1]);
    assert_eq!(g.get_max_value(), 1);

    // a filter change refills wholesale
    let narrowed = ConnectionFilter::new().with_pid(999);
    g.update(&narrowed, &m, 4100);
    assert_eq!(g.history().as_slice(), &[0]);
    assert_eq!(g.get_max_value(), 0);
}

#[test]
fn filtered_connection_views_respect_the_filter() {
    let mut m = ConnectionMonitor::new();
    let sockets = vec![
        entry(10, 5000, "93.184.216.34", 443, Some("example.com")),
        entry(11, 5001, "10.0.0.7", 80, None),
    ];
    let procs = vec![proc_row(10, "curl", 500), proc_row(11, "wget", 700)];
    m.refresh(&sockets, &procs, 1000);

    let by_name = m.get_filtered_active_connections(
        &ConnectionFilter::new().with_process_name("cur".to_string()),
    );
    assert_eq!(by_name.len(), 1);
    assert_eq!(by_name[0].pid, 10);

    m.refresh(&Vec::new(), &procs, 2000);
    let hist = m.get_filtered_historical_connections(
        &ConnectionFilter::new().with_remote_port(80),
    );
    assert_eq!(hist.len(), 1);
    assert_eq!(hist[0].pid, 11);

    let procs_view = m.get_filtered_processes(&ConnectionFilter::new().with_pid(11));
    assert_eq!(procs_view.len(), 1);
    assert_eq!(procs_view[0].pid, 11);
}

#[test]
fn full_filter_description_joins_all_parts() {
    let f = ConnectionFilter::new()
        .with_pid(1)
        .with_process_name("nginx".to_string())
        .with_remote_host("example.com".to_string())
        .with_remote_port(65535);
    assert_eq!(
        f.to_string(),
        "PID: 1, Process: nginx, Host: example.com, Port: 65535"
    );
}

#[test]
fn empty_snapshot_on_empty_registry_is_a_quiet_tick() {
    let mut m = ConnectionMonitor::new();
    m.refresh(&Vec::new(), &Vec::new(), 1000);
    assert_eq!(m.get_active_connections().len(), 0);
    assert_eq!(m.get_historical_connections().len(), 0);
    assert_eq!(m.metrics.sample_timestamps.as_slice(), &[1000]);
    assert!(m.get_host_metrics(&ConnectionFilter::new()).is_empty());
    assert!(m.get_process_metrics(&ConnectionFilter::new()).is_empty());
    assert!(m.get_process_host_metrics(&ConnectionFilter::new()).is_empty());
}

#[test]
fn same_port_different_hosts_group_separately() {
    let mut m = ConnectionMonitor::new();
    let sockets = vec![
        entry(10, 5000, "93.184.216.34", 443, Some("example.com")),
        entry(10, 5001, "93.184.216.35", 443, Some("example.org")),
    ];
    let procs = vec![proc_row(10, "curl", 1024)];
    m.refresh(&sockets, &procs, 1000);
    let mut rows = m.get_host_metrics(&ConnectionFilter::new());
    rows.sort_by(|a, b| a.host.cmp(&b.host));
    assert_eq!(rows.len(), 2);
    assert_eq!(rows[0].host, "example.com");
    assert_eq!(rows[1].host, "example.org");
    assert_eq!(rows[0].max_concurrent, 1);
    assert_eq!(rows[1].max_concurrent, 1);
    assert_eq!(pid_counters(&m, 10), (2, 2, 2));
}
