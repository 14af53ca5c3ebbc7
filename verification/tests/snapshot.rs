use vigil::number::{Fixed, ONE};
use vigil::snapshot::{
    battery_line, busiest_first, collect_connections, collect_disks, command_line, connections_fit, estimate_fits,
    group_by_name, is_loopback, netstat_output, netstat_port, parse_battery_line, parse_netstat_output,
    parse_remaining_secs, read_battery, totals_fit, RawDisk, Reading,
};
use vigil::{take_snapshot, LoadAvg, MemoryInfo, ProcInfo};

fn fixed(x: f64) -> Fixed {
    Fixed { bits: (x * ONE as f64) as u64 }
}

fn proc(pid: u32, name: &str, cpu_pct: f64, mem_bytes: u64) -> ProcInfo {
    ProcInfo {
        pid,
        ppid: None,
        name: name.to_string(),
        cpu_pct: fixed(cpu_pct),
        mem_bytes,
        run_time_secs: 0,
        cmd: name.to_string(),
    }
}

#[test]
fn group_by_name_aggregates_multiple_instances() {
    let procs = vec![
        proc(1, "Google Chrome Helper (Renderer)", 5.0, 200_000_000),
        proc(2, "Google Chrome Helper (Renderer)", 3.0, 250_000_000),
        proc(3, "Google Chrome Helper (Renderer)", 4.0, 180_000_000),
        proc(4, "pycharm", 90.0, 19_000_000_000),
    ];
    let groups = group_by_name(&procs);

    let chrome = groups.iter().find(|g| g.name == "Google Chrome Helper (Renderer)").unwrap();
    assert_eq!(chrome.count, 3);
    assert_eq!(chrome.total_mem_bytes, 200_000_000 + 250_000_000 + 180_000_000);
    assert!((chrome.total_cpu_pct.bits as f64 / ONE as f64 - 12.0).abs() < 0.01);
    assert_eq!(chrome.top_pid, 2, "the highest-memory instance in the group");

    let pycharm = groups.iter().find(|g| g.name == "pycharm").unwrap();
    assert_eq!(pycharm.count, 1);
    assert_eq!(pycharm.total_mem_bytes, 19_000_000_000);
}

#[test]
fn the_share_of_a_group_is_the_sum_of_floats() {
    let shares = [0.1f32, 17.3, 1.7, 99.9, 0.3, 176.3, 12.7, 0.1, 33.3];
    let procs = shares.iter().map(|&s| proc(1, "worker", s as f64, 1)).collect::<Vec<_>>();
    let mut sum = 0.0f32;
    for (n, share) in shares.iter().enumerate() {
        sum += share;
        let groups = group_by_name(&procs[..n + 1].to_vec());
        assert_eq!(groups[0].total_cpu_pct.bits, fixed(sum as f64).bits, "{n}");
    }
}

#[test]
fn group_by_name_sorts_by_combined_memory_descending() {
    let procs = vec![
        proc(1, "solo-big", 1.0, 4_000_000_000),
        proc(2, "helper", 1.0, 1_500_000_000),
        proc(3, "helper", 1.0, 1_500_000_000),
        proc(4, "helper", 1.0, 1_500_000_000),
    ];
    let groups = group_by_name(&procs);
    assert_eq!(groups[0].name, "helper");
    assert_eq!(groups[0].total_mem_bytes, 4_500_000_000);
    assert_eq!(groups[1].name, "solo-big");
}

#[test]
fn group_by_name_handles_empty_input() {
    assert!(group_by_name(&vec![]).is_empty());
}

#[test]
fn group_by_name_names_the_oldest_members() {
    let mut procs = Vec::new();
    for (pid, age) in [(1, 5), (2, 40), (3, 40), (4, 7), (5, 100)] {
        procs.push(ProcInfo { run_time_secs: age, ppid: Some(pid + 100), ..proc(pid, "node", 0.0, 1) });
    }
    let groups = group_by_name(&procs);
    let oldest: Vec<(u32, Option<u32>, u64)> =
        groups[0].oldest.iter().map(|s| (s.pid, s.ppid, s.run_time_secs)).collect();
    assert_eq!(oldest, vec![(5, Some(105), 100), (2, Some(102), 40), (3, Some(103), 40)]);
}

#[test]
fn parses_discharging_battery_line() {
    let line = "-InternalBattery-0 (id=36044899)\t92%; discharging; 2:26 remaining present: true";
    let b = parse_battery_line(line).unwrap();
    assert_eq!(b.percentage, Some(92));
    assert_eq!(b.charging, Some(false));
    assert_eq!(b.remaining_secs, Some(2 * 3600 + 26 * 60));
}

#[test]
fn parses_charging_battery_line() {
    let line = "-InternalBattery-0 (id=36044899)\t13%; charging; 2:21 remaining present: true";
    let b = parse_battery_line(line).unwrap();
    assert_eq!(b.percentage, Some(13));
    assert_eq!(b.charging, Some(true));
}

#[test]
fn charged_and_plugged_in_has_no_remaining_estimate() {
    let line = "-InternalBattery-0 (id=36044899)\t100%; charged; 0:00 remaining present: true";
    let b = parse_battery_line(line).unwrap();
    assert_eq!(b.percentage, Some(100));
    assert_eq!(b.remaining_secs, None);
}

#[test]
fn no_estimate_right_after_unplugging_is_handled() {
    let line = "-InternalBattery-0 (id=36044899)\t87%; discharging; (no estimate) present: true";
    let b = parse_battery_line(line).unwrap();
    assert_eq!(b.percentage, Some(87));
    assert_eq!(b.remaining_secs, None);
}

#[test]
fn parse_battery_line_handles_a_totally_unrecognized_line() {
    let b = parse_battery_line("garbage line with nothing useful").unwrap();
    assert_eq!(b.percentage, None);
    assert_eq!(b.charging, None);
    assert_eq!(b.remaining_secs, None);
}

#[test]
fn an_estimate_that_no_number_holds_is_noticed() {
    assert!(estimate_fits("x 2:26 remaining"));
    assert!(estimate_fits("x"));
    assert!(!estimate_fits("x 18446744073709551615:00 remaining"));
    assert_eq!(parse_remaining_secs("x; 0:01 remaining"), Some(60));
}

const NETSTAT_SAMPLE: &str = "\
Active Internet connections (including servers)
Proto Recv-Q Send-Q  Local Address                                 Foreign Address                               (state)
tcp4       0      0  127.0.0.1.64342        127.0.0.1.57332        ESTABLISHED
tcp4       0      0  127.0.0.1.57332        127.0.0.1.64342        ESTABLISHED
tcp46      0      0  *.61118                *.*                    LISTEN
tcp4       0      0  127.0.0.1.27403        *.*                    LISTEN
tcp4       0      0  93.184.216.34.443      10.0.0.5.54321         TIME_WAIT
tcp4       0      0  10.0.0.5.54322         93.184.216.34.443      CLOSE_WAIT
udp4       0      0  *.68                   *.*
tcp6       0      0  2001:8a0:616a:50.57419 2600:1901:0:9e23.443   ESTABLISHED";

#[test]
fn parse_real_netstat_capture_counts_every_state() {
    let c = parse_netstat_output(NETSTAT_SAMPLE);
    assert_eq!(c.established, 3);
    assert_eq!(c.listen, 2);
    assert_eq!(c.time_wait, 1);
    assert_eq!(c.close_wait, 1);
    assert_eq!(c.other, 0);
    assert_eq!(c.total, 7); // header/title/udp lines excluded
}

#[test]
fn loopback_pair_is_not_counted_as_incoming() {
    let c = parse_netstat_output(NETSTAT_SAMPLE);
    assert_eq!(c.incoming, 0);
}

#[test]
fn outgoing_established_connection_is_not_counted_as_incoming() {
    let c = parse_netstat_output(NETSTAT_SAMPLE);
    assert_eq!(c.incoming, 0);
}

#[test]
fn established_connection_on_a_listen_port_from_a_real_peer_is_incoming() {
    let sample = "\
Proto Recv-Q Send-Q  Local Address                                 Foreign Address                               (state)
tcp4       0      0  *.9090                 *.*                    LISTEN
tcp4       0      0  192.168.1.10.9090      198.51.100.7.51000     ESTABLISHED";
    let c = parse_netstat_output(sample);
    assert_eq!(c.incoming, 1);
}

#[test]
fn established_connection_on_a_listen_port_from_loopback_is_not_incoming() {
    let sample = "\
Proto Recv-Q Send-Q  Local Address                                 Foreign Address                               (state)
tcp4       0      0  *.9090                 *.*                    LISTEN
tcp4       0      0  127.0.0.1.9090         127.0.0.1.51000        ESTABLISHED";
    let c = parse_netstat_output(sample);
    assert_eq!(c.incoming, 0);
}

#[test]
fn netstat_port_extracts_the_trailing_port() {
    assert_eq!(netstat_port("127.0.0.1.64342").as_deref(), Some("64342"));
    assert_eq!(netstat_port("*.61118").as_deref(), Some("61118"));
    assert_eq!(netstat_port("2001:8a0:616a:50.57419").as_deref(), Some("57419"));
    assert_eq!(netstat_port("*.*").as_deref(), None);
}

#[test]
fn netstat_port_rejects_a_hostless_or_non_numeric_trailer() {
    assert_eq!(netstat_port(""), None);
    assert_eq!(netstat_port("just-a-word"), None);
}

#[test]
fn is_loopback_recognizes_v4_and_v6() {
    assert!(is_loopback("127.0.0.1.57332"));
    assert!(is_loopback("::1.443"));
    assert!(!is_loopback("93.184.216.34.443"));
    assert!(!is_loopback("*.*"));
}

fn reading() -> Reading {
    Reading {
        ts_unix: 1,
        load_avg: LoadAvg { one: fixed(1.0), five: fixed(2.0), fifteen: fixed(3.0) },
        memory: MemoryInfo {
            total_bytes: 1,
            used_bytes: 0,
            free_bytes: 1,
            swap_total_bytes: 0,
            swap_used_bytes: 0,
        },
        disks: vec![],
        battery: None,
        connections: None,
    }
}

#[test]
fn take_snapshot_produces_a_well_formed_snapshot_on_this_machine() {
    let sys = sysinfo::System::new_all();
    let procs: Vec<ProcInfo> = sys
        .processes()
        .values()
        .map(|p| proc(p.pid().as_u32(), &p.name().to_string_lossy(), p.cpu_usage() as f64, p.memory()))
        .collect();
    let now = std::time::SystemTime::now().duration_since(std::time::UNIX_EPOCH).unwrap();
    let mut reading = reading();
    reading.ts_unix = now.as_secs();
    reading.memory.total_bytes = sys.total_memory();
    let snap = take_snapshot(procs, reading, 5);
    assert!(snap.ts_unix > 0);
    assert!(snap.top_cpu.len() <= 5);
    assert!(snap.top_mem.len() <= 5);
    assert!(snap.top_mem_groups.len() <= 5);
    assert!(snap.memory.total_bytes > 0);
}

#[test]
fn a_snapshot_ranks_by_processor_and_by_memory() {
    let procs = vec![
        proc(1, "a", 1.0, 300),
        proc(2, "b", 50.0, 200),
        proc(3, "b", 7.5, 250),
        proc(4, "c", 7.5, 100),
    ];
    let snap = take_snapshot(procs, reading(), 3);
    let pids = |ps: &[ProcInfo]| ps.iter().map(|p| p.pid).collect::<Vec<u32>>();
    assert_eq!(pids(&snap.top_cpu), [2, 3, 4]);
    assert_eq!(pids(&snap.top_mem), [1, 3, 2]);
    let groups: Vec<(&str, u64)> =
        snap.top_mem_groups.iter().map(|g| (g.name.as_str(), g.total_mem_bytes)).collect();
    assert_eq!(groups, [("b", 450), ("a", 300), ("c", 100)]);
    assert_eq!(snap.load_avg.fifteen, fixed(3.0));
}

#[test]
fn busiest_first_keeps_the_order_of_equals() {
    let sorted = busiest_first(vec![proc(1, "a", 1.0, 0), proc(2, "b", 2.0, 0), proc(3, "c", 1.0, 0)]);
    let pids: Vec<u32> = sorted.iter().map(|p| p.pid).collect();
    assert_eq!(pids, [2, 1, 3]);
}

#[test]
fn collect_disks_finds_at_least_the_root_volume() {
    let disks = collect_disks(&vec![
        RawDisk { mount_point: "/".to_string(), total_bytes: 500_000_000_000, available_bytes: 300_000_000_000 },
        RawDisk { mount_point: "/dev".to_string(), total_bytes: 0, available_bytes: 0 },
        RawDisk { mount_point: "/odd".to_string(), total_bytes: 10, available_bytes: 20 },
    ]);
    assert!(!disks.is_empty(), "expected at least one disk with nonzero total space");
    assert!(disks.iter().any(|d| d.mount_point == "/"));
    for d in &disks {
        let used_pct = d.used_pct.bits as f64 / ONE as f64;
        assert!((0.0..=100.0).contains(&used_pct), "used_pct out of range: {}", used_pct);
    }
    assert_eq!(disks.len(), 2);
    assert_eq!(disks[0].used_pct, Fixed::whole(40));
    assert_eq!(disks[1].used_pct, Fixed::whole(0));
}

#[test]
fn the_share_of_a_disk_in_use_is_that_of_floats() {
    for total in [1u64, 3, 7, 999, 16_777_217, 500_107_862_016, 494_384_795_648, u64::MAX] {
        for available in [0, 1, total / 3, total / 7, total / 2, total - 1, total] {
            let mount_point = "/".to_string();
            let disks = collect_disks(&vec![RawDisk { mount_point, total_bytes: total, available_bytes: available }]);
            let pct = (total.saturating_sub(available)) as f32 / total as f32 * 100.0;
            assert_eq!(disks[0].used_pct.bits, (pct as f64 * ONE as f64) as u64, "{available} of {total}");
        }
    }
}

#[test]
fn read_battery_returns_a_plausible_percentage_when_present() {
    let output = "Now drawing from 'Battery Power'\n -InternalBattery-0 (id=36044899)\t92%; discharging; 2:26 remaining present: true\n";
    let b = read_battery(output).expect("the output should parse");
    let pct = b.percentage.expect("the output includes a percentage");
    assert!(pct <= 100);
    assert_eq!(pct, 92);
    assert_eq!(b.raw, "-InternalBattery-0 (id=36044899)\t92%; discharging; 2:26 remaining present: true");
}

#[test]
fn a_machine_without_a_battery_has_none() {
    assert!(read_battery("Now drawing from 'AC Power'\n").is_none());
    assert_eq!(battery_line("Now drawing from 'AC Power'\n"), None);
    assert_eq!(battery_line("a\nb\nc"), Some("b".to_string()));
}

#[test]
fn collect_connections_returns_self_consistent_totals() {
    let c = collect_connections(Some(NETSTAT_SAMPLE), Some(NETSTAT_SAMPLE)).expect("both outputs are there");
    assert_eq!(c.total, c.established + c.listen + c.time_wait + c.close_wait + c.other);
    assert!(c.incoming <= c.established);
    assert_eq!(c.total, 14);
}

#[test]
fn connections_are_counted_unless_both_outputs_are_missing() {
    let alone = Some(parse_netstat_output(NETSTAT_SAMPLE));
    assert_eq!(collect_connections(Some(NETSTAT_SAMPLE), None), alone);
    assert_eq!(collect_connections(None, Some(NETSTAT_SAMPLE)), alone);
    assert_eq!(collect_connections(None, None), None);
    let inet = "tcp4 0 0 *.9090 *.* LISTEN";
    let inet6 = "tcp6 0 0 2001:8a0.9090 2600:1901.443 ESTABLISHED";
    assert_eq!(netstat_output(Some(inet), Some(inet6)), Some(format!("{inet}\n{inet6}")));
    let both = collect_connections(Some(inet), Some(inet6)).unwrap();
    assert_eq!((both.total, both.incoming), (2, 1));
}

#[test]
fn the_order_of_the_connections_does_not_matter() {
    let listens = "tcp4 0 0 *.9090 *.* LISTEN";
    let comes_in = "tcp4 0 0 192.168.1.10.9090 198.51.100.7.51000 ESTABLISHED";
    let first = parse_netstat_output(&format!("{listens}\n{comes_in}"));
    assert_eq!(first, parse_netstat_output(&format!("{comes_in}\n{listens}")));
    assert_eq!(first.incoming, 1);
}

#[test]
fn totals_that_no_group_holds_are_noticed() {
    assert!(connections_fit(NETSTAT_SAMPLE));
    assert!(totals_fit(&vec![]));
    assert!(totals_fit(&vec![proc(1, "a", 1.0, u64::MAX)]));
    assert!(!totals_fit(&vec![proc(1, "a", 1.0, u64::MAX), proc(2, "b", 1.0, 1)]));
}

#[test]
fn a_command_line_is_cut_at_its_limit() {
    let args = vec!["/usr/bin/foo".to_string(), "--bar".to_string()];
    assert_eq!(command_line(&args), "/usr/bin/foo --bar");
    let long = vec!["é".repeat(150), "x".repeat(150)];
    let cut = command_line(&long);
    assert_eq!(cut.chars().count(), 200);
    assert!(cut.starts_with(&"é".repeat(150)));
    assert!(cut.ends_with(&"x".repeat(49)));
}
