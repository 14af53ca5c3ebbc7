use vigil::alerts::{evaluate, evaluate_battery, osa_quote, Alert, AlertState, IncidentTracker};
use vigil::notify::notification_script;
use vigil::number::Fixed;
use vigil::{BatteryInfo, ConnectionCounts, DiskInfo, LoadAvg, MemoryInfo, ProcGroup, ProcInfo, ProcSample, Snapshot};

const SEC: u64 = 1_000_000_000;
const NOW: u64 = 1_000 * SEC;

fn cooldown_secs(n: u128) -> u128 {
    n * SEC as u128
}

fn proc(pid: u32, name: &str, cpu_pct: u32, mem_mb: u64) -> ProcInfo {
    ProcInfo {
        pid,
        ppid: None,
        name: name.to_string(),
        cpu_pct: Fixed::whole(cpu_pct),
        mem_bytes: mem_mb * 1_000_000,
        run_time_secs: 0,
        cmd: name.to_string(),
    }
}

fn healthy_snapshot() -> Snapshot {
    Snapshot {
        ts_unix: 0,
        load_avg: LoadAvg { one: Fixed::whole(1), five: Fixed::whole(1), fifteen: Fixed::whole(1) },
        memory: MemoryInfo {
            total_bytes: 16_000_000_000,
            used_bytes: 8_000_000_000,
            free_bytes: 8_000_000_000,
            swap_total_bytes: 0,
            swap_used_bytes: 0,
        },
        disks: vec![DiskInfo {
            mount_point: "/".to_string(),
            total_bytes: 500_000_000_000,
            available_bytes: 300_000_000_000,
            used_pct: Fixed::whole(40),
        }],
        battery: None,
        connections: None,
        top_cpu: vec![proc(1, "idle_app", 5, 100)],
        top_mem: vec![proc(1, "idle_app", 5, 100)],
        top_mem_groups: vec![],
    }
}

fn keys(alerts: &[Alert]) -> Vec<&str> {
    alerts.iter().map(|a| a.key.as_str()).collect()
}

#[test]
fn healthy_system_produces_no_alerts() {
    let mut state = AlertState::new();
    let alerts = evaluate(&healthy_snapshot(), 8, &mut state, cooldown_secs(300), NOW);
    assert!(alerts.is_empty());
}

#[test]
fn high_load_fires_and_then_respects_cooldown() {
    let mut snap = healthy_snapshot();
    snap.load_avg.one = Fixed::whole(50);
    snap.top_cpu = vec![proc(42, "hog", 95, 500)];

    let mut state = AlertState::new();
    let first = evaluate(&snap, 4, &mut state, cooldown_secs(300), NOW);
    assert_eq!(first.len(), 1);
    assert_eq!(first[0].key, "high_load");
    assert!(first[0].message.contains("hog"));

    let second = evaluate(&snap, 4, &mut state, cooldown_secs(300), NOW);
    assert!(second.is_empty(), "second call within cooldown must not re-fire");
}

#[test]
fn high_load_refires_after_cooldown_elapses() {
    let mut snap = healthy_snapshot();
    snap.load_avg.one = Fixed::whole(50);
    snap.top_cpu = vec![proc(42, "hog", 95, 500)];

    let mut state = AlertState::new();
    let cooldown: u128 = 10_000_000;
    assert_eq!(evaluate(&snap, 4, &mut state, cooldown, NOW).len(), 1);

    let later = NOW + 20_000_000;
    assert_eq!(evaluate(&snap, 4, &mut state, cooldown, later).len(), 1);
}

#[test]
fn swap_pressure_alert_names_top_memory_consumer() {
    let mut snap = healthy_snapshot();
    snap.memory.swap_used_bytes = 3 * 1024 * 1024 * 1024;
    snap.top_mem = vec![proc(7, "leaky", 2, 4000)];

    let mut state = AlertState::new();
    let alerts = evaluate(&snap, 8, &mut state, cooldown_secs(300), NOW);
    assert_eq!(alerts.len(), 1);
    assert_eq!(alerts[0].key, "swap_pressure");
    assert!(alerts[0].message.contains("leaky"));
}

#[test]
fn sizes_are_written_as_floats_are() {
    for bytes in [2_450_000_000u64, 2_550_000_000, 3_650_000_000, 17_671_499_999, 1 << 40, u64::MAX] {
        for used in [500_000u64, 1_500_000, 2_500_000, 123_456_789, (1 << 53) + 1, u64::MAX] {
            let mut snap = healthy_snapshot();
            snap.memory.swap_used_bytes = bytes;
            snap.top_mem[0].mem_bytes = used;
            let alerts = evaluate(&snap, 8, &mut AlertState::new(), cooldown_secs(300), NOW);
            let gb = format!("{:.1} GB", bytes as f64 / 1e9);
            let mb = format!("{:.0} MB", used as f64 / 1e6);
            assert!(alerts[0].message.contains(&gb), "{gb}: {}", alerts[0].message);
            assert!(alerts[0].message.contains(&mb), "{mb}: {}", alerts[0].message);
        }
    }
    let mut snap = healthy_snapshot();
    snap.memory.swap_used_bytes = 2_450_000_000;
    let alerts = evaluate(&snap, 8, &mut AlertState::new(), cooldown_secs(300), NOW);
    assert!(alerts[0].message.contains("2.5 GB"));
}

#[test]
fn the_share_of_free_memory_is_that_of_floats() {
    for total in [1u64, 3, 20, 100, 16_000_000_000, (1 << 53) + 1, 17_179_869_184, u64::MAX] {
        for free in [0, 1, total / 20, total / 20 + 1, (total / 20).saturating_sub(1), total / 21, total / 3, total] {
            let mut snap = healthy_snapshot();
            snap.memory.total_bytes = total;
            snap.memory.free_bytes = free;
            let alerts = evaluate(&snap, 8, &mut AlertState::new(), cooldown_secs(300), NOW);
            let share = free as f64 / total as f64;
            assert_eq!(alerts.len(), usize::from(share < 0.05), "{free} of {total}");
            if share < 0.05 {
                let start = format!("Only {:.1}% memory free.", share * 100.0);
                assert!(alerts[0].message.starts_with(&start), "{start}: {}", alerts[0].message);
            }
        }
    }
    let mut snap = healthy_snapshot();
    snap.memory.total_bytes = 0;
    snap.memory.free_bytes = 0;
    assert!(evaluate(&snap, 8, &mut AlertState::new(), cooldown_secs(300), NOW).is_empty());
}

#[test]
fn low_disk_space_fires_with_mount_point_in_key() {
    let mut snap = healthy_snapshot();
    snap.disks = vec![DiskInfo {
        mount_point: "/".to_string(),
        total_bytes: 500_000_000_000,
        available_bytes: 5_000_000_000,
        used_pct: Fixed::whole(99),
    }];

    let mut state = AlertState::new();
    let alerts = evaluate(&snap, 8, &mut state, cooldown_secs(300), NOW);
    assert_eq!(alerts.len(), 1);
    assert_eq!(alerts[0].key, "low_disk:/");
    assert!(alerts[0].message.contains('%'));
    assert!(alerts[0].message.starts_with("/ has 5.0 GB free out of 500.0 GB (99% used)."));
}

#[test]
fn cpu_hog_requires_sustained_streak_before_firing() {
    let mut snap = healthy_snapshot();
    snap.top_cpu = vec![proc(99, "runaway", 95, 200)];

    let mut state = AlertState::new();
    let cooldown = cooldown_secs(300);

    assert!(evaluate(&snap, 8, &mut state, cooldown, NOW).is_empty(), "1st sample: streak=1, no fire");
    assert!(evaluate(&snap, 8, &mut state, cooldown, NOW).is_empty(), "2nd sample: streak=2, no fire");
    let third = evaluate(&snap, 8, &mut state, cooldown, NOW);
    assert_eq!(third.len(), 1, "3rd sample: streak=3, should fire");
    assert_eq!(third[0].key, "cpu_hog:99");
    assert_eq!(
        third[0].message,
        "runaway (pid 99) has held 95% CPU for 3 consecutive samples. Suggestion: check the process and decide whether to restart it."
    );
    assert_eq!(third[0].target.as_deref(), Some("runaway"));
    assert_eq!(third[0].command.as_deref(), Some("runaway"));
}

#[test]
fn cpu_hog_streak_resets_when_process_calms_down() {
    let mut snap = healthy_snapshot();
    snap.top_cpu = vec![proc(99, "spiky", 95, 200)];
    let mut state = AlertState::new();
    let cooldown = cooldown_secs(300);

    evaluate(&snap, 8, &mut state, cooldown, NOW);
    evaluate(&snap, 8, &mut state, cooldown, NOW);
    assert_eq!(state.cpu_hog_streak.get(&99), Some(&2));

    snap.top_cpu = vec![proc(99, "spiky", 10, 200)];
    evaluate(&snap, 8, &mut state, cooldown, NOW);
    assert_eq!(state.cpu_hog_streak.get(&99), None, "streak must reset once CPU usage drops");
}

#[test]
fn a_hog_that_leaves_the_ranking_is_forgotten() {
    let mut snap = healthy_snapshot();
    snap.top_cpu = vec![proc(99, "spiky", 95, 200)];
    let mut state = AlertState::new();
    evaluate(&snap, 8, &mut state, cooldown_secs(300), NOW);
    snap.top_cpu = vec![proc(1, "idle_app", 5, 100)];
    evaluate(&snap, 8, &mut state, cooldown_secs(300), NOW);
    assert!(state.cpu_hog_streak.is_empty());
}

#[test]
fn high_load_has_its_wording_and_a_stable_target() {
    let mut snap = healthy_snapshot();
    snap.load_avg.one = Fixed { bits: Fixed::whole(12).bits + Fixed::whole(1).bits / 4 };
    snap.top_cpu = vec![proc(42, "vigil", 80, 500)];
    let mut state = AlertState::new();
    let alerts = evaluate(&snap, 4, &mut state, cooldown_secs(300), NOW);
    assert_eq!(
        alerts[0].message,
        "Load average 12.2 (threshold 6.0 for 4 cores). Top consumer: vigil (80% CPU). Suggestion: check the process and restart it if needed. Note: this is vigil itself, so its own overhead is the problem here."
    );
    assert_eq!(alerts[0].target.as_deref(), Some("high_load"));
}

#[test]
fn load_at_the_threshold_is_not_high() {
    let mut snap = healthy_snapshot();
    snap.load_avg.one = Fixed::whole(6);
    let mut state = AlertState::new();
    assert!(evaluate(&snap, 4, &mut state, cooldown_secs(300), NOW).is_empty());
    snap.load_avg.one = Fixed { bits: Fixed::whole(6).bits + 1 };
    assert_eq!(evaluate(&snap, 4, &mut state, cooldown_secs(300), NOW).len(), 1);
}

#[test]
fn low_memory_prefers_a_group_that_outweighs_the_top_process() {
    let mut snap = healthy_snapshot();
    snap.memory.free_bytes = 640_000_000;
    snap.top_mem = vec![proc(7, "leaky", 2, 4000)];
    let group = |mem_mb: u64| ProcGroup {
        name: "helper".to_string(),
        count: 12,
        total_cpu_pct: Fixed::whole(50),
        total_mem_bytes: mem_mb * 1_000_000,
        top_pid: 3,
        oldest: vec![],
    };
    snap.top_mem_groups = vec![group(6000)];
    let alerts = evaluate(&snap, 8, &mut AlertState::new(), cooldown_secs(300), NOW);
    assert_eq!(keys(&alerts), ["low_memory"]);
    assert_eq!(
        alerts[0].message,
        "Only 4.0% memory free. Top consumer: helper (12 processes, 6000 MB combined). Suggestion: close unused applications."
    );
    snap.top_mem_groups = vec![group(5999)];
    let alerts = evaluate(&snap, 8, &mut AlertState::new(), cooldown_secs(300), NOW);
    assert!(alerts[0].message.contains("leaky (4000 MB)"));
}

#[test]
fn connections_fire_beyond_their_thresholds() {
    let mut snap = healthy_snapshot();
    let mut counts = ConnectionCounts { total: 1500, incoming: 10, ..ConnectionCounts::default() };
    snap.connections = Some(counts);
    assert!(evaluate(&snap, 8, &mut AlertState::new(), cooldown_secs(300), NOW).is_empty());
    counts.total = 1501;
    counts.incoming = 11;
    snap.connections = Some(counts);
    let alerts = evaluate(&snap, 8, &mut AlertState::new(), cooldown_secs(300), NOW);
    assert_eq!(keys(&alerts), ["high_connection_count", "incoming_connections"]);
    assert!(alerts.iter().all(|a| a.target.is_none()));
}

#[test]
fn many_idle_processes_name_their_oldest() {
    let mut snap = healthy_snapshot();
    let leaked = ProcGroup {
        name: "node".to_string(),
        count: 224,
        total_cpu_pct: Fixed::whole(0),
        total_mem_bytes: 1_000_000,
        top_pid: 3,
        oldest: vec![
            ProcSample { pid: 10, ppid: Some(1), run_time_secs: 8 * 86400 },
            ProcSample { pid: 11, ppid: None, run_time_secs: 7200 },
            ProcSample { pid: 12, ppid: Some(2), run_time_secs: 119 },
        ],
    };
    let busy = ProcGroup { total_cpu_pct: Fixed::whole(5), ..leaked.clone() };
    let few = ProcGroup { count: 100, ..leaked.clone() };
    snap.top_mem_groups = vec![busy, few, leaked];
    let alerts = evaluate(&snap, 8, &mut AlertState::new(), cooldown_secs(300), NOW);
    assert_eq!(keys(&alerts), ["high_process_count:node"]);
    assert!(alerts[0].message.contains("pid 10 (ppid 1, 8d), pid 11 (2h), pid 12 (ppid 2, 1m)"));
    assert_eq!(alerts[0].target.as_deref(), Some("node"));
}

#[test]
fn a_rule_fires_again_once_its_cooldown_is_over() {
    let mut state = AlertState::new();
    let alert = || Alert {
        key: "k".to_string(),
        title: "t".to_string(),
        message: "m".to_string(),
        target: None,
        command: None,
    };
    let mut out = Vec::new();
    state.try_fire(NOW, cooldown_secs(10), alert(), &mut out);
    state.try_fire(NOW + 10 * SEC - 1, cooldown_secs(10), alert(), &mut out);
    assert_eq!(out.len(), 1);
    state.try_fire(NOW + 10 * SEC, cooldown_secs(10), alert(), &mut out);
    assert_eq!(out.len(), 2);
}

#[test]
fn repeats_belong_to_the_open_incident() {
    let mut tracker = IncidentTracker::new();
    let timeout = cooldown_secs(600);
    assert!(tracker.is_new_incident(Some("high_load"), timeout, NOW));
    assert!(!tracker.is_new_incident(Some("high_load"), timeout, NOW + 600 * SEC));
    // The last firing counts, not the first.
    assert!(!tracker.is_new_incident(Some("high_load"), timeout, NOW + 1200 * SEC));
    assert!(tracker.is_new_incident(Some("high_load"), timeout, NOW + 1801 * SEC));
    // Another target is another incident, and no target is always one.
    assert!(tracker.is_new_incident(Some("node"), timeout, NOW + 1801 * SEC));
    assert!(tracker.is_new_incident(None, timeout, NOW + 1801 * SEC));
    assert!(tracker.is_new_incident(None, timeout, NOW + 1801 * SEC));
    assert_eq!(tracker.open_count(timeout, NOW + 1801 * SEC), 2);
    assert_eq!(tracker.open_count(timeout, NOW + 2402 * SEC), 0);
}

fn battery(percentage: Option<u8>, charging: Option<bool>) -> Option<BatteryInfo> {
    Some(BatteryInfo { percentage, charging, remaining_secs: None, raw: String::new() })
}

#[test]
fn a_low_battery_points_at_the_busiest_process() {
    let mut snap = healthy_snapshot();
    snap.battery = battery(Some(20), Some(false));
    snap.top_cpu = vec![proc(42, "hog", 85, 500), proc(43, "calm", 2, 500)];
    let mut state = AlertState::new();
    let eta = Some(42 * 60 * SEC as u128);
    let alerts = evaluate_battery(&snap, eta, &mut state, cooldown_secs(300), NOW);
    assert_eq!(keys(&alerts), ["battery_low"]);
    assert_eq!(alerts[0].title, "vigil: low battery");
    assert_eq!(
        alerts[0].message,
        "Battery at 20%, ~42m left. Top CPU consumer: hog (85% CPU). Suggestion: close it if it is not needed, or plug in."
    );
    assert_eq!(alerts[0].target.as_deref(), Some("battery_low"));
    assert_eq!(alerts[0].command.as_deref(), Some("hog"));
    assert!(evaluate_battery(&snap, eta, &mut state, cooldown_secs(300), NOW).is_empty());
    let later = evaluate_battery(&snap, None, &mut state, cooldown_secs(300), NOW + 300 * SEC);
    assert!(later[0].message.starts_with("Battery at 20%. Top CPU consumer: hog"));
}

#[test]
fn a_battery_that_is_charging_or_full_enough_is_no_alert() {
    let mut snap = healthy_snapshot();
    for b in [
        None,
        battery(Some(21), Some(false)),
        battery(Some(5), Some(true)),
        battery(Some(5), None),
        battery(None, Some(false)),
    ] {
        snap.battery = b;
        assert!(evaluate_battery(&snap, None, &mut AlertState::new(), cooldown_secs(300), NOW).is_empty());
    }
    snap.battery = battery(Some(5), Some(false));
    snap.top_cpu = vec![];
    assert!(evaluate_battery(&snap, None, &mut AlertState::new(), cooldown_secs(300), NOW).is_empty());
}

#[test]
fn notifications_are_quoted() {
    assert_eq!(osa_quote(r#"a "b" \c"#), r#""a \"b\" \\c""#);
    let alert = Alert {
        key: "k".to_string(),
        title: "vigil: t".to_string(),
        message: "say \"hi\"".to_string(),
        target: None,
        command: None,
    };
    assert_eq!(
        notification_script(&alert),
        r#"display notification "say \"hi\"" with title "vigil: t" sound name "Glass""#
    );
}
