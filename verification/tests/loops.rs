use vigil::alerts::{Alert, IncidentTracker};
use vigil::number::Fixed;
use vigil::snapshot::BatteryInfo;
use vigil::ui::AppState;
use vigil::ui_loop::{
    ask_why, busiest, is_due, is_due_for_alerts, log_line, on_alert, on_answer, on_battery, on_key,
    on_stub_failure, poll_timeout, Command, Key,
};
use vigil::watch::{
    alert_line, incident_timeout, is_done, notification, react, sample_line, Monitor, Outcome, Reaction,
};
use vigil::{LoadAvg, MemoryInfo, ProcInfo, Snapshot};

const SEC: u64 = 1_000_000_000;

fn proc(pid: u32, name: &str, cpu_pct: u32) -> ProcInfo {
    ProcInfo {
        pid,
        ppid: None,
        name: name.to_string(),
        cpu_pct: Fixed::whole(cpu_pct),
        mem_bytes: 5_000_000,
        run_time_secs: 0,
        cmd: String::new(),
    }
}

fn alert(key: &str, target: Option<&str>) -> Alert {
    Alert {
        key: key.to_string(),
        title: "t".to_string(),
        message: "m".to_string(),
        target: target.map(|t| t.to_string()),
        command: None,
    }
}

#[test]
fn a_question_is_typed_and_sent() {
    let mut app = AppState::new(5);
    assert!(matches!(on_key(&mut app, Key::Char('a')), Command::Continue));
    assert!(app.input_mode);
    for c in " why?q".chars() {
        assert!(matches!(on_key(&mut app, Key::Char(c)), Command::Continue));
    }
    assert!(matches!(on_key(&mut app, Key::Backspace), Command::Continue));
    assert!(matches!(on_key(&mut app, Key::Other), Command::Continue));
    assert_eq!(app.input_buffer, " why?");
    assert!(matches!(on_key(&mut app, Key::Enter), Command::Ask(q) if q == "why?"));
    assert!(!app.input_mode);
    assert_eq!(app.input_buffer, "");
    assert!(app.thinking);
    on_answer(&mut app, Ok("because".to_string()));
    assert!(!app.thinking);
    assert_eq!(app.answer, Some(Ok("because".to_string())));
    assert!(matches!(on_key(&mut app, Key::Char('x')), Command::Continue));
    assert!(app.answer.is_some());
    assert!(matches!(on_key(&mut app, Key::Esc), Command::Continue));
    assert_eq!(app.answer, None);
    assert!(matches!(on_key(&mut app, Key::Esc), Command::Quit));
}

#[test]
fn a_blank_question_is_not_sent() {
    let mut app = AppState::new(5);
    on_key(&mut app, Key::Char('a'));
    on_key(&mut app, Key::Char(' '));
    assert!(matches!(on_key(&mut app, Key::Enter), Command::Continue));
    assert!(!app.thinking && !app.input_mode);
    on_key(&mut app, Key::Char('a'));
    on_key(&mut app, Key::Char('q'));
    assert!(matches!(on_key(&mut app, Key::Esc), Command::Continue));
    assert_eq!(app.input_buffer, "");
    assert!(matches!(on_key(&mut app, Key::Backspace), Command::Continue));
}

#[test]
fn q_quits_unless_it_is_typed() {
    let mut app = AppState::new(5);
    assert!(matches!(on_key(&mut app, Key::Char('q')), Command::Quit));
    app.answer = Some(Err("e".to_string()));
    assert!(matches!(on_key(&mut app, Key::Char('q')), Command::Quit));
    app.input_mode = true;
    assert!(matches!(on_key(&mut app, Key::Char('q')), Command::Continue));
}

#[test]
fn w_asks_about_the_busiest_process() {
    let mut app = AppState::new(5);
    assert!(matches!(on_key(&mut app, Key::Char('w')), Command::AskWhy));
    let procs = vec![proc(1, "a", 5), proc(2, "b", 50), proc(3, "c", 7)];
    assert_eq!(
        ask_why(&mut app, &procs),
        Some("Why is b (pid 2) using 50% CPU and 5 MB memory right now?".to_string())
    );
    assert!(app.thinking);
    let mut idle = AppState::new(5);
    assert_eq!(ask_why(&mut idle, &vec![]), None);
    assert!(!idle.thinking);
    assert_eq!(busiest(&vec![proc(1, "a", 5), proc(2, "b", 5)]), Some(1));
}

#[test]
fn the_dashboard_logs_every_alert() {
    let mut app = AppState::new(5);
    let hog = alert("cpu_hog:1", Some("a"));
    on_alert(&mut app, &hog);
    on_alert(&mut app, &hog);
    assert_eq!(app.alert_log, ["[cpu_hog:1] m", "[cpu_hog:1] m"]);
    assert_eq!(log_line(&hog), "[cpu_hog:1] m");
    on_stub_failure(&mut app, "disk full");
    assert_eq!(app.alert_log[0], "[vigil] failed to write incident stub: disk full");
}

#[test]
fn the_battery_is_taken_in_whole_seconds() {
    let mut app = AppState::new(5);
    let b = BatteryInfo { percentage: Some(40), charging: Some(false), remaining_secs: None, raw: String::new() };
    on_battery(&mut app, &Some(b), Some(90_999_999_999));
    assert_eq!(app.battery_pct, Some(40));
    assert_eq!(app.battery_charging, Some(false));
    assert_eq!(app.battery_eta_secs, Some(90));
    on_battery(&mut app, &None, None);
    assert_eq!((app.battery_pct, app.battery_charging, app.battery_eta_secs), (None, None, None));
}

#[test]
fn the_dashboard_waits_for_keys_until_the_next_sample() {
    let ms = 1_000_000u128;
    assert_eq!(poll_timeout(1000 * ms, 100 * ms), 250 * ms);
    assert_eq!(poll_timeout(1000 * ms, 900 * ms), 100 * ms);
    assert_eq!(poll_timeout(1000 * ms, 1000 * ms), 0);
    assert_eq!(poll_timeout(1000 * ms, 1001 * ms), 50 * ms);
    assert!(is_due(1000 * ms, 1000 * ms));
    assert!(!is_due(999 * ms, 1000 * ms));
    assert!(is_due_for_alerts(true, 10_000 * ms));
    assert!(!is_due_for_alerts(true, 9_999 * ms));
    assert!(!is_due_for_alerts(false, 10_000 * ms));
}

#[test]
fn watching_reacts_once_per_incident() {
    let mut tracker = IncidentTracker::new();
    let timeout = incident_timeout(300 * SEC as u128);
    assert_eq!(timeout, 600 * SEC as u128);
    let load = alert("high_load", Some("high_load"));
    assert_eq!(react(&load, &mut tracker, timeout, SEC), Reaction::WriteStub);
    assert_eq!(react(&load, &mut tracker, timeout, 301 * SEC), Reaction::Suppress);
    let swap = alert("swap_pressure", Some("swap_pressure"));
    assert_eq!(react(&swap, &mut tracker, timeout, SEC), Reaction::Notify);
    let disk = alert("low_disk:/", None);
    assert_eq!(react(&disk, &mut tracker, timeout, SEC), Reaction::Notify);
    assert_eq!(react(&disk, &mut tracker, timeout, SEC), Reaction::Notify);
}

#[test]
fn the_hint_is_given_where_an_alert_belongs_in_the_journal() {
    let load = alert("high_load", Some("high_load"));
    let shown = notification(&load, Reaction::WriteStub, Some("/l")).unwrap();
    assert_eq!(shown.message, "m — investigate? `vigil investigate high_load --watch-log /l`");
    assert_eq!(shown.target.as_deref(), Some("high_load"));
    let bare = notification(&load, Reaction::Notify, Some("/l")).unwrap();
    assert_eq!(bare.message, "m");
    assert_eq!(bare.target.as_deref(), Some("high_load"));
    assert!(notification(&load, Reaction::Suppress, Some("/l")).is_none());
}

fn snapshot() -> Snapshot {
    Snapshot {
        ts_unix: 1_754_700_000,
        load_avg: LoadAvg {
            one: Fixed { bits: Fixed::whole(3).bits + Fixed::whole(1).bits / 8 },
            five: Fixed::whole(1),
            fifteen: Fixed::whole(1),
        },
        memory: MemoryInfo {
            total_bytes: 16_000_000_000,
            used_bytes: 8_060_000_000,
            free_bytes: 7_940_000_000,
            swap_total_bytes: 0,
            swap_used_bytes: 0,
        },
        disks: vec![],
        battery: None,
        connections: None,
        top_cpu: vec![],
        top_mem: vec![],
        top_mem_groups: vec![],
    }
}

#[test]
fn a_sample_brings_alerts_and_reactions() {
    let mut monitor = Monitor::new();
    let cooldown = 300 * SEC as u128;
    let mut snap = snapshot();
    snap.load_avg.one = Fixed::whole(50);
    snap.memory.swap_used_bytes = 3_000_000_000;
    snap.top_cpu = vec![proc(1, "a", 85)];
    snap.top_mem = vec![proc(1, "a", 85)];
    let muted = monitor.on_sample(&snap, 4, false, cooldown, SEC);
    assert!(muted.alerts.is_empty() && muted.reactions.is_empty());
    let keys = |o: &Outcome| o.alerts.iter().map(|a| a.key.clone()).collect::<Vec<String>>();
    let first = monitor.on_sample(&snap, 4, true, cooldown, 2 * SEC);
    assert_eq!(keys(&first), ["swap_pressure"]);
    assert_eq!(first.reactions, [Reaction::Notify]);
    // The load has been high for as long as it takes.
    let second = monitor.on_sample(&snap, 4, true, cooldown, 32 * SEC);
    assert_eq!(keys(&second), ["high_load"]);
    assert_eq!(second.reactions, [Reaction::WriteStub]);
    assert_eq!(monitor.open_count(cooldown, 32 * SEC), 2);
    // Held back by the cooldown, and then part of the open incident.
    assert!(monitor.on_sample(&snap, 4, true, cooldown, 33 * SEC).alerts.is_empty());
    let later = monitor.on_sample(&snap, 4, true, cooldown, 332 * SEC);
    assert_eq!(keys(&later), ["high_load", "swap_pressure"]);
    assert_eq!(later.reactions, [Reaction::Suppress, Reaction::Suppress]);
}

#[test]
fn a_load_that_does_not_stay_high_is_no_alert() {
    let mut monitor = Monitor::new();
    let cooldown = 300 * SEC as u128;
    let mut high = snapshot();
    high.load_avg.one = Fixed::whole(50);
    high.top_cpu = vec![proc(1, "a", 50)];
    let calm = snapshot();
    for (snap, at) in [(&high, 0), (&high, 29), (&calm, 31), (&high, 32), (&high, 61)] {
        assert!(monitor.on_sample(snap, 4, true, cooldown, at * SEC).alerts.is_empty(), "{at}");
    }
    assert_eq!(monitor.high_load_since, Some(32 * SEC));
    assert_eq!(monitor.on_sample(&high, 4, true, cooldown, 62 * SEC).alerts[0].key, "high_load");
}

#[test]
fn a_sample_extends_the_battery_trend() {
    let mut monitor = Monitor::new();
    let cooldown = 300 * SEC as u128;
    let mut snap = snapshot();
    for (pct, at) in [(100, 0), (95, 300), (90, 600)] {
        snap.battery = Some(BatteryInfo {
            percentage: Some(pct),
            charging: Some(false),
            remaining_secs: None,
            raw: String::new(),
        });
        let outcome = monitor.on_sample(&snap, 4, true, cooldown, at * SEC);
        assert_eq!(outcome.battery_eta, if at == 600 { Some(5400 * SEC as u128) } else { None });
    }
    snap.battery = None;
    assert_eq!(monitor.on_sample(&snap, 4, true, cooldown, 900 * SEC).battery_eta, None);
}

#[test]
fn a_low_battery_comes_behind_the_other_alerts() {
    let mut monitor = Monitor::new();
    let cooldown = 300 * SEC as u128;
    let mut snap = snapshot();
    snap.load_avg.one = Fixed::whole(50);
    snap.top_cpu = vec![proc(1, "a", 50)];
    snap.battery = Some(BatteryInfo {
        percentage: Some(9),
        charging: Some(false),
        remaining_secs: None,
        raw: String::new(),
    });
    let first = monitor.on_sample(&snap, 4, true, cooldown, SEC);
    assert_eq!(first.alerts[0].key, "battery_low");
    assert_eq!(first.reactions, [Reaction::WriteStub]);
    let later = monitor.on_sample(&snap, 4, true, cooldown, 301 * SEC);
    let keys: Vec<&str> = later.alerts.iter().map(|a| a.key.as_str()).collect();
    assert_eq!(keys, ["high_load", "battery_low"]);
    assert_eq!(later.reactions, [Reaction::WriteStub, Reaction::Suppress]);
    assert!(monitor.on_sample(&snap, 4, false, cooldown, 900 * SEC).alerts.is_empty());
}

#[test]
fn watching_says_what_it_saw() {
    let snap = snapshot();
    assert_eq!(sample_line(0, &snap, None), "[vigil] sample 1 @ 1754700000 — load1=3.12 mem_used=8.1GB");
    assert_eq!(
        sample_line(41, &snap, Some(45 * 60 * SEC as u128)),
        "[vigil] sample 42 @ 1754700000 — load1=3.12 mem_used=8.1GB battery_eta=45m"
    );
    assert_eq!(alert_line(&alert("high_load", None)), "[vigil] ALERT [high_load] m");
}

#[test]
fn watching_ends_after_the_count() {
    assert!(!is_done(7, 0));
    assert!(!is_done(1, 2));
    assert!(is_done(2, 2));
}
