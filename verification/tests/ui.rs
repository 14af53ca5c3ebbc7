use std::collections::VecDeque;
use vigil::number::{Fixed, ONE};
use vigil::ui::{
    battery_summary, classify_trend, header_line, mem_percent, popup, push_capped, screen, sparkline_title,
    table_rows, why_question, AppState, Header, History, MemSample, Popup, ProcTrends, Screen, Trend,
    ALERT_LOG_LEN, HISTORY_LEN,
};
use vigil::{LoadAvg, ProcInfo};

fn fixed(x: f64) -> Fixed {
    Fixed { bits: (x * ONE as f64) as u64 }
}

fn header() -> Header {
    Header {
        load_avg: LoadAvg { one: fixed(1.25), five: fixed(2.0), fifteen: fixed(0.0) },
        mem_used: 8_040_000_000,
        mem_total: 16_000_000_000,
        swap_used: 0,
        cpu_pct: fixed(42.5),
    }
}

fn proc(pid: u32, name: &str, cpu_pct: f64, mem_bytes: u64) -> ProcInfo {
    ProcInfo {
        pid,
        ppid: None,
        name: name.to_string(),
        cpu_pct: fixed(cpu_pct),
        mem_bytes,
        run_time_secs: 0,
        cmd: String::new(),
    }
}

/// Everything that a frame says, one text behind the other.
fn screen_text(history: &History, app: &AppState) -> String {
    let s: Screen = screen(&header(), vec![proc(7, "pycharm", 99.0, 1)], history, &ProcTrends::new(), app);
    let mut all = vec![
        s.name.to_string(),
        s.header_title.to_string(),
        s.header,
        s.cpu_title,
        s.mem_title,
        s.table_title.to_string(),
    ];
    all.extend(s.columns.iter().map(|c| c.to_string()));
    for row in s.rows {
        all.extend([row.pid, row.name, row.cpu, row.mem]);
    }
    all.push(s.hint.to_string());
    all.extend(s.alert);
    if let Some(b) = s.popup {
        all.extend([b.title.to_string(), b.body]);
    }
    all.join("\n")
}

#[test]
fn classify_trend_stable_within_threshold() {
    assert_eq!(classify_trend(1000, 1050), Trend::Stable); // +5%
    assert_eq!(classify_trend(1000, 950), Trend::Stable); // -5%
}

#[test]
fn classify_trend_up_beyond_threshold() {
    assert_eq!(classify_trend(1000, 1200), Trend::Up); // +20%
}

#[test]
fn classify_trend_down_beyond_threshold() {
    assert_eq!(classify_trend(1000, 800), Trend::Down); // -20%
}

#[test]
fn classify_trend_treats_zero_oldest_as_stable() {
    assert_eq!(classify_trend(0, 500), Trend::Stable);
}

#[test]
fn classify_trend_is_stable_at_the_threshold() {
    assert_eq!(classify_trend(1000, 1100), Trend::Stable);
    assert_eq!(classify_trend(1000, 1101), Trend::Up);
    assert_eq!(classify_trend(1000, 900), Trend::Stable);
    assert_eq!(classify_trend(1000, 899), Trend::Down);
}

#[test]
fn trends_are_those_of_floats() {
    for oldest in [1u64, 10, 30, 70, 1_000, 1_234_567, 16_000_000_000, (1 << 53) + 1, u64::MAX] {
        for step in -3i64..=3 {
            for near in [oldest / 10 * 11, oldest / 10 * 9, oldest] {
                let newest = near.saturating_add_signed(step);
                let change = (newest as f64 - oldest as f64) / oldest as f64;
                let expected = if change > 0.10 {
                    Trend::Up
                } else if change < -0.10 {
                    Trend::Down
                } else {
                    Trend::Stable
                };
                assert_eq!(classify_trend(oldest, newest), expected, "{oldest} to {newest}");
            }
        }
    }
}

#[test]
fn mem_percent_is_that_of_floats() {
    for total in [3u64, 7, 100, 16_777_217, 17_179_869_184, 16_000_000_001] {
        for used in [0, 1, total / 3, total / 2 + 1, total - 1, total, total * 2] {
            let pct = used as f32 / total as f32 * 100.0;
            assert_eq!(mem_percent(used, total).bits, (pct as f64 * ONE as f64) as u64, "{used} of {total}");
        }
    }
}

#[test]
fn mem_trend_is_none_with_fewer_than_two_samples() {
    let mut trends = ProcTrends::new();
    trends.history.insert(42, VecDeque::from([1000]));
    assert_eq!(trends.mem_trend(42), None);
}

#[test]
fn mem_trend_is_none_for_an_unknown_pid() {
    let trends = ProcTrends::new();
    assert_eq!(trends.mem_trend(999), None);
}

#[test]
fn mem_trend_compares_oldest_to_newest_in_the_window() {
    let mut trends = ProcTrends::new();
    trends.history.insert(7, VecDeque::from([1000, 200, 1300]));
    assert_eq!(trends.mem_trend(7), Some(Trend::Up));
}

#[test]
fn mem_percent_reports_a_plausible_percentage_on_this_machine() {
    let sys = sysinfo::System::new_all();
    let pct = mem_percent(sys.used_memory(), sys.total_memory()).bits as f64 / ONE as f64;
    assert!((0.0..=100.0).contains(&pct));
}

#[test]
fn mem_percent_of_nothing_is_zero() {
    assert_eq!(mem_percent(5, 0), Fixed::whole(0));
    assert_eq!(mem_percent(4_000_000_000, 16_000_000_000), Fixed::whole(25));
}

#[test]
fn why_question_names_the_process_and_its_current_usage() {
    let q = why_question("pycharm", 37489, fixed(176.3), 17_671_000_000);
    assert!(q.contains("pycharm"));
    assert!(q.contains("37489"));
    assert!(q.contains("176%"));
    assert!(q.contains("17671 MB"));
    assert!(why_question("a", 1, fixed(0.5), 2_500_000).contains(&format!("{:.0} MB", 2_500_000 as f64 / 1e6)));
    assert_eq!(q, "Why is pycharm (pid 37489) using 176% CPU and 17671 MB memory right now?");
}

#[test]
fn history_caps_at_max_length_and_keeps_most_recent() {
    let mut h = History::new();
    for i in 0..(HISTORY_LEN as u32 + 10) {
        h.push(Fixed::whole(i), Fixed::whole(i));
    }
    assert_eq!(h.cpu.len(), HISTORY_LEN);
    assert_eq!(h.mem.len(), HISTORY_LEN);
    assert_eq!(*h.cpu.back().unwrap(), HISTORY_LEN as u64 + 9);
}

#[test]
fn history_rounds_halves_away_from_zero() {
    let mut h = History::new();
    h.push(fixed(2.5), fixed(2.25));
    assert_eq!(h.cpu, [3]);
    assert_eq!(h.mem, [2]);
}

#[test]
fn a_full_buffer_drops_its_oldest() {
    let mut buf = VecDeque::from([1, 2, 3]);
    push_capped(&mut buf, 4, 3);
    assert_eq!(buf, [2, 3, 4]);
}

#[test]
fn draw_renders_header_sparklines_table_and_footer() {
    let mut history = History::new();
    history.push(fixed(42.0), fixed(55.0));
    let app = AppState::new(5);

    let text = screen_text(&history, &app);
    assert!(text.contains("system"));
    assert!(text.contains("PID"));
    assert!(text.contains("NAME"));
    assert!(text.contains("CPU"));
    assert!(text.contains("MEM"));
    assert!(text.contains("quit"));
    assert!(text.contains("ask agent"));
    assert!(text.contains("battery n/a"), "no battery sample fetched yet");
}

#[test]
fn header_shows_draining_battery_with_eta() {
    let mut app = AppState::new(5);
    app.battery_pct = Some(37);
    app.battery_charging = Some(false);
    app.battery_eta_secs = Some(42 * 60);

    let text = header_line(&header(), &app);
    assert!(text.contains("37%"));
    assert!(text.contains("draining"));
    assert!(text.contains("42m"));
    assert_eq!(
        text,
        "  load 1.2 2.0 0.0   mem 8.0/16.0 GB   swap 0.0 GB   cpu 42%   battery 37% (draining, ~42m left)"
    );
}

#[test]
fn header_shows_charging_battery() {
    let mut app = AppState::new(5);
    app.battery_pct = Some(80);
    app.battery_charging = Some(true);

    let text = header_line(&header(), &app);
    assert!(text.contains("80%"));
    assert!(text.contains("charging"));
}

#[test]
fn sparkline_titles_show_latest_value() {
    let mut history = History::new();
    history.push(fixed(10.0), fixed(20.0));
    history.push(fixed(33.0), fixed(77.0));

    assert!(sparkline_title("CPU", &history.cpu).contains("33"));
    assert!(sparkline_title("MEM", &history.mem).contains("77"));
    assert_eq!(sparkline_title("CPU", &VecDeque::new()), " CPU 0% ");
}

#[test]
fn input_popup_shows_typed_question() {
    let mut app = AppState::new(5);
    app.input_mode = true;
    app.input_buffer = "why is disk space low?".to_string();

    let text = screen_text(&History::new(), &app);
    assert!(text.contains("why is disk space low?"));
    assert!(text.contains("to send"));
}

#[test]
fn answer_popup_shows_agent_response() {
    let mut app = AppState::new(5);
    app.answer = Some(Ok("Disk is almost full because of Docker".to_string()));

    let text = screen_text(&History::new(), &app);
    assert!(text.contains("Docker"));
    assert!(text.contains("agent answer"));
}

#[test]
fn answer_popup_shows_error_state() {
    let mut app = AppState::new(5);
    app.answer = Some(Err("uv not found".to_string()));

    let text = screen_text(&History::new(), &app);
    assert!(text.contains("uv not found"));
    assert!(text.contains("agent error"));
}

#[test]
fn footer_surfaces_most_recent_alert() {
    let mut app = AppState::new(5);
    app.push_alert("[low_disk:/] low disk space".to_string());

    let text = screen_text(&History::new(), &app);
    assert!(text.contains("low disk space"));
}

#[test]
fn alert_log_caps_at_configured_length() {
    let mut app = AppState::new(5);
    for i in 0..(ALERT_LOG_LEN + 3) {
        app.push_alert(format!("alert {i}"));
    }
    assert_eq!(app.alert_log.len(), ALERT_LOG_LEN);
    assert_eq!(app.alert_log.front().unwrap(), &format!("alert {}", ALERT_LOG_LEN + 2));
}

#[test]
fn trend_arrow_renders_each_direction_distinctly() {
    assert_eq!(Trend::Up.arrow(), "↑");
    assert_eq!(Trend::Down.arrow(), "↓");
    assert_eq!(Trend::Stable.arrow(), "→");
}

#[test]
fn proc_trends_record_tracks_real_processes_and_forgets_dead_ones() {
    let sys = sysinfo::System::new_all();
    let live = || -> Vec<MemSample> {
        sys.processes().values().map(|p| MemSample { pid: p.pid().as_u32(), mem_bytes: p.memory() }).collect()
    };
    let mut trends = ProcTrends::new();
    trends.record(&live());
    trends.record(&live());

    for pid in sys.processes().keys().take(5) {
        assert!(trends.history.get(&pid.as_u32()).is_some_and(|h| h.len() >= 2));
    }

    trends.history.insert(u32::MAX, VecDeque::from([1, 2]));
    trends.record(&live());
    assert!(!trends.history.contains_key(&u32::MAX));
}

#[test]
fn draw_thinking_popup_shows_while_awaiting_the_agent() {
    let mut app = AppState::new(5);
    app.thinking = true;

    let text = screen_text(&History::new(), &app);
    assert!(text.contains("Asking the agent"));
    assert!(text.contains("vigil-agent"));
}

#[test]
fn a_question_hides_what_is_behind_it() {
    let mut app = AppState::new(5);
    assert!(popup(&app).is_none());
    app.answer = Some(Ok("a".to_string()));
    assert_eq!(popup(&app).unwrap().kind, Popup::Answer);
    app.thinking = true;
    assert_eq!(popup(&app).unwrap().kind, Popup::Thinking);
    app.input_mode = true;
    assert_eq!(popup(&app).unwrap().kind, Popup::Input);
    assert_eq!(Popup::Input.size(), (70, 15));
    assert_eq!(Popup::Failure.size(), (80, 60));
}

#[test]
fn battery_summary_shows_draining_without_an_eta_yet() {
    let app = AppState {
        battery_pct: Some(55),
        battery_charging: Some(false),
        battery_eta_secs: None,
        ..AppState::new(5)
    };
    let summary = battery_summary(&app);
    assert!(summary.contains("55%"));
    assert!(summary.contains("draining"));
    assert!(!summary.contains("left"), "no ETA yet, so no '~N left' should appear");
}

#[test]
fn battery_summary_shows_percentage_with_unknown_charging_state() {
    let app = AppState { battery_pct: Some(64), battery_charging: None, ..AppState::new(5) };
    let summary = battery_summary(&app);
    assert_eq!(summary, "battery 64%");
}

#[test]
fn the_table_shows_the_busiest_with_their_trend() {
    let mut trends = ProcTrends::new();
    trends.history.insert(2, VecDeque::from([1000, 1300]));
    let rows = table_rows(
        vec![proc(1, "a", 1.0, 1_000_000), proc(2, "b", 150.04, 17_671_000_000), proc(3, "c", 0.5, 1)],
        &trends,
        2,
    );
    assert_eq!(rows.len(), 2);
    assert_eq!(
        (rows[0].pid.as_str(), rows[0].name.as_str(), rows[0].cpu.as_str(), rows[0].mem.as_str()),
        ("2", "b", " 150.0%", " 17671.0 MB ↑")
    );
    assert_eq!((rows[1].cpu.as_str(), rows[1].mem.as_str()), ("   1.0%", "     1.0 MB  "));
}
