use vigil::agent::{
    augment_with_investigate_hint, build_args, build_diagnosis_question, build_execute_args,
    interpret_output, is_journal_worthy, temp_snapshot_path,
};
use vigil::alerts::Alert;

#[test]
fn build_diagnosis_question_includes_the_alert_message() {
    let q = build_diagnosis_question("pycharm has held 129% CPU", None, None, None);
    assert!(q.contains("pycharm has held 129% CPU"));
}

#[test]
fn build_diagnosis_question_includes_recent_context_when_present() {
    let q = build_diagnosis_question("high load", Some("swap is 91% full"), None, None);
    assert!(q.contains("swap is 91% full"));
}

#[test]
fn build_diagnosis_question_omits_context_note_when_none() {
    let q = build_diagnosis_question("high load", None, None, None);
    assert!(!q.contains("also fired recently"));
}

#[test]
fn build_diagnosis_question_points_at_the_watch_log_when_given_a_path() {
    let q = build_diagnosis_question("high load", None, Some("/Users/denis/.vigil/watch.jsonl"), None);
    assert!(q.contains("/Users/denis/.vigil/watch.jsonl"));
    assert!(q.contains("growing over"));
}

#[test]
fn build_diagnosis_question_omits_history_note_without_a_watch_log_path() {
    let q = build_diagnosis_question("high load", None, None, None);
    assert!(!q.contains("growing over"));
}

#[test]
fn build_diagnosis_question_includes_the_command_line_and_a_pid_reuse_warning() {
    let q = build_diagnosis_question(
        "node (pid 27339) has held 177% CPU",
        None,
        None,
        Some("bfs -S dfs / -path *"),
    );
    assert!(q.contains("bfs -S dfs / -path *"));
    assert!(q.contains("pids get reused"));
}

#[test]
fn build_diagnosis_question_omits_command_note_when_none() {
    let q = build_diagnosis_question("high load", None, None, None);
    assert!(!q.contains("pids get reused"));
}

#[test]
fn build_diagnosis_question_omits_command_note_when_command_is_empty() {
    let q = build_diagnosis_question("high load", None, None, Some(""));
    assert!(!q.contains("pids get reused"));
}

#[test]
fn build_diagnosis_question_has_the_whole_wording() {
    assert_eq!(
        build_diagnosis_question("m", Some("c"), Some("/l"), Some("x")),
        "A monitoring rule just fired: \"m\". Other rules that also fired recently (possibly the \
         same root cause): c. Don't just describe this one snapshot — check recent history in /l \
         (JSON Lines, one snapshot per line) to say whether the flagged process/metric has been \
         growing over time or is a one-off spike, since that changes what's actually worth doing \
         about it. The flagged process's command line at the moment this fired was: `x`. Note this \
         pid may already refer to a different process by the time you check it (pids get reused) — \
         if `ps -p <pid>` shows something else now, trust the command line above for what was \
         actually running, not whatever the pid currently points to. Investigate the likely cause \
         — check beyond the snapshot if useful (e.g. logs, `sample` a hot pid, thermal state) — and \
         suggest what to check or do next."
    );
}

#[test]
fn build_args_wires_project_dir_snapshot_and_question() {
    let args = build_args("why is disk space low?", "/tmp/snap.json", "agent");
    assert_eq!(args[0], "uv");
    assert_eq!(args[1], "run");
    assert!(args.windows(2).any(|w| w == ["--project".to_string(), "agent".to_string()]));
    assert!(args.contains(&"/tmp/snap.json".to_string()));
    assert!(args.contains(&"why is disk space low?".to_string()));
}

#[test]
fn temp_snapshot_path_is_unique_per_process() {
    let pid = sysinfo::get_current_pid().unwrap().as_u32();
    let p = temp_snapshot_path("/tmp", pid, 17);
    assert!(p.contains(&pid.to_string()));
}

#[test]
fn temp_snapshot_path_is_unique_across_concurrent_calls() {
    let a = temp_snapshot_path("/tmp", 4242, 1_000);
    let b = temp_snapshot_path("/tmp", 4242, 1_001);
    assert_ne!(a, b);
    assert_eq!(a, "/tmp/vigil-snapshot-4242-1000.json");
}

#[test]
fn augment_with_investigate_hint_appends_the_command_and_keeps_other_fields() {
    let alert = Alert {
        key: "cpu_hog:37489".to_string(),
        title: "vigil: process hogging CPU".to_string(),
        message: "pycharm (pid 37489) has held 204% CPU".to_string(),
        target: Some("pycharm".to_string()),
        command: Some("/Applications/PyCharm.app/Contents/MacOS/pycharm".to_string()),
    };
    let augmented = augment_with_investigate_hint(&alert, Some("/Users/denis/.vigil/watch.jsonl"));
    assert!(augmented.message.contains("pycharm (pid 37489) has held 204% CPU"));
    assert!(augmented.message.contains("vigil investigate cpu_hog:37489"));
    assert!(augmented.message.contains("--watch-log /Users/denis/.vigil/watch.jsonl"));
    assert_eq!(augmented.key, alert.key);
    assert_eq!(augmented.title, alert.title);
    assert_eq!(augmented.target, alert.target);
    assert_eq!(augmented.command, alert.command);
}

#[test]
fn augment_with_investigate_hint_omits_watch_log_flag_when_none() {
    let alert = Alert {
        key: "high_load".to_string(),
        title: "vigil: high load".to_string(),
        message: "Load average 25.0".to_string(),
        target: Some("high_load".to_string()),
        command: None,
    };
    let augmented = augment_with_investigate_hint(&alert, None);
    assert!(!augmented.message.contains("--watch-log"));
    assert!(augmented.message.contains("vigil investigate high_load"));
    assert_eq!(augmented.message, "Load average 25.0 — investigate? `vigil investigate high_load`");
}

#[test]
fn build_execute_args_wires_project_dir_and_plan_json() {
    let args = build_execute_args(r#"[{"category":"kill_process"}]"#, "agent");
    assert_eq!(args[0], "uv");
    assert_eq!(args[1], "run");
    assert!(args.windows(2).any(|w| w == ["--project".to_string(), "agent".to_string()]));
    assert_eq!(args.last().unwrap(), r#"[{"category":"kill_process"}]"#);
    assert!(args.contains(&"execute".to_string()));
}

#[test]
fn interpret_output_trims_stdout_on_success() {
    assert_eq!(interpret_output(true, "  the answer is 42  \n", ""), Ok("the answer is 42".to_string()));
}

#[test]
fn interpret_output_returns_stderr_on_failure() {
    assert_eq!(
        interpret_output(false, "", "boom: connection refused\n"),
        Err("boom: connection refused".to_string())
    );
}

#[test]
fn interpret_output_falls_back_to_generic_message_when_stderr_is_empty() {
    assert_eq!(
        interpret_output(false, "", ""),
        Err("vigil-agent exited with an error and no message".to_string())
    );
}

#[test]
fn only_some_alerts_belong_in_the_journal() {
    for key in ["high_load", "cpu_hog:1", "battery_low", "high_process_count:node"] {
        assert!(is_journal_worthy(key), "{key}");
    }
    for key in ["low_disk:/", "swap_pressure", "low_memory", "high_connection_count", "incoming_connections"] {
        assert!(!is_journal_worthy(key), "{key}");
    }
}
