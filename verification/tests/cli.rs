use vigil::cli::{default_incidents_dir, default_status_file, job_for, Cli, Commands, Job};

#[test]
fn default_incidents_dir_matches_the_incidents_module_default() {
    let home = Some("/Users/denis");
    assert_eq!(default_incidents_dir(home), vigil::incidents::default_dir(home));
    assert!(default_incidents_dir(home).ends_with(".vigil/incidents"));
    assert_eq!(default_incidents_dir(None), "./.vigil/incidents");
}

#[test]
fn default_status_file_matches_the_menubar_module_default() {
    let home = Some("/Users/denis");
    assert_eq!(default_status_file(home), vigil::menubar::default_status_file(home));
    assert!(default_status_file(home).ends_with(".vigil/status.json"));
}

#[test]
fn the_dashboard_runs_with_its_arguments() {
    let command = Commands::Ui {
        interval: 2,
        top: 15,
        no_notify: true,
        cooldown_secs: 300,
        agent_dir: "agent".to_string(),
        incidents_dir: "/i".to_string(),
    };
    match job_for(Cli { command }) {
        Job::Ui(opts) => {
            assert_eq!(opts.interval, 2_000_000_000);
            assert_eq!(opts.top_n, 15);
            assert!(!opts.notify);
            assert_eq!(opts.cooldown, 300_000_000_000);
            assert_eq!(opts.agent_dir, "agent");
            assert_eq!(opts.incidents_dir, "/i");
        }
        _ => panic!("not the dashboard"),
    }
}

#[test]
fn the_menu_bar_polls_in_nanoseconds() {
    let command = Commands::Menubar {
        status_file: "/s".to_string(),
        incidents_dir: "/i".to_string(),
        poll_secs: u64::MAX,
    };
    match job_for(Cli { command }) {
        Job::Menubar(opts) => assert_eq!(opts.poll_interval, u64::MAX as u128 * 1_000_000_000),
        _ => panic!("not the menu bar"),
    }
}

#[test]
fn the_other_commands_keep_their_arguments() {
    let command = Commands::Investigate {
        alert_key: "cpu_hog:37489".to_string(),
        agent_dir: "agent".to_string(),
        incidents_dir: "/i".to_string(),
        watch_log: Some("/l".to_string()),
    };
    assert!(matches!(
        job_for(Cli { command }),
        Job::Investigate { alert_key, watch_log: Some(log), .. } if alert_key == "cpu_hog:37489" && log == "/l"
    ));
    let command = Commands::Fix { incident_file: "/tmp/some-incident.md".to_string(), agent_dir: "a".to_string() };
    assert!(matches!(job_for(Cli { command }), Job::Fix { incident_file, .. } if incident_file == "/tmp/some-incident.md"));
    let command = Commands::Incidents { dir: "/i".to_string(), show: None, limit: 20, json: true };
    assert!(matches!(job_for(Cli { command }), Job::Incidents { limit: 20, json: true, show: None, .. }));
    assert!(matches!(job_for(Cli { command: Commands::Snapshot { top: 3 } }), Job::Snapshot { top: 3 }));
}
