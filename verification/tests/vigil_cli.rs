use vigil::fix_process::is_approval;
use vigil::vigil_cli::{
    build_fix_args, build_fix_stdin, build_investigate_args, build_show_json_args, with_agent_dir,
};

#[test]
fn build_investigate_args_has_the_alert_key_and_incidents_dir() {
    let args = build_investigate_args("/usr/local/bin/vigil", "cpu_hog:1", "/tmp/incidents");
    assert_eq!(args, vec!["/usr/local/bin/vigil", "investigate", "cpu_hog:1", "--incidents-dir", "/tmp/incidents"]);
}

#[test]
fn build_show_json_args_includes_the_json_flag() {
    let args = build_show_json_args("vigil", "/tmp/incidents", "x.md");
    assert_eq!(args, vec!["vigil", "incidents", "--dir", "/tmp/incidents", "--show", "x.md", "--json"]);
}

#[test]
fn build_show_json_args_reduces_a_full_path_to_its_filename() {
    let args = build_show_json_args(
        "vigil",
        "/Users/denis/.vigil/incidents",
        "/Users/denis/.vigil/incidents/2026-08-12-00-00-00-cpu-hog-1.md",
    );
    assert_eq!(
        args,
        vec![
            "vigil",
            "incidents",
            "--dir",
            "/Users/denis/.vigil/incidents",
            "--show",
            "2026-08-12-00-00-00-cpu-hog-1.md",
            "--json",
        ]
    );
}

#[test]
fn build_show_json_args_falls_back_to_the_whole_string_with_no_slash() {
    let args = build_show_json_args("vigil", "/tmp/incidents", "x.md");
    assert_eq!(args, vec!["vigil", "incidents", "--dir", "/tmp/incidents", "--show", "x.md", "--json"]);
}

#[test]
fn build_fix_args_has_the_incident_path() {
    let args = build_fix_args("vigil", "/tmp/incidents/x.md");
    assert_eq!(args, vec!["vigil", "fix", "/tmp/incidents/x.md"]);
}

#[test]
fn build_fix_stdin_writes_one_line_per_approval_in_order() {
    assert_eq!(build_fix_stdin(&[true, false, true]), "y\nN\ny\n");
}

#[test]
fn build_fix_stdin_is_empty_for_no_steps() {
    assert_eq!(build_fix_stdin(&[]), "");
}

#[test]
fn build_fix_stdin_all_rejected() {
    assert_eq!(build_fix_stdin(&[false, false]), "N\nN\n");
}

#[test]
fn the_answers_are_understood() {
    let approvals = [true, false, false, true];
    let stdin = build_fix_stdin(&approvals);
    let heard: Vec<bool> = stdin.lines().map(is_approval).collect();
    assert_eq!(heard, approvals);
}

#[test]
fn the_agent_directory_is_passed_on_where_it_is_known() {
    let args = || build_fix_args("vigil", "/tmp/x.md");
    assert_eq!(with_agent_dir(args(), None), args());
    assert_eq!(with_agent_dir(args(), Some("/a")), vec!["vigil", "fix", "/tmp/x.md", "--agent-dir", "/a"]);
}
