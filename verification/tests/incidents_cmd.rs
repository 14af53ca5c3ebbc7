use vigil::incidents_cmd::{build_incident_json, latest_files, listing_line, run, Action};
use vigil::investigate::{investigation_question, resolve_incident_file};

const DIR: &str = "/tmp/incidents";

fn names(list: &[&str]) -> Vec<String> {
    list.iter().map(|n| n.to_string()).collect()
}

#[test]
fn listing_an_unreadable_incident_shows_a_placeholder_title_not_an_error() {
    let a = run(DIR, names(&["2026-08-07-11-00-00-dangling.md"]), None, 20);
    assert_eq!(a.exit_code(), 0);
    assert_eq!(
        listing_line("2026-08-07-11-00-00-dangling.md", None),
        "2026-08-07-11-00-00-dangling.md  (unreadable)"
    );
}

#[test]
fn missing_directory_lists_as_empty_not_an_error() {
    let a = run(DIR, vec![], None, 20);
    assert_eq!(a.exit_code(), 0);
    assert!(matches!(a, Action::Say(line) if line == "No incidents recorded yet in /tmp/incidents"));
}

#[test]
fn lists_recent_incidents_most_recent_first_up_to_limit() {
    let all = || names(&["2026-08-07-11-00-00-a.md", "2026-08-07-12-00-00-b.md", "2026-08-07-13-00-00-c.md"]);
    let a = run(DIR, all(), None, 20);
    assert_eq!(a.exit_code(), 0);
    assert!(matches!(
        a,
        Action::List(l) if l == names(&["2026-08-07-13-00-00-c.md", "2026-08-07-12-00-00-b.md", "2026-08-07-11-00-00-a.md"])
    ));
    let a = run(DIR, all(), None, 1);
    assert_eq!(a.exit_code(), 0);
    assert!(matches!(a, Action::List(l) if l == names(&["2026-08-07-13-00-00-c.md"])));
    assert_eq!(listing_line("2026-08-07-11-00-00-a.md", Some("# first\n\nbody")), "2026-08-07-11-00-00-a.md  first");
}

#[test]
fn show_with_no_match_returns_an_error_code() {
    let a = run(DIR, names(&["2026-08-07-11-00-00-a.md"]), Some("nonexistent"), 20);
    assert_eq!(a.exit_code(), 1);
    assert!(matches!(
        a,
        Action::Fail(l) if l == names(&["[vigil] no incident matches \"nonexistent\" in /tmp/incidents"])
    ));
}

#[test]
fn show_with_exactly_one_match_prints_it_and_succeeds() {
    let a = run(DIR, names(&["2026-08-07-11-00-00-cpu-hog.md"]), Some("cpu-hog"), 20);
    assert_eq!(a.exit_code(), 0);
    assert!(matches!(a, Action::Show(n) if n == "2026-08-07-11-00-00-cpu-hog.md"));
}

#[test]
fn show_with_multiple_matches_returns_an_error_code() {
    let both = names(&["2026-08-07-12-00-00-cpu-hog-222.md", "2026-08-07-11-00-00-cpu-hog-111.md"]);
    let a = run(DIR, both, Some("cpu-hog"), 20);
    assert_eq!(a.exit_code(), 1);
    assert!(matches!(
        a,
        Action::Fail(l) if l == names(&[
            "[vigil] \"cpu-hog\" matches 2 incidents, be more specific:",
            "  2026-08-07-11-00-00-cpu-hog-111.md",
            "  2026-08-07-12-00-00-cpu-hog-222.md",
        ])
    ));
}

#[test]
fn show_with_json_prints_structured_json_instead_of_raw_markdown() {
    let content = "# vigil: cpu hog\n\n**Alert key:** `cpu_hog:1`\n\n**Rule message:** m\n\n## Agent diagnosis\n\ntext\n";
    let a = run(DIR, names(&["2026-08-09-01-00-00-cpu-hog-1.md"]), Some("cpu-hog-1"), 20);
    assert_eq!(a.exit_code(), 0);
    assert!(matches!(a, Action::Show(n) if n == "2026-08-09-01-00-00-cpu-hog-1.md"));
    let json = build_incident_json(content);
    assert_eq!(json.diagnosis, Some("text"));
    assert_eq!(json.command, None);
}

#[test]
fn build_incident_json_composes_every_field() {
    let content = "# vigil: cpu hog\n\n**Alert key:** `cpu_hog:1`\n\n**Rule message:** m\n\n**Command:** /usr/bin/foo\n\n## Agent diagnosis\n\ndiag text\n\n## Proposed fix\n\n```json\n{\"plan\": [{\"category\": \"kill_process\", \"description\": \"d\", \"target_hint\": \"h\"}]}\n```\n\n## Fix execution\n\n_Approved: 2026-08-09 02:30 (steps 1 of 1)_\n\n1. done\n";
    let json = build_incident_json(content);
    assert_eq!(json.title, "vigil: cpu hog");
    assert_eq!(json.alert_key, Some("cpu_hog:1"));
    assert_eq!(json.rule_message, Some("m"));
    assert_eq!(json.command, Some("/usr/bin/foo"));
    assert_eq!(json.diagnosis, Some("diag text"));
    assert!(json.proposed_fix.is_some());
    assert_eq!(json.proposed_fix.unwrap().plan.len(), 1);
    assert!(json.fix_execution.unwrap().starts_with("_Approved:"));
}

#[test]
fn build_incident_json_treats_a_malformed_proposed_fix_as_absent() {
    let content = "# t\n\n## Agent diagnosis\n\ntext\n\n## Proposed fix\n\n```json\nnot valid json\n```\n";
    let json = build_incident_json(content);
    assert!(json.proposed_fix.is_none());
}

#[test]
fn the_latest_files_come_first() {
    assert_eq!(latest_files(&names(&["a", "b", "c"]), 2), names(&["c", "b"]));
    assert_eq!(latest_files(&names(&["a"]), 0), names(&[]));
}

#[test]
fn resolve_incident_file_finds_the_most_recent_match() {
    let found = resolve_incident_file(
        DIR,
        names(&[
            "2026-08-09-01-00-00-cpu-hog-37489.md",
            "2026-08-09-02-00-00-cpu-hog-37489.md",
            "2026-08-09-01-30-00-high-load.md",
        ]),
        "cpu_hog:37489",
    )
    .unwrap();
    assert_eq!(found, "/tmp/incidents/2026-08-09-02-00-00-cpu-hog-37489.md");
}

#[test]
fn resolve_incident_file_errors_when_nothing_matches() {
    let result = resolve_incident_file(DIR, names(&["2026-08-09-01-00-00-high-load.md"]), "cpu_hog:99999");
    assert!(result.is_err());
    assert!(result.unwrap_err().contains("cpu_hog:99999"));
}

#[test]
fn resolve_incident_file_errors_for_a_missing_directory() {
    let result = resolve_incident_file(DIR, vec![], "cpu_hog:1");
    assert!(result.is_err());
}

#[test]
fn the_investigation_asks_about_the_rule_message() {
    let content = "# t\n\n**Rule message:** m\n\n**Command:** /usr/bin/foo\n";
    let q = investigation_question(content, Some("/l"));
    assert_eq!(q, vigil::agent::build_diagnosis_question("m", None, Some("/l"), Some("/usr/bin/foo")));
    assert!(investigation_question("", None).starts_with("A monitoring rule just fired: \"(unknown alert)\"."));
}
