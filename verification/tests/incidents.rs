use vigil::incidents::{
    append_diagnosis, append_fix_execution, default_dir, extract_alert_key, extract_command,
    extract_diagnosis, extract_fix_execution, extract_rule_message, extract_title, human_timestamp,
    human_timestamp_format, list, slugify, timestamp_format, timestamp_prefix, write_stub, IncidentStub,
};

const DIR: &str = "/tmp/incidents";
const DATE: Option<&str> = Some("2026-08-09-01-09-41\n");

fn names(list: &[&str]) -> Vec<String> {
    list.iter().map(|n| n.to_string()).collect()
}

#[test]
fn slugify_normalizes_punctuation_and_case() {
    assert_eq!(slugify("high_load"), "high-load");
    assert_eq!(slugify("cpu_hog:1234"), "cpu-hog-1234");
    assert_eq!(slugify("battery_low"), "battery-low");
}

#[test]
fn a_slug_has_no_loose_ends() {
    assert_eq!(slugify("low_disk:/"), "low-disk");
    assert_eq!(slugify("__High  Load__"), "high-load");
    assert_eq!(slugify("é"), "");
    assert_eq!(slugify(&slugify("high_process_count:Node")), slugify("high_process_count:Node"));
}

#[test]
fn write_stub_creates_markdown_with_header_only() {
    let stub = IncidentStub {
        alert_key: "high_load",
        alert_title: "vigil: high load",
        alert_message: "Load average 12.0 ...",
        command: None,
    };

    let file = write_stub(DIR, DATE, &stub);
    assert!(file.path.ends_with("-high-load.md"));
    assert_eq!(file.path, "/tmp/incidents/2026-08-09-01-09-41-high-load.md");

    let content = file.body;
    assert!(content.contains("vigil: high load"));
    assert!(content.contains("`high_load`"));
    assert!(content.contains("Load average 12.0"));
    assert!(!content.contains("## Agent diagnosis"), "stub must not have a diagnosis section yet");
    assert_eq!(
        content,
        "# vigil: high load\n\n**Alert key:** `high_load`\n\n**Rule message:** Load average 12.0 ...\n"
    );
}

#[test]
fn write_stub_includes_the_command_line_when_present() {
    let stub = IncidentStub {
        alert_key: "cpu_hog:1",
        alert_title: "vigil: cpu hog",
        alert_message: "m",
        command: Some("/usr/bin/pycharm --foo"),
    };
    let content = write_stub(DIR, DATE, &stub).body;
    assert!(content.contains("**Command:** /usr/bin/pycharm --foo"));
    assert_eq!(extract_command(&content), Some("/usr/bin/pycharm --foo"));
}

#[test]
fn write_stub_omits_the_command_line_when_none() {
    let stub = IncidentStub { alert_key: "high_load", alert_title: "t", alert_message: "m", command: None };
    let content = write_stub(DIR, DATE, &stub).body;
    assert!(!content.contains("**Command:**"));
}

#[test]
fn write_stub_omits_the_command_line_when_empty() {
    let stub = IncidentStub { alert_key: "cpu_hog:1", alert_title: "t", alert_message: "m", command: Some("") };
    let content = write_stub(DIR, DATE, &stub).body;
    assert!(!content.contains("**Command:**"));
}

#[test]
fn append_diagnosis_adds_a_heading_and_body_after_the_stub() {
    let stub = IncidentStub {
        alert_key: "cpu_hog:1",
        alert_title: "vigil: cpu hog",
        alert_message: "m",
        command: None,
    };
    let mut content = write_stub(DIR, DATE, &stub).body;

    content.push_str(&append_diagnosis("## Diagnosis\n\nThe culprit is pycharm."));

    assert!(content.contains("## Agent diagnosis"));
    assert!(content.contains("The culprit is pycharm."));
    let stub_pos = content.find("**Rule message:**").unwrap();
    let diag_pos = content.find("## Agent diagnosis").unwrap();
    assert!(stub_pos < diag_pos);
}

#[test]
fn append_fix_execution_adds_its_own_heading_after_diagnosis() {
    let stub = IncidentStub {
        alert_key: "cpu_hog:1",
        alert_title: "vigil: cpu hog",
        alert_message: "m",
        command: None,
    };
    let mut content = write_stub(DIR, DATE, &stub).body;
    content.push_str(&append_diagnosis("## Diagnosis\n\ntext\n\n## Proposed fix\n\n```json\n{}\n```"));

    content.push_str(&append_fix_execution("_Approved: 2026-08-09 02:30 (steps 1 of 1)_\n\n1. done"));

    assert!(content.contains("## Fix execution"));
    assert!(content.contains("1. done"));
    let diag_pos = content.find("## Agent diagnosis").unwrap();
    let fix_pos = content.find("## Fix execution").unwrap();
    assert!(diag_pos < fix_pos);
}

#[test]
fn what_is_journaled_reads_back() {
    let stub = IncidentStub {
        alert_key: "cpu_hog:1",
        alert_title: "vigil: cpu hog",
        alert_message: "pycharm has held 99% CPU",
        command: Some("/usr/bin/pycharm --foo"),
    };
    let mut content = write_stub(DIR, DATE, &stub).body;
    assert_eq!(extract_diagnosis(&content), None);
    assert_eq!(extract_fix_execution(&content), None);
    content.push_str(&append_diagnosis("The culprit is pycharm.\n\n"));
    assert_eq!(extract_title(&content), "vigil: cpu hog");
    assert_eq!(extract_alert_key(&content), Some("cpu_hog:1"));
    assert_eq!(extract_rule_message(&content), Some("pycharm has held 99% CPU"));
    assert_eq!(extract_command(&content), Some("/usr/bin/pycharm --foo"));
    assert_eq!(extract_diagnosis(&content), Some("The culprit is pycharm."));
    content.push_str(&append_fix_execution("1. done"));
    assert_eq!(extract_diagnosis(&content), Some("The culprit is pycharm."));
    assert_eq!(extract_fix_execution(&content), Some("1. done"));
}

#[test]
fn a_diagnosis_ends_where_the_plan_begins() {
    let mut content = String::from("# t\n");
    content.push_str(&append_diagnosis("text\n\n## Proposed fix\n\n```json\n{}\n```"));
    assert_eq!(extract_diagnosis(&content), Some("text"));
}

#[test]
fn extract_rule_message_reads_the_field_line() {
    let content = "# t\n\n**Alert key:** `k`\n\n**Rule message:** Load average 12.0 (threshold 24.0).\n";
    assert_eq!(extract_rule_message(content), Some("Load average 12.0 (threshold 24.0)."));
}

#[test]
fn extract_rule_message_is_none_when_the_field_is_absent() {
    assert_eq!(extract_rule_message("# t\n\nno rule message field here\n"), None);
}

#[test]
fn extract_command_reads_the_field_line() {
    let content = "# t\n\n**Alert key:** `k`\n\n**Rule message:** m\n\n**Command:** /usr/bin/foo --bar\n";
    assert_eq!(extract_command(content), Some("/usr/bin/foo --bar"));
}

#[test]
fn extract_command_is_none_when_the_field_is_absent() {
    assert_eq!(extract_command("# t\n\n**Rule message:** m\n"), None);
}

#[test]
fn human_timestamp_matches_yyyy_mm_dd_hh_mm() {
    let ts = human_timestamp(Some("2026-08-09 02:30\n"));
    assert_eq!(ts.len(), 16, "unexpected format: {ts}");
    assert_eq!(ts.chars().nth(4), Some('-'));
    assert_eq!(ts.chars().nth(7), Some('-'));
    assert_eq!(ts.chars().nth(10), Some(' '));
    assert_eq!(ts.chars().nth(13), Some(':'));
    assert_eq!(human_timestamp_format(), "+%Y-%m-%d %H:%M");
}

#[test]
fn a_time_that_is_not_known_says_so() {
    assert_eq!(timestamp_prefix(None), "unknown-time");
    assert_eq!(timestamp_prefix(Some(" \n")), "unknown-time");
    assert_eq!(timestamp_prefix(DATE), "2026-08-09-01-09-41");
    assert_eq!(timestamp_format(), "+%Y-%m-%d-%H-%M-%S");
}

#[test]
fn default_dir_is_under_home() {
    let dir = default_dir(Some("/Users/denis"));
    assert!(dir.ends_with(".vigil/incidents"));
    assert_eq!(dir, "/Users/denis/.vigil/incidents");
}

#[test]
fn list_is_empty_for_missing_directory() {
    assert_eq!(list(vec![]), Vec::<String>::new());
}

#[test]
fn list_returns_md_files_oldest_first_ignoring_other_files() {
    let files = list(names(&[
        "2026-08-07-12-00-44-cpu-hog.md",
        "2026-08-07-11-49-35-high-load.md",
        ".DS_Store",
    ]));
    assert_eq!(files, vec!["2026-08-07-11-49-35-high-load.md", "2026-08-07-12-00-44-cpu-hog.md"]);
}

#[test]
fn a_bare_extension_is_not_a_markdown_file() {
    assert_eq!(list(names(&[".md", "a.md", "a.MD", "md", "a.md.txt", "b.x.md"])), names(&["a.md", "b.x.md"]));
}

#[test]
fn extract_title_strips_markdown_heading() {
    assert_eq!(extract_title("# vigil: high load\n\nbody"), "vigil: high load");
}

#[test]
fn extract_title_falls_back_when_no_content() {
    assert_eq!(extract_title(""), "(untitled)");
}
