use vigil::incident_window::{
    command_reply, greet, incident_in_args, incident_reply, incidents_dir, is_main_page, navigation_script, page_url,
    parse_incident_url, Finding, Navigation, Poller, WindowReady, STARTUP_GRACE,
};

#[test]
fn parse_incident_url_round_trips_a_simple_path() {
    let url = format!("vigil://incident/{}", urlencoding::encode("/tmp/incidents/x.md"));
    assert_eq!(parse_incident_url(&url), Some("/tmp/incidents/x.md".to_string()));
}

#[test]
fn parse_incident_url_decodes_spaces_and_slashes() {
    let raw = "/Users/denis/.vigil/incidents/2026-08-12-00-00-00-cpu hog 1.md";
    let url = format!("vigil://incident/{}", urlencoding::encode(raw));
    assert_eq!(parse_incident_url(&url), Some(raw.to_string()));
}

#[test]
fn parse_incident_url_rejects_the_wrong_scheme() {
    assert_eq!(parse_incident_url("http://incident/foo"), None);
}

#[test]
fn parse_incident_url_rejects_the_wrong_prefix() {
    assert_eq!(parse_incident_url("vigil://other/foo"), None);
}

#[test]
fn parse_incident_url_rejects_a_bare_scheme_with_no_path() {
    assert_eq!(parse_incident_url("vigil://incident/"), Some(String::new()));
    assert_eq!(parse_incident_url("vigil://incident"), None);
}

#[test]
fn parse_incident_url_keeps_what_is_not_encoded() {
    assert_eq!(parse_incident_url("vigil://incident/a%2").as_deref(), Some("a%2"));
    assert_eq!(parse_incident_url("vigil://incident/%zz").as_deref(), Some("%zz"));
    assert_eq!(parse_incident_url("vigil://incident/caf%C3%A9").as_deref(), Some("café"));
    assert_eq!(parse_incident_url("vigil://incident/%ff"), None);
}

#[test]
fn the_page_is_asked_for_by_encoded_path() {
    assert_eq!(page_url("/i/cpu hog é.md"), "index.html?path=%2Fi%2Fcpu%20hog%20%C3%A9.md");
    assert_eq!(navigation_script("a'b"), "window.location.replace('index.html?path=a%27b')");
}

#[test]
fn the_first_incident_among_the_arguments_counts() {
    let args = |list: &[&str]| list.iter().map(|a| a.to_string()).collect::<Vec<String>>();
    assert_eq!(incident_in_args(&args(&["vigil-ui"])), None);
    assert_eq!(
        incident_in_args(&args(&["vigil-ui", "vigil://other/x", "vigil://incident/a", "vigil://incident/b"])),
        Some("a".to_string())
    );
}

fn showing(path: &str, focus: bool) -> Option<Navigation> {
    Some(Navigation { path: path.to_string(), focus })
}

#[test]
fn an_early_request_waits_for_the_first_page() {
    let mut w = WindowReady::new();
    assert_eq!(w.open("a", true), None);
    assert_eq!(w.open("b", false), None);
    assert_eq!(w.page_loaded(), showing("b", false));
    assert_eq!(w.page_loaded(), None);
    assert_eq!(w.open("c", true), showing("c", true));
    assert_eq!(w.page_loaded(), None);
    assert!(is_main_page("main", true));
    assert!(!is_main_page("main", false));
    assert!(!is_main_page("other", true));
}

#[test]
fn the_poller_announces_an_incident_once() {
    let started: u128 = 1_000_000_000_000_000_000;
    let stub = "# t\n\n**Alert key:** `k`\n\n**Rule message:** it is slow\n";
    let mut p = Poller::new(started);
    assert!(matches!(p.look("/i/a.md", None, Some(started)), Finding::Later));
    assert!(matches!(p.look("/i/a.md", Some("# t\n"), Some(started)), Finding::Later));
    assert!(matches!(p.look("/i/a.md", Some(stub), Some(started)), Finding::New(body) if body == "it is slow"));
    assert!(matches!(p.look("/i/a.md", Some(stub), Some(started)), Finding::Old));
    let bare = "**Alert key:** `k`";
    assert!(matches!(
        p.look("/i/b.md", Some(bare), Some(started - STARTUP_GRACE)),
        Finding::New(body) if body == "New incident detected."
    ));
    assert!(matches!(p.look("/i/c.md", Some(bare), Some(started - STARTUP_GRACE - 1)), Finding::Old));
    assert!(matches!(p.look("/i/d.md", Some(bare), None), Finding::Old));
}

#[test]
fn the_polled_directory_can_be_overridden() {
    assert_eq!(incidents_dir(Some("/x"), Some("/h")), "/x");
    assert_eq!(incidents_dir(None, Some("/h")), "/h/.vigil/incidents");
    assert_eq!(incidents_dir(None, None), ".vigil/incidents");
}

#[test]
fn a_command_replies_with_what_it_printed() {
    assert_eq!(command_reply(true, " done\n", "noise"), Ok("done".to_string()));
    assert_eq!(command_reply(false, "done", " no such file\n"), Err("no such file".to_string()));
}

#[test]
fn an_incident_is_read_from_what_was_printed() {
    let v = incident_reply(true, b"{\"title\": \"vigil: cpu hog\", \"diagnosis\": null}\n", "noise").unwrap();
    assert_eq!(v["title"].as_str(), Some("vigil: cpu hog"));
    assert!(v["diagnosis"].is_null());
    assert_eq!(incident_reply(false, b"{}", " no such incident\n").unwrap_err(), "no such incident");
    let cut = incident_reply(true, b"{\"title\"", "").unwrap_err();
    assert!(cut.starts_with("failed to parse vigil's JSON output: "), "{cut}");
    assert!(cut.contains("line 1 column"), "{cut}");
    assert!(incident_reply(true, b"\"\xff\"", "").is_err());
    assert_eq!(incident_reply(true, "\"é\"".as_bytes(), "").unwrap().as_str(), Some("é"));
}

#[test]
fn greetings_name_who_is_greeted() {
    assert_eq!(greet("Ada"), "Hello, Ada! You've been greeted from Rust!");
}
