use vigil::number::{Fixed, ONE};
use vigil::process_tree::{query_process_tree, scope_for_alert_key, ProcessNode, Scope};

fn live_processes() -> Vec<ProcessNode> {
    let sys = sysinfo::System::new_all();
    sys.processes()
        .values()
        .map(|p| ProcessNode {
            pid: p.pid().as_u32(),
            ppid: p.parent().map(|p| p.as_u32()),
            name: p.name().to_string_lossy().to_string(),
            cpu_pct: Fixed { bits: (p.cpu_usage() as f64 * ONE as f64) as u64 },
            mem_bytes: p.memory(),
            run_time_secs: p.run_time(),
            is_zombie: p.status() == sysinfo::ProcessStatus::Zombie,
        })
        .collect()
}

fn node(pid: u32, ppid: Option<u32>, name: &str) -> ProcessNode {
    ProcessNode {
        pid,
        ppid,
        name: name.to_string(),
        cpu_pct: Fixed::whole(0),
        mem_bytes: 0,
        run_time_secs: 0,
        is_zombie: false,
    }
}

#[test]
fn scope_for_alert_key_parses_cpu_hog() {
    assert_eq!(scope_for_alert_key("cpu_hog:37489"), Scope::Pid(37489));
}

#[test]
fn scope_for_alert_key_parses_high_process_count() {
    assert_eq!(scope_for_alert_key("high_process_count:node"), Scope::Name("node".to_string()));
}

#[test]
fn scope_for_alert_key_falls_back_to_none_for_unrecognized_keys() {
    assert_eq!(scope_for_alert_key("high_load"), Scope::Nothing);
    assert_eq!(scope_for_alert_key("swap_pressure"), Scope::Nothing);
    assert_eq!(scope_for_alert_key("battery_low"), Scope::Nothing);
}

#[test]
fn scope_for_alert_key_falls_back_to_none_for_a_non_numeric_cpu_hog_pid() {
    assert_eq!(scope_for_alert_key("cpu_hog:not-a-number"), Scope::Nothing);
}

#[test]
fn scope_for_alert_key_keeps_to_numbers_that_are_pids() {
    assert_eq!(scope_for_alert_key("cpu_hog:4294967295"), Scope::Pid(u32::MAX));
    assert_eq!(scope_for_alert_key("cpu_hog:4294967296"), Scope::Nothing);
    assert_eq!(scope_for_alert_key("cpu_hog:"), Scope::Nothing);
    assert_eq!(scope_for_alert_key("cpu_hog:+7"), Scope::Pid(7));
    assert_eq!(scope_for_alert_key("high_process_count:"), Scope::Nothing);
}

#[test]
fn query_process_tree_is_empty_for_scope_none() {
    assert_eq!(query_process_tree(&live_processes(), &Scope::Nothing), Vec::new());
}

#[test]
fn query_process_tree_by_name_finds_this_test_process_on_this_machine() {
    let procs = live_processes();
    let own_pid = sysinfo::get_current_pid().expect("must be able to read our own pid").as_u32();
    let own_name = procs
        .iter()
        .find(|p| p.pid == own_pid)
        .expect("our own process must be visible to sysinfo")
        .name
        .clone();

    let nodes = query_process_tree(&procs, &Scope::Name(own_name.clone()));
    assert!(nodes.iter().any(|n| n.pid == own_pid), "expected to find our own pid among processes named {own_name:?}");
}

#[test]
fn query_process_tree_by_pid_includes_the_target_pid_itself() {
    let own_pid = sysinfo::get_current_pid().expect("must be able to read our own pid").as_u32();
    let nodes = query_process_tree(&live_processes(), &Scope::Pid(own_pid));
    assert!(nodes.iter().any(|n| n.pid == own_pid));
}

#[test]
fn query_process_tree_by_unmatched_name_is_empty() {
    let nodes =
        query_process_tree(&live_processes(), &Scope::Name("definitely-not-a-real-process-name-xyz".to_string()));
    assert_eq!(nodes, Vec::new());
}

#[test]
fn a_process_comes_with_its_children_only() {
    let procs = vec![
        node(1, None, "init"),
        node(2, Some(1), "shell"),
        node(3, Some(2), "node"),
        node(4, Some(3), "worker"),
        node(5, Some(2), "node"),
    ];
    let pids = |scope: &Scope| query_process_tree(&procs, scope).iter().map(|n| n.pid).collect::<Vec<u32>>();
    assert_eq!(pids(&Scope::Pid(2)), [2, 3, 5]);
    assert_eq!(pids(&Scope::Name("node".to_string())), [3, 5]);
}
