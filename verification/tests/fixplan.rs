use vigil::fix_process::{is_approval, journal_entry, plan_to_execute, prompt, read_plan};
use vigil::fixplan::{
    approved_header, approved_steps_json, extract_proposed_fix_json, parse_plan, FixCategory, PlanStep,
};

const SAMPLE_PLAN_JSON: &str = r#"{
      "plan": [
        {
          "category": "kill_process",
          "description": "Kill the stale node session",
          "target_hint": "node --worktree nervous-cori-c94163 --resume skill-adopt"
        },
        {
          "category": "delete_path",
          "description": "Remove the orphaned node_modules cache",
          "target_hint": "/tmp/some/node_modules/.cache"
        }
      ]
    }"#;

fn step(category: FixCategory, description: &str, target_hint: &str) -> PlanStep {
    PlanStep { category, description: description.to_string(), target_hint: target_hint.to_string() }
}

#[test]
fn fix_category_as_str_matches_its_serde_rename() {
    for cat in [FixCategory::KillProcess, FixCategory::DeletePath, FixCategory::SystemSetting] {
        let name = cat.as_str();
        let json = approved_steps_json(&[step(cat, "d", "h")], &[true]);
        assert_eq!(json, format!("[{{\"category\":\"{name}\",\"description\":\"d\",\"target_hint\":\"h\"}}]"));
    }
}

#[test]
fn extract_proposed_fix_json_finds_the_fenced_block_after_the_heading() {
    let content = format!(
        "# vigil: cpu hog\n\n## Diagnosis\n\ntext\n\n## Proposed fix\n\n```json\n{SAMPLE_PLAN_JSON}\n```\n"
    );
    let extracted = extract_proposed_fix_json(&content).unwrap();
    assert!(extracted.contains("kill_process"));
}

#[test]
fn extract_proposed_fix_json_is_none_without_the_heading() {
    let content = "# vigil: cpu hog\n\n## Diagnosis\n\nno fix here.\n";
    assert_eq!(extract_proposed_fix_json(content), None);
}

#[test]
fn extract_proposed_fix_json_is_none_when_heading_has_no_fenced_block() {
    let content = "# vigil\n\n## Proposed fix\n\n(none identified)\n";
    assert_eq!(extract_proposed_fix_json(content), None);
}

#[test]
fn extract_proposed_fix_json_is_none_for_an_empty_fenced_block() {
    let content = "## Proposed fix\n\n```json\n\n```\n";
    assert_eq!(extract_proposed_fix_json(content), None);
}

#[test]
fn parse_plan_reads_categories_descriptions_and_target_hints() {
    let plan = parse_plan(SAMPLE_PLAN_JSON).unwrap();
    assert_eq!(plan.plan.len(), 2);
    assert_eq!(plan.plan[0].category, FixCategory::KillProcess);
    assert_eq!(plan.plan[0].description, "Kill the stale node session");
    assert_eq!(plan.plan[1].category, FixCategory::DeletePath);
    assert_eq!(plan.plan[1].target_hint, "/tmp/some/node_modules/.cache");
}

#[test]
fn parse_plan_rejects_an_unknown_category() {
    let json = r#"{"plan": [{"category": "reboot_machine", "description": "d", "target_hint": "h"}]}"#;
    assert!(parse_plan(json).is_err());
}

#[test]
fn parse_plan_rejects_malformed_json() {
    assert!(parse_plan("not json").is_err());
}

#[test]
fn parse_plan_says_why_it_cannot() {
    let malformed = parse_plan("not json").unwrap_err();
    assert!(malformed.starts_with("failed to parse proposed fix plan: "));
    assert!(malformed.contains("line 1 column"), "{malformed}");
    let missing = parse_plan(r#"{"plan": [{"category": "kill_process", "description": "d"}]}"#).unwrap_err();
    assert!(missing.starts_with("failed to parse proposed fix plan: "));
    for wrong in ["null", "3", "{}", r#"{"plan": 3}"#, r#"{"plan": [3]}"#, r#"{"plan": [{"category": 1, "description": "d", "target_hint": "h"}]}"#] {
        assert!(parse_plan(wrong).is_err(), "{wrong}");
    }
}

#[test]
fn parse_plan_takes_every_form_of_a_plan() {
    // Members that mean nothing here are passed over.
    let extra = r#"{"note": 1, "plan": [{"category": "system_setting", "description": "d", "target_hint": "h", "why": []}]}"#;
    let plan = parse_plan(extra).unwrap();
    assert_eq!(plan.plan[0].category, FixCategory::SystemSetting);
    // A record may be an array of its fields, and a category an object.
    let arrays = r#"[[["kill_process", "d", "h"], {"category": {"delete_path": null}, "description": "e", "target_hint": "i"}]]"#;
    let plan = parse_plan(arrays).unwrap();
    assert_eq!(plan.plan.len(), 2);
    assert_eq!(plan.plan[0].category, FixCategory::KillProcess);
    assert_eq!(plan.plan[0].target_hint, "h");
    assert_eq!(plan.plan[1].category, FixCategory::DeletePath);
    for wrong in [
        r#"{"plan": [["kill_process", "d"]]}"#,
        r#"{"plan": [["kill_process", "d", "h", "x"]]}"#,
        r#"{"plan": [{"category": {"delete_path": 1}, "description": "e", "target_hint": "i"}]}"#,
        r#"{"plan": [{"category": {"delete_path": null, "kill_process": null}, "description": "e", "target_hint": "i"}]}"#,
    ] {
        assert!(parse_plan(wrong).is_err(), "{wrong}");
    }
    assert!(parse_plan(r#"{"plan": []}"#).unwrap().plan.is_empty());
}

#[test]
fn approved_steps_json_includes_only_approved_steps_in_order() {
    let plan = parse_plan(SAMPLE_PLAN_JSON).unwrap();
    let json = approved_steps_json(&plan.plan, &[false, true]);
    let reparsed = parse_plan(&format!("{{\"plan\": {json}}}")).unwrap().plan;
    assert_eq!(reparsed.len(), 1);
    assert_eq!(reparsed[0].category, FixCategory::DeletePath);
}

#[test]
fn approved_steps_json_is_an_empty_array_when_nothing_is_approved() {
    let plan = parse_plan(SAMPLE_PLAN_JSON).unwrap();
    assert_eq!(approved_steps_json(&plan.plan, &[false, false]), "[]");
}

#[test]
fn approved_steps_json_escapes_what_json_has_to() {
    let odd = "a \"quote\", a \\ and a\nline\ttab \u{1} é";
    let json = approved_steps_json(&[step(FixCategory::KillProcess, odd, "")], &[true]);
    assert!(json.contains(r#""a \"quote\", a \\ and a\nline\ttab \u0001 é""#), "{json}");
    let back = parse_plan(&format!("{{\"plan\": {json}}}")).unwrap();
    assert_eq!(back.plan[0].description, odd);
}

#[test]
fn approved_header_numbers_only_approved_steps_one_indexed() {
    let header = approved_header(&[false, true, true], "2026-08-09 02:30");
    assert_eq!(header, "_Approved: 2026-08-09 02:30 (steps 2, 3 of 3)_");
}

#[test]
fn approved_header_handles_a_single_step_plan() {
    let header = approved_header(&[true], "2026-08-09 02:30");
    assert_eq!(header, "_Approved: 2026-08-09 02:30 (steps 1 of 1)_");
}

#[test]
fn a_prompt_shows_the_step_and_its_place() {
    let s = step(FixCategory::KillProcess, "Kill the stale node session", "node --resume");
    assert_eq!(
        prompt(0, 2, &s),
        "[1/2] kill_process — Kill the stale node session\n    target: node --resume\nApprove? [y/N] "
    );
}

#[test]
fn only_yes_approves() {
    for yes in ["y", "Y\n", " yes \n", "YES"] {
        assert!(is_approval(yes), "{yes:?}");
    }
    for no in ["", "\n", "n", "N\n", "yep", "y y", "yess"] {
        assert!(!is_approval(no), "{no:?}");
    }
}

#[test]
fn nothing_is_handed_over_without_approval() {
    let steps = [step(FixCategory::KillProcess, "d", "h")];
    assert_eq!(plan_to_execute(&steps, &[false]), None);
    assert_eq!(
        plan_to_execute(&steps, &[true]),
        Some(r#"[{"category":"kill_process","description":"d","target_hint":"h"}]"#.to_string())
    );
}

#[test]
fn a_fix_is_journaled_with_its_approval() {
    assert_eq!(
        journal_entry(&[true, false], "2026-08-09 02:30", "1. done"),
        "_Approved: 2026-08-09 02:30 (steps 1 of 2)_\n\n1. done"
    );
}

#[test]
fn read_plan_says_what_is_missing() {
    assert_eq!(
        read_plan("/tmp/x.md", "# t\n").err().unwrap(),
        "/tmp/x.md has no proposed fix — run `vigil investigate` first, or this incident didn't produce one"
    );
    let broken = read_plan("/tmp/x.md", "## Proposed fix\n\n```json\nnope\n```\n").err().unwrap();
    assert!(broken.starts_with("failed to parse proposed fix plan: "));
    let good = format!("## Proposed fix\n\n```json\n{SAMPLE_PLAN_JSON}\n```\n");
    assert_eq!(read_plan("/tmp/x.md", &good).unwrap().plan.len(), 2);
}
