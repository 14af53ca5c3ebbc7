use vigil::menubar::{
    build_status_json, classify_health, default_status_file, icon_rgba, is_inside_eye, is_inside_pupil,
    read_status, HealthLevel, StatusFile, ICON_SIZE,
};
use vigil::menubar_loop::{
    build_menu, on_click, stale_after_secs, tooltip, Click, IncidentFile, Indicator, MenuEntry,
};

#[test]
fn build_status_json_round_trips_through_status_file() {
    let json = build_status_json(3, 1_000_000);
    let parsed: StatusFile = read_status(&json).unwrap();
    assert_eq!(parsed.open_count, 3);
    assert_eq!(parsed.updated_unix, 1_000_000);
    assert_eq!(json, "{\"updated_unix\":1000000,\"open_count\":3}");
}

#[test]
fn a_status_file_of_another_shape_is_not_read() {
    for text in [
        "",
        "{",
        "null",
        "3",
        "{}",
        "{\"updated_unix\":1}",
        "{\"updated_unix\":-1,\"open_count\":0}",
        "{\"updated_unix\":1.5,\"open_count\":0}",
        "{\"updated_unix\":\"1\",\"open_count\":0}",
        "[1]",
        "[1,2,3]",
    ] {
        assert!(read_status(text).is_none(), "{text}");
    }
    let extreme = build_status_json(usize::MAX, u64::MAX);
    assert_eq!(
        read_status(&extreme),
        Some(StatusFile { updated_unix: u64::MAX, open_count: usize::MAX })
    );
    assert_eq!(
        read_status(" {\"open_count\": 2, \"more\": [], \"updated_unix\": 7}\n"),
        Some(StatusFile { updated_unix: 7, open_count: 2 })
    );
    assert_eq!(read_status("[7, 2]"), Some(StatusFile { updated_unix: 7, open_count: 2 }));
}

#[test]
fn classify_health_is_unknown_without_a_status_file() {
    assert_eq!(classify_health(None, 1000, 30), HealthLevel::Unknown);
}

#[test]
fn classify_health_is_unknown_when_status_is_stale() {
    let status = StatusFile { updated_unix: 1000, open_count: 0 };
    assert_eq!(classify_health(Some(&status), 1000 + 31, 30), HealthLevel::Unknown);
}

#[test]
fn classify_health_ok_at_zero_open_incidents() {
    let status = StatusFile { updated_unix: 1000, open_count: 0 };
    assert_eq!(classify_health(Some(&status), 1005, 30), HealthLevel::Healthy);
}

#[test]
fn classify_health_warning_at_one_open_incident() {
    let status = StatusFile { updated_unix: 1000, open_count: 1 };
    assert_eq!(classify_health(Some(&status), 1005, 30), HealthLevel::Warning);
}

#[test]
fn classify_health_critical_at_multiple_open_incidents() {
    let status = StatusFile { updated_unix: 1000, open_count: 2 };
    assert_eq!(classify_health(Some(&status), 1005, 30), HealthLevel::Critical);

    let many = StatusFile { updated_unix: 1000, open_count: 7 };
    assert_eq!(classify_health(Some(&many), 1005, 30), HealthLevel::Critical);
}

#[test]
fn a_status_from_the_future_is_fresh() {
    let status = StatusFile { updated_unix: 2000, open_count: 0 };
    assert_eq!(classify_health(Some(&status), 1005, 30), HealthLevel::Healthy);
}

#[test]
fn icon_rgba_has_correct_dimensions_and_is_fully_opaque_at_center_for_warning_and_critical() {
    for level in [HealthLevel::Warning, HealthLevel::Critical] {
        let (buf, w, h) = icon_rgba(level);
        assert_eq!(w, ICON_SIZE);
        assert_eq!(h, ICON_SIZE);
        assert_eq!(buf.len(), (w * h * 4) as usize);
        let center_idx = ((h / 2 * w + w / 2) * 4) as usize;
        assert_eq!(buf[center_idx + 3], 255, "{level:?} should be fully opaque at its center");
    }
}

#[test]
fn icon_rgba_unknown_state_is_visible_but_distinct_from_ok() {
    let (unknown_buf, w, h) = icon_rgba(HealthLevel::Unknown);
    let (ok_buf, _, _) = icon_rgba(HealthLevel::Healthy);
    let center_idx = ((h / 2 * w + w / 2) * 4) as usize;
    assert!(unknown_buf[center_idx + 3] > ok_buf[center_idx + 3], "Unknown should be more visible than Ok");
}

#[test]
fn icon_rgba_ok_state_is_mostly_transparent() {
    let (buf, w, h) = icon_rgba(HealthLevel::Healthy);
    let center_idx = ((h / 2 * w + w / 2) * 4) as usize;
    assert!(buf[center_idx + 3] < 100, "Ok state should read as faint/unobtrusive");
}

#[test]
fn icon_rgba_corners_are_transparent_outside_the_eye() {
    let (buf, w, _h) = icon_rgba(HealthLevel::Critical);
    assert_eq!(buf[3], 0);
    let _ = w;
}

#[test]
fn the_pupil_is_darker_than_the_eye() {
    let (buf, w, h) = icon_rgba(HealthLevel::Warning);
    let center = ((h / 2 * w + w / 2) * 4) as usize;
    assert_eq!(&buf[center..center + 4], &[89, 67, 7, 255]);
    let side = ((h / 2 * w + w / 2 + 5) * 4) as usize;
    assert_eq!(&buf[side..side + 4], &[255, 190, 20, 255]);
}

fn mix(from: u8, to: u8, t: f32) -> u8 {
    (from as f32 + (to as f32 - from as f32) * t.clamp(0.0, 1.0)).round() as u8
}

fn distance(x: f32, y: f32, to_y: f32) -> f32 {
    let center = ICON_SIZE as f32 / 2.0;
    ((x - center).powi(2) + (y - to_y).powi(2)).sqrt()
}

#[test]
fn the_icon_is_the_one_drawn_in_single_precision() {
    let colors = [
        (HealthLevel::Healthy, [255, 255, 255, 40]),
        (HealthLevel::Warning, [255, 190, 20, 255]),
        (HealthLevel::Critical, [230, 50, 50, 255]),
        (HealthLevel::Unknown, [140, 140, 140, 200]),
    ];
    let center = ICON_SIZE as f32 / 2.0;
    for (level, color) in colors {
        let (buf, _, _) = icon_rgba(level);
        for row in 0..ICON_SIZE {
            for column in 0..ICON_SIZE {
                let (x, y) = (column as f32 + 0.5, row as f32 + 0.5);
                let edge = (9.5 - distance(x, y, center - 6.5)).min(9.5 - distance(x, y, center + 6.5));
                let eye = edge.clamp(-0.5, 0.5) + 0.5;
                let pupil = (2.6 - distance(x, y, center)).clamp(-0.5, 0.5) + 0.5;
                let mut expected = [0u8; 4];
                if eye > 0.0 {
                    for k in 0..3 {
                        expected[k] = mix(color[k], mix(color[k], 0, 0.65), pupil);
                    }
                    expected[3] = (color[3] as f32 * eye.clamp(0.0, 1.0)).round() as u8;
                }
                let start = ((row * ICON_SIZE + column) * 4) as usize;
                assert_eq!(buf[start..start + 4], expected, "{level:?} at ({column}, {row})");
            }
        }
    }
}

#[test]
fn is_inside_eye_is_wider_than_it_is_tall() {
    // Points are given in half pixels.
    let center = ICON_SIZE as u8;
    assert!(is_inside_eye(center + 10, center));
    assert!(!is_inside_eye(center, center + 10));
}

#[test]
fn is_inside_pupil_is_a_small_dot_at_the_center() {
    let center = ICON_SIZE as u8;
    assert!(is_inside_pupil(center, center));
    assert!(!is_inside_pupil(center + 10, center));
}

#[test]
fn pupil_is_always_a_subset_of_the_eye() {
    for y in 0..2 * ICON_SIZE as u8 {
        for x in 0..2 * ICON_SIZE as u8 {
            if is_inside_pupil(x, y) {
                assert!(is_inside_eye(x, y), "pupil point ({x}, {y}) escaped the eye outline");
            }
        }
    }
}

#[test]
fn default_status_file_is_under_home() {
    assert!(default_status_file(Some("/Users/denis")).ends_with(".vigil/status.json"));
    assert_eq!(default_status_file(Some("/")), "/.vigil/status.json");
}

#[test]
fn write_status_then_read_status_round_trips() {
    let status = read_status(&build_status_json(2, 1)).expect("just-written status file should parse");
    assert_eq!(status.open_count, 2);
}

#[test]
fn a_status_is_stale_after_three_polls() {
    assert_eq!(stale_after_secs(3_000_000_000), 9);
    assert_eq!(stale_after_secs(0), 3);
    assert_eq!(stale_after_secs(1_999_999_999), 3);
}

#[test]
fn every_level_has_its_tooltip() {
    assert_eq!(tooltip(HealthLevel::Healthy), "vigil: all clear");
    assert_eq!(tooltip(HealthLevel::Warning), "vigil: 1 open incident");
    assert_eq!(tooltip(HealthLevel::Critical), "vigil: multiple open incidents");
    assert_eq!(tooltip(HealthLevel::Unknown), "vigil: watch not reporting");
}

#[test]
fn the_menu_lists_incidents_above_quit() {
    let menu = build_menu(&vec![]);
    assert_eq!(menu.len(), 3);
    assert!(matches!(&menu[0], MenuEntry::Note(s) if s == "No incidents yet"));
    assert!(matches!(&menu[1], MenuEntry::Separator));
    assert!(matches!(&menu[2], MenuEntry::Quit(s) if s == "Quit vigil menubar"));
    let menu = build_menu(&vec![
        IncidentFile { path: "/i/b.md".to_string(), content: Some("# vigil: high load\n".to_string()) },
        IncidentFile { path: "/i/a.md".to_string(), content: None },
    ]);
    assert_eq!(menu.len(), 4);
    assert!(matches!(&menu[0], MenuEntry::Incident { path, title } if path == "/i/b.md" && title == "vigil: high load"));
    assert!(matches!(&menu[1], MenuEntry::Incident { path, title } if path == "/i/a.md" && title == "(unreadable)"));
}

#[test]
fn a_click_opens_only_what_is_in_the_menu() {
    let paths = vec!["/i/a.md".to_string()];
    assert!(matches!(on_click("quit", &paths), Click::Quit));
    assert!(matches!(on_click("/i/a.md", &paths), Click::Open(p) if p == "/i/a.md"));
    assert!(matches!(on_click("/i/b.md", &paths), Click::Nothing));
}

#[test]
fn the_indicator_changes_only_with_the_level() {
    let mut shown = Indicator::new();
    assert!(shown.update(HealthLevel::Unknown));
    assert!(!shown.update(HealthLevel::Unknown));
    assert!(shown.update(HealthLevel::Healthy));
}
