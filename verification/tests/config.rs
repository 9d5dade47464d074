use hypervox::config::{
    has_active_entry, CameraMode, ExpressionConfig, ExpressionEntry, ExpressionStatus,
    RegenerateEveryFrame, ShowAxesPlanes,
};

fn entry(expr: &str, enabled: bool) -> ExpressionEntry {
    ExpressionEntry { expr: expr.to_string(), color: (1, 2, 3), enabled }
}

#[test]
fn show_axes_planes_default() {
    let s = ShowAxesPlanes::default();
    assert!(s.show_axes);
    assert!(!s.show_ground_grid);
    assert!(!s.show_planes);
    assert!(s == s.clone());
}

#[test]
fn camera_mode_and_regenerate_flag() {
    assert!(CameraMode::AutoOrbit != CameraMode::Manual);
    assert!(CameraMode::Manual == CameraMode::Manual);
    let r = RegenerateEveryFrame { enabled: true };
    assert!(r.enabled);
}

#[test]
fn expression_entry_default() {
    let e = ExpressionEntry::default();
    assert_eq!(e.expr, "x^2 + z * y - 64.0");
    assert!(e.enabled);
    let c = e.clone();
    assert_eq!(c.expr, e.expr);
    assert_eq!(c.color, e.color);
    assert_eq!(c.enabled, e.enabled);
}

#[test]
fn expression_config_default_has_one_entry() {
    let c = ExpressionConfig::default();
    assert_eq!(c.entries.len(), 1);
    assert_eq!(c.entries[0].expr, "x^2 + z * y - 64.0");
    assert!(c.entries[0].enabled);
}

#[test]
fn expression_status_default() {
    let s = ExpressionStatus::default();
    assert!(!s.is_valid);
    assert!(s.errors.is_empty());
}

#[test]
fn active_entries_are_enabled_and_not_blank() {
    assert!(!has_active_entry(&vec![]));
    assert!(!has_active_entry(&vec![entry("x", false)]));
    assert!(!has_active_entry(&vec![entry("   ", true), entry("\t\n", true)]));
    assert!(has_active_entry(&vec![entry("   ", true), entry(" y ", true)]));
}

#[test]
fn run_with_error_is_invalid() {
    let mut s = ExpressionStatus { is_valid: true, errors: vec!["old".to_string()] };
    s.begin_run();
    assert!(s.errors.is_empty());
    assert!(s.is_valid);
    s.record_error("Expression #1 'x +': bad".to_string());
    assert!(!s.is_valid);
    s.settle(&vec![entry("x", true)]);
    assert!(!s.is_valid);
    assert_eq!(s.errors, vec!["Expression #1 'x +': bad".to_string()]);
}

#[test]
fn clean_run_with_active_entry_is_valid() {
    let mut s = ExpressionStatus::default();
    s.begin_run();
    s.settle(&vec![entry("x^2 - 1", true)]);
    assert!(s.is_valid);
}

#[test]
fn clean_run_without_active_entry_keeps_validity() {
    let mut s = ExpressionStatus::default();
    s.begin_run();
    s.settle(&vec![entry("  ", true), entry("x", false)]);
    assert!(!s.is_valid);

    let mut s = ExpressionStatus { is_valid: true, errors: vec![] };
    s.begin_run();
    s.settle(&vec![]);
    assert!(s.is_valid);
}

#[test]
fn blank_means_unicode_white_space_only() {
    assert!(!has_active_entry(&vec![entry("\u{3000}\u{a0}\u{2028}\u{85} \u{b}", true)]));
    assert!(has_active_entry(&vec![entry("\u{200b}", true)]));
    for text in ["", " ", "\u{1680}x", "\u{205f}", "a b", "\u{202f}\u{200a}"] {
        assert_eq!(
            has_active_entry(&vec![entry(text, true)]),
            !text.trim().is_empty(),
            "{text:?}"
        );
    }
}
