use ci_runner::ui::{bar_width, heat, per_core_fits, Heat};

#[test]
fn bar_width_stays_within_bounds_at_any_terminal_size() {
    assert_eq!(bar_width(0), 8);
    assert_eq!(bar_width(55), 8);
    assert_eq!(bar_width(78), 23);
    assert_eq!(bar_width(300), 32);
}

#[test]
fn heat_escalates_with_utilization() {
    assert_eq!(heat(10), Heat::Green);
    assert_eq!(heat(70), Heat::Yellow);
    assert_eq!(heat(99), Heat::Red);
}

#[test]
fn heat_thresholds_are_sixty_and_eighty_five() {
    assert_eq!(heat(10), Heat::Green);
    assert_eq!(heat(59), Heat::Green);
    assert_eq!(heat(60), Heat::Yellow);
    assert_eq!(heat(70), Heat::Yellow);
    assert_eq!(heat(85), Heat::Red);
    assert_eq!(heat(99), Heat::Red);
}

#[test]
fn per_core_rows_fit_four_cores_in_twenty_four_lines() {
    assert!(per_core_fits(24, 4));
    assert!(!per_core_fits(23, 4));
    assert!(per_core_fits(20 + 8, 8));
    assert!(!per_core_fits(27, 8));
    assert!(!per_core_fits(100, 0));
    assert!(!per_core_fits(0, 1));
}
