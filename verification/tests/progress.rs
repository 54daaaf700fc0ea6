use napparent_tabular::{select_display, should_log_batch, ProgressDisplay, ProgressTimer};

#[test]
fn verbose_off_is_off_mode() {
    assert_eq!(select_display(false, true), ProgressDisplay::Off);
    assert_eq!(select_display(false, false), ProgressDisplay::Off);
}

#[test]
fn from_display_lines() {
    assert_eq!(select_display(true, false), ProgressDisplay::Lines);
}

#[test]
fn verbose_on_terminal_is_bar() {
    assert_eq!(select_display(true, true), ProgressDisplay::Bar);
}

#[test]
fn throttle_small_runs_all_batches() {
    assert!(should_log_batch(0, 10));
    assert!(should_log_batch(9, 10));
}

#[test]
fn throttle_large_runs_sparse() {
    let total = 162;
    let step = (total / 20).max(1);
    assert!(should_log_batch(0, total));
    assert!(should_log_batch(total - 1, total));
    assert!(!should_log_batch(1, total) || 1_usize.is_multiple_of(step));
}

#[test]
fn throttle_steps_by_a_twentieth() {
    // 162 / 20 == 8
    assert!(should_log_batch(8, 162));
    assert!(should_log_batch(16, 162));
    assert!(!should_log_batch(9, 162));
    assert!(should_log_batch(50, 50));
    assert!(!should_log_batch(1, 51));
    assert!(should_log_batch(2, 51));
}

#[test]
fn timer_runs() {
    let t = ProgressTimer::start();
    let a = t.elapsed();
    let b = t.elapsed();
    assert!(b >= a);
}
