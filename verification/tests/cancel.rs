use napparent_tabular::cancel::{ctrlc_error_message, interrupt_message};
use napparent_tabular::{CancelToken, INTERRUPT_MSG};
use std::sync::atomic::{AtomicBool, Ordering};
use std::sync::Arc;

#[test]
fn check_returns_err_when_flag_set() {
    let token = CancelToken::none();
    token.request_stop();
    let err = token.check().unwrap_err();
    assert!(err.contains("interrupted"));
}

#[test]
fn unset_token_passes() {
    let token = CancelToken::none();
    assert!(token.check().is_ok());
}

#[test]
fn flag_is_shared() {
    let token = CancelToken::none();
    let f = token.flag();
    f.store(true, Ordering::Relaxed);
    assert_eq!(token.check().unwrap_err(), INTERRUPT_MSG);
}

#[test]
fn from_flag_follows_the_flag() {
    let stop = Arc::new(AtomicBool::new(false));
    let token = CancelToken::from_flag(Arc::clone(&stop));
    assert!(token.check().is_ok());
    stop.store(true, Ordering::Relaxed);
    assert_eq!(token.check().unwrap_err(), "interrupted by user");
}

#[test]
fn hook_error_is_prefixed() {
    let token = CancelToken::with_hook(|| Err::<(), String>("disk full".to_string()));
    assert_eq!(token.check().unwrap_err(), "interrupted by user: disk full");
    // the failed hook also sets the flag
    assert!(token.flag().load(Ordering::Relaxed));
}

#[test]
fn hook_error_saying_interrupted_is_kept() {
    let token = CancelToken::with_hook(|| Err::<(), String>("KeyboardInterrupt: interrupted".to_string()));
    assert_eq!(token.check().unwrap_err(), "KeyboardInterrupt: interrupted");
}

#[test]
fn passing_hook_passes() {
    let token = CancelToken::with_hook(|| Ok::<(), String>(()));
    assert!(token.check().is_ok());
}

#[test]
fn interrupt_message_cases() {
    assert_eq!(interrupt_message("x".to_string()), "interrupted by user: x");
    assert_eq!(interrupt_message("was interrupted".to_string()), "was interrupted");
}

#[test]
fn ctrlc_message() {
    assert_eq!(ctrlc_error_message("Ctrl-C error: x"), "ctrlc handler: Ctrl-C error: x");
}

#[test]
fn stop_decision_cases() {
    use_stop_decision();
}

fn use_stop_decision() {
    assert_eq!(napparent_tabular::cancel::stop_decision(true).unwrap_err(), "interrupted by user");
    assert!(napparent_tabular::cancel::stop_decision(false).is_ok());
}
