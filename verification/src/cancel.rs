//! Cooperative cancellation checked between pipeline batches.

use crate::text::{cat, contains_text, text_contains};
use std::sync::atomic::{AtomicBool, Ordering};
use std::sync::Arc;
use vstd::prelude::*;
use vstd::string::StringExecFns;

verus! {

broadcast use vstd::string::group_string_axioms;

/// The message of a cancelled run.
pub const INTERRUPT_MSG: &'static str = "interrupted by user";

/// The text of the cancellation message.
pub open spec fn interrupt_text() -> Seq<char> {
    "interrupted by user"@
}

/// The word that marks a message as a cancellation.
pub open spec fn interrupted_word() -> Seq<char> {
    "interrupted"@
}

/// The message a hook's error becomes: unchanged when it already says `interrupted`, else
/// prefixed with the cancellation message.
pub open spec fn interrupt_message_text(e: Seq<char>) -> Seq<char> {
    if text_contains(e, interrupted_word()) {
        e
    } else {
        interrupt_text() + ": "@ + e
    }
}

/// The message a hook's error becomes.
pub fn interrupt_message(e: String) -> (r: String)
    ensures
        r@ == interrupt_message_text(e@),
{
    if contains_text(e.as_str(), "interrupted") {
        e
    } else {
        let head = cat(INTERRUPT_MSG, ": ");
        proof {
            reveal_strlit("interrupted by user");
        }
        cat(head.as_str(), e.as_str())
    }
}

/// What a check answers once the stop flag is read: the cancellation message when the flag is
/// set, else `Ok`.
pub fn stop_decision(stopped: bool) -> (r: Result<(), String>)
    ensures
        stopped ==> (r matches Err(m) && m@ == interrupt_text()),
        !stopped ==> r is Ok,
{
    if stopped {
        proof {
            reveal_strlit("interrupted by user");
        }
        Err(String::from_str(INTERRUPT_MSG))
    } else {
        Ok(())
    }
}

/// Law: every message a cancellation check fails with says `interrupted`.
pub proof fn law_interrupt_messages_say_interrupted(e: Seq<char>)
    ensures
        text_contains(interrupt_message_text(e), interrupted_word()),
        text_contains(interrupt_text(), interrupted_word()),
{
    reveal_strlit("interrupted by user");
    reveal_strlit("interrupted");
    let w = interrupted_word();
    let t = interrupt_text();
    assert(t.subrange(0, w.len() as int) =~= w);
    assert(crate::text::occurs_at(t, w, 0));
    if !text_contains(e, w) {
        let m = t + ": "@ + e;
        assert(m.subrange(0, w.len() as int) =~= w);
        assert(crate::text::occurs_at(m, w, 0));
    }
}

/// A check run at each batch besides the stop flag; an error cancels the run.
pub trait CheckHook {
    fn poll(&self) -> Result<(), String>;
}

/// No check besides the stop flag.
pub struct NoHook;

impl CheckHook for NoHook {
    /// Always passes.
    fn poll(&self) -> (r: Result<(), String>)
        ensures
            r is Ok,
    {
        Ok(())
    }
}

/// Runs a caller's check closure.
#[verifier::external_body]
fn call_hook<F: Fn() -> Result<(), String>>(f: &F) -> Result<(), String> {
    f()
}

impl<F: Fn() -> Result<(), String>> CheckHook for F {
    fn poll(&self) -> Result<(), String> {
        call_hook(self)
    }
}

/// Checked at the start of each batch iteration; the stop flag can be shared across threads.
pub struct CancelToken<H> {
    stop: Arc<AtomicBool>,
    hook: Option<H>,
}

impl<H> CancelToken<H> {
    /// The check besides the stop flag, if any.
    pub closed spec fn spec_hook(&self) -> Option<H> {
        self.hook
    }

    /// The stop flag.
    pub closed spec fn stop_flag(&self) -> Arc<AtomicBool> {
        self.stop
    }
}

/// `Arc::clone`: another handle on the same allocation, so the two are equal.
#[verifier::external_body]
fn share_flag(flag: &Arc<AtomicBool>) -> (res: Arc<AtomicBool>)
    ensures
        res == *flag,
{
    Arc::clone(flag)
}

/// Sets a stop flag.
pub fn raise_flag(flag: &Arc<AtomicBool>) {
    flag.store(true, Ordering::Relaxed);
}

impl CancelToken<NoHook> {
    /// Never cancels unless asked to.
    pub fn none() -> (t: Self)
        ensures
            t.spec_hook() is None,
    {
        CancelToken { stop: Arc::new(AtomicBool::new(false)), hook: None }
    }

    /// Cancels when `stop` is set.
    pub fn from_flag(stop: Arc<AtomicBool>) -> (t: Self)
        ensures
            t.spec_hook() is None,
            t.stop_flag() == stop,
    {
        CancelToken { stop, hook: None }
    }
}

impl<H: CheckHook> CancelToken<H> {
    /// Cancels when `hook` fails, or when asked to.
    pub fn with_hook(hook: H) -> (t: Self)
        ensures
            t.spec_hook() == Some(hook),
    {
        CancelToken { stop: Arc::new(AtomicBool::new(false)), hook: Some(hook) }
    }

    /// Another handle on the stop flag.
    pub fn flag(&self) -> (r: Arc<AtomicBool>)
        ensures
            r == self.stop_flag(),
    {
        share_flag(&self.stop)
    }

    /// Sets the stop flag.
    pub fn request_stop(&self) {
        raise_flag(&self.stop);
    }

    /// `Ok` to go on, or the cancellation message: the hook's error (as
    /// `interrupt_message_text`, and the flag is set), else the cancellation message when the
    /// flag is set. Every message says `interrupted`.
    pub fn check(&self) -> (r: Result<(), String>)
        ensures
            r matches Err(m) ==> text_contains(m@, interrupted_word()),
            self.spec_hook() is None ==> (r matches Err(m) ==> m@ == interrupt_text()),
    {
        match &self.hook {
            Some(h) => {
                match h.poll() {
                    Err(e) => {
                        raise_flag(&self.stop);
                        proof {
                            law_interrupt_messages_say_interrupted(e@);
                        }
                        return Err(interrupt_message(e));
                    },
                    Ok(()) => {},
                }
            },
            None => {},
        }
        let stopped = self.stop.load(Ordering::Relaxed);
        proof {
            law_interrupt_messages_say_interrupted(Seq::empty());
        }
        stop_decision(stopped)
    }
}

/// `ctrlc::set_handler` with a handler that sets `flag`; its error is written out with its
/// `Display`. Whether a handler can be installed depends on the process, so nothing is stated
/// of the result.
#[verifier::external_body]
fn install_stop_handler(flag: Arc<AtomicBool>) -> Result<(), String> {
    ctrlc::set_handler(move || raise_flag(&flag)).map_err(|e| e.to_string())
}

/// `ctrlc::set_handler` with a handler that does nothing; its result is dropped. In the
/// version used, a process that already has a handler gets an error back and nothing
/// changes, and the call does not panic.
#[verifier::external_body]
fn install_idle_handler()
    opens_invariants none
    no_unwind
{
    let _ = ctrlc::set_handler(|| {});
}

/// Held while the SIGINT handler installed by `with_ctrlc_handler` is meant to be in place;
/// dropping it asks for a handler that does nothing.
pub struct CtrlcGuard;

impl Drop for CtrlcGuard {
    fn drop(&mut self)
        opens_invariants none
        no_unwind
    {
        install_idle_handler();
    }
}

/// The prefix of the message when no SIGINT handler could be installed.
pub open spec fn ctrlc_error_prefix() -> Seq<char> {
    "ctrlc handler: "@
}

/// The message when no SIGINT handler could be installed, from the system's message.
pub fn ctrlc_error_message(e: &str) -> (r: String)
    ensures
        r@ == ctrlc_error_prefix() + e@,
{
    cat("ctrlc handler: ", e)
}

impl CancelToken<NoHook> {
    /// Installs a process-wide SIGINT handler that sets the token's stop flag. When the
    /// handler cannot be installed, the error is the system's message after
    /// `ctrlc handler: `.
    pub fn with_ctrlc_handler() -> (r: Result<(Self, CtrlcGuard), String>)
        ensures
            r matches Ok(p) ==> p.0.spec_hook() is None,
            r matches Err(e) ==> e@.len() >= ctrlc_error_prefix().len() && e@.take(ctrlc_error_prefix().len() as int) == ctrlc_error_prefix(),
    {
        let stop = Arc::new(AtomicBool::new(false));
        let handle = share_flag(&stop);
        match install_stop_handler(handle) {
            Ok(()) => Ok((Self::from_flag(stop), CtrlcGuard)),
            Err(e) => {
                let m = ctrlc_error_message(e.as_str());
                proof {
                    assert(m@.take(ctrlc_error_prefix().len() as int) =~= ctrlc_error_prefix());
                }
                Err(m)
            },
        }
    }
}

}
