use typst_studio::scheduler::{RenderOutcome, Scheduler};

#[test]
fn burst_coalesces_to_last_edit() {
    let mut s = Scheduler::new();
    let t1 = s.notify();
    let t2 = s.notify();
    let t3 = s.notify();
    assert_eq!((t1, t2, t3), (1, 2, 3));
    // All three timers fire after the burst settles: only the last edit's
    // captured token is still current, so exactly one attempt starts.
    assert!(!s.timer_fired(t1));
    assert!(!s.timer_fired(t2));
    assert!(s.timer_fired(t3));
}

#[test]
fn stale_completion_never_overwrites_fresher_success() {
    let mut s = Scheduler::new();
    let t1 = s.notify();
    assert!(s.timer_fired(t1));
    // A newer edit arrives while the first attempt is in flight.
    let t2 = s.notify();
    // The first attempt completes late: its result is silently dropped.
    assert!(!s.complete(t1, RenderOutcome::Success(String::from("old"))));
    assert_eq!(s.output, None);
    assert_eq!(s.error, None);
    assert!(s.timer_fired(t2));
    assert!(s.complete(t2, RenderOutcome::Success(String::from("new"))));
    assert_eq!(s.output.as_deref(), Some("new"));
    assert_eq!(s.error, None);
}

#[test]
fn stale_completion_never_overwrites_fresher_error() {
    let mut s = Scheduler::new();
    let t1 = s.notify();
    assert!(s.timer_fired(t1));
    let t2 = s.notify();
    assert!(s.timer_fired(t2));
    assert!(s.complete(t2, RenderOutcome::Failure(String::from("fresh error"))));
    // The older attempt finishes last; the fresher error must survive.
    assert!(!s.complete(t1, RenderOutcome::Success(String::from("stale output"))));
    assert_eq!(s.output, None);
    assert_eq!(s.error.as_deref(), Some("fresh error"));
}

#[test]
fn sinks_are_mutually_exclusive() {
    let mut s = Scheduler::new();
    let t1 = s.notify();
    assert!(s.timer_fired(t1));
    assert!(s.complete(t1, RenderOutcome::Success(String::from("<svg/>"))));
    // After a successful attempt the error sink reads empty.
    assert_eq!(s.output.as_deref(), Some("<svg/>"));
    assert_eq!(s.error, None);
    let t2 = s.notify();
    assert!(s.timer_fired(t2));
    assert!(s.complete(t2, RenderOutcome::Failure(String::from("boom"))));
    // After a failed attempt the output sink reads empty.
    assert_eq!(s.output, None);
    assert_eq!(s.error.as_deref(), Some("boom"));
    let t3 = s.notify();
    assert!(s.timer_fired(t3));
    assert!(s.complete(t3, RenderOutcome::Success(String::from("<svg>2</svg>"))));
    assert_eq!(s.output.as_deref(), Some("<svg>2</svg>"));
    assert_eq!(s.error, None);
}

#[test]
fn rendering_flag_always_clears() {
    let mut s = Scheduler::new();
    let t1 = s.notify();
    assert!(s.timer_fired(t1));
    assert!(s.rendering);
    let _t2 = s.notify();
    // Even a discarded completion clears the rendering flag: the scheduler
    // is never left stuck.
    assert!(!s.complete(t1, RenderOutcome::Failure(String::from("late"))));
    assert!(!s.rendering);
}
