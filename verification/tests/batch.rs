use ferroscan::cli::Profile;
use ferroscan::scanner::batch::{plan, plan_for_limits, plan_from_limits, raise_target, FD_HEADROOM};

#[test]
fn plan_is_positive_and_within_budget() {
    let plan = plan(None, None, Profile::Normal).unwrap();
    assert!(plan.concurrency >= 1);
    assert!(plan.concurrency <= plan.fd_budget);
}

#[test]
fn explicit_request_is_clamped_to_budget() {
    let plan = plan(Some(usize::MAX), None, Profile::Normal).unwrap();
    assert_eq!(plan.concurrency, plan.fd_budget);
}

#[test]
fn paranoid_profile_caps_hard() {
    let plan = plan(Some(10_000), None, Profile::Paranoid).unwrap();
    assert!(plan.concurrency <= 8);
}

#[test]
fn plan_from_known_limits() {
    let p = plan_from_limits(None, Profile::Normal, 1024, 4096);
    assert_eq!((p.concurrency, p.fd_soft, p.fd_hard, p.fd_budget), (960, 1024, 4096, 960));
    assert_eq!(plan_from_limits(Some(100), Profile::Aggressive, 1024, 4096).concurrency, 100);
    assert_eq!(plan_from_limits(Some(500), Profile::Polite, 1024, 4096).concurrency, 128);
    assert_eq!(plan_from_limits(Some(0), Profile::Normal, 1024, 4096).concurrency, 1);
    let tiny = plan_from_limits(None, Profile::Normal, 10, 10);
    assert_eq!((tiny.fd_budget, tiny.concurrency), (1, 1));
    assert_eq!(FD_HEADROOM, 64);
}

#[test]
fn ulimit_raise_targets() {
    assert_eq!(raise_target(Some(8192), 1024, 4096), Some(4096));
    assert_eq!(raise_target(Some(2048), 1024, 4096), Some(2048));
    assert_eq!(raise_target(Some(512), 1024, 4096), None);
    assert_eq!(raise_target(None, 1024, 4096), None);
}

#[test]
fn the_soft_limit_in_effect_follows_the_raise() {
    let raised = plan_for_limits(None, Some(8192), Profile::Normal, 1024, 4096, true);
    assert_eq!((raised.fd_soft, raised.fd_hard, raised.fd_budget, raised.concurrency), (4096, 4096, 4032, 4032));
    let refused = plan_for_limits(None, Some(8192), Profile::Normal, 1024, 4096, false);
    assert_eq!((refused.fd_soft, refused.fd_budget), (1024, 960));
    let not_due = plan_for_limits(None, Some(512), Profile::Normal, 1024, 4096, true);
    assert_eq!(not_due.fd_soft, 1024);
    let none = plan_for_limits(Some(10), None, Profile::Paranoid, 1024, 4096, true);
    assert_eq!((none.fd_soft, none.concurrency), (1024, 8));
}
