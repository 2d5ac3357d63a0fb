use polyhorn::manager::{FailurePolicy, Flush, FlushAction};

#[test]
fn empty_composition_is_done_at_once() {
    let (_, a) = Flush::start(0, FailurePolicy::Abort);
    assert_eq!(a, FlushAction::Done);
}

#[test]
fn commands_are_applied_in_order() {
    let (mut f, a) = Flush::start(3, FailurePolicy::Abort);
    assert_eq!(a, FlushAction::Apply(0));
    assert_eq!(f.on_result(true), FlushAction::Apply(1));
    assert_eq!(f.on_result(true), FlushAction::Apply(2));
    assert_eq!(f.on_result(true), FlushAction::Done);
}

#[test]
fn failing_command_is_retried_once() {
    let (mut f, _) = Flush::start(2, FailurePolicy::RetryOnce);
    assert_eq!(f.on_result(false), FlushAction::Apply(0));
    assert_eq!(f.on_result(true), FlushAction::Apply(1));
    assert_eq!(f.on_result(false), FlushAction::Apply(1));
    assert_eq!(f.on_result(false), FlushAction::Resynchronize);
}

#[test]
fn abort_policy_resynchronizes_at_first_failure() {
    let (mut f, _) = Flush::start(2, FailurePolicy::Abort);
    assert_eq!(f.on_result(false), FlushAction::Resynchronize);
    assert_eq!(f.current, 0);
}
