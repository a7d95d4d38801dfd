use qproj::lifecycle::{
    HookKind, Lifecycle, LifecycleAction, LifecycleCommand, LifecycleEvent, LifecyclePhase,
};
use qproj::service::{ServiceDepInfo, ServiceErrorKind, ServiceState};

#[derive(Clone, Debug, PartialEq)]
enum TestErr {
    A,
}


fn dep(name: &str, is_service: bool, is_initialized: bool) -> ServiceDepInfo {
    ServiceDepInfo {
        type_id: 9,
        display_name: name.to_string(),
        is_initialized,
        is_service,
    }
}

#[test]
fn init_with_a_dependency_then_enable() {
    let mut l: Lifecycle<TestErr> = Lifecycle::new("Svc".to_string(), 1);
    assert_eq!(l.state(), &ServiceState::Uninitialized);
    assert!(!l.initialized());
    assert_eq!(
        l.step(LifecycleEvent::Start(LifecycleCommand::Init)),
        vec![
            LifecycleAction::Announce(ServiceState::Uninitialized, ServiceState::Initializing),
            LifecycleAction::DescribeDependency(0)
        ]
    );
    assert_eq!(
        l.step(LifecycleEvent::DependencyDescribed(dep("Dep", true, false))),
        vec![LifecycleAction::InitializeDependency(0)]
    );
    assert_eq!(
        l.step(LifecycleEvent::DependencyInitialized(Ok(()))),
        vec![LifecycleAction::RunHook(HookKind::Init)]
    );
    assert_eq!(
        l.step(LifecycleEvent::InitHookFinished(Ok(true))),
        vec![LifecycleAction::RunHook(HookKind::Enable)]
    );
    assert!(l.initialized());
    assert_eq!(
        l.step(LifecycleEvent::HookFinished(Ok(()))),
        vec![
            LifecycleAction::Announce(ServiceState::Initializing, ServiceState::Enabled),
            LifecycleAction::ApplyDeferred(HookKind::Enable),
            LifecycleAction::ApplyDeferred(HookKind::Init),
            LifecycleAction::Finish(Ok(()))
        ]
    );
    assert_eq!(l.state(), &ServiceState::Enabled);
    assert_eq!(l.current_phase(), &LifecyclePhase::Idle);
}

#[test]
fn initialized_dependencies_are_skipped_and_init_can_disable() {
    let mut l: Lifecycle<TestErr> = Lifecycle::new("Svc".to_string(), 2);
    l.step(LifecycleEvent::Start(LifecycleCommand::Enable));
    assert_eq!(
        l.step(LifecycleEvent::DependencyDescribed(dep("Done", true, true))),
        vec![LifecycleAction::DescribeDependency(1)]
    );
    assert_eq!(
        l.step(LifecycleEvent::DependencyDescribed(dep("Plain", false, false))),
        vec![LifecycleAction::RunHook(HookKind::Init)]
    );
    assert_eq!(
        l.step(LifecycleEvent::InitHookFinished(Ok(false))),
        vec![LifecycleAction::RunHook(HookKind::Disable)]
    );
    l.step(LifecycleEvent::HookFinished(Ok(())));
    assert_eq!(l.state(), &ServiceState::Disabled);
}

#[test]
fn a_failed_dependency_fails_the_service() {
    let mut l: Lifecycle<TestErr> = Lifecycle::new("Svc".to_string(), 1);
    l.step(LifecycleEvent::Start(LifecycleCommand::Init));
    l.step(LifecycleEvent::DependencyDescribed(dep("Dep", true, false)));
    let err = ServiceErrorKind::Dependency("Svc".to_string(), "Dep".to_string(), "boom".to_string());
    assert_eq!(
        l.step(LifecycleEvent::DependencyInitialized(Err("boom".to_string()))),
        vec![
            LifecycleAction::RunFailureHook(err.clone()),
            LifecycleAction::Announce(ServiceState::Initializing, ServiceState::Failed(err.clone())),
            LifecycleAction::ApplyDeferred(HookKind::Failure),
            LifecycleAction::Finish(Err(err.clone()))
        ]
    );
    assert_eq!(l.state(), &ServiceState::Failed(err));
    assert!(!l.initialized());
}

#[test]
fn a_failing_init_hook_fails_the_service() {
    let mut l: Lifecycle<TestErr> = Lifecycle::new("Svc".to_string(), 0);
    assert_eq!(
        l.step(LifecycleEvent::Start(LifecycleCommand::Init)),
        vec![
            LifecycleAction::Announce(ServiceState::Uninitialized, ServiceState::Initializing),
            LifecycleAction::RunHook(HookKind::Init)
        ]
    );
    let err = ServiceErrorKind::Own(TestErr::A);
    assert_eq!(
        l.step(LifecycleEvent::InitHookFinished(Err(TestErr::A))),
        vec![
            LifecycleAction::RunFailureHook(err.clone()),
            LifecycleAction::Announce(ServiceState::Initializing, ServiceState::Failed(err.clone())),
            LifecycleAction::ApplyDeferred(HookKind::Failure),
            LifecycleAction::ApplyDeferred(HookKind::Init),
            LifecycleAction::Finish(Err(err.clone()))
        ]
    );
    assert_eq!(l.state(), &ServiceState::Failed(err));
}

#[test]
fn warnings_leave_the_state_alone() {
    let mut l: Lifecycle<TestErr> = Lifecycle::new("Svc".to_string(), 0);
    let err = ServiceErrorKind::Uninitialized("Svc".to_string());
    assert_eq!(
        l.step(LifecycleEvent::Start(LifecycleCommand::Disable)),
        vec![
            LifecycleAction::RunFailureHook(err.clone()),
            LifecycleAction::ApplyDeferred(HookKind::Failure),
            LifecycleAction::Finish(Err(err))
        ]
    );
    assert_eq!(l.state(), &ServiceState::Uninitialized);

    l.step(LifecycleEvent::Start(LifecycleCommand::Init));
    l.step(LifecycleEvent::InitHookFinished(Ok(true)));
    l.step(LifecycleEvent::HookFinished(Ok(())));
    let err = ServiceErrorKind::AlreadyInitialized("Svc".to_string());
    assert_eq!(
        l.step(LifecycleEvent::Start(LifecycleCommand::Init)),
        vec![
            LifecycleAction::RunFailureHook(err.clone()),
            LifecycleAction::ApplyDeferred(HookKind::Failure),
            LifecycleAction::Finish(Err(err))
        ]
    );
    assert_eq!(l.state(), &ServiceState::Enabled);
}

#[test]
fn disable_and_fail_an_initialized_service() {
    let mut l: Lifecycle<TestErr> = Lifecycle::new("Svc".to_string(), 0);
    l.step(LifecycleEvent::Start(LifecycleCommand::Init));
    l.step(LifecycleEvent::InitHookFinished(Ok(true)));
    l.step(LifecycleEvent::HookFinished(Ok(())));
    assert_eq!(
        l.step(LifecycleEvent::Start(LifecycleCommand::Disable)),
        vec![LifecycleAction::RunHook(HookKind::Disable)]
    );
    let err = ServiceErrorKind::Own(TestErr::A);
    assert_eq!(
        l.step(LifecycleEvent::HookFinished(Err(TestErr::A))),
        vec![
            LifecycleAction::RunFailureHook(err.clone()),
            LifecycleAction::Announce(ServiceState::Enabled, ServiceState::Failed(err.clone())),
            LifecycleAction::ApplyDeferred(HookKind::Failure),
            LifecycleAction::ApplyDeferred(HookKind::Disable),
            LifecycleAction::Finish(Err(err.clone()))
        ]
    );
    let other = ServiceErrorKind::AlreadyInitialized("X".to_string());
    assert_eq!(
        l.step(LifecycleEvent::Start(LifecycleCommand::Fail(other.clone()))),
        vec![
            LifecycleAction::RunFailureHook(other.clone()),
            LifecycleAction::Announce(ServiceState::Failed(err), ServiceState::Failed(other.clone())),
            LifecycleAction::ApplyDeferred(HookKind::Failure),
            LifecycleAction::Finish(Ok(()))
        ]
    );
    assert_eq!(l.state(), &ServiceState::Failed(other));
    assert!(l.initialized());
}

#[test]
fn unexpected_events_change_nothing() {
    let mut l: Lifecycle<TestErr> = Lifecycle::new("Svc".to_string(), 0);
    assert_eq!(l.step(LifecycleEvent::HookFinished(Ok(()))), vec![]);
    assert_eq!(l.step(LifecycleEvent::InitHookFinished(Ok(true))), vec![]);
    assert_eq!(l.state(), &ServiceState::Uninitialized);
    assert_eq!(l.current_phase(), &LifecyclePhase::Idle);
    l.step(LifecycleEvent::Start(LifecycleCommand::Init));
    assert_eq!(l.step(LifecycleEvent::Start(LifecycleCommand::Init)), vec![]);
    assert_eq!(l.current_phase(), &LifecyclePhase::AwaitInitHook);
}
