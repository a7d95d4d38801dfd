use qproj::graph::DependencyGraph;
use qproj::lifecycle::{HookKind, Lifecycle, LifecycleAction, LifecycleCommand, LifecycleEvent};
use qproj::service::{ServiceDepInfo, ServiceErrorKind, ServiceHandle, ServiceState};

#[derive(Debug, Clone, Copy, PartialEq)]
enum TestErr {
    A,
}

fn test_err_text(e: &TestErr) -> String {
    match e {
        TestErr::A => "A".to_string(),
    }
}

fn error_text(e: &ServiceErrorKind<TestErr>) -> String {
    match e {
        ServiceErrorKind::Own(e) => test_err_text(e),
        ServiceErrorKind::Dependency(a, b, c) => format!("Dependency {a} of {b} failed with error {c}"),
        ServiceErrorKind::AlreadyInitialized(a) => format!("Service {a} is already initialized."),
        ServiceErrorKind::Uninitialized(a) => format!("Service {a} is uninitialized."),
    }
}

fn display_name(label_type_name: &str) -> String {
    ServiceHandle::<(), (), ()>::const_default().display_name(label_type_name).unwrap()
}

#[derive(Default, Debug, PartialEq)]
struct TestHooks {
    init: bool,
    enable: bool,
    disable: bool,
    fail: bool,
}

/// One service of a test world, driven through its lifecycle.
struct Svc {
    lc: Lifecycle<TestErr>,
    name: String,
    deps: Vec<usize>,
    init: Result<bool, TestErr>,
    disable: Result<(), TestErr>,
    failures: Vec<ServiceErrorKind<TestErr>>,
    changes: Vec<(ServiceState<TestErr>, ServiceState<TestErr>)>,
    hooks: TestHooks,
}

fn svc(label: &str, deps: Vec<usize>) -> Svc {
    let name = display_name(label);
    Svc {
        lc: Lifecycle::new(name.clone(), deps.len()),
        name,
        deps,
        init: Ok(true),
        disable: Ok(()),
        failures: Vec::new(),
        changes: Vec::new(),
        hooks: TestHooks::default(),
    }
}

fn info(world: &[Svc], idx: usize) -> ServiceDepInfo {
    ServiceDepInfo {
        type_id: idx as u64 + 1,
        display_name: world[idx].name.clone(),
        is_initialized: world[idx].lc.initialized(),
        is_service: true,
    }
}

fn run(
    world: &mut Vec<Svc>,
    idx: usize,
    cmd: LifecycleCommand<TestErr>,
    graph: &mut DependencyGraph,
) -> Result<(), ServiceErrorKind<TestErr>> {
    let mut event = LifecycleEvent::Start(cmd);
    loop {
        let mut reply = None;
        let actions = world[idx].lc.step(event);
        for action in actions {
            match action {
                LifecycleAction::RunFailureHook(e) => {
                    world[idx].hooks.fail = true;
                    world[idx].failures.push(e);
                }
                LifecycleAction::Announce(old, new) => world[idx].changes.push((old, new)),
                LifecycleAction::ApplyDeferred(_) => {}
                LifecycleAction::DescribeDependency(i) => {
                    let dep = world[idx].deps[i];
                    reply = Some(LifecycleEvent::DependencyDescribed(info(world, dep)));
                }
                LifecycleAction::InitializeDependency(i) => {
                    let dep = world[idx].deps[i];
                    let result = initialize(world, dep, graph);
                    reply = Some(LifecycleEvent::DependencyInitialized(result));
                }
                LifecycleAction::RunHook(HookKind::Init) => {
                    world[idx].hooks.init = true;
                    reply = Some(LifecycleEvent::InitHookFinished(world[idx].init));
                }
                LifecycleAction::RunHook(HookKind::Enable) => {
                    world[idx].hooks.enable = true;
                    reply = Some(LifecycleEvent::HookFinished(Ok(())));
                }
                LifecycleAction::RunHook(HookKind::Disable) => {
                    world[idx].hooks.disable = true;
                    reply = Some(LifecycleEvent::HookFinished(world[idx].disable));
                }
                LifecycleAction::RunHook(HookKind::Failure) => {}
                LifecycleAction::Finish(result) => return result,
            }
        }
        event = reply.expect("the service is busy");
    }
}

/// Initializes a service as a dependency and registers it in the graph.
fn initialize(world: &mut Vec<Svc>, idx: usize, graph: &mut DependencyGraph) -> Result<(), String> {
    let own = info(world, idx);
    let res = run(world, idx, LifecycleCommand::Init, graph).map_err(|e| {
        format!("Service {} failed to initialize with error {}", own.display_name, error_text(&e))
    });
    let deps: Vec<ServiceDepInfo> = world[idx].deps.clone().into_iter().map(|d| info(world, d)).collect();
    graph
        .register_service(own.type_id, deps)
        .expect("Failed to add dependencies in service spec!");
    graph.services.insert(own.type_id, own);
    res
}

#[test]
fn simple() {
    let world = vec![svc("basic::TestServiceLabel", vec![])];
    assert_eq!(world[0].lc.state(), &ServiceState::Uninitialized);
}

#[test]
fn hook_failure() {
    let mut graph = DependencyGraph::new();
    let mut world = vec![svc("basic::TestServiceLabel", vec![])];
    world[0].init = Err(TestErr::A);
    let _ = run(&mut world, 0, LifecycleCommand::Init, &mut graph);
    assert_eq!(world[0].lc.state(), &ServiceState::Failed(ServiceErrorKind::Own(TestErr::A)));
}

#[test]
fn manual_init() {
    let mut graph = DependencyGraph::new();
    let mut world = vec![svc("basic::TestServiceLabel", vec![])];
    let _ = run(&mut world, 0, LifecycleCommand::Init, &mut graph);
    assert_eq!(world[0].lc.state(), &ServiceState::Enabled);
}

#[test]
fn hooks() {
    let mut graph = DependencyGraph::new();
    let mut world = vec![svc("basic::TestServiceLabel", vec![])];
    world[0].disable = Err(TestErr::A);
    let _ = run(&mut world, 0, LifecycleCommand::Init, &mut graph);
    let _ = run(&mut world, 0, LifecycleCommand::Disable, &mut graph);
    assert_eq!(
        world[0].hooks,
        TestHooks {
            init: true,
            enable: true,
            disable: true,
            fail: true,
        }
    );
}

#[test]
fn events() {
    let mut graph = DependencyGraph::new();
    let mut world = vec![svc("basic::TestServiceLabel", vec![])];
    let mut seen = TestHooks::default();
    let mut queue = vec![LifecycleCommand::Init];
    while !queue.is_empty() {
        let cmd = queue.remove(0);
        let _ = run(&mut world, 0, cmd, &mut graph);
        for (_, new) in world[0].changes.drain(..) {
            match new {
                ServiceState::Initializing => seen.init = true,
                ServiceState::Enabled => {
                    seen.enable = true;
                    queue.push(LifecycleCommand::Disable);
                }
                ServiceState::Disabled => {
                    seen.disable = true;
                    queue.push(LifecycleCommand::Fail(ServiceErrorKind::Own(TestErr::A)));
                }
                ServiceState::Failed(_) => seen.fail = true,
                _ => {}
            }
        }
    }
    assert_eq!(
        seen,
        TestHooks {
            init: true,
            enable: true,
            disable: true,
            fail: true,
        }
    );
}

#[derive(Default, Debug, PartialEq)]
struct Ran {
    service_has_state: bool,
    service_uninitialized: bool,
    service_enabled: bool,
    service_disabled: bool,
    service_failed: bool,
    service_failed_with_error: bool,
}

fn check_conditions(state: &ServiceState<TestErr>, ran: &mut Ran) {
    ran.service_has_state |= *state == ServiceState::Enabled;
    ran.service_uninitialized |= state.is_uninitialized();
    ran.service_enabled |= state.is_enabled();
    ran.service_disabled |= state.is_disabled();
    ran.service_failed |= state.is_failed();
    ran.service_failed_with_error |= *state == ServiceState::Failed(ServiceErrorKind::Own(TestErr::A));
}

#[test]
fn run_conditions() {
    let mut graph = DependencyGraph::new();
    let mut world = vec![svc("basic::TestServiceLabel", vec![])];
    let mut ran = Ran::default();
    check_conditions(world[0].lc.state(), &mut ran);
    for cmd in [
        LifecycleCommand::Init,
        LifecycleCommand::Enable,
        LifecycleCommand::Disable,
        LifecycleCommand::Fail(ServiceErrorKind::Own(TestErr::A)),
    ] {
        let _ = run(&mut world, 0, cmd, &mut graph);
        check_conditions(world[0].lc.state(), &mut ran);
    }
    let all_ok = Ran {
        service_has_state: true,
        service_uninitialized: true,
        service_enabled: true,
        service_disabled: true,
        service_failed: true,
        service_failed_with_error: true,
    };
    assert_eq!(ran, all_ok);
}

#[test]
fn uninitialized() {
    let mut graph = DependencyGraph::new();
    let mut world = vec![svc("basic::TestServiceLabel", vec![])];
    let _ = run(&mut world, 0, LifecycleCommand::Disable, &mut graph); // this should fail.
    let _ = run(&mut world, 0, LifecycleCommand::Enable, &mut graph); // this should initialize.
    let _ = run(&mut world, 0, LifecycleCommand::Init, &mut graph); // this should fail.
    let display_name = display_name("basic::TestServiceLabel");
    assert_eq!(display_name, "TestService");
    assert_eq!(
        world[0].failures,
        vec![
            ServiceErrorKind::Uninitialized(display_name.clone()),
            ServiceErrorKind::AlreadyInitialized(display_name.clone()),
        ]
    );
    assert!(matches!(world[0].lc.state(), ServiceState::Enabled));
}

#[test]
fn dependency_initialization() {
    let mut graph = DependencyGraph::new();
    let mut world = vec![
        svc("deps::TestServiceLabel", vec![1]),
        svc("deps::TestService2Label", vec![2]),
        svc("deps::TestService3Label", vec![]),
    ];
    let _ = run(&mut world, 0, LifecycleCommand::Init, &mut graph);
    assert_eq!(world[0].lc.state(), &ServiceState::Enabled);
    assert_eq!(world[1].lc.state(), &ServiceState::Enabled);
    assert_eq!(world[2].lc.state(), &ServiceState::Enabled);
    assert!(graph._contains_edge(2, 3));
}

#[test]
fn failure_propogation() {
    let mut graph = DependencyGraph::new();
    let mut world = vec![
        svc("deps::TestServiceLabel", vec![1]),
        svc("deps::TestService2Label", vec![2]),
        svc("deps::TestService3Label", vec![]),
    ];
    world[2].init = Err(TestErr::A);
    let _ = run(&mut world, 0, LifecycleCommand::Init, &mut graph);
    let err_str = test_err_text(&TestErr::A);
    match world[0].lc.state() {
        ServiceState::Failed(ServiceErrorKind::Dependency(a, b, e)) => {
            assert_eq!(a, &display_name("deps::TestServiceLabel"));
            assert_eq!(b, &display_name("deps::TestService2Label"));
            assert!(e.contains(&err_str));
        }
        _ => panic!(),
    }
    match world[1].lc.state() {
        ServiceState::Failed(ServiceErrorKind::Dependency(a, b, e)) => {
            assert_eq!(a, &display_name("deps::TestService2Label"));
            assert_eq!(b, &display_name("deps::TestService3Label"));
            assert!(e.contains(&err_str));
        }
        _ => panic!(),
    }
    match world[2].lc.state() {
        ServiceState::Failed(ServiceErrorKind::Own(e)) => {
            assert!(matches!(e, TestErr::A));
        }
        _ => panic!(),
    }
}

#[test]
#[should_panic]
fn deps_fail_on_cycle() {
    let mut graph = DependencyGraph::new();
    let mut world = vec![
        svc("deps::TestServiceLabel", vec![1]),
        svc("deps::TestService2Label", vec![0]),
    ];
    let _ = run(&mut world, 0, LifecycleCommand::Init, &mut graph);
    let _ = run(&mut world, 1, LifecycleCommand::Init, &mut graph);
}
