//! The service lifecycle as a state machine: it takes the commands and the
//! results of the outside work (hooks, dependencies), keeps the service state,
//! and says what to do next.
use vstd::prelude::*;

use crate::service::{ServiceDepInfo, ServiceErrorKind, ServiceState};

verus! {

/// A lifecycle hook.
#[derive(Clone, Copy, Debug, PartialEq, Eq, Structural)]
pub enum HookKind {
    /// Runs on initialization; its result enables or disables the service.
    Init,
    /// Runs when the service is enabled.
    Enable,
    /// Runs when the service is disabled.
    Disable,
    /// Runs when the service fails or is warned.
    Failure,
}

/// A command given to a service.
#[derive(Debug, PartialEq)]
pub enum LifecycleCommand<E> {
    /// Initialize the service.
    Init,
    /// Enable the service, initializing it first when needed.
    Enable,
    /// Disable the service.
    Disable,
    /// Fail the service with the error.
    Fail(ServiceErrorKind<E>),
}

/// What the machine is told: a command, or the result of the outside work
/// that it asked for.
#[derive(Debug, PartialEq)]
pub enum LifecycleEvent<E> {
    /// A command arrives.
    Start(LifecycleCommand<E>),
    /// The description of the dependency asked for.
    DependencyDescribed(ServiceDepInfo),
    /// The dependency asked for was initialized, or failed with the message.
    DependencyInitialized(Result<(), String>),
    /// The init hook returned.
    InitHookFinished(Result<bool, E>),
    /// The enable or disable hook returned.
    HookFinished(Result<(), E>),
}

/// What the machine asks to be done, in order.
#[derive(Debug, PartialEq)]
pub enum LifecycleAction<E> {
    /// Run the failure hook with the error.
    RunFailureHook(ServiceErrorKind<E>),
    /// Announce the change from the first state to the second (state change,
    /// enter and exit events).
    Announce(ServiceState<E>, ServiceState<E>),
    /// Apply the commands deferred by the hook.
    ApplyDeferred(HookKind),
    /// Describe the dependency at this position; answer with
    /// [`LifecycleEvent::DependencyDescribed`].
    DescribeDependency(usize),
    /// Initialize the dependency at this position; answer with
    /// [`LifecycleEvent::DependencyInitialized`].
    InitializeDependency(usize),
    /// Run the init, enable or disable hook; answer with
    /// [`LifecycleEvent::InitHookFinished`] or [`LifecycleEvent::HookFinished`].
    RunHook(HookKind),
    /// The command is done, with this result.
    Finish(Result<(), ServiceErrorKind<E>>),
}

/// Where the machine is within a command.
#[derive(Clone, Debug, PartialEq, Eq)]
pub enum LifecyclePhase {
    /// No command under way.
    Idle,
    /// Waiting for the description of the dependency at this position.
    AwaitDependencyInfo(usize),
    /// Waiting for the dependency at this position, with this display name,
    /// to initialize.
    AwaitDependencyInit(usize, String),
    /// Waiting for the init hook.
    AwaitInitHook,
    /// Waiting for the enable hook; `true` when it runs as part of
    /// initialization.
    AwaitEnableHook(bool),
    /// Waiting for the disable hook; `true` when it runs as part of
    /// initialization.
    AwaitDisableHook(bool),
}

/// The lifecycle of one service.
pub struct Lifecycle<E> {
    state: ServiceState<E>,
    initialized: bool,
    name: String,
    dependency_count: usize,
    phase: LifecyclePhase,
}

impl<E: Clone> LifecycleAction<E> {
    /// `self` is a copy of `other`: the same action, holding copies of its
    /// errors and states.
    pub open spec fn is_copy_of(self, other: Self) -> bool {
        match (self, other) {
            (LifecycleAction::RunFailureHook(a), LifecycleAction::RunFailureHook(b)) => a.is_copy_of(b),
            (LifecycleAction::Announce(a, c), LifecycleAction::Announce(b, d)) => a.is_copy_of(b) && c.is_copy_of(d),
            (LifecycleAction::Finish(Err(a)), LifecycleAction::Finish(Err(b))) => a.is_copy_of(b),
            (LifecycleAction::RunFailureHook(_), _) => false,
            (LifecycleAction::Announce(_, _), _) => false,
            (LifecycleAction::Finish(Err(_)), _) => false,
            _ => self == other,
        }
    }
}

/// Each action of `acts` is a copy of the action of `expected` at its
/// position.
pub open spec fn actions_copy<E: Clone>(acts: Seq<LifecycleAction<E>>, expected: Seq<LifecycleAction<E>>) -> bool {
    &&& acts.len() == expected.len()
    &&& forall|i: int| 0 <= i < acts.len() ==> (#[trigger] acts[i]).is_copy_of(expected[i])
}

impl<E: Clone> Lifecycle<E> {
    /// The current state of the service.
    pub closed spec fn current(self) -> ServiceState<E> {
        self.state
    }

    /// Has this service been initialized?
    pub closed spec fn is_initialized(self) -> bool {
        self.initialized
    }

    /// The display name of the service.
    pub closed spec fn name(self) -> String {
        self.name
    }

    /// The number of dependencies.
    pub closed spec fn dependency_count(self) -> nat {
        self.dependency_count as nat
    }

    /// Where the machine is within a command.
    pub closed spec fn phase(self) -> LifecyclePhase {
        self.phase
    }

    /// `self` is a copy of `other`: the same lifecycle with a copy of its
    /// state.
    pub open spec fn is_copy_of(self, other: Self) -> bool {
        &&& self.current().is_copy_of(other.current())
        &&& self.is_initialized() == other.is_initialized()
        &&& self.name() == other.name()
        &&& self.dependency_count() == other.dependency_count()
        &&& self.phase() == other.phase()
    }

    /// The lifecycle with another state and phase.
    pub closed spec fn with(self, state: ServiceState<E>, phase: LifecyclePhase) -> Self {
        Lifecycle { state, phase, ..self }
    }

    /// The lifecycle, initialized or not.
    pub closed spec fn with_initialized(self, initialized: bool) -> Self {
        Lifecycle { initialized, ..self }
    }

    /// Handling `err`: the failure hook runs with it; unless it is a warning
    /// the service enters the failed state, which is announced; then the
    /// failure hook's deferred commands apply. The machine becomes idle.
    pub open spec fn failure(self, err: ServiceErrorKind<E>, is_warning: bool) -> (Self, Seq<LifecycleAction<E>>) {
        if is_warning {
            (
                self.with(self.current(), LifecyclePhase::Idle),
                seq![LifecycleAction::RunFailureHook(err), LifecycleAction::ApplyDeferred(HookKind::Failure)],
            )
        } else {
            (
                self.with(ServiceState::Failed(err), LifecyclePhase::Idle),
                seq![
                    LifecycleAction::RunFailureHook(err),
                    LifecycleAction::Announce(self.current(), ServiceState::Failed(err)),
                    LifecycleAction::ApplyDeferred(HookKind::Failure),
                ],
            )
        }
    }

    /// Moving on to the dependency at position `j`, or to the init hook when
    /// all dependencies are done.
    pub open spec fn next_dependency(self, j: nat) -> (Self, Seq<LifecycleAction<E>>) {
        if j < self.dependency_count() {
            (
                self.with(self.current(), LifecyclePhase::AwaitDependencyInfo(j as usize)),
                seq![LifecycleAction::DescribeDependency(j as usize)],
            )
        } else {
            (self.with(self.current(), LifecyclePhase::AwaitInitHook), seq![LifecycleAction::RunHook(HookKind::Init)])
        }
    }

    /// Starting initialization: an initialized service is warned with
    /// `AlreadyInitialized`; otherwise it enters `Initializing`, which is
    /// announced, and goes on to its first dependency.
    pub open spec fn begin_init(self) -> (Self, Seq<LifecycleAction<E>>) {
        if self.is_initialized() {
            let err = ServiceErrorKind::AlreadyInitialized(self.name());
            let (s, a) = self.failure(err, true);
            (s, a.push(LifecycleAction::Finish(Err(err))))
        } else {
            let entered = self.with(ServiceState::Initializing, self.phase());
            let (s, a) = entered.next_dependency(0);
            (s, seq![LifecycleAction::Announce(self.current(), ServiceState::Initializing)] + a)
        }
    }

    /// Starting a command.
    pub open spec fn command(self, cmd: LifecycleCommand<E>) -> (Self, Seq<LifecycleAction<E>>) {
        match cmd {
            LifecycleCommand::Init => self.begin_init(),
            LifecycleCommand::Enable => if !self.is_initialized() {
                self.begin_init()
            } else {
                (
                    self.with(self.current(), LifecyclePhase::AwaitEnableHook(false)),
                    seq![LifecycleAction::RunHook(HookKind::Enable)],
                )
            },
            LifecycleCommand::Disable => if !self.is_initialized() {
                let err = ServiceErrorKind::Uninitialized(self.name());
                let (s, a) = self.failure(err, true);
                (s, a.push(LifecycleAction::Finish(Err(err))))
            } else {
                (
                    self.with(self.current(), LifecyclePhase::AwaitDisableHook(false)),
                    seq![LifecycleAction::RunHook(HookKind::Disable)],
                )
            },
            LifecycleCommand::Fail(err) => {
                let (s, a) = self.failure(err, false);
                (s, a.push(LifecycleAction::Finish(Ok(()))))
            },
        }
    }

    /// The deferred commands of the hook, then those of the init hook when
    /// the hook ran as part of initialization.
    pub open spec fn deferred(hook: HookKind, inside_init: bool) -> Seq<LifecycleAction<E>> {
        if inside_init {
            seq![LifecycleAction::ApplyDeferred(hook), LifecycleAction::ApplyDeferred(HookKind::Init)]
        } else {
            seq![LifecycleAction::ApplyDeferred(hook)]
        }
    }

    /// The enable or disable hook returned: on success the service enters
    /// `target`, which is announced; on error it fails with its own error.
    pub open spec fn hook_done(
        self,
        res: Result<(), E>,
        hook: HookKind,
        target: ServiceState<E>,
        inside_init: bool,
    ) -> (Self, Seq<LifecycleAction<E>>) {
        match res {
            Ok(()) => (
                self.with(target, LifecyclePhase::Idle),
                seq![LifecycleAction::Announce(self.current(), target)] + Self::deferred(hook, inside_init).push(
                    LifecycleAction::Finish(Ok(())),
                ),
            ),
            Err(e) => {
                let err = ServiceErrorKind::Own(e);
                let (s, a) = self.failure(err, false);
                (s, a + Self::deferred(hook, inside_init).push(LifecycleAction::Finish(Err(err))))
            },
        }
    }

    /// The next lifecycle and the actions to take, for each phase and event;
    /// an event that the phase does not wait for changes nothing.
    pub open spec fn transition(self, event: LifecycleEvent<E>) -> (Self, Seq<LifecycleAction<E>>) {
        match (self.phase(), event) {
            (LifecyclePhase::Idle, LifecycleEvent::Start(cmd)) => self.command(cmd),
            (LifecyclePhase::AwaitDependencyInfo(i), LifecycleEvent::DependencyDescribed(info)) => {
                if info.is_service && !info.is_initialized {
                    (
                        self.with(self.current(), LifecyclePhase::AwaitDependencyInit(i, info.display_name)),
                        seq![LifecycleAction::InitializeDependency(i)],
                    )
                } else {
                    self.next_dependency((i + 1) as nat)
                }
            },
            (LifecyclePhase::AwaitDependencyInit(i, _), LifecycleEvent::DependencyInitialized(Ok(()))) => {
                self.next_dependency((i + 1) as nat)
            },
            (LifecyclePhase::AwaitDependencyInit(_, dep), LifecycleEvent::DependencyInitialized(Err(msg))) => {
                let err = ServiceErrorKind::Dependency(self.name(), dep, msg);
                let (s, a) = self.failure(err, false);
                (s, a.push(LifecycleAction::Finish(Err(err))))
            },
            (LifecyclePhase::AwaitInitHook, LifecycleEvent::InitHookFinished(Ok(enable))) => {
                let done = self.with_initialized(true);
                if enable {
                    (
                        done.with(self.current(), LifecyclePhase::AwaitEnableHook(true)),
                        seq![LifecycleAction::RunHook(HookKind::Enable)],
                    )
                } else {
                    (
                        done.with(self.current(), LifecyclePhase::AwaitDisableHook(true)),
                        seq![LifecycleAction::RunHook(HookKind::Disable)],
                    )
                }
            },
            (LifecyclePhase::AwaitInitHook, LifecycleEvent::InitHookFinished(Err(e))) => {
                let err = ServiceErrorKind::Own(e);
                let (s, a) = self.failure(err, false);
                (s, a + seq![LifecycleAction::ApplyDeferred(HookKind::Init), LifecycleAction::Finish(Err(err))])
            },
            (LifecyclePhase::AwaitEnableHook(inner), LifecycleEvent::HookFinished(res)) => {
                self.hook_done(res, HookKind::Enable, ServiceState::Enabled, inner)
            },
            (LifecyclePhase::AwaitDisableHook(inner), LifecycleEvent::HookFinished(res)) => {
                self.hook_done(res, HookKind::Disable, ServiceState::Disabled, inner)
            },
            _ => (self, Seq::empty()),
        }
    }
}

/// Copies of actions, in sequence, are copies of the sequence.
proof fn lemma_actions_copy_concat<E: Clone>(
    a1: Seq<LifecycleAction<E>>,
    e1: Seq<LifecycleAction<E>>,
    a2: Seq<LifecycleAction<E>>,
    e2: Seq<LifecycleAction<E>>,
)
    requires
        actions_copy(a1, e1),
        actions_copy(a2, e2),
    ensures
        actions_copy(a1 + a2, e1 + e2),
{
    assert forall|i: int| 0 <= i < (a1 + a2).len() implies #[trigger] (a1 + a2)[i].is_copy_of((e1 + e2)[i]) by {
        if i < a1.len() {
            assert(a1[i].is_copy_of(e1[i]));
        } else {
            assert(a2[i - a1.len()].is_copy_of(e2[i - a1.len()]));
        }
    }
}

impl<E: Clone> Lifecycle<E> {
    /// A new lifecycle for the service with this display name and number of
    /// dependencies: uninitialized, with no command under way.
    pub fn new(name: String, dependency_count: usize) -> (r: Self)
        ensures
            r.current() == ServiceState::<E>::Uninitialized,
            !r.is_initialized(),
            r.name() == name,
            r.dependency_count() == dependency_count,
            r.phase() == LifecyclePhase::Idle,
    {
        Lifecycle {
            state: ServiceState::Uninitialized,
            initialized: false,
            name,
            dependency_count,
            phase: LifecyclePhase::Idle,
        }
    }

    /// The current state of the service.
    pub fn state(&self) -> (r: &ServiceState<E>)
        ensures
            *r == self.current(),
    {
        &self.state
    }

    /// Has this service been initialized?
    pub fn initialized(&self) -> (r: bool)
        ensures
            r == self.is_initialized(),
    {
        self.initialized
    }

    /// Where the machine is within a command.
    pub fn current_phase(&self) -> (r: &LifecyclePhase)
        ensures
            *r == self.phase(),
    {
        &self.phase
    }

    /// Enters `new`, giving back the state that was left.
    fn enter(&mut self, new: ServiceState<E>) -> (left: ServiceState<E>)
        ensures
            left == old(self).current(),
            *final(self) == old(self).with(new, old(self).phase()),
    {
        let mut st = new;
        std::mem::swap(&mut self.state, &mut st);
        st
    }

    fn failure_exec(&mut self, err: &ServiceErrorKind<E>, is_warning: bool) -> (r: Vec<LifecycleAction<E>>)
        ensures
            final(self).is_copy_of(old(self).failure(*err, is_warning).0),
            actions_copy(r@, old(self).failure(*err, is_warning).1),
    {
        let mut acts: Vec<LifecycleAction<E>> = Vec::new();
        acts.push(LifecycleAction::RunFailureHook(err.duplicate()));
        if !is_warning {
            let left = self.enter(ServiceState::Failed(err.duplicate()));
            acts.push(LifecycleAction::Announce(left, ServiceState::Failed(err.duplicate())));
        }
        self.phase = LifecyclePhase::Idle;
        acts.push(LifecycleAction::ApplyDeferred(HookKind::Failure));
        acts
    }

    fn after_dependency_exec(&mut self, i: usize) -> (r: Vec<LifecycleAction<E>>)
        ensures
            *final(self) == old(self).next_dependency((i + 1) as nat).0,
            r@ == old(self).next_dependency((i + 1) as nat).1,
    {
        let mut acts: Vec<LifecycleAction<E>> = Vec::new();
        if i < self.dependency_count && i + 1 < self.dependency_count {
            self.phase = LifecyclePhase::AwaitDependencyInfo(i + 1);
            acts.push(LifecycleAction::DescribeDependency(i + 1));
            proof {
                assert(acts@ =~= seq![LifecycleAction::DescribeDependency((i + 1) as usize)]);
            }
        } else {
            self.phase = LifecyclePhase::AwaitInitHook;
            acts.push(LifecycleAction::RunHook(HookKind::Init));
            proof {
                assert(acts@ =~= seq![LifecycleAction::RunHook(HookKind::Init)]);
            }
        }
        acts
    }

    fn next_dependency_exec(&mut self, j: usize) -> (r: Vec<LifecycleAction<E>>)
        ensures
            *final(self) == old(self).next_dependency(j as nat).0,
            r@ == old(self).next_dependency(j as nat).1,
    {
        if j < self.dependency_count {
            self.phase = LifecyclePhase::AwaitDependencyInfo(j);
            let mut acts: Vec<LifecycleAction<E>> = Vec::new();
            acts.push(LifecycleAction::DescribeDependency(j));
            proof {
                assert(acts@ =~= seq![LifecycleAction::DescribeDependency(j)]);
            }
            acts
        } else {
            self.phase = LifecyclePhase::AwaitInitHook;
            let mut acts: Vec<LifecycleAction<E>> = Vec::new();
            acts.push(LifecycleAction::RunHook(HookKind::Init));
            proof {
                assert(acts@ =~= seq![LifecycleAction::RunHook(HookKind::Init)]);
            }
            acts
        }
    }
}

impl<E: Clone> Lifecycle<E> {
    fn warn_and_finish(&mut self, err: ServiceErrorKind<E>) -> (r: Vec<LifecycleAction<E>>)
        ensures
            final(self).is_copy_of(old(self).failure(err, true).0),
            actions_copy(r@, old(self).failure(err, true).1.push(LifecycleAction::Finish(Err(err)))),
    {
        let mut acts = self.failure_exec(&err, true);
        let ghost a0 = acts@;
        acts.push(LifecycleAction::Finish(Err(err)));
        proof {
            lemma_actions_copy_concat(a0, old(self).failure(err, true).1, seq![LifecycleAction::Finish(Err(err))], seq![LifecycleAction::Finish(Err(err))]);
            assert(acts@ =~= a0 + seq![LifecycleAction::Finish(Err(err))]);
            assert(old(self).failure(err, true).1.push(LifecycleAction::Finish(Err(err))) =~= old(self).failure(err, true).1 + seq![LifecycleAction::Finish(Err(err))]);
        }
        acts
    }

    fn fail_and_finish(&mut self, err: ServiceErrorKind<E>, finish: Result<(), ServiceErrorKind<E>>) -> (r: Vec<LifecycleAction<E>>)
        ensures
            final(self).is_copy_of(old(self).failure(err, false).0),
            actions_copy(r@, old(self).failure(err, false).1.push(LifecycleAction::Finish(finish))),
    {
        let mut acts = self.failure_exec(&err, false);
        let ghost a0 = acts@;
        acts.push(LifecycleAction::Finish(finish));
        proof {
            lemma_actions_copy_concat(a0, old(self).failure(err, false).1, seq![LifecycleAction::Finish(finish)], seq![LifecycleAction::Finish(finish)]);
            assert(acts@ =~= a0 + seq![LifecycleAction::Finish(finish)]);
            assert(old(self).failure(err, false).1.push(LifecycleAction::Finish(finish)) =~= old(self).failure(err, false).1 + seq![LifecycleAction::Finish(finish)]);
        }
        acts
    }

    fn begin_init_exec(&mut self) -> (r: Vec<LifecycleAction<E>>)
        ensures
            final(self).is_copy_of(old(self).begin_init().0),
            actions_copy(r@, old(self).begin_init().1),
    {
        if self.initialized {
            let err = ServiceErrorKind::AlreadyInitialized(self.name.clone());
            self.warn_and_finish(err)
        } else {
            let left = self.enter(ServiceState::Initializing);
            let mut acts: Vec<LifecycleAction<E>> = Vec::new();
            acts.push(LifecycleAction::Announce(left, ServiceState::Initializing));
            let mut rest = self.next_dependency_exec(0);
            let ghost a0 = acts@;
            let ghost r0 = rest@;
            acts.append(&mut rest);
            proof {
                let head = seq![LifecycleAction::Announce(old(self).current(), ServiceState::<E>::Initializing)];
                assert(a0 =~= head);
                assert(actions_copy(a0, head));
                assert(actions_copy(r0, r0));
                lemma_actions_copy_concat(a0, head, r0, r0);
            }
            acts
        }
    }

    fn command_exec(&mut self, cmd: LifecycleCommand<E>) -> (r: Vec<LifecycleAction<E>>)
        ensures
            final(self).is_copy_of(old(self).command(cmd).0),
            actions_copy(r@, old(self).command(cmd).1),
    {
        match cmd {
            LifecycleCommand::Init => self.begin_init_exec(),
            LifecycleCommand::Enable => {
                if !self.initialized {
                    self.begin_init_exec()
                } else {
                    self.phase = LifecyclePhase::AwaitEnableHook(false);
                    let mut acts: Vec<LifecycleAction<E>> = Vec::new();
                    acts.push(LifecycleAction::RunHook(HookKind::Enable));
                    proof {
                        assert(acts@ =~= seq![LifecycleAction::RunHook(HookKind::Enable)]);
                    }
                    acts
                }
            },
            LifecycleCommand::Disable => {
                if !self.initialized {
                    let err = ServiceErrorKind::Uninitialized(self.name.clone());
                    self.warn_and_finish(err)
                } else {
                    self.phase = LifecyclePhase::AwaitDisableHook(false);
                    let mut acts: Vec<LifecycleAction<E>> = Vec::new();
                    acts.push(LifecycleAction::RunHook(HookKind::Disable));
                    proof {
                        assert(acts@ =~= seq![LifecycleAction::RunHook(HookKind::Disable)]);
                    }
                    acts
                }
            },
            LifecycleCommand::Fail(err) => self.fail_and_finish(err, Ok(())),
        }
    }

    fn push_deferred(acts: &mut Vec<LifecycleAction<E>>, hook: HookKind, inside_init: bool)
        ensures
            final(acts)@ == old(acts)@ + Self::deferred(hook, inside_init),
    {
        acts.push(LifecycleAction::ApplyDeferred(hook));
        if inside_init {
            acts.push(LifecycleAction::ApplyDeferred(HookKind::Init));
        }
        proof {
            assert(final(acts)@ =~= old(acts)@ + Self::deferred(hook, inside_init));
        }
    }
}

impl<E: Clone> Lifecycle<E> {
    fn hook_done_exec(
        &mut self,
        res: Result<(), E>,
        hook: HookKind,
        target: ServiceState<E>,
        inside_init: bool,
    ) -> (r: Vec<LifecycleAction<E>>)
        requires
            target == ServiceState::<E>::Enabled || target == ServiceState::<E>::Disabled,
        ensures
            final(self).is_copy_of(old(self).hook_done(res, hook, target, inside_init).0),
            actions_copy(r@, old(self).hook_done(res, hook, target, inside_init).1),
    {
        match res {
            Ok(()) => {
                let announced = target.duplicate();
                let left = self.enter(target);
                self.phase = LifecyclePhase::Idle;
                let mut acts: Vec<LifecycleAction<E>> = Vec::new();
                acts.push(LifecycleAction::Announce(left, announced));
                Self::push_deferred(&mut acts, hook, inside_init);
                acts.push(LifecycleAction::Finish(Ok(())));
                proof {
                    let expected = old(self).hook_done(res, hook, target, inside_init).1;
                    assert(acts@ =~= expected);
                }
                acts
            },
            Err(e) => {
                let err = ServiceErrorKind::Own(e);
                let ghost spec_err = err;
                let mut acts = self.failure_exec(&err, false);
                let ghost a0 = acts@;
                let mut tail: Vec<LifecycleAction<E>> = Vec::new();
                Self::push_deferred(&mut tail, hook, inside_init);
                tail.push(LifecycleAction::Finish(Err(err)));
                let ghost t0 = tail@;
                acts.append(&mut tail);
                proof {
                    let expected_tail = Self::deferred(hook, inside_init).push(LifecycleAction::Finish(Err(spec_err)));
                    assert(t0 =~= expected_tail);
                    assert(actions_copy(t0, expected_tail));
                    lemma_actions_copy_concat(a0, old(self).failure(spec_err, false).1, t0, expected_tail);
                }
                acts
            },
        }
    }

    /// Takes one event: the lifecycle moves on and says what to do next.
    /// The errors and states in the actions, and a failed state, are copies
    /// of those that the transition names.
    pub fn step(&mut self, event: LifecycleEvent<E>) -> (r: Vec<LifecycleAction<E>>)
        ensures
            final(self).is_copy_of(old(self).transition(event).0),
            actions_copy(r@, old(self).transition(event).1),
    {
        let mut phase = LifecyclePhase::Idle;
        std::mem::swap(&mut self.phase, &mut phase);
        let ghost s0 = *old(self);
        proof {
            assert(*self == s0.with(s0.current(), LifecyclePhase::Idle));
        }
        match (phase, event) {
            (LifecyclePhase::Idle, LifecycleEvent::Start(cmd)) => self.command_exec(cmd),
            (LifecyclePhase::AwaitDependencyInfo(i), LifecycleEvent::DependencyDescribed(info)) => {
                if info.is_service && !info.is_initialized {
                    self.phase = LifecyclePhase::AwaitDependencyInit(i, info.display_name);
                    let mut acts: Vec<LifecycleAction<E>> = Vec::new();
                    acts.push(LifecycleAction::InitializeDependency(i));
                    proof {
                        assert(acts@ =~= seq![LifecycleAction::InitializeDependency(i)]);
                    }
                    acts
                } else {
                    self.after_dependency_exec(i)
                }
            },
            (LifecyclePhase::AwaitDependencyInit(i, dep), LifecycleEvent::DependencyInitialized(res)) => {
                match res {
                    Ok(()) => self.after_dependency_exec(i),
                    Err(msg) => {
                        let err = ServiceErrorKind::Dependency(self.name.clone(), dep, msg);
                        let ghost spec_err = err;
                        let mut acts = self.failure_exec(&err, false);
                        let ghost a0 = acts@;
                        acts.push(LifecycleAction::Finish(Err(err)));
                        proof {
                            lemma_actions_copy_concat(
                                a0,
                                s0.failure(spec_err, false).1,
                                seq![LifecycleAction::Finish(Err(spec_err))],
                                seq![LifecycleAction::Finish(Err(spec_err))],
                            );
                            assert(acts@ =~= a0 + seq![LifecycleAction::Finish(Err(spec_err))]);
                            assert(s0.failure(spec_err, false).1.push(LifecycleAction::Finish(Err(spec_err)))
                                =~= s0.failure(spec_err, false).1 + seq![LifecycleAction::Finish(Err(spec_err))]);
                        }
                        acts
                    },
                }
            },
            (LifecyclePhase::AwaitInitHook, LifecycleEvent::InitHookFinished(res)) => {
                match res {
                    Ok(enable) => {
                        self.initialized = true;
                        let mut acts: Vec<LifecycleAction<E>> = Vec::new();
                        if enable {
                            self.phase = LifecyclePhase::AwaitEnableHook(true);
                            acts.push(LifecycleAction::RunHook(HookKind::Enable));
                        } else {
                            self.phase = LifecyclePhase::AwaitDisableHook(true);
                            acts.push(LifecycleAction::RunHook(HookKind::Disable));
                        }
                        proof {
                            assert(acts@ =~= s0.transition(LifecycleEvent::InitHookFinished(Ok(enable))).1);
                        }
                        acts
                    },
                    Err(e) => {
                        let err = ServiceErrorKind::Own(e);
                        let ghost spec_err = err;
                        let mut acts = self.failure_exec(&err, false);
                        let ghost a0 = acts@;
                        let mut tail: Vec<LifecycleAction<E>> = Vec::new();
                        tail.push(LifecycleAction::ApplyDeferred(HookKind::Init));
                        tail.push(LifecycleAction::Finish(Err(err)));
                        let ghost t0 = tail@;
                        acts.append(&mut tail);
                        proof {
                            let expected_tail = seq![
                                LifecycleAction::ApplyDeferred(HookKind::Init),
                                LifecycleAction::Finish(Err(spec_err)),
                            ];
                            assert(t0 =~= expected_tail);
                            assert(actions_copy(t0, expected_tail));
                            lemma_actions_copy_concat(a0, s0.failure(spec_err, false).1, t0, expected_tail);
                        }
                        acts
                    },
                }
            },
            (LifecyclePhase::AwaitEnableHook(inner), LifecycleEvent::HookFinished(res)) => {
                self.hook_done_exec(res, HookKind::Enable, ServiceState::Enabled, inner)
            },
            (LifecyclePhase::AwaitDisableHook(inner), LifecycleEvent::HookFinished(res)) => {
                self.hook_done_exec(res, HookKind::Disable, ServiceState::Disabled, inner)
            },
            (phase, _) => {
                self.phase = phase;
                Vec::new()
            },
        }
    }
}

/// A warning leaves the state alone: initializing an initialized service
/// or disabling an uninitialized one runs the failure hook and finishes with
/// `AlreadyInitialized` or `Uninitialized`, and the state stays as it was.
pub proof fn lemma_warnings_keep_state<E: Clone>(l: Lifecycle<E>, cmd: LifecycleCommand<E>)
    requires
        l.phase() == LifecyclePhase::Idle,
        (cmd is Init && l.is_initialized()) || (cmd is Disable && !l.is_initialized()),
    ensures
        l.transition(LifecycleEvent::Start(cmd)).0.current() == l.current(),
        l.transition(LifecycleEvent::Start(cmd)).0.phase() == LifecyclePhase::Idle,
        l.transition(LifecycleEvent::Start(cmd)).1 == seq![
            LifecycleAction::RunFailureHook(
                if cmd is Init {
                    ServiceErrorKind::<E>::AlreadyInitialized(l.name())
                } else {
                    ServiceErrorKind::<E>::Uninitialized(l.name())
                },
            ),
            LifecycleAction::ApplyDeferred(HookKind::Failure),
            LifecycleAction::Finish(
                Err(
                    if cmd is Init {
                        ServiceErrorKind::<E>::AlreadyInitialized(l.name())
                    } else {
                        ServiceErrorKind::<E>::Uninitialized(l.name())
                    },
                ),
            ),
        ],
{
    let (n, a) = l.transition(LifecycleEvent::Start(cmd));
    assert(a =~= l.transition(LifecycleEvent::Start(cmd)).1);
}

/// Once initialized, a service stays initialized; and only a successful
/// init hook initializes it.
pub proof fn lemma_initialized_monotone<E: Clone>(l: Lifecycle<E>, event: LifecycleEvent<E>)
    ensures
        l.is_initialized() ==> l.transition(event).0.is_initialized(),
        !l.is_initialized() && l.transition(event).0.is_initialized() ==> l.phase() == LifecyclePhase::AwaitInitHook
            && (event matches LifecycleEvent::InitHookFinished(Ok(_))),
{
}

/// A step announces at most one state change, and the change it announces
/// goes from the state before the step to the state after it.
pub proof fn lemma_announcements_chain<E: Clone>(l: Lifecycle<E>, event: LifecycleEvent<E>)
    ensures
        forall|i: int|
            0 <= i < l.transition(event).1.len() && (#[trigger] l.transition(event).1[i]) is Announce
                ==> l.transition(event).1[i] == LifecycleAction::Announce(l.current(), l.transition(event).0.current()),
        forall|i: int, j: int|
            0 <= i < j < l.transition(event).1.len() && (#[trigger] l.transition(event).1[i]) is Announce
                ==> !((#[trigger] l.transition(event).1[j]) is Announce),
{
    let (n, acts) = l.transition(event);
    assert forall|i: int| 0 <= i < acts.len() && (#[trigger] acts[i]) is Announce implies acts[i]
        == LifecycleAction::Announce(l.current(), n.current()) by {
        lemma_transition_cases(l, event);
    }
    assert forall|i: int, j: int| 0 <= i < j < acts.len() && (#[trigger] acts[i]) is Announce implies !((
    #[trigger] acts[j]) is Announce) by {
        lemma_transition_cases(l, event);
    }
}

/// The shapes of the action lists that a step gives.
proof fn lemma_transition_cases<E: Clone>(l: Lifecycle<E>, event: LifecycleEvent<E>)
    ensures
        ({
            let (n, acts) = l.transition(event);
            ||| acts.len() == 0
            ||| (forall|i: int| 0 <= i < acts.len() ==> !((#[trigger] acts[i]) is Announce))
            ||| (acts[0] == LifecycleAction::Announce(l.current(), n.current()) && forall|i: int|
                1 <= i < acts.len() ==> !((#[trigger] acts[i]) is Announce))
            ||| (acts[1] == LifecycleAction::Announce(l.current(), n.current()) && !(acts[0] is Announce)
                && forall|i: int| 2 <= i < acts.len() ==> !((#[trigger] acts[i]) is Announce))
        }),
{
    let (n, acts) = l.transition(event);
    match (l.phase(), event) {
        (LifecyclePhase::Idle, LifecycleEvent::Start(cmd)) => {
            if !(cmd is Fail) && !l.is_initialized() && !(cmd is Disable) {
                let entered = l.with(ServiceState::Initializing, l.phase());
                let (s, a) = entered.next_dependency(0);
                assert(acts == seq![LifecycleAction::Announce(l.current(), ServiceState::<E>::Initializing)] + a);
                assert(forall|i: int| 1 <= i < acts.len() ==> !((#[trigger] acts[i]) is Announce));
            }
        },
        _ => {},
    }
}

/// A step that is not ignored ends the command exactly when its last action
/// is `Finish`; an event that the phase does not wait for changes nothing.
pub proof fn lemma_finish_ends_command<E: Clone>(l: Lifecycle<E>, event: LifecycleEvent<E>)
    ensures
        l.transition(event).1.len() == 0 ==> l.transition(event).0 == l,
        l.transition(event).1.len() > 0 ==> (l.transition(event).0.phase() == LifecyclePhase::Idle
            <==> l.transition(event).1.last() is Finish),
        forall|i: int| 0 <= i < l.transition(event).1.len() - 1 ==> !((#[trigger] l.transition(event).1[i]) is Finish),
{
}

/// A lifecycle with another state and phase holds them, and keeps whether it
/// is initialized, its name and its dependency count.
pub proof fn lemma_with<E: Clone>(l: Lifecycle<E>, state: ServiceState<E>, phase: LifecyclePhase)
    ensures
        l.with(state, phase).current() == state,
        l.with(state, phase).phase() == phase,
        l.with(state, phase).is_initialized() == l.is_initialized(),
        l.with(state, phase).name() == l.name(),
        l.with(state, phase).dependency_count() == l.dependency_count(),
{
}

/// A lifecycle marked initialized or not keeps its state, phase, name and
/// dependency count.
pub proof fn lemma_with_initialized<E: Clone>(l: Lifecycle<E>, initialized: bool)
    ensures
        l.with_initialized(initialized).is_initialized() == initialized,
        l.with_initialized(initialized).current() == l.current(),
        l.with_initialized(initialized).phase() == l.phase(),
        l.with_initialized(initialized).name() == l.name(),
        l.with_initialized(initialized).dependency_count() == l.dependency_count(),
{
}

/// When its enable hook succeeds, a service is enabled; when its disable
/// hook succeeds, it is disabled. Either way the command is over, and the
/// service stays initialized.
pub proof fn lemma_hook_success<E: Clone>(l: Lifecycle<E>)
    ensures
        l.phase() is AwaitEnableHook ==> l.transition(LifecycleEvent::HookFinished(Ok(()))).0.current()
            is Enabled,
        l.phase() is AwaitDisableHook ==> l.transition(LifecycleEvent::HookFinished(Ok(()))).0.current()
            is Disabled,
        l.phase() is AwaitEnableHook || l.phase() is AwaitDisableHook ==> {
            let next = l.transition(LifecycleEvent::HookFinished(Ok(()))).0;
            &&& next.phase() == LifecyclePhase::Idle
            &&& next.is_initialized() == l.is_initialized()
            &&& next.name() == l.name()
        },
{
}

/// Enabling an initialized, idle service runs its enable hook; when the
/// hook succeeds the service is enabled, whatever its state was, the change
/// is announced, the hook's deferred commands apply and the command
/// succeeds.
pub proof fn lemma_enable_initialized<E: Clone>(l: Lifecycle<E>)
    requires
        l.phase() == LifecyclePhase::Idle,
        l.is_initialized(),
    ensures
        ({
            let (s1, a1) = l.transition(LifecycleEvent::Start(LifecycleCommand::Enable));
            let (s2, a2) = s1.transition(LifecycleEvent::HookFinished(Ok(())));
            &&& s1.phase() == LifecyclePhase::AwaitEnableHook(false)
            &&& s1.current() == l.current()
            &&& a1 == seq![LifecycleAction::<E>::RunHook(HookKind::Enable)]
            &&& s2.current() == ServiceState::<E>::Enabled
            &&& s2.phase() == LifecyclePhase::Idle
            &&& s2.is_initialized()
            &&& a2 == seq![
                LifecycleAction::Announce(l.current(), ServiceState::<E>::Enabled),
                LifecycleAction::ApplyDeferred(HookKind::Enable),
                LifecycleAction::Finish(Ok(())),
            ]
        }),
{
    let (s1, a1) = l.transition(LifecycleEvent::Start(LifecycleCommand::Enable));
    let (s2, a2) = s1.transition(LifecycleEvent::HookFinished(Ok(())));
    assert(a2 =~= seq![
        LifecycleAction::Announce(l.current(), ServiceState::<E>::Enabled),
        LifecycleAction::ApplyDeferred(HookKind::Enable),
        LifecycleAction::Finish(Ok(())),
    ]);
}

/// Disabling an initialized, idle service runs its disable hook; when the
/// hook succeeds the service is disabled, whatever its state was, the change
/// is announced, the hook's deferred commands apply and the command
/// succeeds.
pub proof fn lemma_disable_initialized<E: Clone>(l: Lifecycle<E>)
    requires
        l.phase() == LifecyclePhase::Idle,
        l.is_initialized(),
    ensures
        ({
            let (s1, a1) = l.transition(LifecycleEvent::Start(LifecycleCommand::Disable));
            let (s2, a2) = s1.transition(LifecycleEvent::HookFinished(Ok(())));
            &&& s1.phase() == LifecyclePhase::AwaitDisableHook(false)
            &&& s1.current() == l.current()
            &&& a1 == seq![LifecycleAction::<E>::RunHook(HookKind::Disable)]
            &&& s2.current() == ServiceState::<E>::Disabled
            &&& s2.phase() == LifecyclePhase::Idle
            &&& s2.is_initialized()
            &&& a2 == seq![
                LifecycleAction::Announce(l.current(), ServiceState::<E>::Disabled),
                LifecycleAction::ApplyDeferred(HookKind::Disable),
                LifecycleAction::Finish(Ok(())),
            ]
        }),
{
    let (s1, a1) = l.transition(LifecycleEvent::Start(LifecycleCommand::Disable));
    let (s2, a2) = s1.transition(LifecycleEvent::HookFinished(Ok(())));
    assert(a2 =~= seq![
        LifecycleAction::Announce(l.current(), ServiceState::<E>::Disabled),
        LifecycleAction::ApplyDeferred(HookKind::Disable),
        LifecycleAction::Finish(Ok(())),
    ]);
}

/// When the init hook succeeds, whichever it asks for, the service is
/// initialized from then on and its enable hook (when the hook asked to
/// enable) or its disable hook runs; when that hook succeeds too, the
/// service is enabled or disabled accordingly, still initialized and idle.
pub proof fn lemma_init_hook_succeeds<E: Clone>(l: Lifecycle<E>, enable: bool)
    requires
        l.phase() == LifecyclePhase::AwaitInitHook,
    ensures
        ({
            let (s1, a1) = l.transition(LifecycleEvent::InitHookFinished(Ok(enable)));
            let (s2, a2) = s1.transition(LifecycleEvent::HookFinished(Ok(())));
            let hook = if enable {
                HookKind::Enable
            } else {
                HookKind::Disable
            };
            let target = if enable {
                ServiceState::<E>::Enabled
            } else {
                ServiceState::<E>::Disabled
            };
            &&& s1.is_initialized()
            &&& s1.current() == l.current()
            &&& a1 == seq![LifecycleAction::<E>::RunHook(hook)]
            &&& s2.is_initialized()
            &&& s2.current() == target
            &&& s2.phase() == LifecyclePhase::Idle
            &&& a2 == seq![
                LifecycleAction::Announce(l.current(), target),
                LifecycleAction::ApplyDeferred(hook),
                LifecycleAction::ApplyDeferred(HookKind::Init),
                LifecycleAction::Finish(Ok(())),
            ]
        }),
{
    let (s1, a1) = l.transition(LifecycleEvent::InitHookFinished(Ok(enable)));
    let (s2, a2) = s1.transition(LifecycleEvent::HookFinished(Ok(())));
    let hook = if enable {
        HookKind::Enable
    } else {
        HookKind::Disable
    };
    let target = if enable {
        ServiceState::<E>::Enabled
    } else {
        ServiceState::<E>::Disabled
    };
    assert(a2 =~= seq![
        LifecycleAction::Announce(l.current(), target),
        LifecycleAction::ApplyDeferred(hook),
        LifecycleAction::ApplyDeferred(HookKind::Init),
        LifecycleAction::Finish(Ok(())),
    ]);
}

/// Initializing a service that is already initialized is refused with an
/// `AlreadyInitialized` warning naming it: the failure hook runs, its
/// deferred commands apply and the command fails; the state stays as it
/// was and the service stays initialized.
pub proof fn lemma_init_again<E: Clone>(l: Lifecycle<E>)
    requires
        l.phase() == LifecyclePhase::Idle,
        l.is_initialized(),
    ensures
        ({
            let (s, a) = l.transition(LifecycleEvent::Start(LifecycleCommand::Init));
            let err = ServiceErrorKind::<E>::AlreadyInitialized(l.name());
            &&& s.current() == l.current()
            &&& s.is_initialized()
            &&& s.phase() == LifecyclePhase::Idle
            &&& a == seq![
                LifecycleAction::RunFailureHook(err),
                LifecycleAction::ApplyDeferred(HookKind::Failure),
                LifecycleAction::Finish(Err(err)),
            ]
        }),
{
    let (s, a) = l.transition(LifecycleEvent::Start(LifecycleCommand::Init));
    let err = ServiceErrorKind::<E>::AlreadyInitialized(l.name());
    assert(a =~= seq![
        LifecycleAction::RunFailureHook(err),
        LifecycleAction::ApplyDeferred(HookKind::Failure),
        LifecycleAction::Finish(Err(err)),
    ]);
}

/// Enabling an uninitialized service initializes it.
pub proof fn lemma_enable_initializes<E: Clone>(l: Lifecycle<E>)
    requires
        l.phase() == LifecyclePhase::Idle,
        !l.is_initialized(),
    ensures
        l.transition(LifecycleEvent::Start(LifecycleCommand::Enable)) == l.transition(
            LifecycleEvent::Start(LifecycleCommand::Init),
        ),
{
}

/// Failing a service puts it in the failed state with that error,
/// announced, and the command succeeds.
pub proof fn lemma_fail_command<E: Clone>(l: Lifecycle<E>, err: ServiceErrorKind<E>)
    requires
        l.phase() == LifecyclePhase::Idle,
    ensures
        l.transition(LifecycleEvent::Start(LifecycleCommand::Fail(err))).0.current() == ServiceState::Failed(err),
        l.transition(LifecycleEvent::Start(LifecycleCommand::Fail(err))).1 == seq![
            LifecycleAction::RunFailureHook(err),
            LifecycleAction::Announce(l.current(), ServiceState::Failed(err)),
            LifecycleAction::ApplyDeferred(HookKind::Failure),
            LifecycleAction::Finish(Ok(())),
        ],
{
    assert(l.transition(LifecycleEvent::Start(LifecycleCommand::Fail(err))).1 =~= seq![
        LifecycleAction::RunFailureHook(err),
        LifecycleAction::Announce(l.current(), ServiceState::Failed(err)),
        LifecycleAction::ApplyDeferred(HookKind::Failure),
        LifecycleAction::Finish(Ok(())),
    ]);
}

} // verus!
