//! A simple service state machine: a service that is initialized by an event,
//! reports back whether initialization worked, and is then enabled or
//! disabled by events.
use vstd::prelude::*;

verus! {

/// The state of a simple service.
#[derive(Clone, Debug, PartialEq, Eq, Hash)]
pub enum SimpleServiceState {
    /// Awaiting setup (the default).
    Uninitialized,
    /// Initialization is under way.
    Initializing,
    /// Initialization failed, for this reason.
    Failed(String),
    /// Enabled.
    Enabled,
    /// Disabled.
    Disabled,
}

impl Default for SimpleServiceState {
    fn default() -> (r: Self)
        ensures
            r == SimpleServiceState::Uninitialized,
    {
        SimpleServiceState::Uninitialized
    }
}

/// What happens when initialization finishes.
#[derive(Clone, Debug, PartialEq, Eq)]
pub enum InitOutcome {
    /// The service fails with the reason.
    Fail(String),
    /// The service is to be enabled (`true`) or disabled (`false`).
    Enable(bool),
}

impl SimpleServiceState {
    /// The state that glosses to `value`: `Enabled` or `Disabled`.
    pub fn from_bool(value: bool) -> (r: Self)
        ensures
            r == (if value {
                SimpleServiceState::Enabled
            } else {
                SimpleServiceState::Disabled
            }),
    {
        if value {
            SimpleServiceState::Enabled
        } else {
            SimpleServiceState::Disabled
        }
    }

    /// Only `Enabled` glosses to `true`.
    pub fn is_enabled(&self) -> (r: bool)
        ensures
            r <==> *self is Enabled,
    {
        matches!(self, SimpleServiceState::Enabled)
    }

    /// The state to move to when initialization is asked for: `Initializing`,
    /// unless the service is already enabled or disabled, which is refused
    /// (`None`).
    pub fn on_init(&self) -> (r: Option<SimpleServiceState>)
        ensures
            r is None <==> (*self is Enabled || *self is Disabled),
            r is Some ==> r.unwrap() == SimpleServiceState::Initializing,
    {
        match self {
            SimpleServiceState::Enabled | SimpleServiceState::Disabled => None,
            _ => Some(SimpleServiceState::Initializing),
        }
    }

    /// What a finished initialization leads to: failure with its error, or
    /// enabling as it says.
    pub fn on_finish_init(result: Result<bool, String>) -> (r: InitOutcome)
        ensures
            match result {
                Ok(v) => r == InitOutcome::Enable(v),
                Err(e) => r == InitOutcome::Fail(e),
            },
    {
        match result {
            Ok(v) => InitOutcome::Enable(v),
            Err(e) => InitOutcome::Fail(e),
        }
    }

    /// The state to move to when the service is to be enabled (`value`) or
    /// disabled, given the current state and the state already set to come
    /// next, if any. Refused (`None`) while the service is uninitialized
    /// with nothing pending, or when it has failed or is about to.
    pub fn on_enable(&self, pending: &Option<SimpleServiceState>, value: bool) -> (r: Option<SimpleServiceState>)
        ensures
            ({
                let uninitialized = pending is None && *self is Uninitialized;
                let failed = (pending is Some && pending.unwrap() is Failed) || *self is Failed;
                &&& r is None <==> (uninitialized || failed)
                &&& r is Some ==> r.unwrap() == (if value {
                    SimpleServiceState::Enabled
                } else {
                    SimpleServiceState::Disabled
                })
            }),
    {
        let uninitialized = pending.is_none() && matches!(self, SimpleServiceState::Uninitialized);
        let failed = matches!(pending, Some(SimpleServiceState::Failed(_))) || matches!(
            self,
            SimpleServiceState::Failed(_)
        );
        if uninitialized || failed {
            None
        } else {
            Some(SimpleServiceState::from_bool(value))
        }
    }
}

} // verus!
