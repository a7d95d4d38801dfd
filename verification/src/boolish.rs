//! Boolean states with a third value for "not set up yet".
use vstd::prelude::*;

verus! {

/// A boolean state that starts out awaiting setup.
#[derive(Clone, Copy, Debug, PartialEq, Eq, Structural, Hash)]
pub enum BoolishState {
    /// Awaiting setup.
    Init,
    /// Glosses to `true`.
    Enabled,
    /// Glosses to `false`.
    Disabled,
}

impl Default for BoolishState {
    fn default() -> (r: Self)
        ensures
            r == BoolishState::Init,
    {
        BoolishState::Init
    }
}

/// The state that glosses to `value`.
pub open spec fn state_of(value: bool) -> BoolishState {
    if value {
        BoolishState::Enabled
    } else {
        BoolishState::Disabled
    }
}

/// The boolean gloss of a state: only `Enabled` is true.
pub open spec fn bool_of(state: BoolishState) -> bool {
    state == BoolishState::Enabled
}

impl From<bool> for BoolishState {
    fn from(value: bool) -> (r: Self) {
        if value {
            BoolishState::Enabled
        } else {
            BoolishState::Disabled
        }
    }
}

impl vstd::std_specs::convert::FromSpecImpl<bool> for BoolishState {
    open spec fn obeys_from_spec() -> bool {
        true
    }

    open spec fn from_spec(value: bool) -> BoolishState {
        state_of(value)
    }
}

impl From<BoolishState> for bool {
    fn from(value: BoolishState) -> (r: Self) {
        matches!(value, BoolishState::Enabled)
    }
}

impl vstd::std_specs::convert::FromSpecImpl<BoolishState> for bool {
    open spec fn obeys_from_spec() -> bool {
        true
    }

    open spec fn from_spec(value: BoolishState) -> bool {
        bool_of(value)
    }
}

/// A state that glosses to a boolean and can be toggled.
pub trait BoolishStateTrait: From<bool> {
    /// Returns the value as a boolean.
    fn as_bool(&self) -> bool;

    /// Returns the opposite value, consuming self.
    fn toggle(self) -> Self;
}

impl BoolishState {
    /// Returns the value as a boolean.
    pub fn as_bool(&self) -> (r: bool)
        ensures
            r == bool_of(*self),
    {
        bool::from(*self)
    }

    /// Returns the opposite value, consuming self: the state that glosses to
    /// the negation of this one's gloss.
    pub fn toggle(self) -> (r: Self)
        ensures
            r == state_of(!bool_of(self)),
    {
        BoolishState::from(!self.as_bool())
    }
}

impl BoolishStateTrait for BoolishState {
    fn as_bool(&self) -> (r: bool)
        ensures
            r == bool_of(*self),
    {
        BoolishState::as_bool(self)
    }

    fn toggle(self) -> (r: Self)
        ensures
            r == state_of(!bool_of(self)),
    {
        BoolishState::toggle(self)
    }
}

/// Reading back a state made from a boolean gives the boolean; toggling is
/// undone by toggling again, except from `Init`, which toggles to `Enabled`.
pub proof fn lemma_boolish_round_trip(value: bool, state: BoolishState)
    ensures
        bool_of(state_of(value)) == value,
        state != BoolishState::Init ==> state_of(!bool_of(state_of(!bool_of(state)))) == state,
        state_of(!bool_of(BoolishState::Init)) == BoolishState::Enabled,
        bool_of(state_of(!bool_of(state))) == !bool_of(state),
{
}

} // verus!
