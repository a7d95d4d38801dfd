//! Screens: their states, schedules and loading strategies, the registry of
//! screens, and the rules that decide which screen loads and which scoped
//! systems run.
use vstd::prelude::*;
use vstd::string::StringExecFns;
use bevy_platform::collections::HashMap;
use bevy_platform::hash::FixedHasher;

verus! {

/// Scopes an entity to the current screen: the entity is cleaned up when the
/// screen changes (the default for entities).
#[derive(Clone, Copy, Debug, Default, PartialEq, Eq, Structural)]
pub struct ScreenScoped;

/// Marks an entity as screen-persistent: it is _not_ cleaned up when the
/// screen changes.
#[derive(Clone, Copy, Debug, Default, PartialEq, Eq, Structural)]
pub struct Persistent;

/// An empty settings parameter.
#[derive(Clone, Copy, Debug, Default, PartialEq, Eq, Structural)]
pub struct NoSettings;

/// An empty asset collection: combine it with the nonblocking
/// [`LoadingStrategy`] to skip asset loading.
#[derive(Clone, Copy, Debug, Default, PartialEq, Eq, Structural)]
pub struct NoAssets {}

/// The main plugin of the screen framework.
#[derive(Clone, Copy, Debug, Default, PartialEq, Eq, Structural)]
pub struct TfwPlugin;

/// Settings of the screen framework.
#[derive(Debug)]
pub struct TfwSettings {
    /// The name of the screen to switch to on startup, if any.
    pub initial_screen_name: Option<String>,
}

impl Default for TfwSettings {
    fn default() -> (r: Self)
        ensures
            r.initial_screen_name is None,
    {
        TfwSettings { initial_screen_name: None }
    }
}

/// Describes the current state of a screen.
#[derive(Clone, Copy, Debug, PartialEq, Eq, Structural, Hash)]
pub enum ScreenState {
    /// Not loaded (the default).
    Unloaded,
    /// Loading.
    Loading,
    /// Loaded and running.
    Ready,
    /// Unloading.
    Unloading,
}

impl Default for ScreenState {
    fn default() -> (r: Self)
        ensures
            r == ScreenState::Unloaded,
    {
        ScreenState::Unloaded
    }
}

impl ScreenState {
    /// Is the screen ready?
    pub fn is_ready(&self) -> (r: bool)
        ensures
            r <==> *self == ScreenState::Ready,
    {
        matches!(self, ScreenState::Ready)
    }

    /// Is the screen loading?
    pub fn is_loading(&self) -> (r: bool)
        ensures
            r <==> *self == ScreenState::Loading,
    {
        matches!(self, ScreenState::Loading)
    }

    /// Is the screen unloading?
    pub fn is_unloading(&self) -> (r: bool)
        ensures
            r <==> *self == ScreenState::Unloading,
    {
        matches!(self, ScreenState::Unloading)
    }

    /// Is the screen unloaded?
    pub fn is_unloaded(&self) -> (r: bool)
        ensures
            r <==> *self == ScreenState::Unloaded,
    {
        matches!(self, ScreenState::Unloaded)
    }
}

/// The state after loading: an unloaded or unloading screen starts loading;
/// a loading or ready one stays as it is.
pub open spec fn loaded(s: ScreenState) -> ScreenState {
    match s {
        ScreenState::Unloaded | ScreenState::Unloading => ScreenState::Loading,
        _ => s,
    }
}

/// The state after unloading: a loading or ready screen starts unloading; an
/// unloading or unloaded one stays as it is.
pub open spec fn unloaded(s: ScreenState) -> ScreenState {
    match s {
        ScreenState::Loading | ScreenState::Ready => ScreenState::Unloading,
        _ => s,
    }
}

/// The schedules of a screen. Systems added to them run only while the
/// screen is in the matching state.
#[derive(Clone, Copy, Debug, PartialEq, Eq, Structural, Hash)]
pub enum ScreenSchedule {
    /// The main schedule.
    Main,
    /// The fixed-time schedule.
    Fixed,
    /// Runs while the screen loads.
    Load,
    /// Runs while the screen unloads.
    Unload,
}

impl From<ScreenSchedule> for ScreenState {
    fn from(value: ScreenSchedule) -> (r: Self) {
        match value {
            ScreenSchedule::Main | ScreenSchedule::Fixed => ScreenState::Ready,
            ScreenSchedule::Load => ScreenState::Loading,
            ScreenSchedule::Unload => ScreenState::Unloading,
        }
    }
}

impl vstd::std_specs::convert::FromSpecImpl<ScreenSchedule> for ScreenState {
    open spec fn obeys_from_spec() -> bool {
        true
    }

    open spec fn from_spec(value: ScreenSchedule) -> ScreenState {
        schedule_state(value)
    }
}

/// The state in which a schedule's systems run.
pub open spec fn schedule_state(value: ScreenSchedule) -> ScreenState {
    match value {
        ScreenSchedule::Main | ScreenSchedule::Fixed => ScreenState::Ready,
        ScreenSchedule::Load => ScreenState::Loading,
        ScreenSchedule::Unload => ScreenState::Unloading,
    }
}

/// Whether the systems of `schedule` run for a screen in `state`: in the
/// schedule's own state; and the main and fixed schedules of a nonblocking
/// screen, which do not wait for its assets, also run while it loads.
pub open spec fn schedule_runs(schedule: ScreenSchedule, blocking: bool, state: ScreenState) -> bool {
    let bypass = !blocking && (schedule == ScreenSchedule::Fixed || schedule == ScreenSchedule::Main)
        && state == ScreenState::Loading;
    bypass || state == schedule_state(schedule)
}

impl ScreenSchedule {
    /// Whether this schedule's systems run for a screen in `state`;
    /// `blocking` tells whether the screen blocks on its assets.
    pub fn should_run(self, blocking: bool, state: ScreenState) -> (r: bool)
        ensures
            r == schedule_runs(self, blocking, state),
    {
        let bypass = !blocking && (self == ScreenSchedule::Fixed || self == ScreenSchedule::Main) && state
            == ScreenState::Loading;
        bypass || state == ScreenState::from(self)
    }
}

/// How should the screen load its assets? If `Blocking`, the screen's systems
/// do not run until loading is complete; if `Nonblocking`, they run regardless
/// of asset completion status.
#[derive(Clone, Copy, Debug, PartialEq, Eq, Structural)]
pub enum LoadingStrategy {
    /// Wait for the assets.
    Blocking,
    /// Do not wait for the assets.
    Nonblocking,
}

impl LoadingStrategy {
    /// Is this the blocking strategy?
    pub fn is_blocking(&self) -> (r: bool)
        ensures
            r <==> *self == LoadingStrategy::Blocking,
    {
        matches!(self, LoadingStrategy::Blocking)
    }

    /// Whether a screen with this strategy blocks: only when it has assets
    /// to wait for.
    pub fn blocks(self, has_assets: bool) -> (r: bool)
        ensures
            r <==> has_assets && self == LoadingStrategy::Blocking,
    {
        has_assets && self == LoadingStrategy::Blocking
    }
}

/// Data about a screen: its name, its id and its state.
#[derive(Debug)]
pub struct ScreenData {
    /// The screen's name.
    pub name: String,
    /// The screen's component id.
    pub id: u64,
    /// The screen's state.
    pub state: ScreenState,
}

impl ScreenData {
    /// A copy of the data.
    pub fn duplicate(&self) -> (r: Self)
        ensures
            r == *self,
    {
        ScreenData { name: self.name.clone(), id: self.id, state: self.state }
    }

    /// The data with another state.
    pub open spec fn with_state(self, state: ScreenState) -> Self {
        ScreenData { state, ..self }
    }
}

/// The screens held by a screen map, by id.
pub uninterp spec fn screen_map_contents(m: HashMap<u64, ScreenData, FixedHasher>) -> Map<u64, ScreenData>;

/// `HashMap::default`: an empty map.
#[verifier::external_body]
fn screen_map_new() -> (m: HashMap<u64, ScreenData, FixedHasher>)
    ensures
        screen_map_contents(m).is_empty(),
{
    HashMap::default()
}

/// `HashMap::insert`: the id maps to the data afterwards; the data it held
/// before comes back.
#[verifier::external_body]
fn screen_map_insert(m: &mut HashMap<u64, ScreenData, FixedHasher>, k: u64, v: ScreenData) -> (r: Option<
    ScreenData,
>)
    ensures
        screen_map_contents(*final(m)) == screen_map_contents(*old(m)).insert(k, v),
        r is Some <==> screen_map_contents(*old(m)).contains_key(k),
        r is Some ==> r.unwrap() == screen_map_contents(*old(m))[k],
{
    m.insert(k, v)
}

/// `HashMap::get`: the data stored under the id.
#[verifier::external_body]
fn screen_map_get(m: &HashMap<u64, ScreenData, FixedHasher>, k: u64) -> (r: Option<&ScreenData>)
    ensures
        r is Some <==> screen_map_contents(*m).contains_key(k),
        r is Some ==> *r.unwrap() == screen_map_contents(*m)[k],
{
    m.get(&k)
}

/// `HashMap::keys`: the ids, each once, in the map's iteration order (which
/// is not stated).
#[verifier::external_body]
fn screen_map_keys(m: &HashMap<u64, ScreenData, FixedHasher>) -> (r: Vec<u64>)
    ensures
        r@.no_duplicates(),
        forall|k: u64| #[trigger] r@.contains(k) <==> screen_map_contents(*m).contains_key(k),
{
    m.keys().copied().collect()
}

/// The registered screens, by id.
#[derive(Debug)]
pub struct ScreenRegistry(HashMap<u64, ScreenData, FixedHasher>);

impl ScreenRegistry {
    /// The registered screens, by id.
    pub closed spec fn screens(&self) -> Map<u64, ScreenData> {
        screen_map_contents(self.0)
    }

    /// An empty registry.
    pub fn new() -> (r: Self)
        ensures
            r.screens().is_empty(),
    {
        ScreenRegistry(screen_map_new())
    }

    /// Registers the screen with this id and name, unloaded.
    pub fn register(&mut self, id: u64, name: String)
        ensures
            final(self).screens() == old(self).screens().insert(
                id,
                ScreenData { name, id, state: ScreenState::Unloaded },
            ),
    {
        screen_map_insert(&mut self.0, id, ScreenData { name, id, state: ScreenState::Unloaded });
    }

    /// The data of the screen with this id.
    pub fn get(&self, id: u64) -> (r: Option<&ScreenData>)
        ensures
            r is Some <==> self.screens().contains_key(id),
            r is Some ==> *r.unwrap() == self.screens()[id],
    {
        screen_map_get(&self.0, id)
    }

    /// Sets the state of the registered screen with this id.
    fn set_state(&mut self, id: u64, state: ScreenState)
        requires
            old(self).screens().contains_key(id),
        ensures
            final(self).screens() == old(self).screens().insert(id, old(self).screens()[id].with_state(state)),
    {
        let mut data = screen_map_get(&self.0, id).unwrap().duplicate();
        data.state = state;
        screen_map_insert(&mut self.0, id, data);
    }

    /// Loads the screen with this id. Has no effect if the screen is already
    /// loading or ready.
    pub fn load(&mut self, id: u64)
        requires
            old(self).screens().contains_key(id),
        ensures
            final(self).screens() == old(self).screens().insert(
                id,
                old(self).screens()[id].with_state(loaded(old(self).screens()[id].state)),
            ),
    {
        let state = screen_map_get(&self.0, id).unwrap().state;
        match state {
            ScreenState::Unloaded | ScreenState::Unloading => {
                self.set_state(id, ScreenState::Loading);
            },
            _ => {
                proof {
                    assert(old(self).screens().insert(id, old(self).screens()[id]) =~= old(self).screens());
                }
            },
        }
    }

    /// Unloads the screen with this id. Has no effect if the screen is
    /// already unloading or unloaded.
    pub fn unload(&mut self, id: u64)
        requires
            old(self).screens().contains_key(id),
        ensures
            final(self).screens() == old(self).screens().insert(
                id,
                old(self).screens()[id].with_state(unloaded(old(self).screens()[id].state)),
            ),
    {
        let state = screen_map_get(&self.0, id).unwrap().state;
        match state {
            ScreenState::Loading | ScreenState::Ready => {
                self.set_state(id, ScreenState::Unloading);
            },
            _ => {
                proof {
                    assert(old(self).screens().insert(id, old(self).screens()[id]) =~= old(self).screens());
                }
            },
        }
    }
}

/// The position of the last switch message that names a registered screen,
/// if any.
pub open spec fn last_known(msgs: Seq<u64>, screens: Map<u64, ScreenData>) -> Option<int>
    decreases msgs.len(),
{
    if msgs.len() == 0 {
        None
    } else if screens.contains_key(msgs.last()) {
        Some(msgs.len() - 1)
    } else {
        last_known(msgs.drop_last(), screens)
    }
}

impl ScreenRegistry {
    /// Handles the switch messages of one frame: only the last message that
    /// names a registered screen counts, and that screen starts loading. The
    /// ids of the unregistered screens met on the way back from the end come
    /// back, latest first, to be warned about.
    pub fn handle_switch(&mut self, msgs: &Vec<u64>) -> (unknown: Vec<u64>)
        ensures
            match last_known(msgs@, old(self).screens()) {
                Some(j) => final(self).screens() == old(self).screens().insert(
                    msgs@[j],
                    old(self).screens()[msgs@[j]].with_state(ScreenState::Loading),
                ) && unknown@ == msgs@.skip(j + 1).reverse(),
                None => final(self).screens() == old(self).screens() && unknown@ == msgs@.reverse(),
            },
    {
        let mut unknown: Vec<u64> = Vec::new();
        let mut i: usize = msgs.len();
        proof {
            assert(msgs@.take(i as int) =~= msgs@);
        }
        while i > 0
            invariant
                i <= msgs@.len(),
                self.screens() == old(self).screens(),
                last_known(msgs@, old(self).screens()) == last_known(msgs@.take(i as int), old(self).screens()),
                unknown@ == msgs@.skip(i as int).reverse(),
            decreases i,
        {
            let id = msgs[i - 1];
            proof {
                assert(msgs@.take(i as int).last() == id);
                assert(msgs@.take(i as int).drop_last() =~= msgs@.take(i - 1));
            }
            if self.get(id).is_some() {
                self.set_state(id, ScreenState::Loading);
                return unknown;
            }
            unknown.push(id);
            proof {
                assert(msgs@.skip(i - 1).reverse() =~= msgs@.skip(i as int).reverse().push(id));
            }
            i = i - 1;
        }
        unknown
    }

    /// The id of a registered screen with this name, if there is one; which
    /// one, when several share the name, follows the map's iteration order.
    pub fn find_by_name(&self, name: &String) -> (r: Option<u64>)
        ensures
            r is Some ==> exists|k: u64| #[trigger] self.screens().contains_key(k) && self.screens()[k].name@ == name@
                && self.screens()[k].id == r.unwrap(),
            r is None ==> forall|k: u64| #[trigger] self.screens().contains_key(k) ==> self.screens()[k].name@ != name@,
    {
        let keys = screen_map_keys(&self.0);
        let mut i: usize = 0;
        while i < keys.len()
            invariant
                i <= keys@.len(),
                forall|k: u64| #[trigger] keys@.contains(k) <==> self.screens().contains_key(k),
                forall|j: int| 0 <= j < i ==> self.screens()[(#[trigger] keys@[j])].name@ != name@,
            decreases keys@.len() - i,
        {
            let k = keys[i];
            proof {
                assert(keys@.contains(k));
            }
            let data = self.get(k).unwrap();
            if data.name == *name {
                return Some(data.id);
            }
            i = i + 1;
        }
        proof {
            assert forall|k: u64| #[trigger] self.screens().contains_key(k) implies self.screens()[k].name@ != name@ by {
                assert(keys@.contains(k));
                let j = choose|j: int| 0 <= j < keys@.len() && keys@[j] == k;
                assert(self.screens()[keys@[j]].name@ != name@);
            }
        }
        None
    }
}

/// Whether an entity is cleaned up when its screen unloads: it is screen
/// scoped (explicitly, or by not being persistent), and it is not a top-level
/// observer or window (one without a parent).
pub fn despawns_on_unload(scoped: bool, persistent: bool, observer_or_window: bool, has_parent: bool) -> (r: bool)
    ensures
        r <==> (scoped || !persistent) && !(observer_or_window && !has_parent),
{
    (scoped || !persistent) && !(observer_or_window && !has_parent)
}

/// Loading and unloading are idempotent; a loaded screen is loading or ready,
/// an unloaded one is unloading or unloaded; and unloading a loaded screen
/// always starts unloading it.
pub proof fn lemma_load_unload(s: ScreenState)
    ensures
        loaded(loaded(s)) == loaded(s),
        unloaded(unloaded(s)) == unloaded(s),
        loaded(s) == ScreenState::Loading || loaded(s) == ScreenState::Ready,
        unloaded(s) == ScreenState::Unloading || unloaded(s) == ScreenState::Unloaded,
        unloaded(loaded(s)) == ScreenState::Unloading,
        loaded(unloaded(s)) == ScreenState::Loading,
{
}

/// A blocking screen runs a schedule's systems only in the schedule's own
/// state; the main and fixed schedules run while the screen is ready, and
/// while it loads exactly when it does not block; the load and unload
/// schedules run only in their own state; no schedule runs while the screen
/// is unloaded, and only the unload schedule runs while it unloads.
pub proof fn lemma_schedule_runs(schedule: ScreenSchedule, blocking: bool, state: ScreenState)
    ensures
        blocking ==> (schedule_runs(schedule, blocking, state) <==> state == schedule_state(schedule)),
        (schedule == ScreenSchedule::Main || schedule == ScreenSchedule::Fixed) ==> (schedule_runs(
            schedule,
            blocking,
            state,
        ) <==> (state == ScreenState::Ready || (!blocking && state == ScreenState::Loading))),
        state == ScreenState::Unloading ==> (schedule_runs(schedule, blocking, state) <==> schedule
            == ScreenSchedule::Unload),
        (schedule == ScreenSchedule::Load || schedule == ScreenSchedule::Unload) ==> (schedule_runs(
            schedule,
            blocking,
            state,
        ) <==> state == schedule_state(schedule)),
        state == ScreenState::Unloaded ==> !schedule_runs(schedule, blocking, state),
{
}

} // verus!
