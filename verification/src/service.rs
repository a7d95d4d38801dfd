//! Data types that describe services, their state and their dependencies.
use vstd::prelude::*;
use std::marker::PhantomData;
use vstd::string::{StrSliceExecFns, StringExecFns};

verus! {

/// A type which can be used as the unique identifier of a service.
/// Note that this _must be unique,_ otherwise instantiating a service with this
/// label will override any previous such services.
pub trait ServiceLabel: Clone + PartialEq + Eq + core::fmt::Debug + core::hash::Hash {

}

/// An arbitrary data type which can be used as extra state information for a
/// service.
pub trait ServiceData {

}

impl ServiceData for () {

}

/// The error type for a service.
pub trait ServiceError: Clone + PartialEq + core::fmt::Debug {

}

/// Used to specify where and how the service failed.
#[derive(Clone, Debug, PartialEq, Eq, Hash)]
pub enum ServiceErrorKind<E> {
    /// The service's own error.
    Own(E),
    /// Dependency `0` of `1` failed with error `2`.
    Dependency(String, String, String),
    /// The named service is already initialized.
    AlreadyInitialized(String),
    /// The named service is uninitialized.
    Uninitialized(String),
}

impl<E: Clone> ServiceErrorKind<E> {
    /// `self` is a copy of `other`: the same variant with equal text, or a
    /// clone of the service's own error.
    pub open spec fn is_copy_of(self, other: Self) -> bool {
        match (self, other) {
            (ServiceErrorKind::Own(a), ServiceErrorKind::Own(b)) => cloned(b, a),
            (ServiceErrorKind::Own(_), _) => false,
            (_, ServiceErrorKind::Own(_)) => false,
            _ => self == other,
        }
    }

    /// A copy of the error.
    pub fn duplicate(&self) -> (r: Self)
        ensures
            r.is_copy_of(*self),
    {
        match self {
            ServiceErrorKind::Own(e) => ServiceErrorKind::Own(e.clone()),
            ServiceErrorKind::Dependency(a, b, c) => ServiceErrorKind::Dependency(a.clone(), b.clone(), c.clone()),
            ServiceErrorKind::AlreadyInitialized(a) => ServiceErrorKind::AlreadyInitialized(a.clone()),
            ServiceErrorKind::Uninitialized(a) => ServiceErrorKind::Uninitialized(a.clone()),
        }
    }
}

/// Tracks the current state of the service.
#[derive(Clone, Debug, PartialEq, Eq, Hash)]
pub enum ServiceState<E> {
    /// Not initialized yet (the default).
    Uninitialized,
    /// Initialization is under way.
    Initializing,
    /// Initialized and enabled.
    Enabled,
    /// Initialized and disabled.
    Disabled,
    /// Failed with the error.
    Failed(ServiceErrorKind<E>),
}

impl<E: Clone> ServiceState<E> {
    /// `self` is a copy of `other`: the same state, with a copy of the error
    /// of a failed state.
    pub open spec fn is_copy_of(self, other: Self) -> bool {
        match (self, other) {
            (ServiceState::Failed(a), ServiceState::Failed(b)) => a.is_copy_of(b),
            (ServiceState::Failed(_), _) => false,
            (_, ServiceState::Failed(_)) => false,
            _ => self == other,
        }
    }

    /// A copy of the state.
    pub fn duplicate(&self) -> (r: Self)
        ensures
            r.is_copy_of(*self),
    {
        match self {
            ServiceState::Uninitialized => ServiceState::Uninitialized,
            ServiceState::Initializing => ServiceState::Initializing,
            ServiceState::Enabled => ServiceState::Enabled,
            ServiceState::Disabled => ServiceState::Disabled,
            ServiceState::Failed(e) => ServiceState::Failed(e.duplicate()),
        }
    }
}

impl<E> ServiceState<E> {
    /// Is the service uninitialized?
    pub fn is_uninitialized(&self) -> (r: bool)
        ensures
            r <==> *self is Uninitialized,
    {
        matches!(self, ServiceState::Uninitialized)
    }

    /// Is the service initializing?
    pub fn is_initializing(&self) -> (r: bool)
        ensures
            r <==> *self is Initializing,
    {
        matches!(self, ServiceState::Initializing)
    }

    /// Is the service enabled?
    pub fn is_enabled(&self) -> (r: bool)
        ensures
            r <==> *self is Enabled,
    {
        matches!(self, ServiceState::Enabled)
    }

    /// Is the service disabled?
    pub fn is_disabled(&self) -> (r: bool)
        ensures
            r <==> *self is Disabled,
    {
        matches!(self, ServiceState::Disabled)
    }

    /// Has the service failed?
    pub fn is_failed(&self) -> (r: bool)
        ensures
            r <==> *self is Failed,
    {
        matches!(self, ServiceState::Failed(_))
    }
}

impl<E> Default for ServiceState<E> {
    fn default() -> (r: Self)
        ensures
            r == ServiceState::<E>::Uninitialized,
    {
        ServiceState::Uninitialized
    }
}

/// A handle for the given service. Used to refer to the service when it is not
/// directly available.
#[derive(Debug)]
pub struct ServiceHandle<T, D, E>(pub PhantomData<T>, pub PhantomData<D>, pub PhantomData<E>);

impl<T, D, E> ServiceHandle<T, D, E> {
    /// The handle (handles carry no data).
    pub fn const_default() -> (r: Self)
        ensures
            r == ServiceHandle::<T, D, E>(PhantomData, PhantomData, PhantomData),
    {
        ServiceHandle(PhantomData, PhantomData, PhantomData)
    }
}

impl<T, D, E> Default for ServiceHandle<T, D, E> {
    fn default() -> (r: Self)
        ensures
            r == ServiceHandle::<T, D, E>(PhantomData, PhantomData, PhantomData),
    {
        Self::const_default()
    }
}

/// The number of bytes that the character takes in UTF-8.
pub open spec fn utf8_len(c: char) -> int {
    if (c as u32) < 0x80 {
        1
    } else if (c as u32) < 0x800 {
        2
    } else if (c as u32) < 0x10000 {
        3
    } else {
        4
    }
}

/// The position just after the last `:` of `s` (zero when there is none).
pub open spec fn after_last_colon(s: Seq<char>) -> int
    decreases s.len(),
{
    if s.len() == 0 {
        0
    } else if s.last() == ':' {
        s.len() as int
    } else {
        after_last_colon(s.drop_last())
    }
}

/// The position in `s` that leaves exactly `bytes` bytes of UTF-8 after it,
/// if there is one.
pub open spec fn cut_before_bytes(s: Seq<char>, bytes: int) -> Option<int>
    decreases s.len(),
{
    if bytes == 0 {
        Some(s.len() as int)
    } else if bytes < 0 || s.len() == 0 {
        None
    } else {
        cut_before_bytes(s.drop_last(), bytes - utf8_len(s.last()))
    }
}

/// The display name of a service whose label type has the name
/// `label_type_name` (of form "some::path::to::MyServiceLabel"): the part after
/// the last `:`, without its last five bytes ("MyService"). None when that part
/// has fewer than five bytes or its last five bytes do not end a character.
pub open spec fn display_name_of(label_type_name: Seq<char>) -> Option<Seq<char>> {
    let base = label_type_name.skip(after_last_colon(label_type_name));
    match cut_before_bytes(base, 5) {
        Some(q) => Some(base.take(q)),
        None => None,
    }
}

/// The number of bytes that the character takes in UTF-8.
fn char_utf8_len(c: char) -> (r: usize)
    ensures
        r == utf8_len(c),
{
    let code = c as u32;
    if code < 0x80 {
        1
    } else if code < 0x800 {
        2
    } else if code < 0x10000 {
        3
    } else {
        4
    }
}

/// The position just after the last `:` of the text.
fn after_last_colon_exec(text: &str) -> (start: usize)
    ensures
        start == after_last_colon(text@),
        start <= text@.len(),
{
    let ghost s = text@;
    let n = text.unicode_len();
    let mut start: usize = n;
    proof {
        assert(s.take(n as int) =~= s);
    }
    while start > 0 && text.get_char(start - 1) != ':'
        invariant
            start <= n,
            n == s.len(),
            s == text@,
            after_last_colon(s) == after_last_colon(s.take(start as int)),
        decreases start,
    {
        proof {
            assert(s.take(start - 1) =~= s.take(start as int).drop_last());
        }
        start = start - 1;
    }
    proof {
        if start > 0 {
            assert(s.take(start as int).last() == ':');
        }
    }
    start
}

/// The position between `start` and the end of the text that leaves exactly
/// `bytes` bytes of UTF-8 after it, if there is one.
fn cut_before_bytes_exec(text: &str, start: usize, bytes: usize) -> (r: Option<usize>)
    requires
        start <= text@.len(),
    ensures
        r matches Some(q) ==> start <= q <= text@.len() && cut_before_bytes(text@.skip(start as int), bytes as int)
            == Some(q - start),
        r is None ==> cut_before_bytes(text@.skip(start as int), bytes as int) is None,
{
    let ghost s = text@;
    let ghost base = s.skip(start as int);
    let n = text.unicode_len();
    let mut q: usize = n;
    let mut left: usize = bytes;
    proof {
        assert(base.take(q - start) =~= base);
    }
    while left > 0 && q > start
        invariant
            start <= q <= n,
            n == s.len(),
            s == text@,
            left <= bytes,
            base == s.skip(start as int),
            cut_before_bytes(base, bytes as int) == cut_before_bytes(base.take(q - start), left as int),
        decreases q,
    {
        let c = text.get_char(q - 1);
        let l = char_utf8_len(c);
        proof {
            let b = base.take(q - start);
            assert(b.last() == c);
            assert(b.drop_last() =~= base.take(q - 1 - start));
        }
        if l > left {
            proof {
                let b = base.take(q - start);
                assert(cut_before_bytes(b, left as int) == cut_before_bytes(b.drop_last(), left - l));
                assert(cut_before_bytes(b.drop_last(), left - l) is None);
            }
            return None;
        }
        left = left - l;
        q = q - 1;
    }
    if left == 0 {
        Some(q)
    } else {
        proof {
            assert(base.take(q - start).len() == 0);
        }
        None
    }
}

impl<T, D, E> ServiceHandle<T, D, E> {
    /// The display name of the service, given the type name of its label
    /// (which only the compiler knows): the last path segment without its
    /// "Label" suffix. None where the name is too short to cut.
    pub fn display_name(&self, label_type_name: &str) -> (r: Option<String>)
        ensures
            r matches Some(name) ==> display_name_of(label_type_name@) == Some(name@),
            r is None ==> display_name_of(label_type_name@) is None,
    {
        let start = after_last_colon_exec(label_type_name);
        match cut_before_bytes_exec(label_type_name, start, 5) {
            Some(q) => {
                let cut = label_type_name.substring_char(start, q);
                proof {
                    let s = label_type_name@;
                    assert(s.skip(start as int).take(q - start) =~= s.subrange(start as int, q as int));
                }
                Some(String::from_str(cut))
            },
            None => None,
        }
    }
}

/// The declarative part of a service specification: whether it starts on
/// startup and the data it starts with.
#[derive(Debug)]
pub struct ServiceSpec<D> {
    /// Does this service begin immediately?
    pub is_startup: bool,
    /// The data provided on startup.
    pub initial_data: Option<D>,
}

impl<D> ServiceSpec<D> {
    /// A service that starts lazily, with default data.
    pub fn new() -> (r: Self)
        ensures
            !r.is_startup,
            r.initial_data is None,
    {
        ServiceSpec { is_startup: false, initial_data: None }
    }

    /// Does this service begin on startup? By default, a service is lazily
    /// initialized whenever it is enabled or manually initialized.
    pub fn is_startup(self, is_startup: bool) -> (r: Self)
        ensures
            r.is_startup == is_startup,
            r.initial_data == self.initial_data,
    {
        ServiceSpec { is_startup, ..self }
    }

    /// Insert data to be available on initialization.
    pub fn with_data(self, data: D) -> (r: Self)
        ensures
            r.is_startup == self.is_startup,
            r.initial_data == Some(data),
    {
        ServiceSpec { initial_data: Some(data), ..self }
    }
}

/// Meta information about a service dependency.
#[derive(Clone, Debug, PartialEq, Eq, Hash)]
pub struct ServiceDepInfo {
    /// The type identity of the dependency, used as its node id in the
    /// dependency graph.
    pub type_id: u64,
    /// The display name is used for friendly errors.
    pub display_name: String,
    /// Has this dependency been initialized?
    pub is_initialized: bool,
    /// Is this dependency a service?
    pub is_service: bool,
}

} // verus!
