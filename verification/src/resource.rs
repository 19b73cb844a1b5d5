//! Async-aware values: a resource starts loading and settles once with the
//! outcome of its future.

use vstd::prelude::*;

verus! {

/// The state of an async resource.
#[derive(Debug, PartialEq, Eq)]
pub enum ResourceState<T> {
    /// The future has not completed yet.
    Loading,
    /// The future resolved successfully.
    Ready(T),
    /// The future failed.
    Failed(String),
}

/// States equal up to cloning of the ready value.
pub open spec fn state_cloned<T: Clone>(a: ResourceState<T>, b: ResourceState<T>) -> bool {
    match (a, b) {
        (ResourceState::Loading, ResourceState::Loading) => true,
        (ResourceState::Ready(x), ResourceState::Ready(y)) => cloned(x, y),
        (ResourceState::Failed(x), ResourceState::Failed(y)) => x@ == y@,
        _ => false,
    }
}

/// An async value: `Loading` until its future settles, then `Ready` or
/// `Failed`.
pub struct Resource<T> {
    state: ResourceState<T>,
}

impl<T> Resource<T> {
    /// The current state.
    pub closed spec fn state(&self) -> ResourceState<T> {
        self.state
    }

    /// A resource whose future has not settled yet.
    pub fn new() -> (r: Resource<T>)
        ensures
            r.state() is Loading,
    {
        Resource { state: ResourceState::Loading }
    }

    /// Records the outcome of the resource's future: `Ok` makes it ready,
    /// `Err` failed with the message.
    pub fn complete(&mut self, outcome: Result<T, String>)
        ensures
            final(self).state() == (match outcome {
                Ok(v) => ResourceState::Ready(v),
                Err(e) => ResourceState::Failed(e),
            }),
    {
        self.state = match outcome {
            Ok(v) => ResourceState::Ready(v),
            Err(e) => ResourceState::Failed(e),
        };
    }

    /// Whether the resource is still loading.
    pub fn loading(&self) -> (b: bool)
        ensures
            b == (self.state() is Loading),
    {
        match &self.state {
            ResourceState::Loading => true,
            _ => false,
        }
    }

    /// The error message if the future failed.
    pub fn error(&self) -> (r: Option<String>)
        ensures
            match self.state() {
                ResourceState::Failed(e) => r matches Some(m) && m@ == e@,
                _ => r is None,
            },
    {
        match &self.state {
            ResourceState::Failed(e) => Some(e.clone()),
            _ => None,
        }
    }
}

impl<T: Clone> Resource<T> {
    /// The current state, with a clone of the ready value.
    pub fn get(&self) -> (r: ResourceState<T>)
        ensures
            state_cloned(self.state(), r),
    {
        match &self.state {
            ResourceState::Loading => ResourceState::Loading,
            ResourceState::Ready(v) => ResourceState::Ready(v.clone()),
            ResourceState::Failed(e) => ResourceState::Failed(e.clone()),
        }
    }

    /// A clone of the value if the resource is ready.
    pub fn data(&self) -> (r: Option<T>)
        ensures
            match self.state() {
                ResourceState::Ready(v) => r matches Some(d) && cloned(v, d),
                _ => r is None,
            },
    {
        match &self.state {
            ResourceState::Ready(v) => Some(v.clone()),
            _ => None,
        }
    }
}

} // verus!
