//! Host sessions behind opaque handles: the registry that generated
//! platform glue uses to route calls to running app sessions.

use vstd::prelude::*;
use std::collections::BTreeMap;
use crate::text::{text_of, string_from_bytes, str_bytes, decimal_bytes, push_decimal, push_bytes};

verus! {

broadcast use {vstd::laws_cmp::group_laws_cmp, vstd::std_specs::btree::group_btree_axioms};

/// Version of the JSON bridge protocol for host-session requests.
pub const HOST_BRIDGE_PROTOCOL_VERSION: u32 = 1;

/// Error returned by host-session entry points.
#[derive(Debug, Clone, PartialEq, Eq)]
pub enum HostSessionError {
    /// A host binding sent malformed request JSON.
    RequestJson(String),
    /// A host binding used an unsupported bridge version.
    UnsupportedBridgeVersion {
        /// Version supported by this runtime.
        expected: u32,
        /// Version sent by the host binding.
        found: u32,
    },
    /// A host binding referenced a session handle that no longer exists.
    UnknownSession {
        /// Opaque host-session handle.
        handle: u64,
    },
    /// A host event batch could not be decoded or was unsupported.
    Event(String),
    /// A platform command batch could not be encoded.
    CommandJson(String),
    /// A bridge response could not be encoded.
    ResponseJson(String),
}

impl HostSessionError {
    /// The human-readable text of the error.
    pub open spec fn message_bytes(self) -> Seq<u8> {
        match self {
            HostSessionError::RequestJson(m) => str_bytes("invalid host request JSON: "@) + str_bytes(m@),
            HostSessionError::UnsupportedBridgeVersion { expected, found } =>
                str_bytes("unsupported host bridge protocol version "@) + decimal_bytes(found as nat)
                    + str_bytes("; expected "@) + decimal_bytes(expected as nat),
            HostSessionError::UnknownSession { handle } =>
                str_bytes("unknown host session handle "@) + decimal_bytes(handle as nat),
            HostSessionError::Event(m) => str_bytes(m@),
            HostSessionError::CommandJson(m) => str_bytes("failed to encode host command batch: "@) + str_bytes(m@),
            HostSessionError::ResponseJson(m) => str_bytes("failed to encode host response: "@) + str_bytes(m@),
        }
    }

    /// The error as display text.
    pub fn message(&self) -> (s: String)
        ensures
            s@ == text_of(self.message_bytes()),
    {
        let mut b: Vec<u8> = Vec::new();
        match self {
            HostSessionError::RequestJson(m) => {
                push_bytes(&mut b, "invalid host request JSON: ".as_bytes());
                push_bytes(&mut b, m.as_str().as_bytes());
            },
            HostSessionError::UnsupportedBridgeVersion { expected, found } => {
                push_bytes(&mut b, "unsupported host bridge protocol version ".as_bytes());
                push_decimal(&mut b, *found as u64);
                push_bytes(&mut b, "; expected ".as_bytes());
                push_decimal(&mut b, *expected as u64);
            },
            HostSessionError::UnknownSession { handle } => {
                push_bytes(&mut b, "unknown host session handle ".as_bytes());
                push_decimal(&mut b, *handle);
            },
            HostSessionError::Event(m) => {
                push_bytes(&mut b, m.as_str().as_bytes());
            },
            HostSessionError::CommandJson(m) => {
                push_bytes(&mut b, "failed to encode host command batch: ".as_bytes());
                push_bytes(&mut b, m.as_str().as_bytes());
            },
            HostSessionError::ResponseJson(m) => {
                push_bytes(&mut b, "failed to encode host response: ".as_bytes());
                push_bytes(&mut b, m.as_str().as_bytes());
            },
        }
        assert(b@ =~= self.message_bytes());
        string_from_bytes(b.as_slice())
    }
}

/// Checks the bridge protocol version of a request envelope.
pub fn ensure_supported(protocol_version: u32) -> (r: Result<(), HostSessionError>)
    ensures
        protocol_version == HOST_BRIDGE_PROTOCOL_VERSION <==> r is Ok,
        r matches Err(e) ==> e == (HostSessionError::UnsupportedBridgeVersion {
            expected: HOST_BRIDGE_PROTOCOL_VERSION,
            found: protocol_version,
        }),
{
    if protocol_version == HOST_BRIDGE_PROTOCOL_VERSION {
        Ok(())
    } else {
        Err(HostSessionError::UnsupportedBridgeVersion { expected: HOST_BRIDGE_PROTOCOL_VERSION, found: protocol_version })
    }
}

/// Opaque session id passed through platform bindings.
#[derive(Debug, Clone, Copy, PartialEq, Eq, Structural, PartialOrd, Ord, Hash)]
pub struct HostSessionHandle(u64);

impl HostSessionHandle {
    pub closed spec fn raw(self) -> u64 {
        self.0
    }

    /// A handle from a raw host-owned id.
    pub fn from_raw(raw: u64) -> (h: HostSessionHandle)
        ensures
            h.raw() == raw,
    {
        HostSessionHandle(raw)
    }

    /// The raw id for ABI boundaries.
    pub fn to_raw(self) -> (r: u64)
        ensures
            r == self.raw(),
    {
        self.0
    }
}

/// A running app session owned by platform glue.
pub struct HostSession<D> {
    driver: D,
}

impl<D> HostSession<D> {
    pub closed spec fn driver_value(self) -> D {
        self.driver
    }

    /// A session around a platform driver.
    pub fn new(driver: D) -> (s: HostSession<D>)
        ensures
            s.driver_value() == driver,
    {
        HostSession { driver }
    }

    /// Shared access to the driver.
    pub fn driver(&self) -> (d: &D)
        ensures
            *d == self.driver_value(),
    {
        &self.driver
    }

    /// Mutable access to the driver.
    pub fn driver_mut(&mut self) -> (d: &mut D)
        ensures
            *d == old(self).driver_value(),
            final(self).driver_value() == *final(d),
    {
        &mut self.driver
    }

    /// The wrapped driver.
    pub fn into_driver(self) -> (d: D)
        ensures
            d == self.driver_value(),
    {
        self.driver
    }
}

/// A platform driver advanced through the shared host loop. Each platform
/// backend implements it with its own event decoder and command encoder; the
/// session and the registry only sequence its calls.
pub trait HostDriver {
    /// How the platform describes its viewport in logical pixels.
    type Viewport;

    /// Advances the app by one frame.
    fn tick(&mut self);

    /// Updates the host viewport.
    fn set_viewport(&mut self, viewport: Self::Viewport);

    /// Decodes and enqueues a versioned JSON event batch from the host; an
    /// error carries the decoder's message.
    fn dispatch_wire_event_batch_json(&self, payload: &str) -> Result<(), String>;

    /// Drains pending platform commands as a host-facing JSON batch; an error
    /// carries the encoder's message.
    fn drain_command_batch_json(&self) -> Result<String, String>;
}

/// The session outcome of delivering an event batch: a decoder failure
/// becomes `HostSessionError::Event`.
pub fn event_outcome(r: Result<(), String>) -> (out: Result<(), HostSessionError>)
    ensures
        r is Ok <==> out is Ok,
        r matches Err(m) ==> out == Err::<(), HostSessionError>(HostSessionError::Event(m)),
        out == event_result(r),
{
    match r {
        Ok(()) => Ok(()),
        Err(m) => Err(HostSessionError::Event(m)),
    }
}

/// The session outcome of draining commands: an encoder failure becomes
/// `HostSessionError::CommandJson`.
pub fn command_outcome(r: Result<String, String>) -> (out: Result<String, HostSessionError>)
    ensures
        r matches Ok(j) ==> out == Ok::<String, HostSessionError>(j),
        r matches Err(m) ==> out == Err::<String, HostSessionError>(HostSessionError::CommandJson(m)),
        out == command_result(r),
{
    match r {
        Ok(j) => Ok(j),
        Err(m) => Err(HostSessionError::CommandJson(m)),
    }
}

/// `r` is a result the driver `d` may give for the event batch `payload`.
pub open spec fn dispatched<D: HostDriver>(d: D, payload: &str, r: Result<(), String>) -> bool {
    call_ensures(D::dispatch_wire_event_batch_json, (&d, payload), r)
}

/// `r` is a result the driver `d` may give when its commands are drained.
pub open spec fn drained<D: HostDriver>(d: D, r: Result<String, String>) -> bool {
    call_ensures(D::drain_command_batch_json, (&d,), r)
}

/// The session outcome of a driver's dispatch result.
pub open spec fn event_result(r: Result<(), String>) -> Result<(), HostSessionError> {
    match r {
        Ok(()) => Ok(()),
        Err(m) => Err(HostSessionError::Event(m)),
    }
}

/// The session outcome of a driver's drain result.
pub open spec fn command_result(r: Result<String, String>) -> Result<String, HostSessionError> {
    match r {
        Ok(j) => Ok(j),
        Err(m) => Err(HostSessionError::CommandJson(m)),
    }
}

impl<D: HostDriver> HostSession<D> {
    /// Advances one frame without draining commands.
    pub fn tick(&mut self)
        ensures
            (exists|m: &mut D| #[trigger] call_ensures(D::tick, (m,), ())
                && mut_ref_current(m) == old(self).driver_value() && mut_ref_future(m) == final(self).driver_value()),
    {
        self.driver.tick();
    }

    /// Updates the viewport.
    pub fn set_viewport(&mut self, viewport: D::Viewport)
        ensures
            (exists|m: &mut D| #[trigger] call_ensures(D::set_viewport, (m, viewport), ())
                && mut_ref_current(m) == old(self).driver_value() && mut_ref_future(m) == final(self).driver_value()),
    {
        self.driver.set_viewport(viewport);
    }

    /// Enqueues one host event batch for delivery on the next tick.
    pub fn dispatch_event_batch_json(&self, payload: &str) -> (r: Result<(), String>)
        ensures
            dispatched(self.driver_value(), payload, r),
    {
        self.driver.dispatch_wire_event_batch_json(payload)
    }

    /// Drains pending commands without advancing a frame.
    pub fn drain_command_batch_json(&self) -> (r: Result<String, String>)
        ensures
            drained(self.driver_value(), r),
    {
        self.driver.drain_command_batch_json()
    }

    /// Advances one frame, then drains the resulting command batch.
    pub fn tick_and_drain_command_batch_json(&mut self) -> (r: Result<String, String>)
        ensures
            (exists|m: &mut D| #[trigger] call_ensures(D::tick, (m,), ())
                && mut_ref_current(m) == old(self).driver_value() && mut_ref_future(m) == final(self).driver_value()),
            drained(final(self).driver_value(), r),
    {
        self.tick();
        self.drain_command_batch_json()
    }

    /// Delivers host events, advances one frame and drains platform commands;
    /// when the events are refused nothing is ticked or drained.
    pub fn dispatch_events_tick_and_drain_command_batch_json(&mut self, payload: &str) -> (r: Result<String, HostSessionError>)
        ensures
            r matches Err(e) ==> (e is Event || e is CommandJson),
            (exists|d: Result<(), String>| #[trigger] dispatched(old(self).driver_value(), payload, d)
                && (d matches Err(msg) ==> r == Err::<String, HostSessionError>(HostSessionError::Event(msg)))
                && (d is Ok ==> !(r matches Err(e) && e is Event))),
            ((r matches Err(e) && e is Event) ==> final(self).driver_value() == old(self).driver_value()),
            (!(r matches Err(e) && e is Event) ==> (exists|m: &mut D| #[trigger] call_ensures(D::tick, (m,), ())
                && mut_ref_current(m) == old(self).driver_value() && mut_ref_future(m) == final(self).driver_value())),
            (!(r matches Err(e) && e is Event) ==> (exists|c: Result<String, String>| #[trigger] drained(final(self).driver_value(), c) && r == command_result(c))),
    {
        let d = self.dispatch_event_batch_json(payload);
        let ghost dd = d;
        match event_outcome(d) {
            Err(e) => {
                assert(dispatched(old(self).driver_value(), payload, dd));
                Err(e)
            },
            Ok(()) => {
                let c = self.tick_and_drain_command_batch_json();
                let ghost cc = c;
                let out = command_outcome(c);
                assert(drained(self.driver_value(), cc) && out == command_result(cc));
                assert(dispatched(old(self).driver_value(), payload, dd));
                out
            },
        }
    }

    /// Resizes the viewport, advances one frame and drains platform commands.
    pub fn resize_tick_and_drain_command_batch_json(&mut self, viewport: D::Viewport) -> (r: Result<String, String>)
        ensures
            exists|m1: &mut D, m2: &mut D|
                #![trigger call_ensures(D::set_viewport, (m1, viewport), ()), call_ensures(D::tick, (m2,), ())]
                call_ensures(D::set_viewport, (m1, viewport), ()) && call_ensures(D::tick, (m2,), ())
                && mut_ref_current(m1) == old(self).driver_value() && mut_ref_future(m1) == mut_ref_current(m2)
                && mut_ref_future(m2) == final(self).driver_value(),
            drained(final(self).driver_value(), r),
    {
        self.set_viewport(viewport);
        let r = self.tick_and_drain_command_batch_json();
        r
    }
}

/// Mutable access to the value of `key` with `BTreeMap::get_mut`.
///
/// Trusted: `get_mut` returns the value stored under the key, if any, and
/// writes through the reference land in the map under that key.
#[verifier::external_body]
fn map_get_mut<'a, V>(m: &'a mut BTreeMap<u64, V>, key: u64) -> (r: Option<&'a mut V>)
    ensures
        r is Some <==> old(m)@.contains_key(key),
        r is None ==> final(m)@ == old(m)@,
        r matches Some(v) ==> *v == old(m)@[key],
        r matches Some(v) ==> final(m)@ == old(m)@.insert(key, *final(v)),
{
    m.get_mut(&key)
}

/// Sessions behind stable opaque handles.
pub struct HostSessionRegistry<D> {
    next_handle: u64,
    sessions: BTreeMap<u64, HostSession<D>>,
}

impl<D> HostSessionRegistry<D> {
    /// The live sessions by raw handle.
    pub closed spec fn sessions_map(self) -> Map<u64, HostSession<D>> {
        self.sessions@
    }

    /// The candidate for the next allocated handle.
    pub closed spec fn next_raw(self) -> u64 {
        self.next_handle
    }

    /// An empty registry.
    pub fn new() -> (r: HostSessionRegistry<D>)
        ensures
            r.sessions_map() == Map::<u64, HostSession<D>>::empty(),
            r.next_raw() == 1,
    {
        HostSessionRegistry { next_handle: 1, sessions: BTreeMap::new() }
    }

    /// Whether `handle` names a live session.
    pub fn contains(&self, handle: HostSessionHandle) -> (b: bool)
        ensures
            b == self.sessions_map().contains_key(handle.raw()),
    {
        self.sessions.contains_key(&handle.0)
    }

    /// Number of live sessions.
    pub fn len(&self) -> (n: usize)
        ensures
            n == self.sessions_map().len(),
    {
        self.sessions.len()
    }

    /// Whether no session is registered.
    pub fn is_empty(&self) -> (b: bool)
        ensures
            b == (self.sessions_map().len() == 0),
    {
        let b = self.sessions.is_empty();
        proof {
            if !b {
                assert(self.sessions@.dom().len() > 0) by {
                    let k = choose|k: u64| self.sessions@.dom().contains(k);
                    vstd::set_lib::lemma_set_empty_equivalency_len(self.sessions@.dom());
                    assert(self.sessions@.dom() != Set::<u64>::empty()) by {
                        assert(!(self.sessions@ =~= Map::<u64, HostSession<D>>::empty()));
                    }
                }
            }
        }
        b
    }

    /// Shared access to a live session.
    pub fn get(&self, handle: HostSessionHandle) -> (r: Option<&HostSession<D>>)
        ensures
            r is Some <==> self.sessions_map().contains_key(handle.raw()),
            r matches Some(s) ==> *s == self.sessions_map()[handle.raw()],
    {
        self.sessions.get(&handle.0)
    }

    /// Mutable access to a live session.
    pub fn get_mut(&mut self, handle: HostSessionHandle) -> (r: Option<&mut HostSession<D>>)
        ensures
            r is Some <==> old(self).sessions_map().contains_key(handle.raw()),
            r is None ==> final(self).sessions_map() == old(self).sessions_map(),
            r matches Some(s) ==> *s == old(self).sessions_map()[handle.raw()],
            r matches Some(s) ==> final(self).sessions_map() == old(self).sessions_map().insert(handle.raw(), *final(s)),
            final(self).next_raw() == old(self).next_raw(),
    {
        map_get_mut(&mut self.sessions, handle.0)
    }

    /// Removes a session, returning it if the handle was live.
    pub fn remove(&mut self, handle: HostSessionHandle) -> (r: Option<HostSession<D>>)
        ensures
            final(self).sessions_map() == old(self).sessions_map().remove(handle.raw()),
            final(self).next_raw() == old(self).next_raw(),
            r is Some <==> old(self).sessions_map().contains_key(handle.raw()),
            r matches Some(s) ==> s == old(self).sessions_map()[handle.raw()],
    {
        self.sessions.remove(&handle.0)
    }

    /// The live session of `handle`, or `UnknownSession`.
    pub fn session(&self, handle: HostSessionHandle) -> (r: Result<&HostSession<D>, HostSessionError>)
        ensures
            r is Ok <==> self.sessions_map().contains_key(handle.raw()),
            r matches Ok(s) ==> *s == self.sessions_map()[handle.raw()],
            r matches Err(e) ==> e == (HostSessionError::UnknownSession { handle: handle.raw() }),
    {
        match self.sessions.get(&handle.0) {
            Some(s) => Ok(s),
            None => Err(HostSessionError::UnknownSession { handle: handle.to_raw() }),
        }
    }

    /// Mutable access to the live session of `handle`, or `UnknownSession`.
    pub fn session_mut(&mut self, handle: HostSessionHandle) -> (r: Result<&mut HostSession<D>, HostSessionError>)
        ensures
            r is Ok <==> old(self).sessions_map().contains_key(handle.raw()),
            r is Err ==> final(self).sessions_map() == old(self).sessions_map(),
            r matches Ok(s) ==> *s == old(self).sessions_map()[handle.raw()],
            r matches Ok(s) ==> final(self).sessions_map() == old(self).sessions_map().insert(handle.raw(), *final(s)),
            final(self).next_raw() == old(self).next_raw(),
            r matches Err(e) ==> e == (HostSessionError::UnknownSession { handle: handle.raw() }),
    {
        match map_get_mut(&mut self.sessions, handle.0) {
            Some(s) => Ok(s),
            None => Err(HostSessionError::UnknownSession { handle: handle.to_raw() }),
        }
    }
}

impl<D> Default for HostSessionRegistry<D> {
    /// An empty registry.
    fn default() -> (r: HostSessionRegistry<D>)
        ensures
            r.sessions_map() == Map::<u64, HostSession<D>>::empty(),
            r.next_raw() == 1,
    {
        HostSessionRegistry::new()
    }
}

/// The `k`-th handle tried from `start`: counting up and wrapping from
/// `u64::MAX` to 1.
pub open spec fn candidate(start: u64, k: nat) -> u64 {
    (((start - 1 + k) as int % (u64::MAX as int)) + 1) as u64
}

proof fn lemma_mod_distinct(a: int, b: int, m: int)
    requires
        0 <= a < b,
        b - a < m,
        m > 0,
    ensures
        a % m != b % m,
{
    vstd::arithmetic::div_mod::lemma_fundamental_div_mod(a, m);
    vstd::arithmetic::div_mod::lemma_fundamental_div_mod(b, m);
    let qa = a / m;
    let qb = b / m;
    if a % m == b % m {
        assert(m * qb - m * qa == b - a);
        assert(m * (qb - qa) == b - a) by (nonlinear_arith)
            requires
                m * qb - m * qa == b - a,
        ;
        if qb - qa >= 1 {
            assert(m * (qb - qa) >= m) by (nonlinear_arith)
                requires
                    qb - qa >= 1,
                    m > 0,
            ;
        } else {
            assert(m * (qb - qa) <= 0) by (nonlinear_arith)
                requires
                    qb - qa <= 0,
                    m > 0,
            ;
        }
    }
}

pub proof fn lemma_candidates_distinct(start: u64, j: nat, k: nat)
    requires
        1 <= start,
        j < k < u64::MAX,
    ensures
        candidate(start, j) != candidate(start, k),
{
    let m = u64::MAX as int;
    let a = (start - 1 + j) as int;
    let b = (start - 1 + k) as int;
    lemma_mod_distinct(a, b, m);
    vstd::arithmetic::div_mod::lemma_mod_bound(a, m);
    vstd::arithmetic::div_mod::lemma_mod_bound(b, m);
}

proof fn lemma_candidate_next(start: u64, k: nat)
    requires
        1 <= start,
    ensures
        candidate(start, k + 1) == if candidate(start, k) < u64::MAX { (candidate(start, k) + 1) as u64 } else { 1u64 },
{
    let m = u64::MAX as int;
    let a = (start - 1 + k) as int;
    vstd::arithmetic::div_mod::lemma_mod_bound(a, m);
    vstd::arithmetic::div_mod::lemma_mod_bound(a + 1, m);
    vstd::arithmetic::div_mod::lemma_fundamental_div_mod(a, m);
    vstd::arithmetic::div_mod::lemma_fundamental_div_mod(a + 1, m);
    if a % m + 1 < m {
        vstd::arithmetic::div_mod::lemma_mod_add_multiples_vanish(a % m + 1, m);
        assert((a + 1) % m == a % m + 1) by {
            vstd::arithmetic::div_mod::lemma_add_mod_noop(a, 1, m);
            vstd::arithmetic::div_mod::lemma_small_mod((a % m + 1) as nat, m as nat);
            vstd::arithmetic::div_mod::lemma_small_mod(1, m as nat);
        }
    } else {
        assert((a + 1) % m == 0) by {
            vstd::arithmetic::div_mod::lemma_add_mod_noop(a, 1, m);
            vstd::arithmetic::div_mod::lemma_small_mod(1, m as nat);
            vstd::arithmetic::div_mod::lemma_mod_self_0(m);
        }
    }
}

/// Where handle allocation starts counting for a registry whose next
/// candidate is `next`.
pub open spec fn alloc_start(next: u64) -> u64 {
    if next > 1 { next } else { 1 }
}

/// `h` is the first candidate, counting from `alloc_start(next)`, that names
/// no live session of `m`.
pub open spec fn first_free<D>(m: Map<u64, HostSession<D>>, next: u64, h: u64) -> bool {
    exists|k: nat| #![trigger candidate(alloc_start(next), k)]
        h == candidate(alloc_start(next), k)
        && !m.contains_key(h)
        && forall|j: nat| j < k ==> m.contains_key(#[trigger] candidate(alloc_start(next), j))
}

/// The next candidate after handing out `h`.
pub open spec fn after_handle(h: u64) -> u64 {
    if h < u64::MAX { (h + 1) as u64 } else { 1 }
}

impl<D> HostSessionRegistry<D> {
    /// A handle that names no live session: the next candidate counting up
    /// from the last one handed out (wrapping to 1), skipping live ones.
    fn allocate_handle(&mut self) -> (h: HostSessionHandle)
        requires
            old(self).sessions_map().len() < u64::MAX,
        ensures
            !old(self).sessions_map().contains_key(h.raw()),
            h.raw() >= 1,
            final(self).sessions_map() == old(self).sessions_map(),
            first_free(old(self).sessions_map(), old(self).next_raw(), h.raw()),
            final(self).next_raw() == after_handle(h.raw()),
    {
        let start: u64 = if self.next_handle > 1 { self.next_handle } else { 1 };
        let ghost mut tried: Set<u64> = Set::empty();
        let ghost mut k: nat = 0;
        let mut raw = start;
        proof {
            vstd::arithmetic::div_mod::lemma_small_mod((start - 1) as nat, u64::MAX as nat);
            assert(raw == candidate(start, 0));
        }
        loop
            invariant
                1 <= start,
                self.sessions@.len() < u64::MAX,
                self.sessions@.dom().finite(),
                raw == candidate(start, k),
                tried.finite(),
                tried.len() == k,
                tried.subset_of(self.sessions@.dom()),
                forall|j: nat| j < k ==> #[trigger] tried.contains(candidate(start, j)),
                forall|x: u64| #[trigger] tried.contains(x) ==> exists|j: nat| j < k && candidate(start, j) == x,
                k <= self.sessions@.len(),
                self.sessions@ == old(self).sessions@,
                start == alloc_start(old(self).next_handle),
            decreases self.sessions@.len() - k,
        {
            let next = if raw < u64::MAX { raw + 1 } else { 1 };
            self.next_handle = next;
            if !self.sessions.contains_key(&raw) {
                proof {
                    assert forall|j: nat| j < k implies self.sessions@.contains_key(#[trigger] candidate(start, j)) by {
                        assert(tried.contains(candidate(start, j)));
                    }
                    assert(raw == candidate(alloc_start(old(self).next_handle), k));
                }
                return HostSessionHandle(raw);
            }
            proof {
                assert(!tried.contains(raw)) by {
                    if tried.contains(raw) {
                        let j = choose|j: nat| j < k && candidate(start, j) == raw;
                        lemma_candidates_distinct(start, j, k);
                    }
                }
                tried = tried.insert(raw);
                k = k + 1;
                vstd::set_lib::lemma_len_subset(tried, self.sessions@.dom());
                lemma_candidate_next(start, (k - 1) as nat);
                assert(next == candidate(start, k));
            }
            raw = next;
        }
    }

    /// Inserts a session and returns its new handle.
    pub fn insert_session(&mut self, session: HostSession<D>) -> (h: HostSessionHandle)
        requires
            old(self).sessions_map().len() < u64::MAX,
        ensures
            !old(self).sessions_map().contains_key(h.raw()),
            h.raw() >= 1,
            final(self).sessions_map() == old(self).sessions_map().insert(h.raw(), session),
            final(self).sessions_map().dom().finite(),
            final(self).sessions_map().len() == old(self).sessions_map().len() + 1,
            first_free(old(self).sessions_map(), old(self).next_raw(), h.raw()),
            final(self).next_raw() == after_handle(h.raw()),
    {
        let handle = self.allocate_handle();
        proof {
            assert(self.sessions@.dom().finite());
        }
        self.sessions.insert(handle.0, session);
        proof {
            assert(self.sessions@.dom() =~= old(self).sessions@.dom().insert(handle.0));
        }
        handle
    }

    /// Inserts a driver wrapped in a new session.
    pub fn insert_driver(&mut self, driver: D) -> (h: HostSessionHandle)
        requires
            old(self).sessions_map().len() < u64::MAX,
        ensures
            !old(self).sessions_map().contains_key(h.raw()),
            h.raw() >= 1,
            final(self).sessions_map().dom() == old(self).sessions_map().dom().insert(h.raw()),
            final(self).sessions_map()[h.raw()].driver_value() == driver,
            forall|k: u64| #[trigger] old(self).sessions_map().contains_key(k) ==> final(self).sessions_map()[k] == old(self).sessions_map()[k],
            final(self).sessions_map().dom().finite(),
            final(self).sessions_map().len() == old(self).sessions_map().len() + 1,
            first_free(old(self).sessions_map(), old(self).next_raw(), h.raw()),
            final(self).next_raw() == after_handle(h.raw()),
    {
        self.insert_session(HostSession::new(driver))
    }
}

/// The sessions after a call that may change only the session of `raw`.
pub open spec fn only_touches<D>(before: Map<u64, HostSession<D>>, after: Map<u64, HostSession<D>>, raw: u64) -> bool {
    &&& after.dom() == before.dom()
    &&& forall|k: u64| #[trigger] before.contains_key(k) && k != raw ==> after[k] == before[k]
}

proof fn lemma_insert_touches<D>(before: Map<u64, HostSession<D>>, raw: u64, s: HostSession<D>)
    requires
        before.contains_key(raw),
    ensures
        only_touches(before, before.insert(raw, s), raw),
{
    assert(before.insert(raw, s).dom() =~= before.dom());
}

impl<D: HostDriver> HostSessionRegistry<D> {
    /// Advances one session by a frame.
    pub fn tick(&mut self, handle: HostSessionHandle) -> (r: Result<(), HostSessionError>)
        ensures
            r is Ok <==> old(self).sessions_map().contains_key(handle.raw()),
            r matches Err(e) ==> e == (HostSessionError::UnknownSession { handle: handle.raw() }),
            r is Err ==> final(self).sessions_map() == old(self).sessions_map(),
            old(self).sessions_map().contains_key(handle.raw()) ==> (exists|m: &mut D| #[trigger] call_ensures(D::tick, (m,), ()) && mut_ref_current(m) == old(self).sessions_map()[handle.raw()].driver_value() && mut_ref_future(m) == final(self).sessions_map()[handle.raw()].driver_value()),
            only_touches(old(self).sessions_map(), final(self).sessions_map(), handle.raw()),
            final(self).next_raw() == old(self).next_raw(),
    {
        match self.session_mut(handle) {
            Ok(s) => {
                s.tick();
                proof { lemma_insert_touches(old(self).sessions_map(), handle.raw(), *s); }
                Ok(())
            },
            Err(e) => Err(e),
        }
    }

    /// Updates one session's viewport.
    pub fn set_viewport_size(&mut self, handle: HostSessionHandle, viewport: D::Viewport) -> (r: Result<(), HostSessionError>)
        ensures
            r is Ok <==> old(self).sessions_map().contains_key(handle.raw()),
            r matches Err(e) ==> e == (HostSessionError::UnknownSession { handle: handle.raw() }),
            r is Err ==> final(self).sessions_map() == old(self).sessions_map(),
            old(self).sessions_map().contains_key(handle.raw()) ==> (exists|m: &mut D| #[trigger] call_ensures(D::set_viewport, (m, viewport), ()) && mut_ref_current(m) == old(self).sessions_map()[handle.raw()].driver_value() && mut_ref_future(m) == final(self).sessions_map()[handle.raw()].driver_value()),
            only_touches(old(self).sessions_map(), final(self).sessions_map(), handle.raw()),
            final(self).next_raw() == old(self).next_raw(),
    {
        match self.session_mut(handle) {
            Ok(s) => {
                s.set_viewport(viewport);
                proof { lemma_insert_touches(old(self).sessions_map(), handle.raw(), *s); }
                Ok(())
            },
            Err(e) => Err(e),
        }
    }

    /// Enqueues a JSON event batch for one session.
    pub fn dispatch_event_batch_json(&self, handle: HostSessionHandle, payload: &str) -> (r: Result<(), HostSessionError>)
        ensures
            !self.sessions_map().contains_key(handle.raw())
                ==> r == Err::<(), HostSessionError>(HostSessionError::UnknownSession { handle: handle.raw() }),
            self.sessions_map().contains_key(handle.raw()) ==> (r matches Err(e) ==> e is Event),
            self.sessions_map().contains_key(handle.raw()) ==> (exists|d: Result<(), String>|
                #[trigger] dispatched(self.sessions_map()[handle.raw()].driver_value(), payload, d) && r == event_result(d)),
    {
        match self.session(handle) {
            Ok(s) => {
                let d = s.dispatch_event_batch_json(payload);
                let out = event_outcome(d);
                assert(dispatched(self.sessions_map()[handle.raw()].driver_value(), payload, d) && out == event_result(d));
                out
            },
            Err(e) => Err(e),
        }
    }

    /// Drains pending command JSON for one session.
    pub fn drain_command_batch_json(&self, handle: HostSessionHandle) -> (r: Result<String, HostSessionError>)
        ensures
            !self.sessions_map().contains_key(handle.raw())
                ==> r == Err::<String, HostSessionError>(HostSessionError::UnknownSession { handle: handle.raw() }),
            self.sessions_map().contains_key(handle.raw()) ==> (r matches Err(e) ==> e is CommandJson),
            self.sessions_map().contains_key(handle.raw()) ==> (exists|c: Result<String, String>| #[trigger] drained(self.sessions_map()[handle.raw()].driver_value(), c) && r == command_result(c)),
    {
        match self.session(handle) {
            Ok(s) => {
                let c = s.drain_command_batch_json();
                let out = command_outcome(c);
                assert(drained(self.sessions_map()[handle.raw()].driver_value(), c) && out == command_result(c));
                out
            },
            Err(e) => Err(e),
        }
    }

    /// Advances one session, then drains its pending command JSON.
    pub fn tick_and_drain_command_batch_json(&mut self, handle: HostSessionHandle) -> (r: Result<String, HostSessionError>)
        ensures
            !old(self).sessions_map().contains_key(handle.raw()) ==> {
                &&& r == Err::<String, HostSessionError>(HostSessionError::UnknownSession { handle: handle.raw() })
                &&& final(self).sessions_map() == old(self).sessions_map()
            },
            old(self).sessions_map().contains_key(handle.raw()) ==> (r matches Err(e) ==> e is CommandJson),
            old(self).sessions_map().contains_key(handle.raw()) ==> (exists|m: &mut D| #[trigger] call_ensures(D::tick, (m,), ()) && mut_ref_current(m) == old(self).sessions_map()[handle.raw()].driver_value() && mut_ref_future(m) == final(self).sessions_map()[handle.raw()].driver_value()),
            old(self).sessions_map().contains_key(handle.raw()) ==> (exists|c: Result<String, String>| #[trigger] drained(final(self).sessions_map()[handle.raw()].driver_value(), c) && r == command_result(c)),
            only_touches(old(self).sessions_map(), final(self).sessions_map(), handle.raw()),
            final(self).next_raw() == old(self).next_raw(),
    {
        match self.session_mut(handle) {
            Ok(s) => {
                let c = s.tick_and_drain_command_batch_json();
                let out = command_outcome(c);
                proof { lemma_insert_touches(old(self).sessions_map(), handle.raw(), *s); }
                out
            },
            Err(e) => Err(e),
        }
    }

    /// Delivers events, advances one frame and drains command JSON for one
    /// session.
    pub fn dispatch_events_tick_and_drain_command_batch_json(&mut self, handle: HostSessionHandle, payload: &str) -> (r: Result<String, HostSessionError>)
        ensures
            !old(self).sessions_map().contains_key(handle.raw()) ==> {
                &&& r == Err::<String, HostSessionError>(HostSessionError::UnknownSession { handle: handle.raw() })
                &&& final(self).sessions_map() == old(self).sessions_map()
            },
            old(self).sessions_map().contains_key(handle.raw()) ==> (r matches Err(e) ==> (e is Event || e is CommandJson)),
            old(self).sessions_map().contains_key(handle.raw()) ==> (exists|d: Result<(), String>| #[trigger] dispatched(old(self).sessions_map()[handle.raw()].driver_value(), payload, d)
                && (d matches Err(msg) ==> r == Err::<String, HostSessionError>(HostSessionError::Event(msg)))
                && (d is Ok ==> !(r matches Err(e) && e is Event))),
            old(self).sessions_map().contains_key(handle.raw()) ==> ((r matches Err(e) && e is Event) ==> final(self).sessions_map()[handle.raw()].driver_value() == old(self).sessions_map()[handle.raw()].driver_value()),
            old(self).sessions_map().contains_key(handle.raw()) ==> (!(r matches Err(e) && e is Event) ==> (exists|m: &mut D| #[trigger] call_ensures(D::tick, (m,), ())
                && mut_ref_current(m) == old(self).sessions_map()[handle.raw()].driver_value() && mut_ref_future(m) == final(self).sessions_map()[handle.raw()].driver_value())),
            old(self).sessions_map().contains_key(handle.raw()) ==> (!(r matches Err(e) && e is Event) ==> (exists|c: Result<String, String>| drained(final(self).sessions_map()[handle.raw()].driver_value(), c) && r == #[trigger] command_result(c))),
            only_touches(old(self).sessions_map(), final(self).sessions_map(), handle.raw()),
            final(self).next_raw() == old(self).next_raw(),
    {
        match self.session_mut(handle) {
            Ok(s) => {
                let out = s.dispatch_events_tick_and_drain_command_batch_json(payload);
                proof { lemma_insert_touches(old(self).sessions_map(), handle.raw(), *s); }
                out
            },
            Err(e) => Err(e),
        }
    }

    /// Resizes one session, advances a frame and drains command JSON.
    pub fn resize_tick_and_drain_command_batch_json(&mut self, handle: HostSessionHandle, viewport: D::Viewport) -> (r: Result<String, HostSessionError>)
        ensures
            !old(self).sessions_map().contains_key(handle.raw()) ==> {
                &&& r == Err::<String, HostSessionError>(HostSessionError::UnknownSession { handle: handle.raw() })
                &&& final(self).sessions_map() == old(self).sessions_map()
            },
            old(self).sessions_map().contains_key(handle.raw()) ==> (r matches Err(e) ==> e is CommandJson),
            old(self).sessions_map().contains_key(handle.raw()) ==> (exists|m1: &mut D, m2: &mut D|
                #![trigger call_ensures(D::set_viewport, (m1, viewport), ()), call_ensures(D::tick, (m2,), ())]
                call_ensures(D::set_viewport, (m1, viewport), ()) && call_ensures(D::tick, (m2,), ())
                && mut_ref_current(m1) == old(self).sessions_map()[handle.raw()].driver_value() && mut_ref_future(m1) == mut_ref_current(m2)
                && mut_ref_future(m2) == final(self).sessions_map()[handle.raw()].driver_value()),
            old(self).sessions_map().contains_key(handle.raw()) ==> (exists|c: Result<String, String>| #[trigger] drained(final(self).sessions_map()[handle.raw()].driver_value(), c) && r == command_result(c)),
            only_touches(old(self).sessions_map(), final(self).sessions_map(), handle.raw()),
            final(self).next_raw() == old(self).next_raw(),
    {
        match self.session_mut(handle) {
            Ok(s) => {
                let c = s.resize_tick_and_drain_command_batch_json(viewport);
                let out = command_outcome(c);
                proof { lemma_insert_touches(old(self).sessions_map(), handle.raw(), *s); }
                out
            },
            Err(e) => Err(e),
        }
    }
}

/// A host lifecycle request as the registry applies it. Event batches arrive
/// as the JSON payload the driver decodes, viewports in the driver's form.
pub enum HostBridgeRequest<W> {
    /// Remove a session from its registry.
    Destroy {
        /// Opaque session handle.
        handle: u64,
    },
    /// Set the viewport without ticking.
    SetViewport {
        /// Opaque session handle.
        handle: u64,
        /// The new viewport.
        viewport: W,
    },
    /// Dispatch host events without ticking.
    DispatchEventBatch {
        /// Opaque session handle.
        handle: u64,
        /// Encoded host event batch.
        payload: String,
    },
    /// Drain currently queued platform commands.
    DrainCommandBatch {
        /// Opaque session handle.
        handle: u64,
    },
    /// Tick a session and drain platform commands.
    TickAndDrainCommandBatch {
        /// Opaque session handle.
        handle: u64,
    },
    /// Dispatch events, tick, and drain platform commands.
    DispatchEventsTickAndDrainCommandBatch {
        /// Opaque session handle.
        handle: u64,
        /// Encoded host event batch.
        payload: String,
    },
    /// Resize, tick, and drain platform commands.
    ResizeTickAndDrainCommandBatch {
        /// Opaque session handle.
        handle: u64,
        /// The new viewport.
        viewport: W,
    },
}

impl<W> HostBridgeRequest<W> {
    /// The session a request addresses.
    pub open spec fn target(self) -> u64 {
        match self {
            HostBridgeRequest::Destroy { handle } => handle,
            HostBridgeRequest::SetViewport { handle, .. } => handle,
            HostBridgeRequest::DispatchEventBatch { handle, .. } => handle,
            HostBridgeRequest::DrainCommandBatch { handle } => handle,
            HostBridgeRequest::TickAndDrainCommandBatch { handle } => handle,
            HostBridgeRequest::DispatchEventsTickAndDrainCommandBatch { handle, .. } => handle,
            HostBridgeRequest::ResizeTickAndDrainCommandBatch { handle, .. } => handle,
        }
    }
}

#[verifier::external_type_specification]
#[verifier::external_body]
pub struct ExJsonValue(serde_json::Value);

/// `Clone` of `serde_json::Value`, which the derived `Clone` of
/// [`HostBridgeResponse`] calls. Trusted to return; nothing is claimed of
/// the copy, since a value is opaque here.
pub assume_specification[ <serde_json::Value as std::clone::Clone>::clone ](v: &serde_json::Value) -> (r: serde_json::Value);

/// Whether `serde_json` parses `text` as a JSON value.
pub uninterp spec fn json_text_parses(text: Seq<char>) -> bool;

/// The message of the error `serde_json` reports for `text`.
pub uninterp spec fn json_error_text(text: Seq<char>) -> Seq<char>;

/// The JSON value `serde_json` parses `text` into.
pub uninterp spec fn json_value_of(text: Seq<char>) -> serde_json::Value;

/// Parses JSON text into a `serde_json::Value` with `serde_json::from_str`.
///
/// Trusted: the call succeeds exactly when the text parses, gives the
/// value named by the text, and reports a failure by the error's message,
/// all three functions of the text alone (objects are ordered maps, so the
/// value does not depend on the order keys were read).
#[verifier::external_body]
fn parse_json_value(text: &str) -> (r: Result<serde_json::Value, String>)
    ensures
        r is Ok <==> json_text_parses(text@),
        r matches Ok(v) ==> v == json_value_of(text@),
        r matches Err(m) ==> m@ == json_error_text(text@),
{
    match serde_json::from_str(text) {
        Ok(v) => Ok(v),
        Err(e) => Err(e.to_string()),
    }
}

/// The drained batch text as a JSON value; text that does not parse is a
/// `HostSessionError::CommandJson` with the parser's message.
pub fn command_batch_value(text: &str) -> (r: Result<serde_json::Value, HostSessionError>)
    ensures
        r is Ok <==> json_text_parses(text@),
        r matches Ok(v) ==> v == json_value_of(text@),
        r is Err ==> (r matches Err(HostSessionError::CommandJson(m)) && m@ == json_error_text(text@)),
{
    match parse_json_value(text) {
        Ok(v) => Ok(v),
        Err(m) => Err(HostSessionError::CommandJson(m)),
    }
}

/// What the registry answers a request with.
#[derive(Debug, Clone, PartialEq, Eq)]
pub enum HostBridgeResponse {
    /// The request succeeded and produced no command batch.
    Applied,
    /// A session was destroyed.
    Destroyed {
        /// Opaque session handle that was removed.
        handle: u64,
    },
    /// A host-facing platform command batch.
    CommandBatch {
        /// Command batch JSON as a nested value, not an escaped string.
        batch: serde_json::Value,
    },
}

/// What applying `request` to the sessions `before` may lead to: the
/// sessions `after` and the answer `r`. A request for an unknown session
/// changes nothing and is answered `UnknownSession`; otherwise the driver
/// alone decides between success and its own failure kind.
pub open spec fn request_applied<D, W>(
    request: HostBridgeRequest<W>,
    before: Map<u64, HostSession<D>>,
    after: Map<u64, HostSession<D>>,
    r: Result<HostBridgeResponse, HostSessionError>,
) -> bool {
    let h = request.target();
    if !before.contains_key(h) {
        &&& r == Err::<HostBridgeResponse, HostSessionError>(HostSessionError::UnknownSession { handle: h })
        &&& after == before
    } else {
        match request {
            HostBridgeRequest::Destroy { .. } => {
                &&& r == Ok::<HostBridgeResponse, HostSessionError>(HostBridgeResponse::Destroyed { handle: h })
                &&& after == before.remove(h)
            },
            HostBridgeRequest::SetViewport { .. } => {
                &&& r == Ok::<HostBridgeResponse, HostSessionError>(HostBridgeResponse::Applied)
                &&& only_touches(before, after, h)
            },
            HostBridgeRequest::DispatchEventBatch { .. } => {
                &&& (r is Ok ==> r == Ok::<HostBridgeResponse, HostSessionError>(HostBridgeResponse::Applied))
                &&& (r matches Err(e) ==> e is Event)
                &&& after == before
            },
            HostBridgeRequest::DrainCommandBatch { .. } => {
                &&& (r matches Ok(resp) ==> resp is CommandBatch)
                &&& (r matches Err(e) ==> e is CommandJson)
                &&& after == before
            },
            HostBridgeRequest::TickAndDrainCommandBatch { .. } => {
                &&& (r matches Ok(resp) ==> resp is CommandBatch)
                &&& (r matches Err(e) ==> e is CommandJson)
                &&& only_touches(before, after, h)
            },
            HostBridgeRequest::DispatchEventsTickAndDrainCommandBatch { .. } => {
                &&& (r matches Ok(resp) ==> resp is CommandBatch)
                &&& (r matches Err(e) ==> (e is Event || e is CommandJson))
                &&& only_touches(before, after, h)
            },
            HostBridgeRequest::ResizeTickAndDrainCommandBatch { .. } => {
                &&& (r matches Ok(resp) ==> resp is CommandBatch)
                &&& (r matches Err(e) ==> e is CommandJson)
                &&& only_touches(before, after, h)
            },
        }
    }
}

/// `r` is a result the driver `d` may give for an event batch with text
/// `payload`.
pub open spec fn dispatched_text<D: HostDriver>(d: D, payload: Seq<char>, r: Result<(), String>) -> bool {
    exists|p: &str| p@ == payload && #[trigger] dispatched(d, p, r)
}

/// The response to a request that succeeds without a command batch.
pub open spec fn applied_response(r: Result<(), HostSessionError>) -> Result<HostBridgeResponse, HostSessionError> {
    match r {
        Ok(()) => Ok(HostBridgeResponse::Applied),
        Err(e) => Err(e),
    }
}

/// `out` answers a drain that gave `r`: a failure is passed on; drained
/// text that parses as JSON becomes a command batch holding the parsed
/// value, and text that does not
/// becomes `HostSessionError::CommandJson` with the parser's message.
pub open spec fn batch_answer(r: Result<String, HostSessionError>, out: Result<HostBridgeResponse, HostSessionError>) -> bool {
    match r {
        Err(e) => out == Err::<HostBridgeResponse, HostSessionError>(e),
        Ok(t) => if json_text_parses(t@) {
            out matches Ok(HostBridgeResponse::CommandBatch { batch }) && batch == json_value_of(t@)
        } else {
            out matches Err(HostSessionError::CommandJson(m)) && m@ == json_error_text(t@)
        },
    }
}

/// Turns a drain result into the answer to the request.
pub fn batch_response(r: Result<String, HostSessionError>) -> (out: Result<HostBridgeResponse, HostSessionError>)
    ensures
        batch_answer(r, out),
{
    match r {
        Ok(text) => match command_batch_value(text.as_str()) {
            Ok(batch) => Ok(HostBridgeResponse::CommandBatch { batch }),
            Err(e) => Err(e),
        },
        Err(e) => Err(e),
    }
}

impl<D: HostDriver> HostSessionRegistry<D> {
    /// Applies one host bridge request.
    pub fn handle_request(&mut self, request: HostBridgeRequest<D::Viewport>) -> (r: Result<HostBridgeResponse, HostSessionError>)
        ensures
            request_applied(request, old(self).sessions_map(), final(self).sessions_map(), r),
            old(self).sessions_map().contains_key(request.target()) ==> (request matches HostBridgeRequest::SetViewport { viewport, .. } ==>
                (exists|m: &mut D| #[trigger] call_ensures(D::set_viewport, (m, viewport), ())
                    && mut_ref_current(m) == old(self).sessions_map()[request.target()].driver_value() && mut_ref_future(m) == final(self).sessions_map()[request.target()].driver_value())),
            old(self).sessions_map().contains_key(request.target()) ==> (request matches HostBridgeRequest::DispatchEventBatch { payload, .. } ==>
                (exists|d: Result<(), String>| #[trigger] dispatched_text(old(self).sessions_map()[request.target()].driver_value(), payload@, d)
                    && r == applied_response(event_result(d)))),
            old(self).sessions_map().contains_key(request.target()) ==> (request is DrainCommandBatch ==>
                (exists|c: Result<String, String>| #[trigger] drained(old(self).sessions_map()[request.target()].driver_value(), c) && batch_answer(command_result(c), r))),
            old(self).sessions_map().contains_key(request.target()) ==> (request is TickAndDrainCommandBatch ==> (exists|m: &mut D| #[trigger] call_ensures(D::tick, (m,), ()) && mut_ref_current(m) == old(self).sessions_map()[request.target()].driver_value() && mut_ref_future(m) == final(self).sessions_map()[request.target()].driver_value())),
            old(self).sessions_map().contains_key(request.target()) ==> (request is TickAndDrainCommandBatch ==>
                (exists|c: Result<String, String>| #[trigger] drained(final(self).sessions_map()[request.target()].driver_value(), c) && batch_answer(command_result(c), r))),
            old(self).sessions_map().contains_key(request.target()) ==> (request matches HostBridgeRequest::DispatchEventsTickAndDrainCommandBatch { payload, .. } ==>
                (exists|d: Result<(), String>| #[trigger] dispatched_text(old(self).sessions_map()[request.target()].driver_value(), payload@, d)
                    && (d matches Err(msg) ==> r == Err::<HostBridgeResponse, HostSessionError>(HostSessionError::Event(msg)))
                    && (d is Ok ==> !(r matches Err(e) && e is Event)))),
            old(self).sessions_map().contains_key(request.target()) ==> (request is DispatchEventsTickAndDrainCommandBatch && !(r matches Err(e) && e is Event) ==> (exists|m: &mut D| #[trigger] call_ensures(D::tick, (m,), ()) && mut_ref_current(m) == old(self).sessions_map()[request.target()].driver_value() && mut_ref_future(m) == final(self).sessions_map()[request.target()].driver_value())),
            old(self).sessions_map().contains_key(request.target()) ==> (request is DispatchEventsTickAndDrainCommandBatch && !(r matches Err(e) && e is Event) ==>
                (exists|c: Result<String, String>| #[trigger] drained(final(self).sessions_map()[request.target()].driver_value(), c) && batch_answer(command_result(c), r))),
            old(self).sessions_map().contains_key(request.target()) ==> (request matches HostBridgeRequest::ResizeTickAndDrainCommandBatch { viewport, .. } ==>
                (exists|m1: &mut D, m2: &mut D|
                    #![trigger call_ensures(D::set_viewport, (m1, viewport), ()), call_ensures(D::tick, (m2,), ())]
                    call_ensures(D::set_viewport, (m1, viewport), ()) && call_ensures(D::tick, (m2,), ())
                    && mut_ref_current(m1) == old(self).sessions_map()[request.target()].driver_value() && mut_ref_future(m1) == mut_ref_current(m2)
                    && mut_ref_future(m2) == final(self).sessions_map()[request.target()].driver_value())),
            old(self).sessions_map().contains_key(request.target()) ==> (request is ResizeTickAndDrainCommandBatch ==>
                (exists|c: Result<String, String>| #[trigger] drained(final(self).sessions_map()[request.target()].driver_value(), c) && batch_answer(command_result(c), r))),
            final(self).next_raw() == old(self).next_raw(),
    {
        match request {
            HostBridgeRequest::Destroy { handle } => {
                let handle = HostSessionHandle::from_raw(handle);
                match self.session(handle) {
                    Err(e) => Err(e),
                    Ok(_) => {
                        let _ = self.remove(handle);
                        Ok(HostBridgeResponse::Destroyed { handle: handle.to_raw() })
                    },
                }
            },
            HostBridgeRequest::SetViewport { handle, viewport } => {
                match self.set_viewport_size(HostSessionHandle::from_raw(handle), viewport) {
                    Ok(()) => Ok(HostBridgeResponse::Applied),
                    Err(e) => Err(e),
                }
            },
            HostBridgeRequest::DispatchEventBatch { handle, payload } => {
                let p = payload.as_str();
                let res = self.dispatch_event_batch_json(HostSessionHandle::from_raw(handle), p);
                proof {
                    if self.sessions_map().contains_key(handle) {
                        let d = choose|d: Result<(), String>|
                            #[trigger] dispatched(self.sessions_map()[handle].driver_value(), p, d) && res == event_result(d);
                        assert(dispatched_text(self.sessions_map()[handle].driver_value(), payload@, d));
                    }
                }
                match res {
                    Ok(()) => Ok(HostBridgeResponse::Applied),
                    Err(e) => Err(e),
                }
            },
            HostBridgeRequest::DrainCommandBatch { handle } => {
                batch_response(self.drain_command_batch_json(HostSessionHandle::from_raw(handle)))
            },
            HostBridgeRequest::TickAndDrainCommandBatch { handle } => {
                batch_response(self.tick_and_drain_command_batch_json(HostSessionHandle::from_raw(handle)))
            },
            HostBridgeRequest::DispatchEventsTickAndDrainCommandBatch { handle, payload } => {
                let p = payload.as_str();
                let res = self.dispatch_events_tick_and_drain_command_batch_json(HostSessionHandle::from_raw(handle), p);
                proof {
                    if old(self).sessions_map().contains_key(handle) {
                        let d = choose|d: Result<(), String>|
                            #[trigger] dispatched(old(self).sessions_map()[handle].driver_value(), p, d)
                            && (d matches Err(msg) ==> res == Err::<String, HostSessionError>(HostSessionError::Event(msg)))
                            && (d is Ok ==> !(res matches Err(e) && e is Event));
                        assert(dispatched_text(old(self).sessions_map()[handle].driver_value(), payload@, d));
                    }
                }
                batch_response(res)
            },
            HostBridgeRequest::ResizeTickAndDrainCommandBatch { handle, viewport } => {
                batch_response(self.resize_tick_and_drain_command_batch_json(HostSessionHandle::from_raw(handle), viewport))
            },
        }
    }
}

/// Once a destroy request for a session has succeeded, every later request
/// addressing that session is answered `UnknownSession` and changes nothing.
pub proof fn law_destroyed_session_is_unknown<D, W, X>(
    h: u64,
    m0: Map<u64, HostSession<D>>,
    m1: Map<u64, HostSession<D>>,
    r0: Result<HostBridgeResponse, HostSessionError>,
    request: HostBridgeRequest<X>,
    m2: Map<u64, HostSession<D>>,
    r2: Result<HostBridgeResponse, HostSessionError>,
)
    requires
        request_applied(HostBridgeRequest::<W>::Destroy { handle: h }, m0, m1, r0),
        r0 is Ok,
        request.target() == h,
        request_applied(request, m1, m2, r2),
    ensures
        r2 == Err::<HostBridgeResponse, HostSessionError>(HostSessionError::UnknownSession { handle: h }),
        m2 == m1,
{
}

/// A registry with no live session and its initial candidate hands out
/// handle 1 first.
pub proof fn law_fresh_registry_hands_out_one<D>(h: u64)
    requires
        first_free(Map::<u64, HostSession<D>>::empty(), 1, h),
    ensures
        h == 1,
{
    let k = choose|k: nat| #![trigger candidate(alloc_start(1), k)]
        h == candidate(alloc_start(1), k) && !Map::<u64, HostSession<D>>::empty().contains_key(h)
        && forall|j: nat| j < k ==> Map::<u64, HostSession<D>>::empty().contains_key(#[trigger] candidate(alloc_start(1), j));
    if k > 0 {
        assert(Map::<u64, HostSession<D>>::empty().contains_key(candidate(alloc_start(1), 0)));
    }
    vstd::arithmetic::div_mod::lemma_small_mod(0, u64::MAX as nat);
}

} // verus!
