//! The registry of live connections, keyed by identifiers that only grow.
//!
//! The reactor owns one registry. It opens an entry for every accepted
//! socket, hands each I/O outcome to the entry it belongs to, and is told
//! when an entry has been closed and removed.

use std::collections::HashMap;
use vstd::prelude::*;
use crate::connection::{
    Arrival, CloseReason, Connection, ConnectionView, Next, ReadOutcome, State, Wanted,
    WriteOutcome,
};

verus! {

/// The identifier reserved for the listening socket; no connection has it.
pub const LISTENER: usize = 0;

/// Where a readiness notification is to be taken.
#[derive(Clone, Copy, Debug, PartialEq, Eq, Structural)]
pub enum Route {
    /// It is for the listening socket: accept what is pending.
    Accept,
    /// It is for a live connection: drive its state machine.
    Drive,
    /// It is for nothing that is registered: ignore it.
    Ignore,
}

/// A registry as a mathematical value.
pub struct RegistryView {
    /// The live connections by identifier.
    pub connections: Map<usize, ConnectionView>,
    /// The identifier that the next connection will get.
    pub next_id: nat,
}

impl RegistryView {
    /// A registry with no connection in it yet.
    pub open spec fn fresh() -> RegistryView {
        RegistryView { connections: Map::empty(), next_id: 1 }
    }

    /// The invariant of a registry: finitely many entries, every identifier
    /// in use is a connection identifier below the next one to be given
    /// out, and every entry is a well-formed connection that is not closed.
    pub open spec fn wf(self) -> bool {
        &&& self.connections.dom().finite()
        &&& LISTENER < self.next_id <= usize::MAX
        &&& forall|id: usize| #[trigger]
            self.connections.contains_key(id) ==> {
                &&& LISTENER < id < self.next_id
                &&& self.connections[id].wf()
                &&& !(self.connections[id].state is Closed)
            }
    }

    /// Whether an identifier is left for one more connection.
    pub open spec fn can_open(self) -> bool {
        self.next_id < usize::MAX
    }

    /// The registry after a new connection was opened under the next
    /// identifier.
    pub open spec fn after_open(self) -> RegistryView {
        RegistryView {
            connections: self.connections.insert(
                self.next_id as usize,
                ConnectionView::fresh(),
            ),
            next_id: self.next_id + 1,
        }
    }

    /// Where a notification for `id` is to be taken.
    pub open spec fn route(self, id: usize) -> Route {
        if id == LISTENER {
            Route::Accept
        } else if self.connections.contains_key(id) {
            Route::Drive
        } else {
            Route::Ignore
        }
    }

    /// The operation that the connection under `id` is waiting for; nothing
    /// if there is no such connection.
    pub open spec fn wanted(self, id: usize) -> Wanted {
        if self.connections.contains_key(id) {
            self.connections[id].wanted()
        } else {
            Wanted::Nothing
        }
    }

    /// The registry once the connection under `id` has become `after`: the
    /// entry is replaced, or removed if the connection is now closed.
    pub open spec fn settled(self, id: usize, after: ConnectionView) -> RegistryView {
        RegistryView {
            connections: if after.state is Closed {
                self.connections.remove(id)
            } else {
                self.connections.insert(id, after)
            },
            next_id: self.next_id,
        }
    }

    /// The registry after a read outcome for `id`; unchanged if there is no
    /// such connection.
    pub open spec fn after_read(self, id: usize, arrival: Arrival) -> RegistryView {
        if self.connections.contains_key(id) {
            self.settled(id, self.connections[id].after_read(arrival))
        } else {
            self
        }
    }

    /// The verdict on a read outcome for `id`; to wait if there is no such
    /// connection.
    pub open spec fn read_verdict(self, id: usize, arrival: Arrival) -> Next {
        if self.connections.contains_key(id) {
            self.connections[id].read_verdict(arrival)
        } else {
            Next::Wait
        }
    }

    /// The registry after a write outcome for `id`; unchanged if there is no
    /// such connection.
    pub open spec fn after_write(self, id: usize, outcome: WriteOutcome) -> RegistryView {
        if self.connections.contains_key(id) {
            self.settled(id, self.connections[id].after_write(outcome))
        } else {
            self
        }
    }

    /// The verdict on a write outcome for `id`; to wait if there is no such
    /// connection.
    pub open spec fn write_verdict(self, id: usize, outcome: WriteOutcome) -> Next {
        if self.connections.contains_key(id) {
            self.connections[id].write_verdict(outcome)
        } else {
            Next::Wait
        }
    }
}

/// The live connections of one reactor.
pub struct Registry {
    connections: HashMap<usize, Connection>,
    next_id: usize,
}

impl View for Registry {
    type V = RegistryView;

    closed spec fn view(&self) -> RegistryView {
        RegistryView {
            connections: Map::new(
                |id: usize| self.connections@.contains_key(id),
                |id: usize| self.connections@[id]@,
            ),
            next_id: self.next_id as nat,
        }
    }
}

impl Registry {
    /// A registry with no connection in it. The first connection will get
    /// the identifier after the listener's.
    pub fn new() -> (registry: Registry)
        ensures
            registry@ == RegistryView::fresh(),
            registry@.wf(),
    {
        let registry = Registry { connections: HashMap::new(), next_id: 1 };
        assert(registry@.connections =~= Map::<usize, ConnectionView>::empty());
        registry
    }

    /// Opens a connection in its initial state under the next identifier
    /// and returns that identifier, which no connection has had before.
    /// Returns `None`, and changes nothing, once the identifiers have run
    /// out.
    pub fn open(&mut self) -> (id: Option<usize>)
        requires
            old(self)@.wf(),
        ensures
            final(self)@.wf(),
            old(self)@.can_open() ==> id == Some(old(self)@.next_id as usize) && final(self)@
                == old(self)@.after_open(),
            !old(self)@.can_open() ==> id.is_none() && final(self)@ == old(self)@,
            id.is_some() ==> !old(self)@.connections.contains_key(id.unwrap()),
    {
        if self.next_id == usize::MAX {
            return None;
        }
        let id: usize = self.next_id;
        self.connections.insert(id, Connection::new());
        self.next_id = id + 1;
        assert(self@.connections =~= old(self)@.after_open().connections);
        Some(id)
    }

    /// Where a readiness notification for `id` is to be taken.
    pub fn route(&self, id: usize) -> (route: Route)
        ensures
            route == self@.route(id),
    {
        if id == LISTENER {
            Route::Accept
        } else if self.connections.contains_key(&id) {
            Route::Drive
        } else {
            Route::Ignore
        }
    }

    /// The operation that the connection under `id` is waiting for.
    pub fn wanted(&self, id: usize) -> (wanted: Wanted)
        ensures
            wanted == self@.wanted(id),
    {
        match self.connections.get(&id) {
            Some(conn) => conn.wanted(),
            None => Wanted::Nothing,
        }
    }

    /// The bytes that the connection under `id` has queued and not yet
    /// sent, if there is such a connection.
    pub fn unsent(&self, id: usize) -> (bytes: Option<&[u8]>)
        requires
            self@.wf(),
        ensures
            bytes.is_some() == self@.connections.contains_key(id),
            bytes.is_some() ==> bytes.unwrap()@ == self@.connections[id].unsent(),
    {
        match self.connections.get(&id) {
            Some(conn) => {
                assert(self@.connections.contains_key(id));
                Some(conn.unsent())
            },
            None => None,
        }
    }

    /// Hands the outcome of a read to the connection under `id`. If that
    /// closes the connection, its entry is removed. An identifier that is
    /// not registered is left alone.
    pub fn read_done(&mut self, id: usize, outcome: ReadOutcome) -> (next: Next)
        requires
            old(self)@.wf(),
        ensures
            final(self)@.wf(),
            final(self)@ == old(self)@.after_read(id, outcome@),
            next == old(self)@.read_verdict(id, outcome@),
    {
        match self.connections.remove(&id) {
            None => {
                assert(self@.connections =~= old(self)@.connections);
                Next::Wait
            },
            Some(mut conn) => {
                assert(old(self)@.connections.contains_key(id));
                let next = conn.on_read(outcome);
                if let Next::Close(_) = next {
                } else {
                    self.connections.insert(id, conn);
                }
                assert(self@.connections =~= old(self)@.after_read(id, outcome@).connections);
                next
            },
        }
    }

    /// Hands the outcome of a write to the connection under `id`. If that
    /// closes the connection, its entry is removed. An identifier that is
    /// not registered is left alone.
    pub fn write_done(&mut self, id: usize, outcome: WriteOutcome) -> (next: Next)
        requires
            old(self)@.wf(),
        ensures
            final(self)@.wf(),
            final(self)@ == old(self)@.after_write(id, outcome),
            next == old(self)@.write_verdict(id, outcome),
    {
        match self.connections.remove(&id) {
            None => {
                assert(self@.connections =~= old(self)@.connections);
                Next::Wait
            },
            Some(mut conn) => {
                assert(old(self)@.connections.contains_key(id));
                let next = conn.on_write(outcome);
                if let Next::Close(_) = next {
                } else {
                    self.connections.insert(id, conn);
                }
                assert(self@.connections =~= old(self)@.after_write(id, outcome).connections);
                next
            },
        }
    }

    /// Number of live connections.
    pub fn len(&self) -> (n: usize)
        ensures
            n == self@.connections.len(),
    {
        assert(self@.connections.dom() =~= self.connections@.dom());
        self.connections.len()
    }
}

/// Identifiers only grow and are never handed out twice: the identifier
/// that opening gives is above every identifier in use and above the
/// listener's, and opening leaves every other entry as it was.
pub proof fn lemma_open_gives_fresh_identifier(registry: RegistryView)
    requires
        registry.wf(),
        registry.can_open(),
    ensures
        registry.after_open().wf(),
        registry.after_open().next_id == registry.next_id + 1,
        !registry.connections.contains_key(registry.next_id as usize),
        registry.after_open().connections[registry.next_id as usize] == ConnectionView::fresh(),
        forall|id: usize| #[trigger]
            registry.connections.contains_key(id) ==> id < registry.next_id
                && registry.after_open().connections.contains_key(id)
                && registry.after_open().connections[id] == registry.connections[id],
{
    let id = registry.next_id as usize;
    if registry.connections.contains_key(id) {
        assert(id < registry.next_id);
    }
}

/// A read outcome keeps a registry well-formed.
pub proof fn lemma_after_read_wf(registry: RegistryView, id: usize, arrival: Arrival)
    requires
        registry.wf(),
    ensures
        registry.after_read(id, arrival).wf(),
{
    if registry.connections.contains_key(id) {
        crate::connection::lemma_after_read_wf(registry.connections[id], arrival);
    }
}

/// A write outcome keeps a registry well-formed.
pub proof fn lemma_after_write_wf(registry: RegistryView, id: usize, outcome: WriteOutcome)
    requires
        registry.wf(),
    ensures
        registry.after_write(id, outcome).wf(),
{
    if registry.connections.contains_key(id) {
        crate::connection::lemma_after_write_wf(registry.connections[id], outcome);
    }
}

/// Isolation: an outcome for one connection leaves every other entry, and
/// the next identifier, as they were; and the connection's own entry is
/// gone exactly when the outcome closed it.
pub proof fn lemma_outcomes_are_isolated(
    registry: RegistryView,
    id: usize,
    arrival: Arrival,
    outcome: WriteOutcome,
)
    requires
        registry.wf(),
        registry.connections.contains_key(id),
    ensures
        registry.after_read(id, arrival).next_id == registry.next_id,
        registry.after_write(id, outcome).next_id == registry.next_id,
        registry.after_read(id, arrival).connections.contains_key(id) <==> !(
        registry.connections[id].after_read(arrival).state is Closed),
        registry.after_write(id, outcome).connections.contains_key(id) <==> !(
        registry.connections[id].after_write(outcome).state is Closed),
        registry.read_verdict(id, arrival) is Close <==> !registry.after_read(
            id,
            arrival,
        ).connections.contains_key(id),
        registry.write_verdict(id, outcome) is Close <==> !registry.after_write(
            id,
            outcome,
        ).connections.contains_key(id),
        forall|other: usize|
            other != id ==> {
                &&& registry.after_read(id, arrival).connections.contains_key(other)
                    == #[trigger] registry.connections.contains_key(other)
                &&& registry.after_read(id, arrival).connections[other]
                    == registry.connections[other]
                &&& registry.after_write(id, outcome).connections.contains_key(other)
                    == registry.connections.contains_key(other)
                &&& registry.after_write(id, outcome).connections[other]
                    == registry.connections[other]
            },
{
}

/// Lifecycle: when the peer of a connection that awaits a request with
/// nothing buffered shuts its side down, the connection is closed and its
/// entry removed, and no other entry is touched.
pub proof fn lemma_shutdown_removes_only_sender(registry: RegistryView, id: usize)
    requires
        registry.wf(),
        registry.connections.contains_key(id),
        registry.connections[id].state == State::AwaitingRequest,
        registry.connections[id].read_buffer.len() == 0,
    ensures
        registry.connections[id].after_read(Arrival::Bytes(Seq::empty())).state == State::Closed(
            CloseReason::PeerShutdown,
        ),
        registry.read_verdict(id, Arrival::Bytes(Seq::empty())) == Next::Close(
            CloseReason::PeerShutdown,
        ),
        registry.after_read(id, Arrival::Bytes(Seq::empty())).connections
            == registry.connections.remove(id),
        registry.after_read(id, Arrival::Bytes(Seq::empty())).next_id == registry.next_id,
        registry.after_read(id, Arrival::Bytes(Seq::empty())).wf(),
        forall|other: usize|
            other != id && #[trigger] registry.connections.contains_key(other) ==> {
                &&& registry.after_read(id, Arrival::Bytes(Seq::empty())).connections.contains_key(
                    other,
                )
                &&& registry.after_read(id, Arrival::Bytes(Seq::empty())).connections[other]
                    == registry.connections[other]
            },
{
    lemma_after_read_wf(registry, id, Arrival::Bytes(Seq::empty()));
}

} // verus!
