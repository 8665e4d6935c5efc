//! The channel layer of a server: one connection for each client, found by
//! the client's id.
use crate::error::{DisconnectionReason, RechannelError};
use crate::network_info::{NetworkInfo, UNIT};
use crate::reliable::clone_bytes;
use crate::remote_connection::{
    acknowledges_all, fresh_channels, result_of, ConnectionConfig, ConnectionLimits,
    ConnectionModel, RemoteConnection,
};
use crate::unreliable::byte_views;
use vstd::prelude::*;

verus! {

/// What happened to a client of the channel layer.
#[derive(Debug, Clone, Copy, PartialEq, Eq, Structural)]
pub enum ServerEvent {
    ClientConnected { client_id: u64 },
    ClientDisconnected { client_id: u64, reason: DisconnectionReason },
}

/// The connections of `connections`, each by its view.
pub open spec fn connection_views(connections: Seq<RemoteConnection>) -> Seq<ConnectionModel> {
    Seq::new(connections.len(), |i: int| connections[i]@)
}

/// Index of `id` among `ids`, or their number if it is not among them.
pub open spec fn index_of(ids: Seq<u64>, id: u64) -> int
    decreases ids.len(),
{
    if ids.len() == 0 {
        0
    } else if ids[0] == id {
        0
    } else {
        1 + index_of(ids.skip(1), id)
    }
}

/// The place `k` is the index of `id` if `id` is there and nowhere before.
pub proof fn lemma_index_of(ids: Seq<u64>, id: u64, k: int)
    requires
        0 <= k <= ids.len(),
        forall|j: int| 0 <= j < k ==> ids[j] != id,
        k < ids.len() ==> ids[k] == id,
    ensures
        index_of(ids, id) == k,
    decreases ids.len(),
{
    if ids.len() > 0 && k > 0 {
        let rest = ids.skip(1);
        assert forall|j: int| 0 <= j < k - 1 implies rest[j] != id by {
            assert(rest[j] == ids[j + 1]);
        }
        lemma_index_of(rest, id, k - 1);
    }
}

/// The index of `id` is its place if it is among `ids`, and their number if
/// it is not.
pub proof fn lemma_index_of_bounds(ids: Seq<u64>, id: u64)
    ensures
        0 <= index_of(ids, id) <= ids.len(),
        index_of(ids, id) < ids.len() ==> ids[index_of(ids, id)] == id,
        index_of(ids, id) < ids.len() <==> ids.contains(id),
    decreases ids.len(),
{
    if ids.len() > 0 {
        if ids[0] != id {
            let rest = ids.skip(1);
            lemma_index_of_bounds(rest, id);
            if rest.contains(id) {
                let j = choose|j: int| 0 <= j < rest.len() && rest[j] == id;
                assert(ids[j + 1] == id);
            }
            if ids.contains(id) {
                let j = choose|j: int| 0 <= j < ids.len() && ids[j] == id;
                assert(rest[j - 1] == id);
            }
        } else {
            assert(ids[0] == id);
        }
    }
}

/// Among ids that are all different, each is found at its own place.
pub proof fn lemma_index_of_unique(ids: Seq<u64>, i: int)
    requires
        ids.no_duplicates(),
        0 <= i < ids.len(),
    ensures
        index_of(ids, ids[i]) == i,
{
    lemma_index_of(ids, ids[i], i);
}

/// Index of the first of `connections` that has ended, or their number if
/// none has.
pub open spec fn first_ended(connections: Seq<ConnectionModel>) -> int
    decreases connections.len(),
{
    if connections.len() == 0 {
        0
    } else if connections[0].reason is Some {
        0
    } else {
        1 + first_ended(connections.skip(1))
    }
}

/// The place `k` is the first that has ended if it has and none before it has.
pub proof fn lemma_first_ended(connections: Seq<ConnectionModel>, k: int)
    requires
        0 <= k <= connections.len(),
        forall|j: int| 0 <= j < k ==> connections[j].reason is None,
        k < connections.len() ==> connections[k].reason is Some,
    ensures
        first_ended(connections) == k,
    decreases connections.len(),
{
    if connections.len() > 0 && k > 0 {
        let rest = connections.skip(1);
        assert forall|j: int| 0 <= j < k - 1 implies rest[j].reason is None by {
            assert(rest[j] == connections[j + 1]);
        }
        lemma_first_ended(rest, k - 1);
    }
}

/// The channel layer of a server as a mathematical value.
pub struct ServerModel {
    pub limits: ConnectionLimits,
    /// The channels of a new connection.
    pub channels: Seq<crate::channel::ChannelModel>,
    /// The time, in nanoseconds since the server was made.
    pub now: u64,
    /// The ids of the clients, in the order in which they came.
    pub ids: Seq<u64>,
    /// The connection of each client.
    pub connections: Seq<ConnectionModel>,
    /// What happened since the last update, oldest first.
    pub events: Seq<ServerEvent>,
}

impl ServerModel {
    pub open spec fn wf(self) -> bool {
        &&& self.ids.len() == self.connections.len()
        &&& self.ids.no_duplicates()
        &&& forall|i: int|
            0 <= i < self.connections.len() ==> (#[trigger] self.connections[i]).now <= self.now
                && self.connections[i].limits == self.limits
    }

    pub open spec fn has(self, id: u64) -> bool {
        self.ids.contains(id)
    }

    /// The index of the client `id`.
    pub open spec fn at(self, id: u64) -> int {
        index_of(self.ids, id)
    }

    /// A connection as it is when a client is added.
    pub open spec fn new_connection(self) -> ConnectionModel {
        ConnectionModel::fresh(self.limits, self.channels)
    }

    /// The server with a connection for `id`, if it had none.
    pub open spec fn added(self, id: u64) -> ServerModel {
        if self.has(id) {
            self
        } else {
            ServerModel {
                ids: self.ids.push(id),
                connections: self.connections.push(self.new_connection()),
                ..self
            }
        }
    }

    /// The server without the connection of `id`.
    pub open spec fn removed(self, id: u64) -> ServerModel {
        let k = self.at(id);
        if k < self.ids.len() {
            ServerModel {
                ids: self.ids.remove(k),
                connections: self.connections.remove(k),
                ..self
            }
        } else {
            self
        }
    }

    /// The server with `connection` in the place of the connection of `id`.
    pub open spec fn with(self, id: u64, connection: ConnectionModel) -> ServerModel {
        let k = self.at(id);
        if k < self.connections.len() {
            ServerModel { connections: self.connections.update(k, connection), ..self }
        } else {
            self
        }
    }

    /// The server with one more event.
    pub open spec fn noted(self, event: ServerEvent) -> ServerModel {
        ServerModel { events: self.events.push(event), ..self }
    }

    /// The server after `payload` was handed to the channel `channel_id` of
    /// every client but `except`.
    pub open spec fn broadcast(self, except: Option<u64>, channel_id: u8, payload: Seq<u8>) -> ServerModel {
        ServerModel {
            connections: Seq::new(
                self.connections.len(),
                |i: int|
                    if except == Some(self.ids[i]) {
                        self.connections[i]
                    } else {
                        self.connections[i].send(channel_id, payload)
                    },
            ),
            ..self
        }
    }

    /// The server `duration` nanoseconds later.
    pub open spec fn advanced(self, duration: u64) -> ServerModel {
        ServerModel {
            now: (self.now + duration) as u64,
            connections: Seq::new(
                self.connections.len(),
                |i: int| self.connections[i].advanced(duration),
            ),
            ..self
        }
    }

    /// The first client whose connection has ended, with the reason.
    pub open spec fn first_gone(self) -> Option<(u64, DisconnectionReason)> {
        let k = first_ended(self.connections);
        if k < self.connections.len() && k < self.ids.len() {
            Some((self.ids[k], self.connections[k].reason.unwrap()))
        } else {
            None
        }
    }

    /// The server without the first connection that has ended.
    pub open spec fn without_first_gone(self) -> ServerModel {
        let k = first_ended(self.connections);
        if k < self.connections.len() && k < self.ids.len() {
            ServerModel {
                ids: self.ids.remove(k),
                connections: self.connections.remove(k),
                ..self
            }
        } else {
            self
        }
    }

    /// The server once every connection that has ended was taken out, with
    /// an event for each, in the order of the clients.
    pub open spec fn swept(self) -> ServerModel
        decreases self.connections.len(),
        via Self::swept_decreases
    {
        match self.first_gone() {
            Some((client_id, reason)) => self.without_first_gone().noted(
                ServerEvent::ClientDisconnected { client_id, reason },
            ).swept(),
            None => self,
        }
    }

    #[via_fn]
    proof fn swept_decreases(self) {
        if self.first_gone() is Some {
            lemma_first_ended_bounds(self.connections);
            let k = first_ended(self.connections);
            assert(self.connections.remove(k).len() == self.connections.len() - 1);
        }
    }
}

/// The first place that has ended is a place, or the number of places.
pub proof fn lemma_first_ended_bounds(connections: Seq<ConnectionModel>)
    ensures
        0 <= first_ended(connections) <= connections.len(),
    decreases connections.len(),
{
    if connections.len() > 0 && connections[0].reason is None {
        lemma_first_ended_bounds(connections.skip(1));
    }
}

/// The channel layer of a server.
pub struct RechannelServer {
    config: ConnectionConfig,
    current_time: u64,
    ids: Vec<u64>,
    connections: Vec<RemoteConnection>,
    events: Vec<ServerEvent>,
}

impl View for RechannelServer {
    type V = ServerModel;

    closed spec fn view(&self) -> ServerModel {
        ServerModel {
            limits: self.config.spec_limits(),
            channels: fresh_channels(self.config.channels_config@),
            now: self.current_time,
            ids: self.ids@,
            connections: connection_views(self.connections@),
            events: self.events@,
        }
    }
}

impl RechannelServer {
    /// The server's invariant: see [`ServerModel::wf`]; the options and
    /// every connection are in order.
    pub closed spec fn wf(&self) -> bool {
        &&& self@.wf()
        &&& self.config.wf()
        &&& forall|i: int| 0 <= i < self.connections@.len() ==> (#[trigger] self.connections@[i]).wf()
    }

    /// What follows from the invariant for every caller.
    pub proof fn lemma_wf(&self)
        requires
            self.wf(),
        ensures
            self@.wf(),
    {
    }

    pub fn new(config: ConnectionConfig) -> (server: Self)
        requires
            config.wf(),
        ensures
            server.wf(),
            server@ == (ServerModel {
                limits: config.spec_limits(),
                channels: fresh_channels(config.channels_config@),
                now: 0,
                ids: Seq::empty(),
                connections: Seq::empty(),
                events: Seq::empty(),
            }),
    {
        let server = RechannelServer {
            config,
            current_time: 0,
            ids: Vec::new(),
            connections: Vec::new(),
            events: Vec::new(),
        };
        assert(server@.connections =~= Seq::empty());
        server
    }

    /// The index of the client `client_id`, or the number of clients.
    fn find(&self, client_id: u64) -> (k: usize)
        ensures
            k == self@.at(client_id),
            k <= self.ids@.len(),
            k < self.ids@.len() <==> self@.has(client_id),
            k < self.ids@.len() ==> self.ids@[k as int] == client_id,
    {
        let n = self.ids.len();
        let mut k: usize = 0;
        while k < n && self.ids[k] != client_id
            invariant
                k <= n,
                n == self.ids@.len(),
                forall|j: int| 0 <= j < k ==> self.ids@[j] != client_id,
            decreases n - k,
        {
            k = k + 1;
        }
        proof {
            lemma_index_of(self.ids@, client_id, k as int);
            lemma_index_of_bounds(self.ids@, client_id);
        }
        k
    }

    pub fn is_connected(&self, client_id: u64) -> (connected: bool)
        ensures
            connected == self@.has(client_id),
    {
        let k = self.find(client_id);
        k < self.ids.len()
    }

    pub fn has_clients(&self) -> (any: bool)
        ensures
            any == (self@.ids.len() > 0),
    {
        self.ids.len() > 0
    }

    /// The ids of the clients, in the order in which they came.
    pub fn connections_id(&self) -> (ids: Vec<u64>)
        ensures
            ids@ == self@.ids,
    {
        let mut ids: Vec<u64> = Vec::new();
        let mut i: usize = 0;
        while i < self.ids.len()
            invariant
                i <= self.ids@.len(),
                ids@ == self.ids@.subrange(0, i as int),
            decreases self.ids@.len() - i,
        {
            ids.push(self.ids[i]);
            i = i + 1;
            assert(ids@ =~= self.ids@.subrange(0, i as int));
        }
        assert(self.ids@.subrange(0, i as int) =~= self.ids@);
        ids
    }

    /// What happened since the last update, oldest first.
    pub fn events(&self) -> (events: Vec<ServerEvent>)
        ensures
            events@ == self@.events,
    {
        let mut events: Vec<ServerEvent> = Vec::new();
        let mut i: usize = 0;
        while i < self.events.len()
            invariant
                i <= self.events@.len(),
                events@ == self.events@.subrange(0, i as int),
            decreases self.events@.len() - i,
        {
            events.push(self.events[i]);
            i = i + 1;
            assert(events@ =~= self.events@.subrange(0, i as int));
        }
        assert(self.events@.subrange(0, i as int) =~= self.events@);
        events
    }

    /// Makes a connection for the client `client_id`, unless it has one.
    pub fn add_connection(&mut self, client_id: u64)
        requires
            old(self).wf(),
        ensures
            final(self).wf(),
            final(self)@ == old(self)@.added(client_id),
    {
        if self.is_connected(client_id) {
            return ;
        }
        let ghost before = connection_views(self.connections@);
        let connection = RemoteConnection::from_config(&self.config);
        self.ids.push(client_id);
        self.connections.push(connection);
        assert(connection_views(self.connections@) =~= before.push(old(self)@.new_connection()));
        assert forall|i: int, j: int|
            0 <= i < self.ids@.len() && 0 <= j < self.ids@.len() && i != j implies self.ids@[i]
            != self.ids@[j] by {
            if i < old(self).ids@.len() && j < old(self).ids@.len() {
                assert(old(self).ids@[i] != old(self).ids@[j]);
            }
        }
        assert forall|i: int| 0 <= i < self@.connections.len() implies (
        #[trigger] self@.connections[i]).now <= self@.now && self@.connections[i].limits
            == self@.limits by {
            if i < before.len() {
                assert(old(self)@.connections[i].now <= old(self)@.now);
                assert(self@.connections[i] == before[i]);
            }
        }
        assert forall|i: int| 0 <= i < self.connections@.len() implies (
        #[trigger] self.connections@[i]).wf() by {
            if i < before.len() {
                assert(old(self).connections@[i].wf());
            }
        }
    }

    /// Makes a connection for the client `client_id`, unless it has one, and
    /// notes that the client has connected.
    pub fn add_client(&mut self, client_id: u64)
        requires
            old(self).wf(),
        ensures
            final(self).wf(),
            final(self)@ == if old(self)@.has(client_id) {
                old(self)@
            } else {
                old(self)@.added(client_id).noted(ServerEvent::ClientConnected { client_id })
            },
    {
        if self.is_connected(client_id) {
            return ;
        }
        self.add_connection(client_id);
        self.events.push(ServerEvent::ClientConnected { client_id });
    }

    /// Takes the connection at the index `k` out.
    fn remove_at(&mut self, k: usize)
        requires
            old(self).wf(),
            k < old(self).ids@.len(),
        ensures
            final(self).wf(),
            final(self)@ == (ServerModel {
                ids: old(self)@.ids.remove(k as int),
                connections: old(self)@.connections.remove(k as int),
                ..old(self)@
            }),
            final(self)@.connections.len() == old(self)@.connections.len() - 1,
    {
        let ghost before = connection_views(self.connections@);
        let ghost ids = self.ids@;
        let _ = self.ids.remove(k);
        let _ = self.connections.remove(k);
        assert(connection_views(self.connections@) =~= before.remove(k as int));
        assert forall|i: int, j: int|
            0 <= i < self.ids@.len() && 0 <= j < self.ids@.len() && i != j implies self.ids@[i]
            != self.ids@[j] by {
            let a = if i < k {
                i
            } else {
                i + 1
            };
            let b = if j < k {
                j
            } else {
                j + 1
            };
            assert(ids[a] != ids[b]);
        }
        assert forall|i: int| 0 <= i < self@.connections.len() implies (
        #[trigger] self@.connections[i]).now <= self@.now && self@.connections[i].limits
            == self@.limits by {
            let a = if i < k {
                i
            } else {
                i + 1
            };
            assert(old(self)@.connections[a].now <= old(self)@.now);
            assert(self@.connections[i] == before[a]);
        }
        assert forall|i: int| 0 <= i < self.connections@.len() implies (
        #[trigger] self.connections@[i]).wf() by {
            let a = if i < k {
                i
            } else {
                i + 1
            };
            assert(old(self).connections@[a].wf());
        }
    }

    /// Forgets the connection of the client `client_id`.
    pub fn remove_connection(&mut self, client_id: u64)
        requires
            old(self).wf(),
        ensures
            final(self).wf(),
            final(self)@ == old(self)@.removed(client_id),
    {
        let k = self.find(client_id);
        if k < self.ids.len() {
            self.remove_at(k);
        }
    }

    /// Ends the connection of the client `client_id` from the server's side:
    /// the connection is forgotten, and an event says so.
    pub fn disconnect(&mut self, client_id: u64)
        requires
            old(self).wf(),
        ensures
            final(self).wf(),
            final(self)@ == if old(self)@.has(client_id) {
                old(self)@.removed(client_id).noted(
                    ServerEvent::ClientDisconnected {
                        client_id,
                        reason: DisconnectionReason::DisconnectedByServer,
                    },
                )
            } else {
                old(self)@
            },
    {
        let k = self.find(client_id);
        if k < self.ids.len() {
            self.remove_at(k);
            self.events.push(
                ServerEvent::ClientDisconnected {
                    client_id,
                    reason: DisconnectionReason::DisconnectedByServer,
                },
            );
        }
    }

    /// Takes the first connection that has ended out of the server, and
    /// returns its client and the reason.
    pub fn disconnected_client(&mut self) -> (gone: Option<(u64, DisconnectionReason)>)
        requires
            old(self).wf(),
        ensures
            final(self).wf(),
            gone == old(self)@.first_gone(),
            final(self)@ == old(self)@.without_first_gone(),
            gone is Some ==> final(self)@.connections.len() == old(self)@.connections.len() - 1,
    {
        let ghost views = connection_views(self.connections@);
        let n = self.connections.len();
        let mut k: usize = 0;
        while k < n && self.connections[k].is_connected()
            invariant
                k <= n,
                n == self.connections@.len(),
                views == connection_views(self.connections@),
                forall|j: int| 0 <= j < k ==> views[j].reason is None,
            decreases n - k,
        {
            assert(views[k as int] == self.connections@[k as int]@);
            k = k + 1;
        }
        proof {
            if k < n {
                assert(views[k as int] == self.connections@[k as int]@);
            }
            lemma_first_ended(views, k as int);
        }
        if k < n {
            let client_id = self.ids[k];
            match self.connections[k].disconnected() {
                Some(reason) => {
                    self.remove_at(k);
                    Some((client_id, reason))
                },
                None => None,
            }
        } else {
            None
        }
    }

    /// Takes in a datagram of the channel layer that arrived from the client
    /// `client_id`.
    pub fn process_packet_from(&mut self, payload: &[u8], client_id: u64) -> (result: Result<
        (),
        RechannelError,
    >)
        requires
            old(self).wf(),
        ensures
            final(self).wf(),
            old(self)@.has(client_id) ==> {
                let connection = old(self)@.connections[old(self)@.at(client_id)];
                &&& final(self)@ == old(self)@.with(client_id, connection.after_packet(payload@))
                &&& result == connection.packet_result(payload@)
            },
            !old(self)@.has(client_id) ==> final(self)@ == old(self)@ && result == Err::<
                (),
                RechannelError,
            >(RechannelError::ClientNotFound),
    {
        let k = self.find(client_id);
        if k >= self.ids.len() {
            return Err(RechannelError::ClientNotFound);
        }
        let ghost before = connection_views(self.connections@);
        assert(self.connections@[k as int].wf());
        assert(before[k as int] == self.connections@[k as int]@);
        let result = self.connections[k].process_packet(payload);
        proof {
            self.lemma_updated(*old(self), k as int);
        }
        result
    }

    /// What holds once the connection at the index `k` has changed and kept
    /// its invariant and its time.
    proof fn lemma_updated(&self, before: Self, k: int)
        requires
            before.wf(),
            0 <= k < before.connections@.len(),
            self.config == before.config,
            self.current_time == before.current_time,
            self.ids == before.ids,
            self.events == before.events,
            self.connections@.len() == before.connections@.len(),
            forall|j: int|
                0 <= j < before.connections@.len() && j != k ==> self.connections@[j]
                    == before.connections@[j],
            self.connections@[k].wf(),
            self.connections@[k]@.now == before.connections@[k]@.now,
            self.connections@[k]@.limits == before.connections@[k]@.limits,
        ensures
            self.wf(),
            self@ == (ServerModel {
                connections: before@.connections.update(k, self.connections@[k]@),
                ..before@
            }),
    {
        assert(connection_views(self.connections@) =~= connection_views(
            before.connections@,
        ).update(k, self.connections@[k]@));
        assert forall|i: int| 0 <= i < self@.connections.len() implies (
        #[trigger] self@.connections[i]).now <= self@.now && self@.connections[i].limits
            == self@.limits by {
            assert(before@.connections[i].now <= before@.now);
            assert(before@.connections[i].limits == before@.limits);
        }
        assert forall|i: int| 0 <= i < self.connections@.len() implies (
        #[trigger] self.connections@[i]).wf() by {
            if i != k {
                assert(before.connections@[i].wf());
            }
        }
    }

    /// The datagrams of the channel layer to send to the client `client_id`.
    pub fn get_packets_to_send(&mut self, client_id: u64) -> (result: Result<
        Vec<Vec<u8>>,
        RechannelError,
    >)
        requires
            old(self).wf(),
        ensures
            final(self).wf(),
            final(self)@.ids == old(self)@.ids,
            final(self)@.events == old(self)@.events,
            final(self)@.now == old(self)@.now,
            match result {
                Ok(datagrams) => {
                    let connection = old(self)@.connections[old(self)@.at(client_id)];
                    &&& old(self)@.has(client_id)
                    &&& connection.reason is None
                    &&& exists|bits: u32|
                        {
                            &&& acknowledges_all(connection.received, bits)
                            &&& byte_views(datagrams@) == #[trigger] connection.datagrams(bits)
                            &&& final(self)@ == old(self)@.with(
                                client_id,
                                connection.after_sending(bits),
                            )
                            &&& connection.read_back(bits)
                        }
                    &&& forall|i: int|
                        0 <= i < datagrams@.len() ==> (#[trigger] datagrams@[i])@.len()
                            <= old(self)@.limits.datagram_limit()
                },
                Err(e) => {
                    &&& final(self)@ == old(self)@
                    &&& if old(self)@.has(client_id) {
                        Err::<(), RechannelError>(e) == result_of(
                            old(self)@.connections[old(self)@.at(client_id)].reason,
                        )
                    } else {
                        e == RechannelError::ClientNotFound
                    }
                },
            },
    {
        let k = self.find(client_id);
        if k >= self.ids.len() {
            return Err(RechannelError::ClientNotFound);
        }
        let ghost before = connection_views(self.connections@);
        assert(self.connections@[k as int].wf());
        assert(before[k as int] == self.connections@[k as int]@);
        proof {
            self.lemma_limits(k as int);
        }
        let result = self.connections[k].get_packets_to_send();
        proof {
            match &result {
                Ok(datagrams) => {
                    let bits = choose|bits: u32|
                        {
                            &&& acknowledges_all(before[k as int].received, bits)
                            &&& byte_views(datagrams@) == #[trigger] before[k as int].datagrams(
                                bits,
                            )
                            &&& self.connections@[k as int]@ == before[k as int].after_sending(bits)
                            &&& before[k as int].read_back(bits)
                        };
                    self.lemma_updated(*old(self), k as int);
                },
                Err(_) => {
                    self.lemma_updated(*old(self), k as int);
                    assert(self@.connections =~= old(self)@.connections);
                },
            }
        }
        result
    }

    /// Every connection has the limits of the server.
    proof fn lemma_limits(&self, k: int)
        requires
            self.wf(),
            0 <= k < self.connections@.len(),
        ensures
            self.connections@[k]@.limits == self@.limits,
    {
        assert(self@.connections[k] == self.connections@[k]@);
    }

    pub fn can_send_message(&self, client_id: u64, channel_id: u8) -> (can: bool)
        requires
            self.wf(),
        ensures
            can == (self@.has(client_id) && self@.connections[self@.at(client_id)].can_send(
                channel_id,
            )),
    {
        let k = self.find(client_id);
        if k < self.ids.len() {
            assert(self@.connections[k as int] == self.connections@[k as int]@);
            self.connections[k].can_send_message(channel_id)
        } else {
            false
        }
    }

    /// The measurements of the connection of the client `client_id`.
    pub fn network_info(&self, client_id: u64) -> (info: Option<NetworkInfo>)
        requires
            self.wf(),
        ensures
            info == if self@.has(client_id) {
                Some(self@.connections[self@.at(client_id)].info())
            } else {
                None
            },
            info matches Some(measured) ==> measured.packet_loss <= UNIT,
    {
        let k = self.find(client_id);
        if k < self.ids.len() {
            assert(self@.connections[k as int] == self.connections@[k as int]@);
            assert(self.connections@[k as int].wf());
            Some(self.connections[k].network_info())
        } else {
            None
        }
    }

    /// Hands `message` to the channel `channel_id` of the client
    /// `client_id`, if the server has a connection for it.
    pub fn send_message(&mut self, client_id: u64, channel_id: u8, message: Vec<u8>)
        requires
            old(self).wf(),
        ensures
            final(self).wf(),
            final(self)@ == old(self)@.with(
                client_id,
                old(self)@.connections[old(self)@.at(client_id)].send(channel_id, message@),
            ),
    {
        let k = self.find(client_id);
        if k >= self.ids.len() {
            return ;
        }
        let ghost before = connection_views(self.connections@);
        assert(self.connections@[k as int].wf());
        assert(before[k as int] == self.connections@[k as int]@);
        self.connections[k].send_message(channel_id, message);
        proof {
            self.lemma_updated(*old(self), k as int);
        }
    }

    /// The next message of the channel `channel_id` of the client
    /// `client_id`, if one is there.
    pub fn receive_message(&mut self, client_id: u64, channel_id: u8) -> (message: Option<Vec<u8>>)
        requires
            old(self).wf(),
        ensures
            final(self).wf(),
            final(self)@ == old(self)@.with(
                client_id,
                old(self)@.connections[old(self)@.at(client_id)].after_receive(channel_id),
            ),
            match message {
                Some(m) => old(self)@.has(client_id) && old(self)@.connections[old(self)@.at(
                    client_id,
                )].next_message(channel_id) == Some(m@),
                None => !old(self)@.has(client_id) || old(self)@.connections[old(self)@.at(
                    client_id,
                )].next_message(channel_id) is None,
            },
    {
        let k = self.find(client_id);
        if k >= self.ids.len() {
            return None;
        }
        let ghost before = connection_views(self.connections@);
        assert(self.connections@[k as int].wf());
        assert(before[k as int] == self.connections@[k as int]@);
        let message = self.connections[k].receive_message(channel_id);
        proof {
            self.lemma_updated(*old(self), k as int);
        }
        message
    }

    /// Hands `message` to the channel `channel_id` of every client but
    /// `except`.
    fn broadcast(&mut self, except: Option<u64>, channel_id: u8, message: Vec<u8>)
        requires
            old(self).wf(),
        ensures
            final(self).wf(),
            final(self)@ == old(self)@.broadcast(except, channel_id, message@),
    {
        let ghost before = connection_views(self.connections@);
        let n = self.connections.len();
        let mut i: usize = 0;
        while i < n
            invariant
                i <= n,
                n == self.connections@.len(),
                n == before.len(),
                self.config == old(self).config,
                self.current_time == old(self).current_time,
                self.ids == old(self).ids,
                self.events == old(self).events,
                old(self).wf(),
                before == connection_views(old(self).connections@),
                forall|j: int| 0 <= j < n ==> (#[trigger] self.connections@[j]).wf(),
                forall|j: int|
                    0 <= j < n ==> (#[trigger] self.connections@[j])@ == if j < i && except
                        != Some(self.ids@[j]) {
                        before[j].send(channel_id, message@)
                    } else {
                        before[j]
                    },
            decreases n - i,
        {
            let skip = match except {
                Some(id) => self.ids[i] == id,
                None => false,
            };
            if !skip {
                self.connections[i].send_message(channel_id, clone_bytes(&message));
            }
            i = i + 1;
        }
        assert(connection_views(self.connections@) =~= old(self)@.broadcast(
            except,
            channel_id,
            message@,
        ).connections);
        assert forall|j: int| 0 <= j < self@.connections.len() implies (
        #[trigger] self@.connections[j]).now <= self@.now && self@.connections[j].limits
            == self@.limits by {
            assert(old(self)@.connections[j].now <= old(self)@.now);
            assert(old(self)@.connections[j].limits == old(self)@.limits);
            assert(self@.connections[j] == self.connections@[j]@);
            assert(before[j] == old(self)@.connections[j]);
        }
    }

    /// Hands `message` to the channel `channel_id` of every client.
    pub fn broadcast_message(&mut self, channel_id: u8, message: Vec<u8>)
        requires
            old(self).wf(),
        ensures
            final(self).wf(),
            final(self)@ == old(self)@.broadcast(None, channel_id, message@),
    {
        self.broadcast(None, channel_id, message);
    }

    /// Hands `message` to the channel `channel_id` of every client but
    /// `client_id`.
    pub fn broadcast_message_except(&mut self, client_id: u64, channel_id: u8, message: Vec<u8>)
        requires
            old(self).wf(),
        ensures
            final(self).wf(),
            final(self)@ == old(self)@.broadcast(Some(client_id), channel_id, message@),
    {
        self.broadcast(Some(client_id), channel_id, message);
    }

    /// Advances the time of the server and of every connection by `duration`
    /// nanoseconds. Connections that end stay until they are asked for.
    pub fn update_connections(&mut self, duration: u64)
        requires
            old(self).wf(),
            old(self)@.now + duration <= u64::MAX,
        ensures
            final(self).wf(),
            final(self)@ == old(self)@.advanced(duration),
    {
        let ghost before = connection_views(self.connections@);
        let n = self.connections.len();
        let mut i: usize = 0;
        while i < n
            invariant
                i <= n,
                n == self.connections@.len(),
                n == before.len(),
                self.config == old(self).config,
                self.current_time == old(self).current_time,
                self.ids == old(self).ids,
                self.events == old(self).events,
                old(self).wf(),
                old(self)@.now + duration <= u64::MAX,
                before == connection_views(old(self).connections@),
                forall|j: int| 0 <= j < n ==> (#[trigger] self.connections@[j]).wf(),
                forall|j: int|
                    0 <= j < n ==> (#[trigger] self.connections@[j])@ == if j < i {
                        before[j].advanced(duration)
                    } else {
                        before[j]
                    },
            decreases n - i,
        {
            assert(before[i as int] == old(self)@.connections[i as int]);
            assert(old(self)@.connections[i as int].now <= old(self)@.now);
            let _ = self.connections[i].update(duration);
            i = i + 1;
        }
        self.current_time = self.current_time + duration;
        assert(connection_views(self.connections@) =~= old(self)@.advanced(duration).connections);
        assert forall|j: int| 0 <= j < self@.connections.len() implies (
        #[trigger] self@.connections[j]).now <= self@.now && self@.connections[j].limits
            == self@.limits by {
            assert(old(self)@.connections[j].now <= old(self)@.now);
            assert(old(self)@.connections[j].limits == old(self)@.limits);
            assert(self@.connections[j] == self.connections@[j]@);
            assert(before[j] == old(self)@.connections[j]);
        }
    }

    /// Takes every connection that has ended out of the server, with an
    /// event for each.
    fn sweep(&mut self)
        requires
            old(self).wf(),
        ensures
            final(self).wf(),
            final(self)@ == old(self)@.swept(),
    {
        let ghost target = self@.swept();
        let mut more = true;
        while more
            invariant
                self.wf(),
                self@.swept() == target,
                !more ==> self@.first_gone() is None,
            decreases
                    self@.connections.len() + if more {
                        1int
                    } else {
                        0int
                    },
        {
            let ghost before = self@;
            match self.disconnected_client() {
                Some((client_id, reason)) => {
                    self.events.push(ServerEvent::ClientDisconnected { client_id, reason });
                    assert(self@ == before.without_first_gone().noted(
                        ServerEvent::ClientDisconnected { client_id, reason },
                    ));
                },
                None => {
                    more = false;
                },
            }
        }
    }

    /// Forgets the events of the last update, advances the time by
    /// `duration` nanoseconds, and takes out the connections that have
    /// ended, with an event for each.
    pub fn update(&mut self, duration: u64)
        requires
            old(self).wf(),
            old(self)@.now + duration <= u64::MAX,
        ensures
            final(self).wf(),
            final(self)@ == (ServerModel { events: Seq::empty(), ..old(self)@ }).advanced(
                duration,
            ).swept(),
    {
        self.events.clear();
        self.update_connections(duration);
        self.sweep();
    }
}

} // verus!
