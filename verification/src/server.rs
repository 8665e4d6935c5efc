//! The server: authenticated sessions with many clients below, their
//! channels above, and the two queues to the transport.
use crate::channel_server::{RechannelServer, ServerModel};
use crate::error::{DisconnectionReason, RenetError};
use crate::network_info::{NetworkInfo, UNIT};
use crate::packet::serialize_disconnect_packet;
use crate::reliable::clone_bytes;
use crate::remote_connection::{acknowledges_all, ConnectionConfig, ConnectionModel};
use crate::session::{
    clients_after, datagram_is_safe, is_safe_datagram, is_socket_address, netcode_clients_id,
    netcode_current_time, netcode_disconnect, netcode_generate_payload_packet, netcode_new,
    netcode_process_packet, netcode_update, netcode_update_client, session_answer,
    session_clients, session_time, PacketToSend, SessionResult, NETCODE_KEY_BYTES,
    NETCODE_MAX_CLIENTS, NETCODE_MAX_PAYLOAD_BYTES, NETCODE_USER_DATA_BYTES,
};
use crate::transport::{DatagramView, PacketReceiver, PacketSender, QueueModel, TryRecvError};
use crate::unreliable::byte_views;
use crate::NUM_DISCONNECT_PACKETS_TO_SEND;
use renetcode::NetcodeServer;
use std::collections::VecDeque;
use vstd::multiset::Multiset;
use vstd::prelude::*;

verus! {

/// Events that can occur in the server.
#[derive(Debug, Clone, Copy)]
pub enum ServerEvent {
    /// A client has connected, with the user data of its connect token.
    ClientConnected(u64, [u8; NETCODE_USER_DATA_BYTES]),
    /// A client has disconnected, and why.
    ClientDisconnected(u64, DisconnectionReason),
}

/// Configuration options for the renet server.
pub struct ServerConfig {
    /// Maximum numbers of clients that can be connected at a time
    pub max_clients: usize,
    /// Unique id to this game/application
    pub protocol_id: u64,
    /// The server address
    pub server_addr: String,
    /// Private key used for encryption in the server
    pub private_key: [u8; NETCODE_KEY_BYTES],
}

impl ServerConfig {
    pub fn new(
        max_clients: usize,
        protocol_id: u64,
        server_addr: String,
        private_key: [u8; NETCODE_KEY_BYTES],
    ) -> (config: Self)
        ensures
            config.max_clients == max_clients,
            config.protocol_id == protocol_id,
            config.server_addr == server_addr,
            config.private_key == private_key,
    {
        Self { max_clients, protocol_id, server_addr, private_key }
    }
}

/// The datagram of `to_send` as a mathematical value.
pub open spec fn to_send_view(to_send: PacketToSend) -> DatagramView {
    (to_send.address@, to_send.packet@)
}

/// `times` copies of `datagram`.
pub open spec fn copies(datagram: DatagramView, times: nat) -> Seq<DatagramView> {
    Seq::new(times, |i: int| datagram)
}

/// The datagrams that `result` asks to send: one, or the goodbye five times.
pub open spec fn datagrams_of(result: SessionResult) -> Seq<DatagramView> {
    match result {
        SessionResult::PacketToSend(to_send) => copies(to_send_view(to_send), 1),
        SessionResult::ClientConnected(_, _, to_send) => copies(to_send_view(to_send), 1),
        SessionResult::ClientDisconnected(_, Some(to_send)) => copies(
            to_send_view(to_send),
            NUM_DISCONNECT_PACKETS_TO_SEND as nat,
        ),
        _ => Seq::empty(),
    }
}

/// The channel layer after `result`: a payload goes to the connection of its
/// client, which is made if it is not there; a client that connected gets a
/// connection; the connection of a client that disconnected is forgotten.
pub open spec fn channels_after(channels: ServerModel, result: SessionResult) -> ServerModel {
    match result {
        SessionResult::Payload(client_id, payload) => {
            let with_client = channels.added(client_id);
            with_client.with(
                client_id,
                with_client.connections[with_client.at(client_id)].after_packet(payload@),
            )
        },
        SessionResult::ClientConnected(client_id, _, _) => channels.added(client_id),
        SessionResult::ClientDisconnected(client_id, _) => channels.removed(client_id),
        _ => channels,
    }
}

/// The events after `result`; `reason` is why a client that `result` takes
/// out has gone.
pub open spec fn events_after(
    events: Seq<ServerEvent>,
    result: SessionResult,
    reason: DisconnectionReason,
) -> Seq<ServerEvent> {
    match result {
        SessionResult::ClientConnected(client_id, user_data, _) => events.push(
            ServerEvent::ClientConnected(client_id, user_data),
        ),
        SessionResult::ClientDisconnected(client_id, _) => events.push(
            ServerEvent::ClientDisconnected(client_id, reason),
        ),
        _ => events,
    }
}

/// Every sequence begins with itself.
pub proof fn lemma_prefix_reflexive<T>(a: Seq<T>)
    ensures
        a.is_prefix_of(a),
{
    assert(a =~= a.subrange(0, a.len() as int));
}

/// What `b` begins with, `b` and more begins with.
pub proof fn lemma_prefix_append<T>(a: Seq<T>, b: Seq<T>, more: Seq<T>)
    requires
        a.is_prefix_of(b),
    ensures
        a.is_prefix_of(b + more),
{
    assert(a =~= (b + more).subrange(0, a.len() as int));
}

/// What `b` begins with, `b` and one more begins with.
pub proof fn lemma_prefix_push<T>(a: Seq<T>, b: Seq<T>, last: T)
    requires
        a.is_prefix_of(b),
    ensures
        a.is_prefix_of(b.push(last)),
{
    assert(a =~= b.push(last).subrange(0, a.len() as int));
}

/// What a beginning of `c` begins with, `c` begins with.
pub proof fn lemma_prefix_transitive<T>(a: Seq<T>, b: Seq<T>, c: Seq<T>)
    requires
        a.is_prefix_of(b),
        b.is_prefix_of(c),
    ensures
        a.is_prefix_of(c),
{
    assert(a =~= c.subrange(0, a.len() as int));
}

/// Queues `to_send` `times` times.
fn send_copies(packet_sender: &mut PacketSender, to_send: &PacketToSend, times: usize) -> (result:
    Result<(), RenetError>)
    ensures
        final(packet_sender)@ == old(packet_sender)@.sent(copies(to_send_view(*to_send), times as nat)),
        result == old(packet_sender)@.send_result(copies(to_send_view(*to_send), times as nat)),
{
    let ghost start = packet_sender@;
    let ghost datagram = to_send_view(*to_send);
    let mut i: usize = 0;
    assert(start.queue + copies(datagram, 0) =~= start.queue);
    while i < times
        invariant
            i <= times,
            start == old(packet_sender)@,
            datagram == to_send_view(*to_send),
            packet_sender@ == start.sent(copies(datagram, i as nat)),
            i > 0 ==> start.connected,
        decreases times - i,
    {
        match packet_sender.send((to_send.address.clone(), clone_bytes(&to_send.packet))) {
            Ok(_) => {},
            Err(e) => {
                assert(packet_sender@ == start);
                return Err(e);
            },
        }
        assert(start.queue + copies(datagram, i as nat) + seq![datagram] =~= start.queue + copies(
            datagram,
            (i + 1) as nat,
        ));
        i = i + 1;
    }
    Ok(())
}

/// Does what the session layer asks for in `server_result`: datagrams are
/// queued for the transport, payloads go to the channel layer, and the
/// coming and going of clients is noted in both layers and in the events,
/// the going with `reason`.
/// It fails if a datagram is to be queued and the transport is gone; what
/// comes before the sending in each case is done by then.
pub fn handle_server_result(
    server_result: SessionResult,
    reason: DisconnectionReason,
    packet_sender: &mut PacketSender,
    reliable_server: &mut RechannelServer,
    events: &mut VecDeque<ServerEvent>,
) -> (result: Result<(), RenetError>)
    requires
        old(reliable_server).wf(),
    ensures
        final(reliable_server).wf(),
        final(reliable_server)@ == channels_after(old(reliable_server)@, server_result),
        final(events)@ == events_after(old(events)@, server_result, reason),
        final(packet_sender)@ == old(packet_sender)@.sent(datagrams_of(server_result)),
        result == old(packet_sender)@.send_result(datagrams_of(server_result)),
{
    proof {
        reliable_server.lemma_wf();
        assert(old(packet_sender)@.queue + Seq::<DatagramView>::empty() =~= old(
            packet_sender,
        )@.queue);
    }
    match server_result {
        SessionResult::Nothing => {},
        SessionResult::PacketToSend(to_send) => {
            return send_copies(packet_sender, &to_send, 1);
        },
        SessionResult::Payload(client_id, payload) => {
            if !reliable_server.is_connected(client_id) {
                reliable_server.add_connection(client_id);
            }
            proof {
                crate::channel_server::lemma_index_of_bounds(reliable_server@.ids, client_id);
                reliable_server.lemma_wf();
            }
            // A payload that the channel layer refuses ends a connection at most.
            let _ = reliable_server.process_packet_from(payload.as_slice(), client_id);
        },
        SessionResult::ClientConnected(client_id, user_data, to_send) => {
            reliable_server.add_connection(client_id);
            events.push_back(ServerEvent::ClientConnected(client_id, user_data));
            return send_copies(packet_sender, &to_send, 1);
        },
        SessionResult::ClientDisconnected(client_id, packet_to_send) => {
            events.push_back(ServerEvent::ClientDisconnected(client_id, reason));
            reliable_server.remove_connection(client_id);
            if let Some(to_send) = packet_to_send {
                return send_copies(packet_sender, &to_send, NUM_DISCONNECT_PACKETS_TO_SEND);
            }
        },
    }
    Ok(())
}

/// How a connection stands after it was asked for its datagrams: one that
/// has ended is as before, and any other has handed out what it had to send.
pub open spec fn was_asked(before: ConnectionModel, after: ConnectionModel) -> bool {
    if before.reason is Some {
        after == before
    } else {
        exists|bits: u32|
            acknowledges_all(before.received, bits) && after == #[trigger] before.after_sending(bits)
    }
}

/// The events that say that the clients `ids` have disconnected, in order.
pub open spec fn gone_events(ids: Seq<u64>) -> Seq<ServerEvent> {
    Seq::new(
        ids.len(),
        |i: int| ServerEvent::ClientDisconnected(ids[i], DisconnectionReason::DisconnectedByServer),
    )
}

/// The channel layer without the connections of the first `n` of `ids`.
pub open spec fn removed_all(channels: ServerModel, ids: Seq<u64>, n: int) -> ServerModel
    decreases n,
{
    if n <= 0 {
        channels
    } else {
        removed_all(channels, ids, n - 1).removed(ids[n - 1])
    }
}

/// A server as a mathematical value.
pub struct RenetModel {
    /// The channel layer.
    pub channels: ServerModel,
    /// The clients that the session layer holds as connected.
    pub clients: Multiset<u64>,
    /// The clock of the session layer, in nanoseconds.
    pub now: nat,
    /// The events that wait for the application, oldest first.
    pub events: Seq<ServerEvent>,
    /// The datagrams to send.
    pub outbound: QueueModel,
    /// The datagrams that arrived.
    pub inbound: QueueModel,
    /// The server's address.
    pub addr: Seq<char>,
}

/// What every step of the server keeps: events and outgoing datagrams are
/// only added, in order, and neither queue finds its transport again.
pub open spec fn extends(before: RenetModel, after: RenetModel) -> bool {
    &&& after.addr == before.addr
    &&& before.events.is_prefix_of(after.events)
    &&& before.outbound.queue.is_prefix_of(after.outbound.queue)
    &&& after.outbound.connected == before.outbound.connected
    &&& after.inbound.connected == before.inbound.connected
}

/// Steps that each keep what was there keep it together.
pub proof fn lemma_extends_transitive(a: RenetModel, b: RenetModel, c: RenetModel)
    requires
        extends(a, b),
        extends(b, c),
    ensures
        extends(a, c),
{
    lemma_prefix_transitive(a.events, b.events, c.events);
    lemma_prefix_transitive(a.outbound.queue, b.outbound.queue, c.outbound.queue);
}

/// The server after it did what `asked` asks for, given that the session
/// layer has changed its clients as `asked` says; `reason` is why a client
/// that `asked` takes out has gone.
pub open spec fn after_result(
    server: RenetModel,
    asked: SessionResult,
    reason: DisconnectionReason,
) -> RenetModel {
    RenetModel {
        channels: channels_after(server.channels, asked),
        clients: clients_after(server.clients, asked),
        events: events_after(server.events, asked, reason),
        outbound: server.outbound.sent(datagrams_of(asked)),
        ..server
    }
}

/// The server after the first `n` of `asked`, one after the other.
pub open spec fn after_results(
    server: RenetModel,
    asked: Seq<SessionResult>,
    n: int,
    reason: DisconnectionReason,
) -> RenetModel
    decreases n,
{
    if n <= 0 {
        server
    } else {
        after_result(after_results(server, asked, n - 1, reason), asked[n - 1], reason)
    }
}

/// What comes later does not change what came before.
pub proof fn lemma_after_results_push(
    server: RenetModel,
    asked: Seq<SessionResult>,
    last: SessionResult,
    n: int,
    reason: DisconnectionReason,
)
    requires
        0 <= n <= asked.len(),
    ensures
        after_results(server, asked.push(last), n, reason) == after_results(server, asked, n, reason),
    decreases n,
{
    if n > 0 {
        lemma_after_results_push(server, asked, last, n - 1, reason);
        assert(asked.push(last)[n - 1] == asked[n - 1]);
    }
}

/// What the session layer may ask for when it looks after the client
/// `client_id`: nothing, a keepalive to send, or to take the client out.
pub open spec fn looks_after(asked: SessionResult, client_id: u64) -> bool {
    ||| asked is Nothing
    ||| asked is PacketToSend
    ||| asked matches SessionResult::ClientDisconnected(id, _) && id == client_id
}

/// Whether the server went from `before` to `after`, and returned `result`,
/// by looking after the clients `ids` in their order: for each the session
/// layer asked for what `asked` holds, and the server did it. Where a
/// datagram could not be queued because the transport is gone, the clients
/// after that one were not looked after.
pub open spec fn looked_after_clients(
    before: RenetModel,
    after: RenetModel,
    result: Result<(), RenetError>,
    ids: Seq<u64>,
    asked: Seq<SessionResult>,
) -> bool {
    &&& ids.to_multiset() == before.clients
    &&& asked.len() <= ids.len()
    &&& forall|i: int| 0 <= i < asked.len() ==> looks_after(#[trigger] asked[i], ids[i])
    &&& forall|i: int|
        0 <= i < asked.len() - 1 ==> before.outbound.send_result(datagrams_of(#[trigger] asked[i]))
            is Ok
    &&& after == after_results(before, asked, asked.len() as int, DisconnectionReason::Timeout)
    &&& result == if asked.len() == 0 {
        Ok::<(), RenetError>(())
    } else {
        before.outbound.send_result(datagrams_of(asked.last()))
    }
    &&& result is Ok ==> asked.len() == ids.len()
}

/// Number of the first `n` of `packets` that are small enough to be
/// encrypted into one datagram.
pub open spec fn fitting_payloads(packets: Seq<Seq<u8>>, n: int) -> nat
    decreases n,
{
    if n <= 0 {
        0
    } else {
        fitting_payloads(packets, n - 1) + if packets[n - 1].len() <= NETCODE_MAX_PAYLOAD_BYTES {
            1nat
        } else {
            0nat
        }
    }
}

/// Among more packets no fewer are small enough.
pub proof fn lemma_fitting_payloads_grow(packets: Seq<Seq<u8>>, n: int, m: int)
    requires
        n <= m,
    ensures
        fitting_payloads(packets, n) <= fitting_payloads(packets, m),
    decreases m - n,
{
    if n < m {
        lemma_fitting_payloads_grow(packets, n, m - 1);
    }
}

/// Whether the server went from `before` to `after`, and returned `result`,
/// by queueing `datagrams`, which the session layer made of `packets` for
/// the client `client_id`: one of each packet that is small enough, in
/// their order, if the session layer holds the client, and none otherwise.
/// Where the transport is gone the first datagram is the last.
pub open spec fn encrypted_for(
    before: RenetModel,
    after: RenetModel,
    result: Result<(), RenetError>,
    client_id: u64,
    packets: Seq<Seq<u8>>,
    datagrams: Seq<DatagramView>,
) -> bool {
    let fitting = if before.clients.count(client_id) > 0 {
        fitting_payloads(packets, packets.len() as int)
    } else {
        0
    };
    &&& datagrams.len() <= fitting
    &&& result is Ok ==> datagrams.len() == fitting
    &&& result is Err ==> datagrams.len() == 1
    &&& after.outbound == before.outbound.sent(datagrams)
    &&& result == before.outbound.send_result(datagrams)
}

/// Number of datagrams that the connection at `k` has the session layer
/// make when it is asked with `ack_bits`: none if the connection has ended
/// or the session layer does not hold its client.
pub open spec fn owed_by(server: RenetModel, k: int, ack_bits: u32) -> nat {
    let connection = server.channels.connections[k];
    let packets = connection.datagrams(ack_bits);
    if connection.reason is None && server.clients.count(server.channels.ids[k]) > 0 {
        fitting_payloads(packets, packets.len() as int)
    } else {
        0
    }
}

/// Number of datagrams of the first `n` connections together.
pub open spec fn owed(server: RenetModel, bits: Seq<u32>, n: int) -> nat
    decreases n,
{
    if n <= 0 {
        0
    } else {
        owed(server, bits, n - 1) + owed_by(server, n - 1, bits[n - 1])
    }
}

/// What comes later does not change what came before.
pub proof fn lemma_owed_push(server: RenetModel, bits: Seq<u32>, last: u32, n: int)
    requires
        0 <= n <= bits.len(),
    ensures
        owed(server, bits.push(last), n) == owed(server, bits, n),
    decreases n,
{
    if n > 0 {
        lemma_owed_push(server, bits, last, n - 1);
        assert(bits.push(last)[n - 1] == bits[n - 1]);
    }
}

/// Whether `after` is `before` but for the connections of the channel layer
/// and the outgoing queue.
pub open spec fn only_sent(before: RenetModel, after: RenetModel) -> bool {
    &&& after == RenetModel {
        channels: ServerModel { connections: after.channels.connections, ..before.channels },
        outbound: after.outbound,
        ..before
    }
    &&& after.channels.connections.len() == before.channels.connections.len()
}

/// Whether the first connections of `after`, as many as `bits` is long,
/// were asked for their datagrams with those acknowledgement bits, and the
/// others are as they were in `before`.
pub open spec fn asked_first(before: RenetModel, after: RenetModel, bits: Seq<u32>) -> bool {
    &&& bits.len() <= before.channels.connections.len()
    &&& forall|j: int|
        0 <= j < bits.len() ==> {
            let connection = before.channels.connections[j];
            &&& connection.reason is None ==> acknowledges_all(connection.received, bits[j])
            &&& (#[trigger] after.channels.connections[j]) == connection.after_sending(bits[j])
        }
    &&& forall|j: int|
        bits.len() <= j < before.channels.connections.len() ==> (
        #[trigger] after.channels.connections[j]) == before.channels.connections[j]
}

/// Whether the server went from `before` to `after`, and returned `result`,
/// by asking its connections, in the order of their clients, for their
/// datagrams, with the acknowledgement bits `bits`, and queueing what the
/// session layer made of them, `datagrams`. The first datagram that cannot
/// be queued because the transport is gone is the last, and the connections
/// after the one it came from are not asked.
pub open spec fn sent_packets(
    before: RenetModel,
    after: RenetModel,
    result: Result<(), RenetError>,
    bits: Seq<u32>,
    datagrams: Seq<DatagramView>,
) -> bool {
    &&& only_sent(before, after)
    &&& asked_first(before, after, bits)
    &&& after.outbound == before.outbound.sent(datagrams)
    &&& result == before.outbound.send_result(datagrams)
    &&& datagrams.len() <= owed(before, bits, bits.len() as int)
    &&& result is Ok ==> bits.len() == before.channels.connections.len() && datagrams.len()
        == owed(before, bits, bits.len() as int)
}

/// What holds while the connections are asked.
#[verifier::opaque]
pub open spec fn sending(
    before: RenetModel,
    here: RenetModel,
    bits: Seq<u32>,
    datagrams: Seq<DatagramView>,
) -> bool {
    &&& only_sent(before, here)
    &&& asked_first(before, here, bits)
    &&& here.outbound == before.outbound.sent(datagrams)
    &&& datagrams.len() > 0 ==> before.outbound.connected
    &&& datagrams.len() == owed(before, bits, bits.len() as int)
}

proof fn lemma_sending_starts(before: RenetModel)
    ensures
        sending(before, before, Seq::empty(), Seq::empty()),
{
    reveal(sending);
    assert(before.outbound.queue + Seq::<DatagramView>::empty() =~= before.outbound.queue);
}

proof fn lemma_sending_step(
    before: RenetModel,
    here: RenetModel,
    after: RenetModel,
    result: Result<(), RenetError>,
    bits: Seq<u32>,
    datagrams: Seq<DatagramView>,
    ack_bits: u32,
    more: Seq<DatagramView>,
)
    requires
        sending(before, here, bits, datagrams),
        bits.len() < before.channels.connections.len(),
        only_sent(before, after),
        ({
            let connection = before.channels.connections[bits.len() as int];
            &&& connection.reason is None ==> acknowledges_all(connection.received, ack_bits)
            &&& after.channels.connections[bits.len() as int] == connection.after_sending(ack_bits)
        }),
        forall|j: int|
            0 <= j < before.channels.connections.len() && j != bits.len()
                ==> #[trigger] after.channels.connections[j] == here.channels.connections[j],
        after.outbound == here.outbound.sent(more),
        result == here.outbound.send_result(more),
        more.len() <= owed_by(before, bits.len() as int, ack_bits),
        result is Ok ==> more.len() == owed_by(before, bits.len() as int, ack_bits),
    ensures
        result is Ok ==> sending(before, after, bits.push(ack_bits), datagrams + more),
        result is Err ==> sent_packets(before, after, result, bits.push(ack_bits), datagrams + more),
{
    reveal(sending);
    let n = bits.len() as int;
    let longer = bits.push(ack_bits);
    lemma_owed_push(before, bits, ack_bits, n);
    assert(longer[n] == ack_bits);
    assert(before.outbound.queue + (datagrams + more) =~= before.outbound.queue + datagrams + more);
    assert forall|j: int| 0 <= j < longer.len() implies {
        let connection = before.channels.connections[j];
        &&& connection.reason is None ==> acknowledges_all(connection.received, longer[j])
        &&& (#[trigger] after.channels.connections[j]) == connection.after_sending(longer[j])
    } by {
        if j < n {
            assert(longer[j] == bits[j]);
            assert(after.channels.connections[j] == here.channels.connections[j]);
        }
    }
    assert forall|j: int| longer.len() <= j < before.channels.connections.len() implies (
    #[trigger] after.channels.connections[j]) == before.channels.connections[j] by {
        assert(after.channels.connections[j] == here.channels.connections[j]);
    }
}

proof fn lemma_sending_ends(
    before: RenetModel,
    here: RenetModel,
    bits: Seq<u32>,
    datagrams: Seq<DatagramView>,
)
    requires
        sending(before, here, bits, datagrams),
        bits.len() == before.channels.connections.len(),
    ensures
        sent_packets(before, here, Ok(()), bits, datagrams),
{
    reveal(sending);
}

/// What is queued for a client that the server disconnects: five copies of
/// the goodbye, if the session layer made one.
pub open spec fn farewell(goodbye: Option<DatagramView>) -> Seq<DatagramView> {
    match goodbye {
        Some(datagram) => copies(datagram, NUM_DISCONNECT_PACKETS_TO_SEND as nat),
        None => Seq::empty(),
    }
}

/// What is queued for the first `n` clients together, in their order.
pub open spec fn farewells(goodbyes: Seq<Option<DatagramView>>, n: int) -> Seq<DatagramView>
    decreases n,
{
    if n <= 0 {
        Seq::empty()
    } else {
        farewells(goodbyes, n - 1) + farewell(goodbyes[n - 1])
    }
}

/// What comes later does not change what came before.
pub proof fn lemma_farewells_push(
    goodbyes: Seq<Option<DatagramView>>,
    last: Option<DatagramView>,
    n: int,
)
    requires
        0 <= n <= goodbyes.len(),
    ensures
        farewells(goodbyes.push(last), n) == farewells(goodbyes, n),
    decreases n,
{
    if n > 0 {
        lemma_farewells_push(goodbyes, last, n - 1);
        assert(goodbyes.push(last)[n - 1] == goodbyes[n - 1]);
    }
}

/// Whether the server went from `before` to `after` by disconnecting the
/// clients `ids`, all that the session layer held, in their order: each is
/// taken out of both layers, with an event, and what `goodbyes` holds for
/// it is queued five times.
pub open spec fn disconnected_all(
    before: RenetModel,
    after: RenetModel,
    ids: Seq<u64>,
    goodbyes: Seq<Option<DatagramView>>,
) -> bool {
    &&& ids.to_multiset() == before.clients
    &&& goodbyes.len() == ids.len()
    &&& after == RenetModel {
        channels: removed_all(before.channels, ids, ids.len() as int),
        clients: Multiset::empty(),
        events: before.events + gone_events(ids),
        outbound: before.outbound.sent(farewells(goodbyes, goodbyes.len() as int)),
        ..before
    }
}

/// An answer of nothing changes nothing.
pub proof fn lemma_nothing_changes(server: RenetModel, reason: DisconnectionReason)
    ensures
        after_result(server, SessionResult::Nothing, reason) == server,
        server.outbound.send_result(datagrams_of(SessionResult::Nothing)) is Ok,
{
    assert(server.outbound.queue + datagrams_of(SessionResult::Nothing) =~= server.outbound.queue);
}

/// What the session layer may answer to a datagram: nothing, if the
/// datagram has no address or cannot be read; a payload only from a client
/// that it holds as connected; and only such a client can leave.
pub open spec fn admissible(server: RenetModel, datagram: DatagramView, asked: SessionResult) -> bool {
    &&& !is_socket_address(datagram.0) || !datagram_is_safe(datagram.1) ==> asked is Nothing
    &&& asked matches SessionResult::Payload(id, _) ==> server.clients.count(id) > 0
    &&& asked matches SessionResult::ClientDisconnected(id, _) ==> server.clients.count(id) > 0
}

/// The server with the first `n` datagrams taken out of the queue of
/// arrivals.
pub open spec fn without_arrivals(server: RenetModel, n: int) -> RenetModel {
    RenetModel {
        inbound: QueueModel { queue: server.inbound.queue.skip(n), ..server.inbound },
        ..server
    }
}

/// What taking in the arrivals returns, where the session layer answered
/// `answers`: the error of the last answer if its datagrams could not be
/// queued, else the loss of the transport on the receiving side, if it is
/// lost.
pub open spec fn receive_result(before: RenetModel, answers: Seq<SessionResult>) -> Result<
    (),
    RenetError,
> {
    if answers.len() > 0 && before.outbound.send_result(datagrams_of(answers.last())) is Err {
        Err(RenetError::SenderDisconnected)
    } else if before.inbound.connected {
        Ok(())
    } else {
        Err(RenetError::ReceiverDisconnected)
    }
}

/// Whether the server went from `before` to `after`, and returned `result`,
/// by taking the arrivals out of their queue, oldest first: to each the
/// session layer gave the answer that `answers` holds, and the server did
/// what it asked for. Every arrival is taken, unless a datagram could not
/// be queued because the transport is gone: the arrivals after that one
/// stay.
pub open spec fn received_arrivals(
    before: RenetModel,
    after: RenetModel,
    result: Result<(), RenetError>,
    answers: Seq<SessionResult>,
) -> bool {
    let n = answers.len() as int;
    &&& n <= before.inbound.queue.len()
    &&& forall|k: int|
        0 <= k < n ==> admissible(
            after_results(before, answers, k, DisconnectionReason::DisconnectedByClient),
            before.inbound.queue[k],
            #[trigger] answers[k],
        )
    &&& forall|k: int|
        0 <= k < n - 1 ==> before.outbound.send_result(datagrams_of(#[trigger] answers[k])) is Ok
    &&& after == without_arrivals(
        after_results(before, answers, n, DisconnectionReason::DisconnectedByClient),
        n,
    )
    &&& result == receive_result(before, answers)
    &&& result != Err::<(), RenetError>(RenetError::SenderDisconnected) ==> n
        == before.inbound.queue.len()
}

/// Taking arrivals out of the queue and doing what an answer asks for do
/// not get in each other's way.
pub proof fn lemma_without_arrivals(
    server: RenetModel,
    asked: Seq<SessionResult>,
    n: int,
    k: int,
    reason: DisconnectionReason,
)
    requires
        0 <= n,
        0 <= k,
    ensures
        after_results(without_arrivals(server, k), asked, n, reason) == without_arrivals(
            after_results(server, asked, n, reason),
            k,
        ),
    decreases n,
{
    if n > 0 {
        lemma_without_arrivals(server, asked, n - 1, k, reason);
    }
}

/// Doing what answers ask for leaves the queue of arrivals, the clock and
/// the address as they are, and neither queue finds or loses its transport.
pub proof fn lemma_after_results_keep(
    server: RenetModel,
    asked: Seq<SessionResult>,
    n: int,
    reason: DisconnectionReason,
)
    ensures
        after_results(server, asked, n, reason).inbound == server.inbound,
        after_results(server, asked, n, reason).now == server.now,
        after_results(server, asked, n, reason).addr == server.addr,
        after_results(server, asked, n, reason).outbound.connected == server.outbound.connected,
        after_results(server, asked, n, reason).channels.now == server.channels.now,
    decreases n,
{
    if n > 0 {
        lemma_after_results_keep(server, asked, n - 1, reason);
    }
}

/// One more arrival is taken out of the queue and answered.
pub proof fn lemma_take_arrival(
    before: RenetModel,
    so_far: Seq<SessionResult>,
    answer: SessionResult,
    here: RenetModel,
    taken: RenetModel,
    after: RenetModel,
)
    requires
        so_far.len() < before.inbound.queue.len(),
        here == without_arrivals(
            after_results(before, so_far, so_far.len() as int, DisconnectionReason::DisconnectedByClient),
            so_far.len() as int,
        ),
        taken == (RenetModel {
            inbound: QueueModel { queue: here.inbound.queue.skip(1), ..here.inbound },
            ..here
        }),
        after == after_result(taken, answer, DisconnectionReason::DisconnectedByClient),
    ensures
        taken == without_arrivals(
            after_results(before, so_far, so_far.len() as int, DisconnectionReason::DisconnectedByClient),
            so_far.len() as int + 1,
        ),
        after == without_arrivals(
            after_results(
                before,
                so_far.push(answer),
                so_far.len() as int + 1,
                DisconnectionReason::DisconnectedByClient,
            ),
            so_far.len() as int + 1,
        ),
        here.inbound.queue[0] == before.inbound.queue[so_far.len() as int],
{
    let i = so_far.len() as int;
    let queue = before.inbound.queue;
    lemma_after_results_keep(before, so_far, i, DisconnectionReason::DisconnectedByClient);
    lemma_after_results_push(before, so_far, answer, i, DisconnectionReason::DisconnectedByClient);
    assert(queue.skip(i).skip(1) =~= queue.skip(i + 1));
    assert(queue.skip(i)[0] == queue[i]);
}

/// What holds while the arrivals are taken in: `answers` were given to the
/// first arrivals, each could be queued, and the server stands at `here`.
#[verifier::opaque]
pub open spec fn receiving(before: RenetModel, here: RenetModel, answers: Seq<SessionResult>) -> bool {
    let n = answers.len() as int;
    &&& n <= before.inbound.queue.len()
    &&& here == without_arrivals(
        after_results(before, answers, n, DisconnectionReason::DisconnectedByClient),
        n,
    )
    &&& forall|k: int|
        0 <= k < n ==> admissible(
            after_results(before, answers, k, DisconnectionReason::DisconnectedByClient),
            before.inbound.queue[k],
            #[trigger] answers[k],
        )
    &&& forall|k: int|
        0 <= k < n ==> before.outbound.send_result(datagrams_of(#[trigger] answers[k])) is Ok
}

proof fn lemma_receiving_starts(before: RenetModel)
    ensures
        receiving(before, before, Seq::empty()),
{
    reveal(receiving);
    assert(before.inbound.queue.skip(0) =~= before.inbound.queue);
}

proof fn lemma_receiving_step(
    before: RenetModel,
    so_far: Seq<SessionResult>,
    answer: SessionResult,
    here: RenetModel,
    taken: RenetModel,
    after: RenetModel,
    processed: Result<(), RenetError>,
)
    requires
        receiving(before, here, so_far),
        here.inbound.queue.len() > 0,
        taken == (RenetModel {
            inbound: QueueModel { queue: here.inbound.queue.skip(1), ..here.inbound },
            ..here
        }),
        admissible(taken, here.inbound.queue[0], answer),
        after == after_result(taken, answer, DisconnectionReason::DisconnectedByClient),
        processed == taken.outbound.send_result(datagrams_of(answer)),
    ensures
        processed is Ok ==> receiving(before, after, so_far.push(answer)),
        processed is Err ==> received_arrivals(before, after, processed, so_far.push(answer)),
        processed is Err ==> processed == Err::<(), RenetError>(RenetError::SenderDisconnected)
            && !before.outbound.connected,
{
    reveal(receiving);
    let i = so_far.len() as int;
    let answers = so_far.push(answer);
    let queue = before.inbound.queue;
    lemma_after_results_keep(before, so_far, i, DisconnectionReason::DisconnectedByClient);
    assert(queue.skip(i).len() > 0);
    lemma_take_arrival(before, so_far, answer, here, taken, after);
    assert(processed == before.outbound.send_result(datagrams_of(answer)));
    assert(answers.last() == answer);
    assert forall|k: int| 0 <= k < i + 1 implies admissible(
        after_results(before, answers, k, DisconnectionReason::DisconnectedByClient),
        queue[k],
        #[trigger] answers[k],
    ) by {
        lemma_after_results_push(before, so_far, answer, k, DisconnectionReason::DisconnectedByClient);
        if k < i {
            assert(answers[k] == so_far[k]);
        }
    }
    assert forall|k: int| 0 <= k < i implies before.outbound.send_result(
        datagrams_of(#[trigger] answers[k]),
    ) is Ok by {
        assert(answers[k] == so_far[k]);
    }
}

proof fn lemma_receiving_ends(before: RenetModel, here: RenetModel, answers: Seq<SessionResult>)
    requires
        receiving(before, here, answers),
        here.inbound.queue.len() == 0,
    ensures
        received_arrivals(before, here, receive_result(before, answers), answers),
        receive_result(before, answers) == if before.inbound.connected {
            Ok::<(), RenetError>(())
        } else {
            Err::<(), RenetError>(RenetError::ReceiverDisconnected)
        },
{
    reveal(receiving);
    lemma_after_results_keep(
        before,
        answers,
        answers.len() as int,
        DisconnectionReason::DisconnectedByClient,
    );
    if answers.len() > 0 {
        assert(before.outbound.send_result(datagrams_of(answers[answers.len() - 1])) is Ok);
    }
}

/// Whether `goodbye` is what goes to the client of the first connection
/// that the channel layer has ended: a datagram that tells the reason, if
/// the reason is not that the client left and the session layer still holds
/// the client, and nothing otherwise.
pub open spec fn goodbye_fits(server: RenetModel, goodbye: Option<DatagramView>) -> bool {
    &&& server.channels.first_gone() matches Some(gone)
    &&& goodbye is Some <==> gone.1 != DisconnectionReason::DisconnectedByClient
        && server.clients.count(gone.0) > 0
}

/// The server after the first connection that the channel layer has ended
/// was taken out of both layers: the event says so, and `goodbye`, if there
/// is one, is queued five times.
pub open spec fn after_drop(server: RenetModel, goodbye: Option<DatagramView>) -> RenetModel {
    match server.channels.first_gone() {
        Some(gone) => RenetModel {
            channels: server.channels.without_first_gone(),
            clients: if server.clients.count(gone.0) > 0 {
                server.clients.remove(gone.0)
            } else {
                server.clients
            },
            events: server.events.push(ServerEvent::ClientDisconnected(gone.0, gone.1)),
            outbound: match goodbye {
                Some(datagram) => server.outbound.sent(
                    copies(datagram, NUM_DISCONNECT_PACKETS_TO_SEND as nat),
                ),
                None => server.outbound,
            },
            ..server
        },
        None => server,
    }
}

/// The server after the first `n` of `goodbyes`, one connection after the
/// other.
pub open spec fn after_drops(server: RenetModel, goodbyes: Seq<Option<DatagramView>>, n: int) -> RenetModel
    decreases n,
{
    if n <= 0 {
        server
    } else {
        after_drop(after_drops(server, goodbyes, n - 1), goodbyes[n - 1])
    }
}

/// What comes later does not change what came before.
pub proof fn lemma_after_drops_push(
    server: RenetModel,
    goodbyes: Seq<Option<DatagramView>>,
    last: Option<DatagramView>,
    n: int,
)
    requires
        0 <= n <= goodbyes.len(),
    ensures
        after_drops(server, goodbyes.push(last), n) == after_drops(server, goodbyes, n),
        after_drops(server, goodbyes, n).outbound.connected == server.outbound.connected,
        after_drops(server, goodbyes, n).inbound == server.inbound,
        after_drops(server, goodbyes, n).now == server.now,
        after_drops(server, goodbyes, n).addr == server.addr,
        after_drops(server, goodbyes, n).channels.now == server.channels.now,
    decreases n,
{
    if n > 0 {
        lemma_after_drops_push(server, goodbyes, last, n - 1);
        assert(goodbyes.push(last)[n - 1] == goodbyes[n - 1]);
    }
}

/// What taking out the ended connections returns: an error if the last
/// goodbye could not be queued.
pub open spec fn drop_result(before: RenetModel, goodbyes: Seq<Option<DatagramView>>) -> Result<
    (),
    RenetError,
> {
    if goodbyes.len() > 0 && goodbyes.last() is Some && !before.outbound.connected {
        Err(RenetError::SenderDisconnected)
    } else {
        Ok(())
    }
}

/// Whether the server went from `before` to `after`, and returned `result`,
/// by taking the connections that the channel layer has ended out of both
/// layers, in the order of their clients, with one event for each and the
/// goodbyes that `goodbyes` holds. A goodbye that cannot be queued because
/// the transport is gone ends the round: the client of that connection
/// stays in the session layer, and the connections after it stay too.
pub open spec fn dropped_ended(
    before: RenetModel,
    after: RenetModel,
    result: Result<(), RenetError>,
    goodbyes: Seq<Option<DatagramView>>,
) -> bool {
    let n = goodbyes.len() as int;
    &&& forall|k: int|
        0 <= k < n ==> goodbye_fits(after_drops(before, goodbyes, k), #[trigger] goodbyes[k])
    &&& forall|k: int| 0 <= k < n - 1 ==> (#[trigger] goodbyes[k]) is Some ==> before.outbound.connected
    &&& result == drop_result(before, goodbyes)
    &&& after == if result is Err {
        RenetModel {
            clients: after_drops(before, goodbyes, n - 1).clients,
            ..after_drops(before, goodbyes, n)
        }
    } else {
        after_drops(before, goodbyes, n)
    }
    &&& result is Ok ==> after.channels.first_gone() is None
}

/// What holds while the ended connections are taken out.
#[verifier::opaque]
pub open spec fn dropping(before: RenetModel, here: RenetModel, goodbyes: Seq<Option<DatagramView>>) -> bool {
    let n = goodbyes.len() as int;
    &&& here == after_drops(before, goodbyes, n)
    &&& forall|k: int|
        0 <= k < n ==> goodbye_fits(after_drops(before, goodbyes, k), #[trigger] goodbyes[k])
    &&& forall|k: int| 0 <= k < n ==> (#[trigger] goodbyes[k]) is Some ==> before.outbound.connected
}

proof fn lemma_dropping_starts(before: RenetModel)
    ensures
        dropping(before, before, Seq::empty()),
{
    reveal(dropping);
}

proof fn lemma_dropping_step(
    before: RenetModel,
    so_far: Seq<Option<DatagramView>>,
    goodbye: Option<DatagramView>,
    here: RenetModel,
    after: RenetModel,
    queued: bool,
)
    requires
        dropping(before, here, so_far),
        goodbye_fits(here, goodbye),
        queued == (goodbye is None || here.outbound.connected),
        after == if queued {
            after_drop(here, goodbye)
        } else {
            RenetModel { clients: here.clients, ..after_drop(here, goodbye) }
        },
    ensures
        queued ==> dropping(before, after, so_far.push(goodbye)),
        !queued ==> dropped_ended(
            before,
            after,
            Err(RenetError::SenderDisconnected),
            so_far.push(goodbye),
        ) && !before.outbound.connected,
{
    reveal(dropping);
    let i = so_far.len() as int;
    let goodbyes = so_far.push(goodbye);
    lemma_after_drops_push(before, so_far, goodbye, i);
    assert(goodbyes.last() == goodbye);
    assert forall|k: int| 0 <= k < i + 1 implies goodbye_fits(
        after_drops(before, goodbyes, k),
        #[trigger] goodbyes[k],
    ) by {
        lemma_after_drops_push(before, so_far, goodbye, k);
        if k < i {
            assert(goodbyes[k] == so_far[k]);
        }
    }
    assert forall|k: int| 0 <= k < i && (#[trigger] goodbyes[k]) is Some implies before.outbound.connected by {
        assert(goodbyes[k] == so_far[k]);
    }
}

proof fn lemma_dropping_ends(before: RenetModel, here: RenetModel, goodbyes: Seq<Option<DatagramView>>)
    requires
        dropping(before, here, goodbyes),
        here.channels.first_gone() is None,
    ensures
        dropped_ended(before, here, Ok(()), goodbyes),
{
    reveal(dropping);
    if goodbyes.len() > 0 {
        assert(goodbyes[goodbyes.len() - 1] is Some ==> before.outbound.connected);
    }
}

/// The server `duration` nanoseconds later: both clocks show it, and the
/// channel layer has measured and timed out what there was to.
pub open spec fn advanced_by(server: RenetModel, duration: u64) -> RenetModel {
    RenetModel {
        channels: server.channels.advanced(duration),
        now: server.now + duration as nat,
        ..server
    }
}

/// What looking after the clients returns, where the session layer asked
/// for `asked`.
pub open spec fn look_result(before: RenetModel, asked: Seq<SessionResult>) -> Result<(), RenetError> {
    if asked.len() == 0 {
        Ok(())
    } else {
        before.outbound.send_result(datagrams_of(asked.last()))
    }
}

/// Whether the server went from `before` to `after`, and returned `result`,
/// by one update of `duration` nanoseconds, in four steps of which each
/// begins where the one before it ended, and of which the first that fails
/// is the last:
///
/// 1. the arrivals are taken in, with the answers `answers` of the session
///    layer ([`received_arrivals`]);
/// 2. both layers advance by `duration` ([`advanced_by`]);
/// 3. the session layer looks after the clients `ids` and asks for `asked`
///    ([`looked_after_clients`]);
/// 4. the connections that the channel layer has ended are taken out, with
///    the goodbyes `goodbyes` ([`dropped_ended`]).
pub open spec fn updated(
    before: RenetModel,
    after: RenetModel,
    result: Result<(), RenetError>,
    duration: u64,
    answers: Seq<SessionResult>,
    ids: Seq<u64>,
    asked: Seq<SessionResult>,
    goodbyes: Seq<Option<DatagramView>>,
) -> bool {
    let received = without_arrivals(
        after_results(before, answers, answers.len() as int, DisconnectionReason::DisconnectedByClient),
        answers.len() as int,
    );
    let first = receive_result(before, answers);
    let advanced = advanced_by(received, duration);
    let looked = after_results(advanced, asked, asked.len() as int, DisconnectionReason::Timeout);
    let second = look_result(advanced, asked);
    &&& received_arrivals(before, received, first, answers)
    &&& if first is Err {
        after == received && result == first
    } else {
        &&& looked_after_clients(advanced, looked, second, ids, asked)
        &&& if second is Err {
            after == looked && result == second
        } else {
            dropped_ended(looked, after, result, goodbyes)
        }
    }
}

/// A server that can establish authenticated connections with multiple clients.
/// Can send/receive encrypted messages from/to them.
pub struct RenetServer {
    reliable_server: RechannelServer,
    netcode_server: NetcodeServer,
    events: VecDeque<ServerEvent>,
    packet_sender: PacketSender,
    packet_receiver: PacketReceiver,
    server_addr: String,
}

impl View for RenetServer {
    type V = RenetModel;

    closed spec fn view(&self) -> RenetModel {
        RenetModel {
            channels: self.reliable_server@,
            clients: session_clients(self.netcode_server),
            now: session_time(self.netcode_server),
            events: self.events@,
            outbound: self.packet_sender@,
            inbound: self.packet_receiver@,
            addr: self.server_addr@,
        }
    }
}

impl RenetServer {
    /// The server's invariant: the channel layer is in order, and the two
    /// clocks fit their type, that of the channel layer behind the other.
    pub closed spec fn wf(&self) -> bool {
        &&& self.reliable_server.wf()
        &&& self@.now <= u64::MAX
        &&& self@.channels.now <= self@.now
    }

    /// What follows from the invariant for every caller.
    pub proof fn lemma_wf(&self)
        requires
            self.wf(),
        ensures
            self@.channels.wf(),
            self@.channels.now <= self@.now <= u64::MAX,
    {
        self.reliable_server.lemma_wf();
    }

    /// The session layer of the server.
    pub closed spec fn session(&self) -> NetcodeServer {
        self.netcode_server
    }

    /// What the session layer answers to the datagram `payload` from `addr`
    /// as the server stands: nothing, if the datagram has no address or
    /// cannot be read by the session layer, for then it is not handed on.
    pub open spec fn answer_to(&self, addr: Seq<char>, payload: Seq<u8>) -> SessionResult {
        if is_socket_address(addr) && datagram_is_safe(payload) {
            session_answer(self.session(), addr, payload)
        } else {
            SessionResult::Nothing
        }
    }

    /// A server without clients, whose clock shows `current_time`
    /// nanoseconds, or an error if `server_config.server_addr` is no address.
    pub fn new(
        current_time: u64,
        server_config: ServerConfig,
        connection_config: ConnectionConfig,
        packet_sender: PacketSender,
        packet_receiver: PacketReceiver,
    ) -> (result: Result<Self, RenetError>)
        requires
            server_config.max_clients <= NETCODE_MAX_CLIENTS,
            connection_config.wf(),
        ensures
            result is Ok <==> is_socket_address(server_config.server_addr@),
            match result {
                Ok(server) => {
                    &&& server.wf()
                    &&& server@.clients == Multiset::<u64>::empty()
                    &&& server@.now == current_time
                    &&& server@.channels.ids == Seq::<u64>::empty()
                    &&& server@.channels.now == 0
                    &&& server@.events == Seq::<ServerEvent>::empty()
                    &&& server@.outbound == packet_sender@
                    &&& server@.inbound == packet_receiver@
                    &&& server@.addr == server_config.server_addr@
                },
                Err(e) => e == RenetError::InvalidAddress,
            },
    {
        let reliable_server = RechannelServer::new(connection_config);
        let netcode_server = match netcode_new(
            current_time,
            server_config.max_clients,
            server_config.protocol_id,
            &server_config.server_addr,
            server_config.private_key,
        ) {
            Some(netcode_server) => netcode_server,
            None => {
                return Err(RenetError::InvalidAddress);
            },
        };
        Ok(
            Self {
                netcode_server,
                reliable_server,
                packet_receiver,
                packet_sender,
                events: VecDeque::new(),
                server_addr: server_config.server_addr,
            },
        )
    }

    /// The server's address, as it was given.
    pub fn addr(&self) -> (addr: String)
        ensures
            addr@ == self@.addr,
    {
        self.server_addr.clone()
    }

    /// What the server's clock shows, in nanoseconds.
    pub fn current_time(&self) -> (nanos: u64)
        requires
            self.wf(),
        ensures
            nanos == self@.now,
    {
        netcode_current_time(&self.netcode_server)
    }

    /// The oldest event that waits, if any does.
    pub fn get_event(&mut self) -> (event: Option<ServerEvent>)
        requires
            old(self).wf(),
        ensures
            final(self).wf(),
            final(self)@ == (RenetModel {
                events: if old(self)@.events.len() > 0 {
                    old(self)@.events.skip(1)
                } else {
                    old(self)@.events
                },
                ..old(self)@
            }),
            event == if old(self)@.events.len() > 0 {
                Some(old(self)@.events[0])
            } else {
                None
            },
    {
        let event = self.events.pop_front();
        if event.is_some() {
            assert(self.events@ =~= old(self).events@.skip(1));
        }
        event
    }

    /// For the transport: queues a datagram that arrived from `address`.
    pub fn deliver_packet(&mut self, address: String, payload: Vec<u8>)
        requires
            old(self).wf(),
        ensures
            final(self).wf(),
            final(self)@ == (RenetModel {
                inbound: QueueModel {
                    queue: old(self)@.inbound.queue.push((address@, payload@)),
                    ..old(self)@.inbound
                },
                ..old(self)@
            }),
    {
        self.packet_receiver.deliver(address, payload);
    }

    /// For the transport: takes every datagram that waits to be sent.
    pub fn take_packets_to_send(&mut self) -> (datagrams: Vec<(String, Vec<u8>)>)
        requires
            old(self).wf(),
        ensures
            final(self).wf(),
            crate::transport::datagram_views(datagrams@) == old(self)@.outbound.queue,
            final(self)@ == (RenetModel {
                outbound: QueueModel { queue: Seq::empty(), ..old(self)@.outbound },
                ..old(self)@
            }),
    {
        self.packet_sender.take()
    }

    /// For the transport: says that nothing more will arrive.
    pub fn receiver_disconnected(&mut self)
        requires
            old(self).wf(),
        ensures
            final(self).wf(),
            final(self)@ == (RenetModel {
                inbound: QueueModel { connected: false, ..old(self)@.inbound },
                ..old(self)@
            }),
    {
        self.packet_receiver.disconnect();
    }

    /// For the transport: says that nothing more can be sent.
    pub fn sender_disconnected(&mut self)
        requires
            old(self).wf(),
        ensures
            final(self).wf(),
            final(self)@ == (RenetModel {
                outbound: QueueModel { connected: false, ..old(self)@.outbound },
                ..old(self)@
            }),
    {
        self.packet_sender.disconnect();
    }

    /// Does what `server_result` asks for, and says how the server stands
    /// after it.
    fn handle(
        &mut self,
        server_result: SessionResult,
        reason: DisconnectionReason,
        Ghost(before): Ghost<RenetModel>,
    ) -> (result: Result<(), RenetError>)
        requires
            old(self).reliable_server.wf(),
            extends(before, old(self)@),
        ensures
            final(self).reliable_server.wf(),
            final(self).netcode_server == old(self).netcode_server,
            final(self)@.inbound == old(self)@.inbound,
            final(self)@.channels == channels_after(old(self)@.channels, server_result),
            final(self)@.channels.now == old(self)@.channels.now,
            final(self)@.events == events_after(old(self)@.events, server_result, reason),
            final(self)@.outbound == old(self)@.outbound.sent(datagrams_of(server_result)),
            result == old(self)@.outbound.send_result(datagrams_of(server_result)),
            extends(before, final(self)@),
            extends(old(self)@, final(self)@),
            result is Err ==> result == Err::<(), RenetError>(RenetError::SenderDisconnected)
                && !old(self)@.outbound.connected,
    {
        let ghost start = self@;
        let ghost asked = server_result;
        let result = handle_server_result(
            server_result,
            reason,
            &mut self.packet_sender,
            &mut self.reliable_server,
            &mut self.events,
        );
        proof {
            lemma_prefix_reflexive(start.outbound.queue);
            lemma_prefix_append(start.outbound.queue, start.outbound.queue, datagrams_of(asked));
            lemma_prefix_reflexive(start.events);
            match asked {
                SessionResult::ClientConnected(client_id, user_data, _) => {
                    lemma_prefix_push(
                        start.events,
                        start.events,
                        ServerEvent::ClientConnected(client_id, user_data),
                    );
                },
                SessionResult::ClientDisconnected(client_id, _) => {
                    lemma_prefix_push(
                        start.events,
                        start.events,
                        ServerEvent::ClientDisconnected(client_id, reason),
                    );
                },
                _ => {},
            }
            assert(extends(start, self@));
            lemma_extends_transitive(before, start, self@);
        }
        result
    }

    /// Disconnects a client.
    pub fn disconnect(&mut self, client_id: u64)
        requires
            old(self).wf(),
        ensures
            final(self).wf(),
            extends(old(self)@, final(self)@),
            final(self)@.now == old(self)@.now,
            final(self)@.inbound == old(self)@.inbound,
            if old(self)@.clients.count(client_id) > 0 {
                &&& final(self)@.clients == old(self)@.clients.remove(client_id)
                &&& final(self)@.channels == old(self)@.channels.removed(client_id)
                &&& final(self)@.events == old(self)@.events.push(
                    ServerEvent::ClientDisconnected(
                        client_id,
                        DisconnectionReason::DisconnectedByServer,
                    ),
                )
                &&& exists|goodbye: Option<DatagramView>|
                    final(self)@.outbound == old(self)@.outbound.sent(
                        #[trigger] farewell(goodbye),
                    )
            } else {
                final(self)@ == old(self)@
            },
    {
        let ghost before = self@;
        proof {
            lemma_prefix_reflexive(before.events);
            lemma_prefix_reflexive(before.outbound.queue);
        }
        let server_result = netcode_disconnect(&mut self.netcode_server, client_id);
        let ghost asked = server_result;
        // The client is gone whether or not its goodbye could be queued.
        let _ = self.handle(
            server_result,
            DisconnectionReason::DisconnectedByServer,
            Ghost(self@),
        );
        proof {
            match asked {
                SessionResult::ClientDisconnected(_, Some(to_send)) => {
                    assert(datagrams_of(asked) == farewell(Some(to_send_view(to_send))));
                },
                _ => {
                    assert(before.outbound.queue + farewell(None) =~= before.outbound.queue);
                    assert(self@.outbound == before.outbound.sent(farewell(None)));
                },
            }
        }
    }

    /// Disconnects all connected clients.
    #[verifier::loop_isolation(false)]
    pub fn disconnect_clients(&mut self)
        requires
            old(self).wf(),
        ensures
            final(self).wf(),
            extends(old(self)@, final(self)@),
            final(self)@.clients == Multiset::<u64>::empty(),
            exists|ids: Seq<u64>, goodbyes: Seq<Option<DatagramView>>| #[trigger]
                disconnected_all(old(self)@, final(self)@, ids, goodbyes),
    {
        let ghost before = self@;
        let ghost mut goodbyes: Seq<Option<DatagramView>> = Seq::empty();
        let ids = netcode_clients_id(&self.netcode_server);
        let n = ids.len();
        let mut i: usize = 0;
        proof {
            lemma_prefix_reflexive(before.events);
            lemma_prefix_reflexive(before.outbound.queue);
            assert(ids@.subrange(0, n as int) =~= ids@);
            assert(before.events + gone_events(ids@.subrange(0, 0)) =~= before.events);
            assert(before.outbound.queue + farewells(goodbyes, 0) =~= before.outbound.queue);
        }
        while i < n
            invariant
                i <= n,
                n == ids@.len(),
                goodbyes.len() == i,
                self.wf(),
                extends(before, self@),
                self@.now == before.now,
                self@.inbound == before.inbound,
                self@.addr == before.addr,
                self@.clients == ids@.subrange(i as int, n as int).to_multiset(),
                self@.events == before.events + gone_events(ids@.subrange(0, i as int)),
                self@.channels == removed_all(before.channels, ids@, i as int),
                self@.outbound == before.outbound.sent(farewells(goodbyes, i as int)),
            decreases n - i,
        {
            let ghost rest = ids@.subrange(i as int, n as int);
            let ghost here = self@;
            let ghost so_far = goodbyes;
            proof {
                vstd::seq_lib::to_multiset_contains(rest, ids@[i as int]);
                assert(rest[0] == ids@[i as int]);
                assert(rest.contains(ids@[i as int]));
                vstd::seq_lib::to_multiset_remove(rest, 0);
                assert(rest.remove(0) =~= ids@.subrange(i + 1, n as int));
            }
            self.disconnect(ids[i]);
            proof {
                lemma_extends_transitive(before, here, self@);
                assert(gone_events(ids@.subrange(0, i as int)).push(
                    ServerEvent::ClientDisconnected(
                        ids@[i as int],
                        DisconnectionReason::DisconnectedByServer,
                    ),
                ) =~= gone_events(ids@.subrange(0, i + 1)));
                assert(self@.events =~= before.events + gone_events(ids@.subrange(0, i + 1)));
                let goodbye = choose|goodbye: Option<DatagramView>|
                    self@.outbound == here.outbound.sent(#[trigger] farewell(goodbye));
                goodbyes = so_far.push(goodbye);
                lemma_farewells_push(so_far, goodbye, i as int);
                assert(before.outbound.queue + farewells(so_far, i as int) + farewell(goodbye)
                    =~= before.outbound.queue + farewells(goodbyes, i + 1));
            }
            i = i + 1;
        }
        proof {
            assert(ids@.subrange(n as int, n as int) =~= Seq::<u64>::empty());
            Seq::<u64>::empty().to_multiset_ensures();
            vstd::seq_lib::to_multiset_len(Seq::<u64>::empty());
            assert(self@.clients.len() == 0);
            vstd::multiset::lemma_multiset_empty_len(self@.clients);
            assert(ids@.subrange(0, n as int) =~= ids@);
            assert(disconnected_all(before, self@, ids@, goodbyes));
        }
    }

    /// Returns the client's network info if the client exits.
    pub fn network_info(&self, client_id: u64) -> (info: Option<NetworkInfo>)
        requires
            self.wf(),
        ensures
            info == if self@.channels.has(client_id) {
                Some(self@.channels.connections[self@.channels.at(client_id)].info())
            } else {
                None
            },
            info matches Some(measured) ==> measured.packet_loss <= UNIT,
    {
        self.reliable_server.network_info(client_id)
    }

    /// Takes in one datagram that arrived from `addr`: the session layer
    /// reads it, and the server does what the session layer asks for. A
    /// datagram whose address is none, and one that the session layer cannot
    /// read, is dropped: nothing changes.
    ///
    /// Whatever the session layer makes of the datagram, a payload reaches
    /// the channel layer only from a client that the session layer holds as
    /// connected, and only a client that it held can disconnect.
    pub fn process_incoming(&mut self, addr: &String, payload: Vec<u8>) -> (result: Result<
        (),
        RenetError,
    >)
        requires
            old(self).wf(),
        ensures
            final(self).wf(),
            extends(old(self)@, final(self)@),
            admissible(old(self)@, (addr@, payload@), old(self).answer_to(addr@, payload@)),
            final(self)@ == after_result(
                old(self)@,
                old(self).answer_to(addr@, payload@),
                DisconnectionReason::DisconnectedByClient,
            ),
            result == old(self)@.outbound.send_result(
                datagrams_of(old(self).answer_to(addr@, payload@)),
            ),
            !is_socket_address(addr@) || !datagram_is_safe(payload@) ==> final(self)@ == old(self)@
                && result is Ok,
    {
        let ghost before = self@;
        let mut payload = payload;
        proof {
            lemma_prefix_reflexive(before.events);
            lemma_prefix_reflexive(before.outbound.queue);
            lemma_nothing_changes(before, DisconnectionReason::DisconnectedByClient);
        }
        if !is_safe_datagram(&payload) {
            return Ok(());
        }
        match netcode_process_packet(&mut self.netcode_server, addr, &mut payload) {
            Some(server_result) => {
                let ghost asked = server_result;
                let result = self.handle(
                    server_result,
                    DisconnectionReason::DisconnectedByClient,
                    Ghost(before),
                );
                proof {
                    assert(self@ == after_result(
                        before,
                        asked,
                        DisconnectionReason::DisconnectedByClient,
                    ));
                }
                result
            },
            None => Ok(()),
        }
    }

    /// Takes in every datagram that waits in the queue of arrivals, oldest
    /// first.
    #[verifier::loop_isolation(false)]
    fn receive_packets(&mut self) -> (result: Result<(), RenetError>)
        requires
            old(self).wf(),
        ensures
            final(self).wf(),
            extends(old(self)@, final(self)@),
            final(self)@.now == old(self)@.now,
            final(self)@.channels.now == old(self)@.channels.now,
            exists|answers: Seq<SessionResult>| #[trigger]
                received_arrivals(old(self)@, final(self)@, result, answers),
            match result {
                Ok(_) => final(self)@.inbound.queue.len() == 0,
                Err(e) => if e == RenetError::ReceiverDisconnected {
                    !old(self)@.inbound.connected && final(self)@.inbound.queue.len() == 0
                } else {
                    e == RenetError::SenderDisconnected && !old(self)@.outbound.connected
                },
            },
            old(self)@.inbound.connected && old(self)@.outbound.connected ==> result is Ok,
            !old(self)@.inbound.connected ==> result is Err,
    {
        let ghost before = self@;
        let ghost mut answers: Seq<SessionResult> = Seq::empty();
        proof {
            lemma_prefix_reflexive(before.events);
            lemma_prefix_reflexive(before.outbound.queue);
            lemma_receiving_starts(before);
        }
        let mut more = true;
        while more
            invariant
                self.wf(),
                extends(before, self@),
                self@.now == before.now,
                self@.channels.now == before.channels.now,
                receiving(before, self@, answers),
                !more ==> self@.inbound.queue.len() == 0 && before.inbound.connected,
            decreases
                    self@.inbound.queue.len() + if more {
                        1int
                    } else {
                        0int
                    },
        {
            let ghost here = self@;
            let ghost so_far = answers;
            match self.packet_receiver.try_recv() {
                Ok((addr, payload)) => {
                    let ghost taken = self@;
                    let ghost answer = self.answer_to(addr@, payload@);
                    let processed = self.process_incoming(&addr, payload);
                    proof {
                        assert(extends(here, taken));
                        lemma_extends_transitive(before, here, taken);
                        lemma_extends_transitive(before, taken, self@);
                        answers = so_far.push(answer);
                        lemma_receiving_step(before, so_far, answer, here, taken, self@, processed);
                    }
                    match processed {
                        Ok(_) => {},
                        Err(e) => {
                            return Err(e);
                        },
                    }
                },
                Err(TryRecvError::Empty) => {
                    more = false;
                },
                Err(TryRecvError::Disconnected) => {
                    proof {
                        lemma_receiving_ends(before, self@, answers);
                    }
                    return Err(RenetError::ReceiverDisconnected);
                },
            }
        }
        proof {
            lemma_receiving_ends(before, self@, answers);
        }
        Ok(())
    }

    /// Lets the session layer look after every connected client: keepalives
    /// go out, and clients that timed out are disconnected.
    ///
    /// The clients are taken in the order in which the session layer names
    /// them. For each the session layer says what it asks for, and the
    /// server does it as [`handle_server_result`] says. The first datagram
    /// that cannot be queued because the transport is gone ends the round.
    #[verifier::loop_isolation(false)]
    fn update_clients(&mut self) -> (result: Result<(), RenetError>)
        requires
            old(self).wf(),
        ensures
            final(self).wf(),
            extends(old(self)@, final(self)@),
            final(self)@.now == old(self)@.now,
            final(self)@.channels.now == old(self)@.channels.now,
            final(self)@.inbound == old(self)@.inbound,
            exists|ids: Seq<u64>, asked: Seq<SessionResult>| #[trigger]
                looked_after_clients(old(self)@, final(self)@, result, ids, asked),
            result is Err ==> result == Err::<(), RenetError>(RenetError::SenderDisconnected)
                && !old(self)@.outbound.connected,
            old(self)@.outbound.connected ==> result is Ok,
    {
        let ghost before = self@;
        proof {
            lemma_prefix_reflexive(before.events);
            lemma_prefix_reflexive(before.outbound.queue);
        }
        let ids = netcode_clients_id(&self.netcode_server);
        let ghost mut asked: Seq<SessionResult> = Seq::empty();
        let mut i: usize = 0;
        while i < ids.len()
            invariant
                i <= ids@.len(),
                self.wf(),
                extends(before, self@),
                self@.now == before.now,
                self@.channels.now == before.channels.now,
                self@.inbound == before.inbound,
                asked.len() == i,
                self@ == after_results(before, asked, i as int, DisconnectionReason::Timeout),
                forall|j: int| 0 <= j < i ==> looks_after(#[trigger] asked[j], ids@[j]),
                forall|j: int|
                    0 <= j < i ==> before.outbound.send_result(datagrams_of(#[trigger] asked[j]))
                        is Ok,
            decreases ids@.len() - i,
        {
            let ghost here = self@;
            let ghost so_far = asked;
            let server_result = netcode_update_client(&mut self.netcode_server, ids[i]);
            let ghost answer = server_result;
            let handled = self.handle(server_result, DisconnectionReason::Timeout, Ghost(before));
            proof {
                asked = so_far.push(answer);
                lemma_after_results_push(before, so_far, answer, i as int, DisconnectionReason::Timeout);
                assert(self@ == after_result(here, answer, DisconnectionReason::Timeout));
                assert(self@ == after_results(before, asked, i + 1, DisconnectionReason::Timeout));
                assert(handled == before.outbound.send_result(datagrams_of(answer)));
                assert(asked.last() == answer);
                assert forall|j: int| 0 <= j < i + 1 implies looks_after(
                    #[trigger] asked[j],
                    ids@[j],
                ) by {
                    if j < i {
                        assert(asked[j] == so_far[j]);
                    }
                }
                assert forall|j: int| 0 <= j < i implies before.outbound.send_result(
                    datagrams_of(#[trigger] asked[j]),
                ) is Ok by {
                    assert(asked[j] == so_far[j]);
                }
            }
            match handled {
                Ok(_) => {},
                Err(e) => {
                    proof {
                        assert(looked_after_clients(before, self@, handled, ids@, asked));
                    }
                    return Err(e);
                },
            }
            i = i + 1;
        }
        proof {
            if asked.len() > 0 {
                assert(before.outbound.send_result(datagrams_of(asked[asked.len() - 1])) is Ok);
            }
            assert(looked_after_clients(before, self@, Ok(()), ids@, asked));
        }
        Ok(())
    }

    /// Takes the connections that the channel layer has ended out of both
    /// layers, with an event for each; the client is told why, five times,
    /// unless it was the client that ended the connection.
    #[verifier::loop_isolation(false)]
    fn drop_disconnected(&mut self) -> (result: Result<(), RenetError>)
        requires
            old(self).wf(),
        ensures
            final(self).wf(),
            extends(old(self)@, final(self)@),
            final(self)@.now == old(self)@.now,
            final(self)@.channels.now == old(self)@.channels.now,
            final(self)@.inbound == old(self)@.inbound,
            exists|goodbyes: Seq<Option<DatagramView>>| #[trigger]
                dropped_ended(old(self)@, final(self)@, result, goodbyes),
            result is Ok ==> final(self)@.channels.first_gone() is None,
            result is Err ==> result == Err::<(), RenetError>(RenetError::SenderDisconnected)
                && !old(self)@.outbound.connected,
            old(self)@.outbound.connected ==> result is Ok,
    {
        let ghost before = self@;
        let ghost mut goodbyes: Seq<Option<DatagramView>> = Seq::empty();
        proof {
            lemma_prefix_reflexive(before.events);
            lemma_prefix_reflexive(before.outbound.queue);
            lemma_dropping_starts(before);
        }
        let mut more = true;
        while more
            invariant
                self.wf(),
                extends(before, self@),
                self@.now == before.now,
                self@.channels.now == before.channels.now,
                self@.inbound == before.inbound,
                dropping(before, self@, goodbyes),
                !more ==> self@.channels.first_gone() is None,
            decreases
                    self@.channels.connections.len() + if more {
                        1int
                    } else {
                        0int
                    },
        {
            let ghost here = self@;
            let ghost so_far = goodbyes;
            match self.reliable_server.disconnected_client() {
                Some((client_id, reason)) => {
                    self.events.push_back(ServerEvent::ClientDisconnected(client_id, reason));
                    let ghost mut goodbye: Option<DatagramView> = None;
                    proof {
                        lemma_prefix_push(
                            before.events,
                            here.events,
                            ServerEvent::ClientDisconnected(client_id, reason),
                        );
                    }
                    if reason != DisconnectionReason::DisconnectedByClient {
                        let packet = serialize_disconnect_packet(reason);
                        assert(packet@.len() == 3);
                        match netcode_generate_payload_packet(
                            &mut self.netcode_server,
                            client_id,
                            &packet,
                        ) {
                            Err(_) => {},
                            Ok(to_send) => {
                                let ghost queue = self@.outbound.queue;
                                let sent = send_copies(
                                    &mut self.packet_sender,
                                    &to_send,
                                    NUM_DISCONNECT_PACKETS_TO_SEND,
                                );
                                proof {
                                    goodbye = Some(to_send_view(to_send));
                                    lemma_prefix_append(
                                        before.outbound.queue,
                                        queue,
                                        copies(
                                            to_send_view(to_send),
                                            NUM_DISCONNECT_PACKETS_TO_SEND as nat,
                                        ),
                                    );
                                }
                                match sent {
                                    Ok(_) => {},
                                    Err(e) => {
                                        proof {
                                            goodbyes = so_far.push(goodbye);
                                            lemma_dropping_step(
                                                before,
                                                so_far,
                                                goodbye,
                                                here,
                                                self@,
                                                false,
                                            );
                                        }
                                        return Err(e);
                                    },
                                }
                            },
                        }
                    }
                    let _ = netcode_disconnect(&mut self.netcode_server, client_id);
                    proof {
                        goodbyes = so_far.push(goodbye);
                        lemma_dropping_step(before, so_far, goodbye, here, self@, true);
                    }
                },
                None => {
                    more = false;
                },
            }
        }
        proof {
            lemma_dropping_ends(before, self@, goodbyes);
        }
        Ok(())
    }

    /// Advances the server by duration, and receive packets from the network.
    ///
    /// The datagrams that arrived are handed to the session layer, one after
    /// the other; both layers advance by `duration` nanoseconds; keepalives
    /// go out; and the clients whose connection ended are taken out, with an
    /// event for each. The first datagram that cannot be queued because the
    /// transport is gone, and the loss of the transport on the receiving
    /// side, end the update with an error. See [`updated`].
    pub fn update(&mut self, duration: u64) -> (result: Result<(), RenetError>)
        requires
            old(self).wf(),
            old(self)@.now + duration <= u64::MAX,
        ensures
            final(self).wf(),
            extends(old(self)@, final(self)@),
            exists|
                answers: Seq<SessionResult>,
                ids: Seq<u64>,
                asked: Seq<SessionResult>,
                goodbyes: Seq<Option<DatagramView>>,
            | #[trigger]
                updated(
                    old(self)@,
                    final(self)@,
                    result,
                    duration,
                    answers,
                    ids,
                    asked,
                    goodbyes,
                ),
            match result {
                Ok(_) => {
                    &&& final(self)@.now == old(self)@.now + duration
                    &&& final(self)@.channels.now == old(self)@.channels.now + duration
                    &&& final(self)@.inbound.queue.len() == 0
                    &&& final(self)@.channels.first_gone() is None
                },
                Err(e) => if e == RenetError::ReceiverDisconnected {
                    !old(self)@.inbound.connected && final(self)@.inbound.queue.len() == 0
                } else {
                    e == RenetError::SenderDisconnected && !old(self)@.outbound.connected
                },
            },
            old(self)@.inbound.connected && old(self)@.outbound.connected ==> result is Ok,
            !old(self)@.inbound.connected ==> result is Err,
    {
        let ghost before = self@;
        let ghost none: Seq<SessionResult> = Seq::empty();
        let first = self.receive_packets();
        let ghost received = self@;
        let ghost answers = choose|answers: Seq<SessionResult>|
            received_arrivals(before, received, first, answers);
        match first {
            Ok(_) => {},
            Err(e) => {
                proof {
                    assert(updated(
                        before,
                        self@,
                        first,
                        duration,
                        answers,
                        Seq::empty(),
                        none,
                        Seq::empty(),
                    ));
                }
                return Err(e);
            },
        }
        proof {
            self.reliable_server.lemma_wf();
        }
        self.reliable_server.update_connections(duration);
        netcode_update(&mut self.netcode_server, duration);
        let ghost advanced = self@;
        proof {
            lemma_prefix_reflexive(received.events);
            lemma_prefix_reflexive(received.outbound.queue);
            assert(extends(received, advanced));
            lemma_extends_transitive(before, received, advanced);
            assert(advanced == advanced_by(received, duration));
        }
        let second = self.update_clients();
        let ghost looked = self@;
        let ghost (ids, asked) = choose|ids: Seq<u64>, asked: Seq<SessionResult>|
            looked_after_clients(advanced, looked, second, ids, asked);
        proof {
            lemma_extends_transitive(before, advanced, looked);
        }
        match second {
            Ok(_) => {},
            Err(e) => {
                proof {
                    assert(updated(
                        before,
                        self@,
                        second,
                        duration,
                        answers,
                        ids,
                        asked,
                        Seq::empty(),
                    ));
                }
                return Err(e);
            },
        }
        let result = self.drop_disconnected();
        proof {
            lemma_extends_transitive(before, looked, self@);
            let goodbyes = choose|goodbyes: Seq<Option<DatagramView>>|
                dropped_ended(looked, self@, result, goodbyes);
            assert(updated(before, self@, result, duration, answers, ids, asked, goodbyes));
        }
        result
    }

    /// Receive a message from a client over a channel.
    pub fn receive_message(&mut self, client_id: u64, channel_id: u8) -> (message: Option<Vec<u8>>)
        requires
            old(self).wf(),
        ensures
            final(self).wf(),
            final(self)@ == (RenetModel {
                channels: old(self)@.channels.with(
                    client_id,
                    old(self)@.channels.connections[old(self)@.channels.at(
                        client_id,
                    )].after_receive(channel_id),
                ),
                ..old(self)@
            }),
            match message {
                Some(m) => old(self)@.channels.has(client_id)
                    && old(self)@.channels.connections[old(self)@.channels.at(
                    client_id,
                )].next_message(channel_id) == Some(m@),
                None => !old(self)@.channels.has(client_id)
                    || old(self)@.channels.connections[old(self)@.channels.at(
                    client_id,
                )].next_message(channel_id) is None,
            },
    {
        self.reliable_server.receive_message(client_id, channel_id)
    }

    /// Verifies if a message can be sent to a client over a channel.
    pub fn can_send_message(&self, client_id: u64, channel_id: u8) -> (can: bool)
        requires
            self.wf(),
        ensures
            can == (self@.channels.has(client_id)
                && self@.channels.connections[self@.channels.at(client_id)].can_send(channel_id)),
    {
        self.reliable_server.can_send_message(client_id, channel_id)
    }

    /// Send a message to a client over a channel.
    pub fn send_message(&mut self, client_id: u64, channel_id: u8, message: Vec<u8>)
        requires
            old(self).wf(),
        ensures
            final(self).wf(),
            final(self)@ == (RenetModel {
                channels: old(self)@.channels.with(
                    client_id,
                    old(self)@.channels.connections[old(self)@.channels.at(client_id)].send(
                        channel_id,
                        message@,
                    ),
                ),
                ..old(self)@
            }),
    {
        self.reliable_server.send_message(client_id, channel_id, message);
    }

    /// Send a message to all client, except the specified one, over a channel.
    pub fn broadcast_message_except(&mut self, client_id: u64, channel_id: u8, message: Vec<u8>)
        requires
            old(self).wf(),
        ensures
            final(self).wf(),
            final(self)@ == (RenetModel {
                channels: old(self)@.channels.broadcast(Some(client_id), channel_id, message@),
                ..old(self)@
            }),
    {
        self.reliable_server.broadcast_message_except(client_id, channel_id, message)
    }

    /// Send a message to all client over a channel.
    pub fn broadcast_message(&mut self, channel_id: u8, message: Vec<u8>)
        requires
            old(self).wf(),
        ensures
            final(self).wf(),
            final(self)@ == (RenetModel {
                channels: old(self)@.channels.broadcast(None, channel_id, message@),
                ..old(self)@
            }),
    {
        self.reliable_server.broadcast_message(channel_id, message);
    }

    /// Encrypts the datagrams of the channel layer for the client
    /// `client_id` and queues them for the transport.
    ///
    /// The session layer encrypts each of `packets` in turn, and what it
    /// returns is queued. A packet that it refuses is left out; it refuses
    /// every packet of more than 1300 bytes and every packet for a client
    /// that is not connected. The first datagram that cannot be queued
    /// because the transport is gone ends the sending.
    #[verifier::loop_isolation(false)]
    fn send_packets_to(&mut self, client_id: u64, packets: &Vec<Vec<u8>>, Ghost(before): Ghost<
        RenetModel,
    >) -> (result: Result<(), RenetError>)
        requires
            old(self).wf(),
            extends(before, old(self)@),
        ensures
            final(self).wf(),
            extends(before, final(self)@),
            final(self)@.channels == old(self)@.channels,
            final(self)@.clients == old(self)@.clients,
            final(self)@.now == old(self)@.now,
            final(self)@.events == old(self)@.events,
            final(self)@.inbound == old(self)@.inbound,
            exists|datagrams: Seq<DatagramView>| #[trigger]
                encrypted_for(
                    old(self)@,
                    final(self)@,
                    result,
                    client_id,
                    byte_views(packets@),
                    datagrams,
                ),
            result is Err ==> result == Err::<(), RenetError>(RenetError::SenderDisconnected)
                && !old(self)@.outbound.connected,
            old(self)@.outbound.connected ==> result is Ok,
    {
        let ghost start = self@;
        let ghost views = byte_views(packets@);
        let ghost mut datagrams: Seq<DatagramView> = Seq::empty();
        let mut i: usize = 0;
        proof {
            assert(start.outbound.queue + datagrams =~= start.outbound.queue);
        }
        while i < packets.len()
            invariant
                i <= packets@.len(),
                self.wf(),
                extends(before, self@),
                self@.channels == start.channels,
                self@.clients == start.clients,
                self@.now == start.now,
                self@.events == start.events,
                self@.inbound == start.inbound,
                self@.outbound.connected == start.outbound.connected,
                datagrams.len() == if start.clients.count(client_id) > 0 {
                    fitting_payloads(views, i as int)
                } else {
                    0
                },
                datagrams.len() > 0 ==> start.outbound.connected,
                self@.outbound == start.outbound.sent(datagrams),
            decreases packets@.len() - i,
        {
            assert(views[i as int] == packets@[i as int]@);
            match netcode_generate_payload_packet(&mut self.netcode_server, client_id, &packets[i]) {
                Ok(to_send) => {
                    let ghost queue = self@.outbound.queue;
                    let ghost so_far = datagrams;
                    let sent = send_copies(&mut self.packet_sender, &to_send, 1);
                    proof {
                        lemma_prefix_append(
                            before.outbound.queue,
                            queue,
                            copies(to_send_view(to_send), 1),
                        );
                        datagrams = so_far.push(to_send_view(to_send));
                        assert(copies(to_send_view(to_send), 1) =~= seq![to_send_view(to_send)]);
                        assert(start.outbound.queue + so_far + seq![to_send_view(to_send)]
                            =~= start.outbound.queue + datagrams);
                        assert(self@.outbound == start.outbound.sent(datagrams));
                        assert(sent == start.outbound.send_result(datagrams));
                        assert(datagrams.len() == fitting_payloads(views, i + 1));
                        lemma_fitting_payloads_grow(views, i + 1, packets@.len() as int);
                    }
                    match sent {
                        Ok(_) => {},
                        Err(e) => {
                            proof {
                                assert(so_far.len() == 0);
                                assert(encrypted_for(
                                    start,
                                    self@,
                                    sent,
                                    client_id,
                                    views,
                                    datagrams,
                                ));
                            }
                            return Err(e);
                        },
                    }
                },
                // A datagram that cannot be encrypted is left out.
                Err(_) => {},
            }
            i = i + 1;
        }
        proof {
            assert(views.len() == packets@.len());
            assert(encrypted_for(start, self@, Ok(()), client_id, views, datagrams));
        }
        Ok(())
    }

    /// Send packets to connected clients.
    ///
    /// Every connection of the channel layer is asked for its datagrams;
    /// each is encrypted by the session layer and queued for the transport.
    /// The first datagram that cannot be queued because the transport is
    /// gone ends the sending with an error; the connections after the one
    /// it came from are not asked.
    #[verifier::rlimit(40)]
    #[verifier::loop_isolation(false)]
    pub fn send_packets(&mut self) -> (result: Result<(), RenetError>)
        requires
            old(self).wf(),
        ensures
            final(self).wf(),
            extends(old(self)@, final(self)@),
            final(self)@.channels == (ServerModel {
                connections: final(self)@.channels.connections,
                ..old(self)@.channels
            }),
            final(self)@.channels.connections.len() == old(self)@.channels.connections.len(),
            forall|i: int|
                0 <= i < old(self)@.channels.connections.len() ==> was_asked(
                    old(self)@.channels.connections[i],
                    #[trigger] final(self)@.channels.connections[i],
                ) || final(self)@.channels.connections[i] == old(self)@.channels.connections[i],
            result is Ok ==> forall|i: int|
                0 <= i < old(self)@.channels.connections.len() ==> was_asked(
                    old(self)@.channels.connections[i],
                    #[trigger] final(self)@.channels.connections[i],
                ),
            final(self)@.clients == old(self)@.clients,
            final(self)@.now == old(self)@.now,
            final(self)@.events == old(self)@.events,
            final(self)@.inbound == old(self)@.inbound,
            exists|bits: Seq<u32>, datagrams: Seq<DatagramView>| #[trigger]
                sent_packets(old(self)@, final(self)@, result, bits, datagrams),
            result is Err ==> result == Err::<(), RenetError>(RenetError::SenderDisconnected)
                && !old(self)@.outbound.connected,
            old(self)@.outbound.connected ==> result is Ok,
    {
        let ghost before = self@;
        let ghost mut bits: Seq<u32> = Seq::empty();
        let ghost mut datagrams: Seq<DatagramView> = Seq::empty();
        proof {
            lemma_prefix_reflexive(before.events);
            lemma_prefix_reflexive(before.outbound.queue);
            self.lemma_wf();
            lemma_sending_starts(before);
        }
        let ids = self.reliable_server.connections_id();
        let mut i: usize = 0;
        while i < ids.len()
            invariant
                i <= ids@.len(),
                bits.len() == i,
                sending(before, self@, bits, datagrams),
                ids@ == before.channels.ids,
                self.wf(),
                extends(before, self@),
                self@.channels == (ServerModel {
                    connections: self@.channels.connections,
                    ..before.channels
                }),
                self@.channels.connections.len() == before.channels.connections.len(),
                forall|j: int|
                    0 <= j < i ==> was_asked(
                        before.channels.connections[j],
                        #[trigger] self@.channels.connections[j],
                    ),
                forall|j: int|
                    i <= j < before.channels.connections.len() ==> #[trigger] self@.channels.connections[j]
                        == before.channels.connections[j],
                self@.clients == before.clients,
                self@.now == before.now,
                self@.events == before.events,
                self@.inbound == before.inbound,
            decreases ids@.len() - i,
        {
            let client_id = ids[i];
            let ghost here = self@;
            proof {
                crate::channel_server::lemma_index_of_unique(before.channels.ids, i as int);
                assert(here.channels.at(client_id) == i);
            }
            let ghost so_far = bits;
            let ghost queued = datagrams;
            // A connection that has ended has nothing to send.
            if let Ok(packets) = self.reliable_server.get_packets_to_send(client_id) {
                let ghost connection = before.channels.connections[i as int];
                let ghost ack_bits = choose|ack_bits: u32|
                    {
                        &&& acknowledges_all(connection.received, ack_bits)
                        &&& byte_views(packets@) == #[trigger] connection.datagrams(ack_bits)
                        &&& self@.channels == here.channels.with(
                            client_id,
                            connection.after_sending(ack_bits),
                        )
                    };
                let ghost asked = self@;
                proof {
                    assert(was_asked(
                        before.channels.connections[i as int],
                        self@.channels.connections[i as int],
                    ));
                }
                let result = self.send_packets_to(client_id, &packets, Ghost(before));
                proof {
                    let more = choose|more: Seq<DatagramView>|
                        encrypted_for(asked, self@, result, client_id, byte_views(packets@), more);
                    bits = so_far.push(ack_bits);
                    datagrams = queued + more;
                    lemma_sending_step(
                        before,
                        here,
                        self@,
                        result,
                        so_far,
                        queued,
                        ack_bits,
                        more,
                    );
                }
                match result {
                    Ok(_) => {},
                    Err(e) => {
                        return Err(e);
                    },
                }
            } else {
                proof {
                    crate::channel_server::lemma_index_of_bounds(before.channels.ids, client_id);
                    assert(here.channels.connections[i as int].reason is Some);
                    bits = so_far.push(0u32);
                    datagrams = queued + Seq::<DatagramView>::empty();
                    assert(here.outbound.queue + Seq::<DatagramView>::empty()
                        =~= here.outbound.queue);
                    lemma_sending_step(
                        before,
                        here,
                        self@,
                        Ok(()),
                        so_far,
                        queued,
                        0u32,
                        Seq::empty(),
                    );
                }
            }
            i = i + 1;
        }
        proof {
            lemma_sending_ends(before, self@, bits, datagrams);
        }
        Ok(())
    }

    /// Returns all the connected clients id.
    pub fn clients_id(&self) -> (ids: Vec<u64>)
        ensures
            ids@.to_multiset() == self@.clients,
    {
        netcode_clients_id(&self.netcode_server)
    }
}

} // verus!
