//! The session layer: tokens, handshake, encryption and keepalives are the
//! work of `renetcode`. This module holds what the server needs of it, each
//! call behind a function whose contract is taken on trust.
//!
//! The contracts speak of two things that a `NetcodeServer` holds: the
//! clients that it counts as connected, and its clock. They leave aside that
//! `renetcode` numbers the packets of a session in 64 bits and would stop at
//! the last number.
use renetcode::{NetcodeError, NetcodeServer, ServerAuthentication, ServerConfig};
use std::time::Duration;
use vstd::multiset::Multiset;
use vstd::prelude::*;

verus! {

/// The number of bytes in a private key.
pub const NETCODE_KEY_BYTES: usize = 32;

/// The number of bytes of user data in a connect token.
pub const NETCODE_USER_DATA_BYTES: usize = 256;

/// The maximum number of bytes that a payload can have when it is encrypted
/// into a datagram.
pub const NETCODE_MAX_PAYLOAD_BYTES: usize = 1300;

/// The largest number of clients that a server can be made for.
pub const NETCODE_MAX_CLIENTS: usize = 1024;

/// `renetcode::NetcodeServer`: the sessions of a server. Nothing inside it
/// is seen here.
#[verifier::external_type_specification]
#[verifier::external_body]
pub struct ExNetcodeServer(NetcodeServer);

/// `renetcode::NetcodeError`: why a call of the session layer failed.
#[verifier::external_type_specification]
#[verifier::external_body]
pub struct ExNetcodeError(NetcodeError);

/// `renetcode::ServerResult`: what a call of the session layer asks for,
/// with the bytes still borrowed from the server.
#[verifier::external_type_specification]
#[verifier::external_body]
pub struct ExServerResult<'a, 's>(renetcode::ServerResult<'a, 's>);

/// The ids of the clients that the server holds as connected, each as often
/// as the server holds it.
pub uninterp spec fn session_clients(server: NetcodeServer) -> Multiset<u64>;

/// The server's clock, in nanoseconds.
pub uninterp spec fn session_time(server: NetcodeServer) -> nat;

/// Whether `str::parse` reads `text` as the address of a socket.
pub uninterp spec fn is_socket_address(text: Seq<char>) -> bool;

/// What `NetcodeServer::process_packet` returns for the datagram `payload`
/// that came from the address `addr`, on the server as it stands.
pub uninterp spec fn session_answer(server: NetcodeServer, addr: Seq<char>, payload: Seq<u8>) -> SessionResult;

/// Fewest bytes of a datagram of the session layer.
pub const NETCODE_MIN_PACKET_BYTES: usize = 18;

/// Byte `j` of the sequence number that a datagram carries in `len` bytes
/// after its first byte; zero from the byte `len` on.
pub open spec fn sequence_byte(payload: Seq<u8>, len: int, j: int) -> int {
    if j < len {
        payload[1 + j] as int
    } else {
        0
    }
}

/// The sequence number that a datagram carries in `len` bytes after its
/// first byte, the lowest byte first.
pub open spec fn datagram_sequence(payload: Seq<u8>, len: int) -> int {
    sequence_byte(payload, len, 0) + 0x100 * sequence_byte(payload, len, 1) + 0x1_0000
        * sequence_byte(payload, len, 2) + 0x100_0000 * sequence_byte(payload, len, 3)
        + 0x1_0000_0000 * sequence_byte(payload, len, 4) + 0x100_0000_0000 * sequence_byte(
        payload,
        len,
        5,
    ) + 0x1_0000_0000_0000 * sequence_byte(payload, len, 6) + 0x100_0000_0000_0000
        * sequence_byte(payload, len, 7)
}

/// Whether the session layer can be handed the datagram. The low half of
/// the first byte is the kind of the packet, the high half the number of
/// bytes of its sequence number. A datagram is handed on if it is too short
/// to be read at all, if it asks for a connection, if its kind is none, or
/// if its sequence number has at most eight bytes, is followed by the 16
/// bytes of the authentication tag at least, and is not among the last 256
/// numbers. Of any other datagram the session layer cannot read the
/// sequence number or the tag.
pub open spec fn datagram_is_safe(payload: Seq<u8>) -> bool {
    payload.len() < NETCODE_MIN_PACKET_BYTES || {
        let kind = payload[0] % 16;
        let len = payload[0] as int / 16;
        ||| kind == 0
        ||| kind > 6
        ||| (len <= 8 && payload.len() >= 17 + len && datagram_sequence(payload, len) <= u64::MAX
            - 256)
    }
}

/// Whether the session layer can be handed the datagram; see
/// [`datagram_is_safe`].
pub fn is_safe_datagram(payload: &Vec<u8>) -> (safe: bool)
    ensures
        safe == datagram_is_safe(payload@),
{
    if payload.len() < NETCODE_MIN_PACKET_BYTES {
        return true;
    }
    let kind = payload[0] % 16;
    let len = (payload[0] / 16) as usize;
    if kind == 0 || kind > 6 {
        return true;
    }
    if len > 8 || payload.len() < 17 + len {
        return false;
    }
    let b0: u128 = if 0 < len { payload[1] as u128 } else { 0 };
    let b1: u128 = if 1 < len { payload[2] as u128 } else { 0 };
    let b2: u128 = if 2 < len { payload[3] as u128 } else { 0 };
    let b3: u128 = if 3 < len { payload[4] as u128 } else { 0 };
    let b4: u128 = if 4 < len { payload[5] as u128 } else { 0 };
    let b5: u128 = if 5 < len { payload[6] as u128 } else { 0 };
    let b6: u128 = if 6 < len { payload[7] as u128 } else { 0 };
    let b7: u128 = if 7 < len { payload[8] as u128 } else { 0 };
    let sequence: u128 = b0 + 0x100 * b1 + 0x1_0000 * b2 + 0x100_0000 * b3 + 0x1_0000_0000 * b4
        + 0x100_0000_0000 * b5 + 0x1_0000_0000_0000 * b6 + 0x100_0000_0000_0000 * b7;
    sequence <= 0xFFFF_FFFF_FFFF_FEFF
}

/// A datagram for the transport, and where to send it.
#[derive(Debug)]
pub struct PacketToSend {
    pub packet: Vec<u8>,
    pub address: String,
}

impl PacketToSend {
    /// The datagram `packet`, to be sent to `address`.
    pub fn new(packet: &[u8], address: String) -> (to_send: Self)
        ensures
            to_send.packet@ == packet@,
            to_send.address == address,
    {
        let copy = crate::packet::copy_range(packet, 0, packet.len());
        assert(packet@.subrange(0, packet@.len() as int) =~= packet@);
        PacketToSend { packet: copy, address }
    }
}

/// What the session layer asks of the server after a call.
#[derive(Debug)]
pub enum SessionResult {
    /// Nothing needs to be done.
    Nothing,
    /// A datagram to be sent.
    PacketToSend(PacketToSend),
    /// A payload that arrived from the connected client.
    Payload(u64, Vec<u8>),
    /// A client has connected, with its user data; a datagram to be sent.
    ClientConnected(u64, [u8; NETCODE_USER_DATA_BYTES], PacketToSend),
    /// The connection of the client has ended; maybe a datagram to be sent.
    ClientDisconnected(u64, Option<PacketToSend>),
}

/// How a call that returned `result` left the connected clients.
pub open spec fn clients_after(before: Multiset<u64>, result: SessionResult) -> Multiset<u64> {
    match result {
        SessionResult::ClientConnected(client_id, _, _) => before.insert(client_id),
        SessionResult::ClientDisconnected(client_id, _) => before.remove(client_id),
        _ => before,
    }
}

/// `renetcode::ServerResult` to the library's own type, one variant for one;
/// byte slices and addresses are copied out.
#[verifier::external_body]
fn own_result(result: renetcode::ServerResult<'_, '_>) -> SessionResult {
    match result {
        renetcode::ServerResult::None => SessionResult::Nothing,
        renetcode::ServerResult::PacketToSend { addr, payload } => SessionResult::PacketToSend(PacketToSend::new(payload, addr.to_string())),
        renetcode::ServerResult::Payload { client_id, payload } => SessionResult::Payload(client_id, payload.to_vec()),
        renetcode::ServerResult::ClientConnected { client_id, addr, user_data, payload } => SessionResult::ClientConnected(client_id, *user_data, PacketToSend::new(payload, addr.to_string())),
        renetcode::ServerResult::ClientDisconnected { client_id, addr, payload } => SessionResult::ClientDisconnected(client_id, payload.map(|p| PacketToSend::new(p, addr.to_string()))),
    }
}

/// `NetcodeServer::new`, with one public address and a private key. The
/// address is read by `str::parse`; without an address there is no server.
/// A new server has no client, and its clock shows `current_time`.
/// `renetcode` refuses more than 1024 clients.
#[verifier::external_body]
pub(crate) fn netcode_new(
    current_time: u64,
    max_clients: usize,
    protocol_id: u64,
    server_addr: &String,
    private_key: [u8; NETCODE_KEY_BYTES],
) -> (server: Option<NetcodeServer>)
    requires
        max_clients <= NETCODE_MAX_CLIENTS,
    ensures
        server is Some <==> is_socket_address(server_addr@),
        server matches Some(s) ==> session_clients(s) == Multiset::<u64>::empty() && session_time(s)
            == current_time,
{
    let address = server_addr.parse().ok()?;
    Some(NetcodeServer::new(ServerConfig {
        current_time: Duration::from_nanos(current_time),
        max_clients,
        protocol_id,
        public_addresses: vec![address],
        authentication: ServerAuthentication::Secure { private_key },
    }))
}

/// `NetcodeServer::process_packet` on a datagram that came from `addr`,
/// which is read by `str::parse`; a datagram without an address is not
/// handed on. What comes back is what [`session_answer`] names. A payload
/// comes only from a connected client; a client that connects is added to
/// the connected clients, one that disconnects was among them and is taken
/// out; nothing else changes them or the clock. `renetcode` cannot read
/// every datagram: see [`datagram_is_safe`].
#[verifier::external_body]
pub(crate) fn netcode_process_packet(
    server: &mut NetcodeServer,
    addr: &String,
    payload: &mut Vec<u8>,
) -> (result: Option<SessionResult>)
    requires
        datagram_is_safe(old(payload)@),
    ensures
        result == if is_socket_address(addr@) {
            Some(session_answer(*old(server), addr@, old(payload)@))
        } else {
            None
        },
        session_time(*final(server)) == session_time(*old(server)),
        match result {
            Some(r) => {
                &&& session_clients(*final(server)) == clients_after(session_clients(*old(server)), r)
                &&& r matches SessionResult::Payload(id, _) ==> session_clients(*old(server)).count(id)
                    > 0
                &&& r matches SessionResult::ClientDisconnected(id, _) ==> session_clients(
                    *old(server),
                ).count(id) > 0
            },
            None => session_clients(*final(server)) == session_clients(*old(server)),
        },
{
    let address = addr.parse().ok()?;
    Some(own_result(server.process_packet(address, payload)))
}

/// `NetcodeServer::update`: the clock advances by `duration` nanoseconds;
/// the connected clients stay.
#[verifier::external_body]
pub(crate) fn netcode_update(server: &mut NetcodeServer, duration: u64)
    requires
        session_time(*old(server)) + duration <= u64::MAX,
    ensures
        session_time(*final(server)) == session_time(*old(server)) + duration,
        session_clients(*final(server)) == session_clients(*old(server)),
{
    server.update(Duration::from_nanos(duration))
}

/// `NetcodeServer::update_client`: a keepalive to send, or the end of the
/// connection of `client_id`, which is then taken out of the connected
/// clients, or nothing. For a client that is not connected, nothing.
#[verifier::external_body]
pub(crate) fn netcode_update_client(server: &mut NetcodeServer, client_id: u64) -> (result: SessionResult)
    requires
        session_time(*old(server)) <= u64::MAX,
    ensures
        session_time(*final(server)) == session_time(*old(server)),
        session_clients(*final(server)) == clients_after(session_clients(*old(server)), result),
        session_clients(*old(server)).count(client_id) == 0 ==> result is Nothing,
        result is Nothing || result is PacketToSend || (result matches SessionResult::ClientDisconnected(
            id,
            _,
        ) && id == client_id && session_clients(*old(server)).count(id) > 0),
{
    own_result(server.update_client(client_id))
}

/// `NetcodeServer::disconnect`: a connected client is taken out of the
/// connected clients, once, and the result says so; for any other id nothing
/// happens.
#[verifier::external_body]
pub(crate) fn netcode_disconnect(server: &mut NetcodeServer, client_id: u64) -> (result: SessionResult)
    ensures
        session_time(*final(server)) == session_time(*old(server)),
        session_clients(*final(server)) == clients_after(session_clients(*old(server)), result),
        if session_clients(*old(server)).count(client_id) > 0 {
            result matches SessionResult::ClientDisconnected(id, _) && id == client_id
        } else {
            result is Nothing
        },
{
    own_result(server.disconnect(client_id))
}

/// `NetcodeServer::current_time`: what the server's clock shows, in
/// nanoseconds.
#[verifier::external_body]
pub(crate) fn netcode_current_time(server: &NetcodeServer) -> (nanos: u64)
    requires
        session_time(*server) <= u64::MAX,
    ensures
        nanos == session_time(*server),
{
    server.current_time().as_nanos() as u64
}

/// `NetcodeServer::clients_id`: the ids of the connected clients.
#[verifier::external_body]
pub(crate) fn netcode_clients_id(server: &NetcodeServer) -> (ids: Vec<u64>)
    ensures
        ids@.to_multiset() == session_clients(*server),
{
    server.clients_id()
}

/// `NetcodeServer::generate_payload_packet`: the payload, encrypted for the
/// client `client_id`, and the client's address. It fails for a payload of
/// more than 1300 bytes and for a client that is not connected, and for
/// nothing else: the datagram has room for 1300 bytes with what goes before
/// and after them. It changes neither the connected clients nor the clock.
#[verifier::external_body]
pub(crate) fn netcode_generate_payload_packet(
    server: &mut NetcodeServer,
    client_id: u64,
    payload: &Vec<u8>,
) -> (result: Result<PacketToSend, NetcodeError>)
    ensures
        session_time(*final(server)) == session_time(*old(server)),
        session_clients(*final(server)) == session_clients(*old(server)),
        (result is Ok) == (session_clients(*old(server)).count(client_id) > 0 && payload@.len()
            <= NETCODE_MAX_PAYLOAD_BYTES),
{
    let (address, packet) = server.generate_payload_packet(client_id, payload)?;
    Ok(PacketToSend::new(packet, address.to_string()))
}

} // verus!
