use renet::error::{DisconnectionReason, RenetError};
use renet::remote_connection::{ConnectionConfig, RemoteConnection};
use renet::server::{RenetServer, ServerConfig, ServerEvent};
use renet::session::{is_safe_datagram, NETCODE_KEY_BYTES, NETCODE_USER_DATA_BYTES};
use renet::transport::{PacketReceiver, PacketSender};
use renetcode::{ClientAuthentication, ConnectToken, NetcodeClient};
use std::time::Duration;

const MILLIS: u64 = 1_000_000;
const PROTOCOL_ID: u64 = 7;
const SERVER_ADDR: &str = "127.0.0.1:5000";
const CLIENT_ADDR: &str = "127.0.0.1:3000";
const PRIVATE_KEY: &[u8; NETCODE_KEY_BYTES] = b"an example very very secret key.";

fn new_server() -> RenetServer {
    let config = ServerConfig::new(16, PROTOCOL_ID, SERVER_ADDR.to_string(), *PRIVATE_KEY);
    RenetServer::new(0, config, ConnectionConfig::default(), PacketSender::new(), PacketReceiver::new())
        .unwrap()
}

fn user_data() -> [u8; NETCODE_USER_DATA_BYTES] {
    let mut data = [0u8; NETCODE_USER_DATA_BYTES];
    for (i, byte) in data.iter_mut().enumerate() {
        *byte = (i % 200) as u8;
    }
    data
}

fn new_client(client_id: u64) -> NetcodeClient {
    let token = ConnectToken::generate(
        Duration::ZERO,
        PROTOCOL_ID,
        300,
        client_id,
        15,
        vec![SERVER_ADDR.parse().unwrap()],
        Some(&user_data()),
        PRIVATE_KEY,
    )
    .unwrap();
    NetcodeClient::new(Duration::ZERO, ClientAuthentication::Secure { connect_token: token }).unwrap()
}

/// One step of 100 ms on both sides. Returns the payloads that reached the
/// client.
fn step(server: &mut RenetServer, client: &mut NetcodeClient, address: &str) -> Vec<Vec<u8>> {
    if let Some((packet, _)) = client.update(Duration::from_millis(100)) {
        server.deliver_packet(address.to_string(), packet.to_vec());
    }
    server.update(100 * MILLIS).unwrap();
    server.send_packets().unwrap();
    let mut payloads = Vec::new();
    for (to, mut datagram) in server.take_packets_to_send() {
        if to == address {
            if let Some(payload) = client.process_packet(&mut datagram) {
                payloads.push(payload.to_vec());
            }
        }
    }
    payloads
}

fn connect(server: &mut RenetServer, client: &mut NetcodeClient, address: &str) {
    for _ in 0..50 {
        step(server, client, address);
        if client.is_connected() {
            return;
        }
    }
    panic!("the client did not connect");
}

#[test]
fn a_server_needs_an_address() {
    let config = ServerConfig::new(16, PROTOCOL_ID, "nowhere".to_string(), *PRIVATE_KEY);
    let result =
        RenetServer::new(0, config, ConnectionConfig::default(), PacketSender::new(), PacketReceiver::new());
    assert!(matches!(result, Err(RenetError::InvalidAddress)));
    assert_eq!(new_server().addr(), SERVER_ADDR);
}

#[test]
fn a_client_connects_and_the_server_says_so() {
    let mut server = new_server();
    let mut client = new_client(4);
    assert!(server.clients_id().is_empty());
    connect(&mut server, &mut client, CLIENT_ADDR);
    assert_eq!(server.clients_id(), vec![4]);
    match server.get_event() {
        Some(ServerEvent::ClientConnected(client_id, data)) => {
            assert_eq!(client_id, 4);
            assert_eq!(data, user_data());
        }
        _ => panic!("expected the event of the connection"),
    }
    assert!(server.get_event().is_none());
    assert!(server.can_send_message(4, 0));
    assert!(!server.can_send_message(5, 0));
    assert!(server.network_info(4).is_some());
    assert!(server.network_info(5).is_none());
}

#[test]
fn a_datagram_from_no_address_is_dropped() {
    let mut server = new_server();
    let mut client = new_client(4);
    let (packet, _) = client.update(Duration::from_millis(100)).unwrap();
    server.deliver_packet("not an address".to_string(), packet.to_vec());
    server.update(100 * MILLIS).unwrap();
    assert!(server.take_packets_to_send().is_empty());
    assert!(server.get_event().is_none());
}

#[test]
fn messages_travel_both_ways_through_the_session() {
    let mut server = new_server();
    let mut client = new_client(4);
    connect(&mut server, &mut client, CLIENT_ADDR);
    let mut channels = RemoteConnection::new(ConnectionConfig::default());

    // Server to client.
    server.send_message(4, 0, vec![1, 2, 3]);
    let mut received = None;
    for _ in 0..10 {
        for payload in step(&mut server, &mut client, CLIENT_ADDR) {
            channels.process_packet(&payload).unwrap();
        }
        if let Some(message) = channels.receive_message(0) {
            received = Some(message);
            break;
        }
    }
    assert_eq!(received, Some(vec![1, 2, 3]));

    // Client to server.
    channels.send_message(0, vec![4, 5, 6]);
    for packet in channels.get_packets_to_send().unwrap() {
        let (_, datagram) = client.generate_payload_packet(&packet).unwrap();
        server.deliver_packet(CLIENT_ADDR.to_string(), datagram.to_vec());
    }
    server.update(0).unwrap();
    assert_eq!(server.receive_message(4, 0), Some(vec![4, 5, 6]));
    assert_eq!(server.receive_message(4, 0), None);
}

#[test]
fn a_replayed_payload_is_dropped() {
    let mut server = new_server();
    let mut client = new_client(4);
    connect(&mut server, &mut client, CLIENT_ADDR);
    let mut channels = RemoteConnection::new(ConnectionConfig::default());
    channels.send_message(1, vec![42]);
    let packets = channels.get_packets_to_send().unwrap();
    assert_eq!(packets.len(), 1);
    let captured = client.generate_payload_packet(&packets[0]).unwrap().1.to_vec();

    server.deliver_packet(CLIENT_ADDR.to_string(), captured.clone());
    server.update(0).unwrap();
    assert_eq!(server.receive_message(4, 1), Some(vec![42]));

    server.deliver_packet(CLIENT_ADDR.to_string(), captured.clone());
    server.deliver_packet(CLIENT_ADDR.to_string(), captured);
    server.update(0).unwrap();
    assert_eq!(server.receive_message(4, 1), None);
}

#[test]
fn a_payload_before_the_handshake_is_not_accepted() {
    let mut server = new_server();
    let mut connected = new_client(4);
    connect(&mut server, &mut connected, CLIENT_ADDR);
    let mut channels = RemoteConnection::new(ConnectionConfig::default());
    channels.send_message(1, vec![42]);
    let packets = channels.get_packets_to_send().unwrap();
    let datagram = connected.generate_payload_packet(&packets[0]).unwrap().1.to_vec();
    assert!(matches!(server.get_event(), Some(ServerEvent::ClientConnected(4, _))));

    // The same bytes from an address without a session.
    server.deliver_packet("127.0.0.1:3001".to_string(), datagram);
    server.update(0).unwrap();
    assert_eq!(server.receive_message(4, 1), None);
    assert!(server.get_event().is_none());
    assert_eq!(server.clients_id(), vec![4]);
}

#[test]
fn the_server_disconnects_a_client_with_five_goodbyes() {
    let mut server = new_server();
    let mut client = new_client(4);
    connect(&mut server, &mut client, CLIENT_ADDR);
    assert!(matches!(server.get_event(), Some(ServerEvent::ClientConnected(4, _))));

    server.disconnect(4);
    assert!(matches!(
        server.get_event(),
        Some(ServerEvent::ClientDisconnected(4, DisconnectionReason::DisconnectedByServer))
    ));
    assert!(server.get_event().is_none());
    assert!(server.clients_id().is_empty());
    let goodbyes = server.take_packets_to_send();
    assert_eq!(goodbyes.len(), 5);
    for (to, datagram) in goodbyes.iter() {
        assert_eq!(to, CLIENT_ADDR);
        assert_eq!(datagram, &goodbyes[0].1);
    }
    let mut first = goodbyes[0].1.clone();
    client.process_packet(&mut first);
    assert!(client.is_disconnected());

    // A client that is not there: nothing happens.
    server.disconnect(4);
    assert!(server.get_event().is_none());
    assert!(server.take_packets_to_send().is_empty());
}

#[test]
fn a_client_that_leaves_is_reported_once() {
    let mut server = new_server();
    let mut client = new_client(4);
    connect(&mut server, &mut client, CLIENT_ADDR);
    assert!(matches!(server.get_event(), Some(ServerEvent::ClientConnected(4, _))));
    let goodbye = client.disconnect().unwrap().1.to_vec();
    server.deliver_packet(CLIENT_ADDR.to_string(), goodbye);
    server.update(0).unwrap();
    assert!(matches!(
        server.get_event(),
        Some(ServerEvent::ClientDisconnected(4, DisconnectionReason::DisconnectedByClient))
    ));
    assert!(server.get_event().is_none());
    assert!(server.clients_id().is_empty());
    assert!(!server.can_send_message(4, 0));
}

#[test]
fn a_silent_client_times_out() {
    let mut server = new_server();
    let mut client = new_client(4);
    connect(&mut server, &mut client, CLIENT_ADDR);
    assert!(matches!(server.get_event(), Some(ServerEvent::ClientConnected(4, _))));
    // The channel layer gives up after 3 s, the session layer after 15.
    let mut gone = false;
    for _ in 0..40 {
        server.update(100 * MILLIS).unwrap();
        if let Some(ServerEvent::ClientDisconnected(4, reason)) = server.get_event() {
            assert_eq!(reason, DisconnectionReason::Timeout);
            gone = true;
            break;
        }
    }
    assert!(gone);
    assert!(server.clients_id().is_empty());
}

#[test]
fn keepalives_go_out_to_a_connected_client() {
    let mut server = new_server();
    let mut client = new_client(4);
    connect(&mut server, &mut client, CLIENT_ADDR);
    server.take_packets_to_send();
    server.update(300 * MILLIS).unwrap();
    let datagrams = server.take_packets_to_send();
    assert!(!datagrams.is_empty());
    assert_eq!(datagrams[0].0, CLIENT_ADDR);
}

#[test]
fn disconnect_clients_leaves_no_client() {
    let mut server = new_server();
    let mut first = new_client(4);
    let mut second = new_client(5);
    connect(&mut server, &mut first, CLIENT_ADDR);
    connect(&mut server, &mut second, "127.0.0.1:3001");
    assert_eq!(server.clients_id().len(), 2);
    server.disconnect_clients();
    assert!(server.clients_id().is_empty());
    let mut events = Vec::new();
    while let Some(event) = server.get_event() {
        events.push(event);
    }
    assert_eq!(events.len(), 4);
    assert!(matches!(
        events[2],
        ServerEvent::ClientDisconnected(_, DisconnectionReason::DisconnectedByServer)
    ));
    assert!(matches!(
        events[3],
        ServerEvent::ClientDisconnected(_, DisconnectionReason::DisconnectedByServer)
    ));
    assert_eq!(server.take_packets_to_send().len(), 10);
}

#[test]
fn the_update_fails_once_the_receiving_side_is_gone() {
    let mut server = new_server();
    let mut client = new_client(4);
    let (packet, _) = client.update(Duration::from_millis(100)).unwrap();
    server.deliver_packet(CLIENT_ADDR.to_string(), packet.to_vec());
    server.receiver_disconnected();
    // What was queued before is still taken in: the challenge goes out.
    assert!(matches!(server.update(0), Err(RenetError::ReceiverDisconnected)));
    assert_eq!(server.take_packets_to_send().len(), 1);
    assert!(matches!(server.update(0), Err(RenetError::ReceiverDisconnected)));
}

#[test]
fn the_update_fails_when_a_datagram_cannot_be_queued() {
    let mut server = new_server();
    let mut client = new_client(4);
    server.sender_disconnected();
    // Nothing to send: no error.
    assert!(server.update(0).is_ok());
    assert!(server.send_packets().is_ok());
    let (packet, _) = client.update(Duration::from_millis(100)).unwrap();
    server.deliver_packet(CLIENT_ADDR.to_string(), packet.to_vec());
    assert!(matches!(server.update(0), Err(RenetError::SenderDisconnected)));
    assert!(server.take_packets_to_send().is_empty());
}

#[test]
fn broadcasts_reach_the_clients_of_the_server() {
    let mut server = new_server();
    let mut first = new_client(4);
    let mut second = new_client(5);
    connect(&mut server, &mut first, CLIENT_ADDR);
    connect(&mut server, &mut second, "127.0.0.1:3001");
    server.broadcast_message(1, vec![1]);
    server.broadcast_message_except(4, 1, vec![2]);
    server.send_packets().unwrap();
    let mut for_first = RemoteConnection::new(ConnectionConfig::default());
    let mut for_second = RemoteConnection::new(ConnectionConfig::default());
    for (to, mut datagram) in server.take_packets_to_send() {
        if to == CLIENT_ADDR {
            if let Some(payload) = first.process_packet(&mut datagram) {
                for_first.process_packet(payload).unwrap();
            }
        } else if let Some(payload) = second.process_packet(&mut datagram) {
            for_second.process_packet(payload).unwrap();
        }
    }
    assert_eq!(for_first.receive_message(1), Some(vec![1]));
    assert_eq!(for_first.receive_message(1), None);
    assert_eq!(for_second.receive_message(1), Some(vec![1]));
    assert_eq!(for_second.receive_message(1), Some(vec![2]));
}

#[test]
fn the_clock_of_the_server_advances_with_each_update() {
    let config = ServerConfig::new(16, PROTOCOL_ID, SERVER_ADDR.to_string(), *PRIVATE_KEY);
    let mut server = RenetServer::new(
        5_000 * MILLIS,
        config,
        ConnectionConfig::default(),
        PacketSender::new(),
        PacketReceiver::new(),
    )
    .unwrap();
    assert_eq!(server.current_time(), 5_000 * MILLIS);
    server.update(100 * MILLIS).unwrap();
    server.update(0).unwrap();
    server.update(1).unwrap();
    assert_eq!(server.current_time(), 5_100 * MILLIS + 1);
}

#[test]
fn the_queues_to_the_transport_keep_their_order() {
    let mut sender = PacketSender::new();
    assert!(sender.is_connected());
    assert_eq!(sender.send((CLIENT_ADDR.to_string(), vec![1])), Ok(()));
    assert_eq!(sender.send((SERVER_ADDR.to_string(), vec![2])), Ok(()));
    sender.disconnect();
    assert_eq!(sender.send((CLIENT_ADDR.to_string(), vec![3])), Err(RenetError::SenderDisconnected));
    assert_eq!(
        sender.take(),
        vec![(CLIENT_ADDR.to_string(), vec![1]), (SERVER_ADDR.to_string(), vec![2])]
    );
    assert!(sender.take().is_empty());

    let mut receiver = PacketReceiver::new();
    assert_eq!(receiver.try_recv(), Err(renet::transport::TryRecvError::Empty));
    receiver.deliver(CLIENT_ADDR.to_string(), vec![1]);
    receiver.deliver(CLIENT_ADDR.to_string(), vec![2]);
    receiver.disconnect();
    assert_eq!(receiver.try_recv(), Ok((CLIENT_ADDR.to_string(), vec![1])));
    assert_eq!(receiver.try_recv(), Ok((CLIENT_ADDR.to_string(), vec![2])));
    assert_eq!(receiver.try_recv(), Err(renet::transport::TryRecvError::Disconnected));
}

#[test]
fn one_datagram_is_taken_in_at_a_time() {
    let mut server = new_server();
    let mut client = new_client(4);
    let request = client.update(Duration::from_millis(100)).unwrap().0.to_vec();
    assert_eq!(server.process_incoming(&"nowhere".to_string(), request.clone()), Ok(()));
    assert!(server.take_packets_to_send().is_empty());
    assert_eq!(server.process_incoming(&CLIENT_ADDR.to_string(), request.clone()), Ok(()));
    let challenge = server.take_packets_to_send();
    assert_eq!(challenge.len(), 1);
    assert_eq!(challenge[0].0, CLIENT_ADDR);
    assert!(server.clients_id().is_empty());
    server.sender_disconnected();
    assert_eq!(
        server.process_incoming(&CLIENT_ADDR.to_string(), request),
        Err(RenetError::SenderDisconnected)
    );
}

#[test]
fn a_datagram_is_safe_by_its_first_bytes() {
    // Shorter than the shortest packet: the session layer refuses it.
    assert!(is_safe_datagram(&vec![]));
    assert!(is_safe_datagram(&vec![0x95; 17]));
    // A connection request, and a kind that there is not.
    assert!(is_safe_datagram(&vec![0x90; 18]));
    assert!(is_safe_datagram(&vec![0x97; 18]));
    assert!(is_safe_datagram(&vec![0xff; 40]));
    // A sequence of more than eight bytes.
    assert!(!is_safe_datagram(&vec![0x95; 40]));
    assert!(!is_safe_datagram(&vec![0xf6; 40]));
    // Too short for its sequence and the tag.
    let mut short = vec![0u8; 24];
    short[0] = 0x85;
    assert!(!is_safe_datagram(&short));
    short.push(0);
    assert!(is_safe_datagram(&short));
    // A sequence that leaves no room for the window behind it.
    let mut late = vec![0xffu8; 25];
    late[0] = 0x85;
    assert!(!is_safe_datagram(&late));
    late[1] = 0xff - 255;
    assert!(!is_safe_datagram(&late));
    late[1] = 0xff - 255;
    late[2] = 0xfe;
    assert!(is_safe_datagram(&late));
    let mut edge = vec![0xffu8; 25];
    edge[0] = 0x85;
    edge[1] = 0xff;
    edge[2] = 0xfe;
    assert!(is_safe_datagram(&edge));
    // One byte of sequence: seventeen bytes follow it at least.
    let mut small = vec![0u8; 18];
    small[0] = 0x14;
    assert!(is_safe_datagram(&small));
}

#[test]
fn a_datagram_that_cannot_be_read_is_dropped() {
    let mut server = new_server();
    let mut client = new_client(4);
    connect(&mut server, &mut client, CLIENT_ADDR);
    assert!(matches!(server.get_event(), Some(ServerEvent::ClientConnected(4, _))));
    server.take_packets_to_send();

    let mut short = vec![0u8; 24];
    short[0] = 0x85;
    let mut late = vec![0xffu8; 40];
    late[0] = 0x85;
    for datagram in [vec![0x95u8; 40], vec![0xf6u8; 64], short, late, vec![0x15u8; 18], vec![7u8; 3]] {
        assert_eq!(server.process_incoming(&CLIENT_ADDR.to_string(), datagram.clone()), Ok(()));
        server.deliver_packet(CLIENT_ADDR.to_string(), datagram);
        server.update(0).unwrap();
        assert!(server.get_event().is_none());
        assert_eq!(server.clients_id(), vec![4]);
        assert!(server.take_packets_to_send().is_empty());
    }

    // The connection is as it was: a message still arrives.
    let mut connection = RemoteConnection::new(ConnectionConfig::default());
    connection.send_message(0, vec![1, 2, 3]);
    for packet in connection.get_packets_to_send().unwrap() {
        let (_, datagram) = client.generate_payload_packet(&packet).unwrap();
        server.deliver_packet(CLIENT_ADDR.to_string(), datagram.to_vec());
    }
    server.update(0).unwrap();
    assert_eq!(server.receive_message(4, 0), Some(vec![1, 2, 3]));
}

#[test]
fn packets_to_send_become_one_datagram_each() {
    let mut server = new_server();
    let mut client = new_client(4);
    connect(&mut server, &mut client, CLIENT_ADDR);
    server.take_packets_to_send();
    server.send_message(4, 0, vec![9; 10]);
    server.send_packets().unwrap();
    let datagrams = server.take_packets_to_send();
    assert_eq!(datagrams.len(), 1);
    assert_eq!(datagrams[0].0, CLIENT_ADDR);
    // A message of 3000 bytes goes out in three fragments.
    server.send_message(4, 0, vec![9; 3000]);
    server.send_packets().unwrap();
    assert_eq!(server.take_packets_to_send().len(), 3);
}

#[test]
fn the_session_layer_times_a_silent_client_out() {
    // The channel layer waits a minute here; the session layer waits 15 s.
    let config = ServerConfig::new(16, PROTOCOL_ID, SERVER_ADDR.to_string(), *PRIVATE_KEY);
    let mut connection_config = ConnectionConfig::default();
    connection_config.keep_alive_timeout = 60_000 * MILLIS;
    let mut server =
        RenetServer::new(0, config, connection_config, PacketSender::new(), PacketReceiver::new()).unwrap();
    let mut client = new_client(4);
    connect(&mut server, &mut client, CLIENT_ADDR);
    assert!(matches!(server.get_event(), Some(ServerEvent::ClientConnected(4, _))));

    let mut gone_after = None;
    for round in 0..200u64 {
        server.take_packets_to_send();
        server.update(100 * MILLIS).unwrap();
        if let Some(event) = server.get_event() {
            assert!(matches!(event, ServerEvent::ClientDisconnected(4, DisconnectionReason::Timeout)));
            gone_after = Some(round);
            break;
        }
    }
    let gone_after = gone_after.expect("the client was not timed out");
    assert!(gone_after >= 140 && gone_after <= 160);
    assert!(server.clients_id().is_empty());
    assert!(!server.can_send_message(4, 0));
    let goodbyes = server.take_packets_to_send();
    assert_eq!(goodbyes.len(), 5);
    for (to, datagram) in goodbyes.iter() {
        assert_eq!(to, CLIENT_ADDR);
        assert_eq!(datagram, &goodbyes[0].1);
    }
    assert!(server.get_event().is_none());
}
