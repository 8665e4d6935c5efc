use bincode::Options;
use rand::Rng;
use renet::channel_server::{RechannelServer, ServerEvent};
use renet::error::DisconnectionReason;
use renet::packet::serialize_disconnect_packet;
use renet::remote_connection::{ConnectionConfig, RemoteConnection};
use std::collections::HashMap;

const MILLIS: u64 = 1_000_000;

struct ClientStatus {
    connection: RemoteConnection,
    received_messages: u64,
}

/// The bytes of a message that holds `value` alone.
fn test_message(value: u64) -> Vec<u8> {
    bincode::options().serialize(&value).unwrap()
}

fn test_message_value(message: &[u8]) -> u64 {
    bincode::options().deserialize(message).unwrap()
}

/// The bytes of a message that holds 2500 bytes of 255.
fn test_usage_message() -> Vec<u8> {
    let value: Vec<u8> = vec![255; 2500];
    bincode::options().serialize(&value).unwrap()
}

#[test]
fn test_remote_connection_reliable_channel() {
    let mut server = RechannelServer::new(ConnectionConfig::default());
    let mut client = RemoteConnection::new(ConnectionConfig::default());
    let client_id = 0u64;
    server.add_client(client_id);

    let number_messages = 100;
    let mut current_message_number = 0;

    for i in 0..number_messages {
        let message = test_message(i);
        server.send_message(client_id, 0, message);
    }

    loop {
        let packets = server.get_packets_to_send(client_id).unwrap();
        for packet in packets.into_iter() {
            client.process_packet(&packet).unwrap();
        }

        while let Some(message) = client.receive_message(0) {
            let value = test_message_value(&message);
            assert_eq!(current_message_number, value);
            current_message_number += 1;
        }

        if current_message_number == number_messages {
            break;
        }
    }

    assert_eq!(number_messages, current_message_number);
}

#[test]
fn test_server_reliable_channel() {
    let mut server = RechannelServer::new(ConnectionConfig::default());
    let mut client = RemoteConnection::new(ConnectionConfig::default());
    let client_id = 0u64;
    server.add_client(client_id);

    let number_messages = 100;
    let mut current_message_number = 0;

    for i in 0..number_messages {
        let message = test_message(i);
        client.send_message(0, message);
    }

    loop {
        let packets = client.get_packets_to_send().unwrap();
        for packet in packets.into_iter() {
            server.process_packet_from(&packet, client_id).unwrap();
        }

        while let Some(message) = server.receive_message(client_id, 0) {
            let value = test_message_value(&message);
            assert_eq!(current_message_number, value);
            current_message_number += 1;
        }

        if current_message_number == number_messages {
            break;
        }
    }

    assert_eq!(number_messages, current_message_number);
}

#[test]
fn test_server_disconnect_client() {
    let mut server = RechannelServer::new(ConnectionConfig::default());
    let mut client = RemoteConnection::new(ConnectionConfig::default());
    let client_id = 0u64;
    server.add_client(client_id);
    server.disconnect(client_id);

    let events: Vec<ServerEvent> = server.events();
    assert!(matches!(events[0], ServerEvent::ClientConnected { client_id: 0 }));
    assert!(matches!(
        events[1],
        ServerEvent::ClientDisconnected {
            client_id: 0,
            reason: DisconnectionReason::DisconnectedByServer
        }
    ));

    let packet = serialize_disconnect_packet(DisconnectionReason::DisconnectedByServer);
    client.process_packet(&packet).unwrap();

    let client_reason = client.disconnected().unwrap();
    assert_eq!(client_reason, DisconnectionReason::DisconnectedByServer);
}

#[test]
fn test_client_disconnect() {
    let mut server = RechannelServer::new(ConnectionConfig::default());
    let mut client = RemoteConnection::new(ConnectionConfig::default());
    let client_id = 0u64;
    server.add_client(client_id);

    client.disconnect();
    let reason = client.disconnected().unwrap();
    assert_eq!(reason, DisconnectionReason::DisconnectedByClient);

    let packet = serialize_disconnect_packet(reason);
    server.process_packet_from(&packet, client_id).unwrap();
    server.update(0);

    let events: Vec<ServerEvent> = server.events();
    assert!(matches!(
        events[0],
        ServerEvent::ClientDisconnected {
            client_id: 0,
            reason: DisconnectionReason::DisconnectedByClient
        }
    ));
}

#[test]
fn test_usage() {
    let mut rng = rand::thread_rng();
    let mut server = RechannelServer::new(ConnectionConfig::default());

    let mut clients_status: HashMap<u64, ClientStatus> = HashMap::new();
    let mut sent_messages = 0;

    for i in 0..8u64 {
        let connection = RemoteConnection::new(ConnectionConfig::default());
        let status = ClientStatus {
            connection,
            received_messages: 0,
        };
        clients_status.insert(i, status);
        server.add_client(i);
    }

    loop {
        for (connection_id, status) in clients_status.iter_mut() {
            status.connection.update(100 * MILLIS).unwrap();
            if status.connection.receive_message(0).is_some() {
                status.received_messages += 1;
                if status.received_messages > 32 {
                    panic!("Received more than 32 messages!");
                }
            }
            if status.received_messages == 32 {
                status.connection.disconnect();
                let reason = status.connection.disconnected().unwrap();
                let packet = serialize_disconnect_packet(reason);
                server.process_packet_from(&packet, *connection_id).unwrap();
                continue;
            }

            let client_packets = status.connection.get_packets_to_send().unwrap();
            let server_packets = server.get_packets_to_send(*connection_id).unwrap();

            for packet in client_packets.iter() {
                // 10% packet loss emulation
                if rng.gen::<f64>() < 0.9 {
                    server.process_packet_from(packet, *connection_id).unwrap();
                }
            }

            for packet in server_packets.iter() {
                // 10% packet loss emulation
                if rng.gen::<f64>() < 0.9 {
                    status.connection.process_packet(packet).unwrap();
                }
            }
        }

        server.update(100 * MILLIS);
        clients_status.retain(|_, c| c.connection.is_connected());

        if sent_messages < 32 {
            let message = test_usage_message();
            server.broadcast_message(0, message);
            sent_messages += 1
        }

        if !server.has_clients() {
            return;
        }
    }
}

/// A source of coin flips that gives the same flips in every run.
struct Flips(u64);

impl Flips {
    fn next(&mut self) -> u64 {
        self.0 = self.0.wrapping_mul(6364136223846793005).wrapping_add(1442695040888963407);
        self.0 >> 33
    }

    /// True in `percent` of a hundred calls.
    fn chance(&mut self, percent: u64) -> bool {
        self.next() % 100 < percent
    }
}

#[test]
fn reliable_channel_delivers_everything_in_order_through_heavy_loss() {
    let mut flips = Flips(1);
    let mut server = RechannelServer::new(ConnectionConfig::default());
    let mut client = RemoteConnection::new(ConnectionConfig::default());
    server.add_client(0);
    for i in 0..100u64 {
        server.send_message(0, 0, test_message(i));
    }
    let mut next = 0u64;
    for _ in 0..2000 {
        server.update(100 * MILLIS);
        client.update(100 * MILLIS).unwrap();
        for packet in server.get_packets_to_send(0).unwrap() {
            if flips.chance(50) {
                client.process_packet(&packet).unwrap();
            }
        }
        for packet in client.get_packets_to_send().unwrap() {
            if flips.chance(50) {
                server.process_packet_from(&packet, 0).unwrap();
            }
        }
        while let Some(message) = client.receive_message(0) {
            assert_eq!(test_message_value(&message), next);
            next += 1;
        }
        if next == 100 {
            break;
        }
    }
    assert_eq!(next, 100);
    assert!(client.receive_message(0).is_none());
}

#[test]
fn block_channel_delivers_one_block_equal_to_what_was_sent() {
    let mut flips = Flips(7);
    let mut server = RechannelServer::new(ConnectionConfig::default());
    let mut client = RemoteConnection::new(ConnectionConfig::default());
    server.add_client(0);
    let block: Vec<u8> = (0..2500u32).map(|i| (i % 251) as u8).collect();
    server.send_message(0, 2, block.clone());
    let mut received: Vec<Vec<u8>> = Vec::new();
    for _ in 0..500 {
        server.update(100 * MILLIS);
        client.update(100 * MILLIS).unwrap();
        for packet in server.get_packets_to_send(0).unwrap() {
            if flips.chance(90) {
                client.process_packet(&packet).unwrap();
            }
        }
        for packet in client.get_packets_to_send().unwrap() {
            if flips.chance(90) {
                server.process_packet_from(&packet, 0).unwrap();
            }
        }
        while let Some(message) = client.receive_message(2) {
            received.push(message);
        }
    }
    assert_eq!(received.len(), 1);
    assert_eq!(received[0].len(), 2500);
    assert_eq!(received[0], block);
}

#[test]
fn unreliable_channel_hands_out_what_arrives() {
    let mut server = RechannelServer::new(ConnectionConfig::default());
    let mut client = RemoteConnection::new(ConnectionConfig::default());
    server.add_client(0);
    server.send_message(0, 1, vec![1, 2, 3]);
    server.send_message(0, 1, vec![4, 5]);
    let packets = server.get_packets_to_send(0).unwrap();
    assert_eq!(packets.len(), 1);
    client.process_packet(&packets[0]).unwrap();
    assert_eq!(client.receive_message(1), Some(vec![1, 2, 3]));
    assert_eq!(client.receive_message(1), Some(vec![4, 5]));
    assert_eq!(client.receive_message(1), None);
    // Nothing is kept for a second sending.
    server.update(400 * MILLIS);
    for packet in server.get_packets_to_send(0).unwrap() {
        client.process_packet(&packet).unwrap();
    }
    assert_eq!(client.receive_message(1), None);
}

#[test]
fn a_packet_that_arrives_twice_is_taken_once() {
    let mut sender = RemoteConnection::new(ConnectionConfig::default());
    let mut receiver = RemoteConnection::new(ConnectionConfig::default());
    sender.send_message(1, vec![9, 9, 9]);
    let packets = sender.get_packets_to_send().unwrap();
    assert_eq!(packets.len(), 1);
    receiver.process_packet(&packets[0]).unwrap();
    receiver.process_packet(&packets[0]).unwrap();
    assert_eq!(receiver.receive_message(1), Some(vec![9, 9, 9]));
    assert_eq!(receiver.receive_message(1), None);
}

#[test]
fn messages_are_sent_again_only_after_the_resend_time() {
    let mut sender = RemoteConnection::new(ConnectionConfig::default());
    sender.send_message(0, vec![1]);
    assert_eq!(sender.get_packets_to_send().unwrap().len(), 1);
    // 100 ms later: a heartbeat without frames, 11 bytes of header.
    sender.update(100 * MILLIS).unwrap();
    let packets = sender.get_packets_to_send().unwrap();
    assert_eq!(packets.len(), 1);
    assert_eq!(packets[0].len(), 11);
    // 300 ms after the first sending the message goes out again.
    sender.update(200 * MILLIS).unwrap();
    let packets = sender.get_packets_to_send().unwrap();
    assert_eq!(packets.len(), 1);
    assert_eq!(packets[0].len(), 11 + 14 + 1);
}

#[test]
fn an_acknowledged_message_is_not_sent_again() {
    let mut sender = RemoteConnection::new(ConnectionConfig::default());
    let mut receiver = RemoteConnection::new(ConnectionConfig::default());
    sender.send_message(0, vec![1]);
    for packet in sender.get_packets_to_send().unwrap() {
        receiver.process_packet(&packet).unwrap();
    }
    for packet in receiver.get_packets_to_send().unwrap() {
        sender.process_packet(&packet).unwrap();
    }
    sender.update(300 * MILLIS).unwrap();
    let packets = sender.get_packets_to_send().unwrap();
    assert_eq!(packets.len(), 1);
    assert_eq!(packets[0].len(), 11);
}

#[test]
fn a_connection_times_out_after_three_seconds_of_silence() {
    let mut connection = RemoteConnection::new(ConnectionConfig::default());
    assert!(connection.update(2_999 * MILLIS).is_ok());
    assert!(connection.is_connected());
    assert!(connection.update(MILLIS).is_err());
    assert_eq!(connection.disconnected(), Some(DisconnectionReason::Timeout));
    // The end is final.
    connection.disconnect();
    assert_eq!(connection.disconnected(), Some(DisconnectionReason::Timeout));
    assert!(connection.get_packets_to_send().is_err());
}

#[test]
fn a_large_packet_travels_in_fragments_of_bounded_size() {
    let mut sender = RemoteConnection::new(ConnectionConfig::default());
    let mut receiver = RemoteConnection::new(ConnectionConfig::default());
    let message: Vec<u8> = (0..2800u32).map(|i| (i % 7) as u8).collect();
    sender.send_message(0, message.clone());
    let packets = sender.get_packets_to_send().unwrap();
    // 11 + 14 + 2800 bytes in pieces of 1160.
    assert_eq!(packets.len(), 3);
    for packet in packets.iter() {
        assert!(packet.len() <= 1166);
    }
    // The pieces may come in any order.
    receiver.process_packet(&packets[2]).unwrap();
    receiver.process_packet(&packets[0]).unwrap();
    assert_eq!(receiver.receive_message(0), None);
    receiver.process_packet(&packets[1]).unwrap();
    assert_eq!(receiver.receive_message(0), Some(message));
}

#[test]
fn the_server_forgets_the_events_of_the_last_update() {
    let mut server = RechannelServer::new(ConnectionConfig::default());
    server.add_client(3);
    server.add_client(3);
    assert_eq!(server.events(), vec![ServerEvent::ClientConnected { client_id: 3 }]);
    assert_eq!(server.connections_id(), vec![3]);
    server.update(0);
    assert!(server.events().is_empty());
    assert!(server.is_connected(3));
    server.remove_connection(3);
    assert!(!server.has_clients());
}

#[test]
fn broadcast_reaches_every_client_but_the_excepted() {
    let mut server = RechannelServer::new(ConnectionConfig::default());
    for id in 0..3u64 {
        server.add_client(id);
    }
    server.broadcast_message_except(1, 1, vec![7]);
    for id in 0..3u64 {
        let mut client = RemoteConnection::new(ConnectionConfig::default());
        for packet in server.get_packets_to_send(id).unwrap() {
            client.process_packet(&packet).unwrap();
        }
        let expected = if id == 1 { None } else { Some(vec![7]) };
        assert_eq!(client.receive_message(1), expected);
    }
}

#[test]
fn the_measurements_stay_in_their_range_under_loss() {
    let mut flips = Flips(3);
    let mut a = RemoteConnection::new(ConnectionConfig::default());
    let mut b = RemoteConnection::new(ConnectionConfig::default());
    let mut lossy = false;
    for _ in 0..400u64 {
        a.send_message(1, vec![0; 100]);
        a.update(10 * MILLIS).unwrap();
        b.update(10 * MILLIS).unwrap();
        for packet in a.get_packets_to_send().unwrap() {
            if flips.chance(70) {
                b.process_packet(&packet).unwrap();
            }
        }
        for packet in b.get_packets_to_send().unwrap() {
            a.process_packet(&packet).unwrap();
        }
        let info = a.network_info();
        assert!(info.packet_loss <= 1_000_000);
        lossy = lossy || info.packet_loss > 0;
    }
    assert!(lossy);
    // Sixty samples of 125 bytes over 590 ms are 101694 thousandths of a
    // kilobit per second; the estimate comes down to less than ten above.
    let kbps = a.network_info().sent_kbps;
    assert!(101_694 <= kbps && kbps < 101_704);
    // With nothing lost any more the estimate of the loss sinks again.
    let before = a.network_info().packet_loss;
    for _ in 0..400 {
        a.send_message(1, vec![0; 100]);
        a.update(10 * MILLIS).unwrap();
        b.update(10 * MILLIS).unwrap();
        for packet in a.get_packets_to_send().unwrap() {
            b.process_packet(&packet).unwrap();
        }
        for packet in b.get_packets_to_send().unwrap() {
            a.process_packet(&packet).unwrap();
        }
    }
    assert!(a.network_info().packet_loss < before);
}
