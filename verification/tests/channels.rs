use renet::acks::{ReceivedPackets, SentPackets};
use renet::block::{BlockChannel, BlockChannelConfig};
use renet::channel::{ChannelConfig, FrameKey};
use renet::channel_server::RechannelServer;
use renet::error::{ChannelError, DisconnectionReason, RechannelError};
use renet::fragment::{split, Reassembly};
use renet::packet::{serialize_disconnect_packet, Frame, FrameKind, Packet};
use renet::reliable::{ReliableChannel, ReliableChannelConfig};
use renet::remote_connection::{ConnectionConfig, RemoteConnection};
use renet::sequence::{sequence_after, sequence_before, sequence_newer, sequence_offset};
use renet::unreliable::{UnreliableChannel, UnreliableChannelConfig};

const MILLIS: u64 = 1_000_000;

fn reliable_frame(id: u16, payload: Vec<u8>) -> Frame {
    Frame { channel_id: 5, kind: FrameKind::Reliable, id, slice_index: 0, slice_count: 0, payload }
}

#[test]
fn a_packet_of_frames_has_these_bytes() {
    let packet = Packet::Normal {
        sequence: 0x0102,
        ack: Some(0x0304),
        ack_bits: 0x0A0B0C0D,
        frames: vec![reliable_frame(0x0607, vec![9, 8])],
    };
    let bytes = packet.encode();
    assert_eq!(
        bytes,
        vec![
            0, 0x02, 0x01, 0x04, 0x03, 0, 0, 0x0D, 0x0C, 0x0B, 0x0A, // header
            5, 0, 0x07, 0x06, 0, 0, 0, 0, 0, 0, 0, 0, 2, 0, 9, 8, // frame
        ]
    );
    match Packet::decode(&bytes) {
        Some(Packet::Normal { sequence, ack, ack_bits, frames }) => {
            assert_eq!(sequence, 0x0102);
            assert_eq!(ack, Some(0x0304));
            assert_eq!(ack_bits, 0x0A0B0C0D);
            assert_eq!(frames.len(), 1);
            assert_eq!(frames[0].channel_id, 5);
            assert_eq!(frames[0].kind, FrameKind::Reliable);
            assert_eq!(frames[0].id, 0x0607);
            assert_eq!(frames[0].payload, vec![9, 8]);
        }
        _ => panic!("expected a packet of frames"),
    }
}

#[test]
fn a_packet_without_acknowledgement_says_so_with_all_ones() {
    let packet = Packet::Normal { sequence: 1, ack: None, ack_bits: 0, frames: Vec::new() };
    let bytes = packet.encode();
    assert_eq!(bytes, vec![0, 1, 0, 0xFF, 0xFF, 0xFF, 0xFF, 0, 0, 0, 0]);
    assert!(matches!(Packet::decode(&bytes), Some(Packet::Normal { ack: None, .. })));
}

#[test]
fn a_fragment_and_a_goodbye_have_these_bytes() {
    let fragment =
        Packet::Fragment { sequence: 0x0102, fragment_id: 3, fragment_count: 256, payload: vec![7, 7] };
    let bytes = fragment.encode();
    assert_eq!(bytes, vec![1, 0x02, 0x01, 3, 0, 1, 7, 7]);
    assert!(matches!(
        Packet::decode(&bytes),
        Some(Packet::Fragment { sequence: 0x0102, fragment_id: 3, fragment_count: 256, .. })
    ));
    assert_eq!(serialize_disconnect_packet(DisconnectionReason::DisconnectedByClient), vec![2, 0, 0]);
    assert_eq!(serialize_disconnect_packet(DisconnectionReason::DisconnectedByServer), vec![2, 1, 0]);
    assert_eq!(serialize_disconnect_packet(DisconnectionReason::Timeout), vec![2, 2, 0]);
    let reason =
        DisconnectionReason::Channel { channel_id: 3, error: ChannelError::OversizedMessage };
    let bytes = serialize_disconnect_packet(reason);
    assert_eq!(bytes, vec![2, 8, 3]);
    assert!(matches!(Packet::decode(&bytes), Some(Packet::Disconnect { reason: r }) if r == reason));
}

#[test]
fn malformed_bytes_are_no_packet() {
    assert!(Packet::decode(&[]).is_none());
    assert!(Packet::decode(&[9]).is_none());
    // A header that is cut short.
    assert!(Packet::decode(&[0, 1, 0, 0, 0, 0, 0, 0, 0, 0]).is_none());
    // An acknowledgement that is no sequence.
    assert!(Packet::decode(&[0, 1, 0, 0, 0, 1, 0, 0, 0, 0, 0]).is_none());
    // A frame that is cut short, one of an unknown kind, one whose payload is missing.
    assert!(Packet::decode(&[0, 1, 0, 0, 0, 0, 0, 0, 0, 0, 0, 5]).is_none());
    assert!(Packet::decode(&[0, 1, 0, 0, 0, 0, 0, 0, 0, 0, 0, 5, 3, 0, 0, 0, 0, 0, 0, 0, 0, 0, 0, 0, 0])
        .is_none());
    assert!(Packet::decode(&[0, 1, 0, 0, 0, 0, 0, 0, 0, 0, 0, 5, 0, 0, 0, 0, 0, 0, 0, 0, 0, 0, 0, 1, 0])
        .is_none());
    // Fragments: too short, the piece at or after the count, more than 256 pieces.
    assert!(Packet::decode(&[1, 0, 0, 0, 1]).is_none());
    assert!(Packet::decode(&[1, 0, 0, 2, 2, 0]).is_none());
    assert!(Packet::decode(&[1, 0, 0, 0, 1, 1]).is_none());
    assert!(Packet::decode(&[1, 0, 0, 0, 1, 0]).is_some());
    // Goodbyes: an unknown reason, a stray byte, a channel where none belongs.
    assert!(Packet::decode(&[2, 9, 0]).is_none());
    assert!(Packet::decode(&[2, 0, 0, 0]).is_none());
    assert!(Packet::decode(&[2, 0, 1]).is_none());
}

#[test]
fn sequence_numbers_wrap_around() {
    assert_eq!(sequence_offset(65535, 2), 3);
    assert_eq!(sequence_offset(2, 65535), 65533);
    assert_eq!(sequence_after(65535), 0);
    assert_eq!(sequence_before(1, 3), 65534);
    assert!(sequence_newer(0, 65535));
    assert!(!sequence_newer(65535, 0));
    assert!(!sequence_newer(7, 7));
    // Half the span ahead is no longer newer.
    assert!(sequence_newer(32767, 0));
    assert!(!sequence_newer(32768, 0));
}

#[test]
fn the_reliable_channel_refuses_a_message_that_is_too_large() {
    let mut channel = ReliableChannel::new(ReliableChannelConfig::new(0));
    assert_eq!(channel.send_message(vec![0; 3000]), Ok(()));
    assert_eq!(channel.send_message(vec![0; 3001]), Err(ChannelError::OversizedMessage));
    assert_eq!(channel.error(), Some(ChannelError::OversizedMessage));
    // A failed channel stays failed.
    assert_eq!(channel.send_message(vec![0; 1]), Err(ChannelError::OversizedMessage));
    assert!(!channel.can_send_message());
}

#[test]
fn the_reliable_channel_fails_when_its_send_queue_is_full() {
    let mut channel = ReliableChannel::new(ReliableChannelConfig::new(0));
    for _ in 0..1024 {
        assert!(channel.can_send_message());
        assert_eq!(channel.send_message(vec![1]), Ok(()));
    }
    assert!(!channel.can_send_message());
    assert_eq!(channel.send_message(vec![1]), Err(ChannelError::SendQueueFull));
    assert_eq!(channel.error(), Some(ChannelError::SendQueueFull));
}

#[test]
fn the_reliable_channel_fails_for_a_message_beyond_its_window() {
    let mut channel = ReliableChannel::new(ReliableChannelConfig::new(0));
    assert_eq!(channel.process_message(1023, vec![1]), Ok(()));
    assert_eq!(channel.process_message(1024, vec![1]), Err(ChannelError::ReceiveQueueFull));
    assert_eq!(channel.error(), Some(ChannelError::ReceiveQueueFull));
}

#[test]
fn the_reliable_channel_hands_out_in_order_and_once() {
    let mut channel = ReliableChannel::new(ReliableChannelConfig::new(0));
    assert_eq!(channel.process_message(1, vec![11]), Ok(()));
    assert_eq!(channel.receive_message(), None);
    assert_eq!(channel.process_message(0, vec![10]), Ok(()));
    // A second copy, with other bytes, changes nothing.
    assert_eq!(channel.process_message(1, vec![99]), Ok(()));
    assert_eq!(channel.receive_message(), Some(vec![10]));
    // A copy of what was handed out is dropped.
    assert_eq!(channel.process_message(0, vec![10]), Ok(()));
    assert_eq!(channel.receive_message(), Some(vec![11]));
    assert_eq!(channel.receive_message(), None);
}

#[test]
fn the_reliable_channel_keeps_its_order_when_the_numbers_wrap() {
    let mut sender = ReliableChannel::new(ReliableChannelConfig::new(0));
    let mut receiver = ReliableChannel::new(ReliableChannelConfig::new(0));
    for i in 0..70_000u32 {
        assert_eq!(sender.send_message(i.to_le_bytes().to_vec()), Ok(()));
        let frames = sender.get_frames_to_send(0, 6000);
        assert_eq!(frames.len(), 1);
        for frame in frames {
            assert_eq!(frame.id, (i % 65536) as u16);
            sender.process_ack(frame.id);
            assert_eq!(receiver.process_message(frame.id, frame.payload), Ok(()));
        }
        assert_eq!(receiver.receive_message(), Some(i.to_le_bytes().to_vec()));
    }
}

#[test]
fn the_reliable_channel_packs_what_fits_and_waits_to_send_again() {
    let mut channel = ReliableChannel::new(ReliableChannelConfig::new(0));
    channel.send_message(vec![0; 100]).unwrap();
    channel.send_message(vec![0; 200]).unwrap();
    channel.send_message(vec![0; 50]).unwrap();
    // 114 + 64 fit in 200 bytes; the message of 200 bytes waits.
    let frames = channel.get_frames_to_send(1000, 200);
    assert_eq!(frames.iter().map(|f| f.id).collect::<Vec<u16>>(), vec![0, 2]);
    let frames = channel.get_frames_to_send(1000, 6000);
    assert_eq!(frames.iter().map(|f| f.id).collect::<Vec<u16>>(), vec![1]);
    // Just before the resend time nothing is due, at the resend time all is.
    assert!(channel.get_frames_to_send(1000 + 300 * MILLIS - 1, 6000).is_empty());
    let frames = channel.get_frames_to_send(1000 + 300 * MILLIS, 7000);
    assert_eq!(frames.iter().map(|f| f.id).collect::<Vec<u16>>(), vec![0, 1, 2]);
    // The budget of the channel is 6000 bytes whatever the packet has left.
    channel.process_ack(1);
    let frames = channel.get_frames_to_send(1000 + 600 * MILLIS, 6000);
    assert_eq!(frames.iter().map(|f| f.id).collect::<Vec<u16>>(), vec![0, 2]);
}

#[test]
fn the_unreliable_channel_drops_what_it_cannot_take() {
    let mut channel = UnreliableChannel::new(UnreliableChannelConfig::new(1));
    assert!(!channel.send_message(vec![0; 3001]));
    for _ in 0..256 {
        assert!(channel.send_message(vec![0; 10]));
    }
    assert!(!channel.can_send_message());
    assert!(!channel.send_message(vec![0; 10]));
    // 6000 bytes of budget: 250 frames of 24 bytes; the others are gone too.
    assert_eq!(channel.get_frames_to_send(7000).len(), 250);
    assert!(channel.get_frames_to_send(7000).is_empty());
    // On the receiving side the queue holds 256 messages.
    for i in 0..300u32 {
        channel.process_message(i.to_le_bytes().to_vec());
    }
    for i in 0..256u32 {
        assert_eq!(channel.receive_message(), Some(i.to_le_bytes().to_vec()));
    }
    assert_eq!(channel.receive_message(), None);
}

#[test]
fn the_block_channel_sends_one_block_at_a_time() {
    let mut sender = BlockChannel::new(BlockChannelConfig::new(2));
    let mut receiver = BlockChannel::new(BlockChannelConfig::new(2));
    let first: Vec<u8> = (0..2500u32).map(|i| i as u8).collect();
    sender.send_message(first.clone()).unwrap();
    sender.send_message(Vec::new()).unwrap();
    let frames = sender.get_frames_to_send(0, 4000);
    // Slices of 1135 bytes: 1135 + 1135 + 230.
    assert_eq!(frames.len(), 3);
    assert_eq!(frames.iter().map(|f| f.payload.len()).collect::<Vec<usize>>(), vec![1135, 1135, 230]);
    assert!(frames.iter().all(|f| f.id == 0 && f.slice_count == 3 && f.kind == FrameKind::Slice));
    for frame in frames.into_iter().rev() {
        assert_eq!(receiver.receive_message(), None);
        sender.process_ack(frame.id, frame.slice_index);
        receiver.process_slice(frame.id, frame.slice_count, frame.slice_index, frame.payload).unwrap();
    }
    assert_eq!(receiver.receive_message(), Some(first));
    // The empty block follows as the block 1, in one empty slice.
    let frames = sender.get_frames_to_send(0, 4000);
    assert_eq!(frames.len(), 1);
    assert_eq!((frames[0].id, frames[0].slice_count, frames[0].payload.len()), (1, 1, 0));
    for frame in frames {
        receiver.process_slice(frame.id, frame.slice_count, frame.slice_index, frame.payload).unwrap();
    }
    assert_eq!(receiver.receive_message(), Some(Vec::new()));
    assert_eq!(receiver.receive_message(), None);
}

#[test]
fn the_block_channel_fails_for_slices_that_cannot_be() {
    let mut channel = BlockChannel::new(BlockChannelConfig::new(2));
    // A slice of another block is dropped.
    assert_eq!(channel.process_slice(7, 2, 0, vec![1]), Ok(()));
    assert_eq!(channel.process_slice(0, 2, 0, vec![1]), Ok(()));
    assert_eq!(channel.process_slice(0, 3, 1, vec![1]), Err(ChannelError::BlockInProgress));
    assert_eq!(channel.error(), Some(ChannelError::BlockInProgress));

    let mut channel = BlockChannel::new(BlockChannelConfig::new(2));
    assert_eq!(channel.process_slice(0, 2, 2, vec![1]), Err(ChannelError::FragmentOverflow));
    let mut channel = BlockChannel::new(BlockChannelConfig::new(2));
    assert_eq!(channel.process_slice(0, 0, 0, vec![1]), Err(ChannelError::FragmentOverflow));
    let mut channel = BlockChannel::new(BlockChannelConfig::new(2));
    assert_eq!(channel.process_slice(0, 1, 0, vec![0; 1136]), Err(ChannelError::FragmentOverflow));
    // 256 KiB in slices of 1135 bytes are 231 slices.
    let mut channel = BlockChannel::new(BlockChannelConfig::new(2));
    assert_eq!(channel.process_slice(0, 231, 0, vec![1]), Ok(()));
    let mut channel = BlockChannel::new(BlockChannelConfig::new(2));
    assert_eq!(channel.process_slice(0, 232, 0, vec![1]), Err(ChannelError::FragmentOverflow));
}

#[test]
fn the_block_channel_fails_when_a_queue_is_full() {
    let mut channel = BlockChannel::new(BlockChannelConfig::new(2));
    assert_eq!(channel.send_message(vec![0; 262145]), Err(ChannelError::OversizedMessage));
    let mut channel = BlockChannel::new(BlockChannelConfig::new(2));
    for _ in 0..8 {
        assert_eq!(channel.send_message(vec![1]), Ok(()));
    }
    assert_eq!(channel.send_message(vec![1]), Err(ChannelError::SendQueueFull));

    let mut channel = BlockChannel::new(BlockChannelConfig::new(2));
    for block in 0..8u16 {
        assert_eq!(channel.process_slice(block, 1, 0, vec![1]), Ok(()));
    }
    assert_eq!(channel.process_slice(8, 1, 0, vec![1]), Err(ChannelError::ReceiveQueueFull));
}

#[test]
fn a_message_for_a_channel_that_is_not_there_ends_the_connection() {
    let mut connection = RemoteConnection::new(ConnectionConfig::default());
    assert!(connection.can_send_message(0));
    assert!(!connection.can_send_message(9));
    connection.send_message(9, vec![1]);
    let reason = DisconnectionReason::Channel { channel_id: 9, error: ChannelError::UnknownChannel };
    assert_eq!(connection.disconnected(), Some(reason));
    assert_eq!(connection.process_packet(&[2, 0, 0]), Err(RechannelError::ClientDisconnected(reason)));
    assert_eq!(connection.update(0), Err(RechannelError::ClientDisconnected(reason)));
    assert!(!connection.can_send_message(0));
}

#[test]
fn a_frame_for_a_channel_of_another_kind_ends_the_connection() {
    let mut connection = RemoteConnection::new(ConnectionConfig::default());
    // A frame of the reliable kind for the channel 1, which is unreliable.
    let packet = Packet::Normal {
        sequence: 0,
        ack: None,
        ack_bits: 0,
        frames: vec![Frame {
            channel_id: 1,
            kind: FrameKind::Reliable,
            id: 0,
            slice_index: 0,
            slice_count: 0,
            payload: vec![1],
        }],
    };
    let reason = DisconnectionReason::Channel { channel_id: 1, error: ChannelError::UnknownChannel };
    assert_eq!(
        connection.process_packet(&packet.encode()),
        Err(RechannelError::ClientDisconnected(reason))
    );
    assert_eq!(connection.disconnected(), Some(reason));
}

#[test]
fn bytes_that_are_no_packet_are_refused_and_change_nothing() {
    let mut connection = RemoteConnection::new(ConnectionConfig::default());
    assert_eq!(connection.process_packet(&[9, 9, 9]), Err(RechannelError::InvalidPacket));
    assert!(connection.is_connected());
    let mut server = RechannelServer::new(ConnectionConfig::default());
    assert_eq!(server.process_packet_from(&[2, 0, 0], 3), Err(RechannelError::ClientNotFound));
    assert!(matches!(server.get_packets_to_send(3), Err(RechannelError::ClientNotFound)));
    assert_eq!(server.receive_message(3, 0), None);
    assert!(server.network_info(3).is_none());
}

#[test]
fn the_acknowledgement_names_the_packets_that_arrived() {
    let mut received = ReceivedPackets::new(256);
    assert_eq!(received.newest(), None);
    assert_eq!(received.ack_bits(), 0);
    received.mark(10);
    received.mark(9);
    received.mark(7);
    assert_eq!(received.newest(), Some(10));
    // Bit 0 stands for the packet 9, bit 2 for the packet 7.
    assert_eq!(received.ack_bits(), 0b101);
    assert!(received.holds(7));
    assert!(!received.holds(8));
    // Around the wrap of the numbers.
    let mut received = ReceivedPackets::new(256);
    received.mark(65535);
    received.mark(1);
    assert_eq!(received.newest(), Some(1));
    assert_eq!(received.ack_bits(), 0b10);
}

#[test]
fn the_loss_is_the_fraction_of_old_unconfirmed_packets() {
    let mut sent = SentPackets::new(256);
    let key = FrameKey { channel_id: 0, kind: FrameKind::Reliable, id: 0, slice_index: 0 };
    assert_eq!(sent.loss(0), 0);
    for sequence in 0..100u16 {
        sent.record(sequence, sequence as u64, vec![key]);
    }
    // Every second packet is confirmed, each only once.
    for sequence in (0..100u16).step_by(2) {
        assert_eq!(sent.confirm(sequence).map(|found| (found.0, found.1.len())), Some((sequence as u64, 1)));
        assert!(sent.confirm(sequence).is_none());
    }
    assert!(sent.confirm(200).is_none());
    // With 99 the newest confirmed, the packets up to 66 are out of reach of
    // any acknowledgement: 33 of them are unconfirmed, of 100 remembered.
    assert_eq!(sent.loss(99), 330_000);
}

#[test]
fn the_round_trip_time_is_measured_from_acknowledgements() {
    let mut a = RemoteConnection::new(ConnectionConfig::default());
    let mut b = RemoteConnection::new(ConnectionConfig::default());
    a.send_message(0, vec![1]);
    let packets = a.get_packets_to_send().unwrap();
    a.update(50 * MILLIS).unwrap();
    b.update(50 * MILLIS).unwrap();
    for packet in packets {
        b.process_packet(&packet).unwrap();
    }
    for packet in b.get_packets_to_send().unwrap() {
        a.process_packet(&packet).unwrap();
    }
    let info = a.network_info();
    // The first sample is taken as it is.
    assert_eq!(info.rtt, 50 * MILLIS);
    assert_eq!(info.packet_loss, 0);
    // A second sample of 150 ms moves the estimate by a tenth of the way.
    a.send_message(0, vec![2]);
    let packets = a.get_packets_to_send().unwrap();
    a.update(150 * MILLIS).unwrap();
    b.update(150 * MILLIS).unwrap();
    for packet in packets {
        b.process_packet(&packet).unwrap();
    }
    for packet in b.get_packets_to_send().unwrap() {
        a.process_packet(&packet).unwrap();
    }
    assert_eq!(a.network_info().rtt, 60 * MILLIS);
}

#[test]
fn a_packet_is_cut_into_pieces_that_say_where_they_belong() {
    let bytes: Vec<u8> = (0..2500u32).map(|i| i as u8).collect();
    let pieces = split(&bytes, 0x0102, 1000);
    assert_eq!(pieces.len(), 3);
    assert_eq!(pieces[0].len(), 6 + 1000);
    assert_eq!(pieces[2].len(), 6 + 500);
    assert_eq!(&pieces[2][..6], &[1, 0x02, 0x01, 2, 3, 0]);
    assert_eq!(&pieces[2][6..], &bytes[2000..]);
    // Nothing is one empty piece.
    let pieces = split(&Vec::new(), 0, 1000);
    assert_eq!(pieces, vec![vec![1, 0, 0, 0, 1, 0]]);
}

#[test]
fn the_least_recently_touched_packet_gives_way() {
    let mut buffer = Reassembly::new(2);
    assert_eq!(buffer.accept(1, 0, 2, vec![1]), None);
    assert_eq!(buffer.accept(2, 0, 2, vec![2]), None);
    // The packet 1 is touched again, so the packet 2 is the one to go.
    assert_eq!(buffer.accept(1, 0, 2, vec![9]), None);
    assert_eq!(buffer.accept(3, 0, 2, vec![3]), None);
    assert_eq!(buffer.accept(1, 1, 2, vec![11]), Some(vec![1, 11]));
    // The packet 2 starts anew.
    assert_eq!(buffer.accept(2, 1, 2, vec![22]), None);
    assert_eq!(buffer.accept(3, 1, 2, vec![33]), Some(vec![3, 33]));
    // A piece that contradicts the pieces before it is dropped.
    assert_eq!(buffer.accept(2, 0, 3, vec![0]), None);
    assert_eq!(buffer.accept(2, 0, 2, vec![2]), Some(vec![2, 22]));
    // A packet of one piece is whole at once.
    assert_eq!(buffer.accept(4, 0, 1, vec![4]), Some(vec![4]));
}

#[test]
fn options_that_are_out_of_order_are_recognised() {
    assert!(ConnectionConfig::default().is_valid());
    let mut config = ConnectionConfig::default();
    config.fragment_size = 0;
    assert!(!config.is_valid());
    let mut config = ConnectionConfig::default();
    config.fragment_size = 10;
    assert!(!config.is_valid());
    let mut config = ConnectionConfig::default();
    config.measure_smoothing_factor = 1_000_001;
    assert!(!config.is_valid());
    let mut config = ConnectionConfig::default();
    config.channels_config.push(ChannelConfig::Reliable(ReliableChannelConfig::new(2)));
    assert!(!config.is_valid());
    let mut config = ConnectionConfig::default();
    config.channels_config.push(ChannelConfig::Reliable(ReliableChannelConfig::new(3)));
    assert!(config.is_valid());
    let mut reliable = ReliableChannelConfig::new(4);
    reliable.message_receive_queue_size = 40_000;
    config.channels_config.push(ChannelConfig::Reliable(reliable));
    assert!(!config.is_valid());
}
