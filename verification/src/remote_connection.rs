//! One endpoint of a connection: its channels, the bookkeeping of
//! acknowledgements, fragmentation, timers and measurements.
//!
//! Time enters only through [`RemoteConnection::update`]; datagrams come in
//! through [`RemoteConnection::process_packet`] and leave through
//! [`RemoteConnection::get_packets_to_send`].
use crate::acks::{bit_is_set, test_bit, ReceivedModel, ReceivedPackets, SentModel, SentPackets};
use crate::block::{count_slices, lemma_count_slices_monotonic, BlockChannelConfig};
use crate::channel::{Channel, ChannelConfig, ChannelModel};
use crate::channels::{
    acknowledge, acknowledged, channel_index, channel_views, channels_wf, deliver, delivered,
    find_channel, frame_keys, gather, gathered, keys_of,
};
use crate::error::{ChannelError, DisconnectionReason, RechannelError};
use crate::fragment::{fragment_of, split, Reassembly, ReassemblyModel};
use crate::network_info::{
    estimate, next_estimate, pushed, throughput, BandwidthInfo, NetworkInfo, PacketInfo,
    CIRCULAR_BUFFER_SIZE, UNIT,
};
use crate::packet::{
    frame_views, frames_size, frames_wf, lemma_frames_wire_len, packet_wire, parse_packet, Frame,
    FrameView, Packet, PacketView, FRAGMENT_HEADER_BYTES, MAX_FRAGMENTS, PACKET_HEADER_BYTES,
};
use crate::reliable::ReliableChannelConfig;
use crate::sequence::{seq_back, seq_newer, seq_plus, sequence_after, sequence_before, sequence_newer};
use crate::unreliable::{byte_views, UnreliableChannelConfig};
use vstd::prelude::*;

verus! {

/// The options of a connection that are plain numbers.
#[derive(Debug, Clone, Copy)]
pub struct ConnectionLimits {
    /// Most bytes of a packet before it is cut into fragments.
    pub max_packet_size: usize,
    /// Number of sent packets that are remembered.
    pub sent_packets_buffer_size: usize,
    /// Number of received packets that are remembered.
    pub received_packets_buffer_size: usize,
    /// Number of fragmented packets that are put together at a time.
    pub reassembly_buffer_size: usize,
    /// The smoothing factor of the measurements, in millionths.
    pub measure_smoothing_factor: u32,
    /// Nanoseconds after which a packet is sent though no channel has a frame.
    pub heartbeat_time: u64,
    /// Nanoseconds without a packet after which the connection ends.
    pub keep_alive_timeout: u64,
    /// Size above which a packet is cut into fragments.
    pub fragment_above: usize,
    /// Bytes of every fragment but the last of a packet.
    pub fragment_size: usize,
}

impl ConnectionLimits {
    pub open spec fn wf(&self) -> bool {
        &&& PACKET_HEADER_BYTES <= self.max_packet_size
        &&& 0 < self.fragment_size
        &&& self.fragment_size <= usize::MAX - FRAGMENT_HEADER_BYTES
        &&& count_slices(self.max_packet_size as int, self.fragment_size as int) <= MAX_FRAGMENTS
        &&& self.measure_smoothing_factor <= UNIT
    }

    /// Most bytes of a datagram that the connection hands to the transport.
    pub open spec fn datagram_limit(&self) -> int {
        if self.fragment_above >= FRAGMENT_HEADER_BYTES + self.fragment_size {
            self.fragment_above as int
        } else {
            FRAGMENT_HEADER_BYTES + self.fragment_size
        }
    }
}

/// The options of a connection. Both endpoints use the same.
#[derive(Debug)]
pub struct ConnectionConfig {
    pub max_packet_size: usize,
    pub sent_packets_buffer_size: usize,
    pub received_packets_buffer_size: usize,
    pub reassembly_buffer_size: usize,
    /// The smoothing factor of the measurements, in millionths.
    pub measure_smoothing_factor: u32,
    /// In nanoseconds.
    pub heartbeat_time: u64,
    /// In nanoseconds.
    pub keep_alive_timeout: u64,
    pub fragment_above: usize,
    pub fragment_size: usize,
    /// The channels, in the order of their ids.
    pub channels_config: Vec<ChannelConfig>,
}

impl ConnectionConfig {
    /// The options that are plain numbers.
    pub open spec fn spec_limits(&self) -> ConnectionLimits {
        ConnectionLimits {
            max_packet_size: self.max_packet_size,
            sent_packets_buffer_size: self.sent_packets_buffer_size,
            received_packets_buffer_size: self.received_packets_buffer_size,
            reassembly_buffer_size: self.reassembly_buffer_size,
            measure_smoothing_factor: self.measure_smoothing_factor,
            heartbeat_time: self.heartbeat_time,
            keep_alive_timeout: self.keep_alive_timeout,
            fragment_above: self.fragment_above,
            fragment_size: self.fragment_size,
        }
    }

    /// The limits are in order, every channel's options are, and the ids of
    /// the channels grow.
    pub open spec fn wf(&self) -> bool {
        &&& self.spec_limits().wf()
        &&& forall|i: int|
            0 <= i < self.channels_config@.len() ==> (#[trigger] self.channels_config@[i]).wf()
        &&& forall|i: int, j: int|
            0 <= i < j < self.channels_config@.len() ==> (#[trigger] self.channels_config@[i]).id()
                < (#[trigger] self.channels_config@[j]).id()
    }

    /// Whether the options are in order; see [`ConnectionConfig::wf`].
    pub fn is_valid(&self) -> (valid: bool)
        ensures
            valid == self.wf(),
    {
        if self.max_packet_size < PACKET_HEADER_BYTES || self.fragment_size == 0
            || self.fragment_size > usize::MAX - FRAGMENT_HEADER_BYTES
            || self.measure_smoothing_factor > 1_000_000 {
            return false;
        }
        if crate::block::slice_count(self.max_packet_size, self.fragment_size) > 256 {
            return false;
        }
        let n = self.channels_config.len();
        let mut i: usize = 0;
        while i < n
            invariant
                i <= n,
                n == self.channels_config@.len(),
                self.spec_limits().wf(),
                forall|j: int| 0 <= j < i ==> (#[trigger] self.channels_config@[j]).wf(),
                forall|j: int, k: int|
                    0 <= j < k < i ==> (#[trigger] self.channels_config@[j]).id() < (
                    #[trigger] self.channels_config@[k]).id(),
            decreases n - i,
        {
            let valid = match &self.channels_config[i] {
                ChannelConfig::Reliable(c) => 0 < c.message_send_queue_size
                    && c.message_send_queue_size <= 32768 && 0 < c.message_receive_queue_size
                    && c.message_receive_queue_size <= 32768 - c.message_send_queue_size
                    && c.max_message_size <= 65535,
                ChannelConfig::Unreliable(c) => c.max_message_size <= 65535,
                ChannelConfig::Block(c) => 0 < c.slice_size && c.slice_size <= 65535
                    && c.max_message_size <= 0xFFFF_FFFF,
            };
            if !valid {
                assert(!self.channels_config@[i as int].wf());
                return false;
            }
            if i > 0 && self.channels_config[i - 1].channel_id() >= self.channels_config[i].channel_id() {
                assert(!(self.channels_config@[i - 1].id() < self.channels_config@[i as int].id()));
                return false;
            }
            assert forall|j: int, k: int| 0 <= j < k < i + 1 implies (
            #[trigger] self.channels_config@[j]).id() < (#[trigger] self.channels_config@[k]).id() by {
                if k == i && j < i - 1 {
                    assert(self.channels_config@[j].id() < self.channels_config@[i - 1].id());
                }
            }
            i = i + 1;
        }
        true
    }

    /// The options that are plain numbers.
    #[verifier::when_used_as_spec(spec_limits)]
    pub fn limits(&self) -> (limits: ConnectionLimits)
        ensures
            limits == self.spec_limits(),
    {
        ConnectionLimits {
            max_packet_size: self.max_packet_size,
            sent_packets_buffer_size: self.sent_packets_buffer_size,
            received_packets_buffer_size: self.received_packets_buffer_size,
            reassembly_buffer_size: self.reassembly_buffer_size,
            measure_smoothing_factor: self.measure_smoothing_factor,
            heartbeat_time: self.heartbeat_time,
            keep_alive_timeout: self.keep_alive_timeout,
            fragment_above: self.fragment_above,
            fragment_size: self.fragment_size,
        }
    }
}

impl Default for ConnectionConfig {
    /// Packets of 16 KiB, rings of 256 entries, a smoothing factor of one
    /// tenth, a heartbeat every 100 ms, an end after 3 s of silence,
    /// fragments of 1160 bytes, and three channels: reliable (0), unreliable
    /// (1) and block (2).
    fn default() -> (config: Self)
        ensures
            config.wf(),
            config.spec_limits() == (ConnectionLimits {
                max_packet_size: 16384,
                sent_packets_buffer_size: 256,
                received_packets_buffer_size: 256,
                reassembly_buffer_size: 256,
                measure_smoothing_factor: 100_000,
                heartbeat_time: 100_000_000,
                keep_alive_timeout: 3_000_000_000,
                fragment_above: 1160,
                fragment_size: 1160,
            }),
            config.channels_config@ == seq![
                ChannelConfig::Reliable(ReliableChannelConfig::defaults(0)),
                ChannelConfig::Unreliable(UnreliableChannelConfig::defaults(1)),
                ChannelConfig::Block(BlockChannelConfig::defaults(2)),
            ],
    {
        let mut channels_config: Vec<ChannelConfig> = Vec::new();
        channels_config.push(ChannelConfig::Reliable(ReliableChannelConfig::new(0)));
        channels_config.push(ChannelConfig::Unreliable(UnreliableChannelConfig::new(1)));
        channels_config.push(ChannelConfig::Block(BlockChannelConfig::new(2)));
        let config = ConnectionConfig {
            max_packet_size: 16384,
            sent_packets_buffer_size: 256,
            received_packets_buffer_size: 256,
            reassembly_buffer_size: 256,
            measure_smoothing_factor: 100_000,
            heartbeat_time: 100_000_000,
            keep_alive_timeout: 3_000_000_000,
            fragment_above: 1160,
            fragment_size: 1160,
            channels_config,
        };
        assert(config.channels_config@ =~= seq![
            ChannelConfig::Reliable(ReliableChannelConfig::defaults(0)),
            ChannelConfig::Unreliable(UnreliableChannelConfig::defaults(1)),
            ChannelConfig::Block(BlockChannelConfig::defaults(2)),
        ]);
        config
    }
}

/// What a run of acknowledgements changes: the sent packets, the channels
/// and the round-trip time.
pub struct AckState {
    pub sent: SentModel,
    pub channels: Seq<ChannelModel>,
    pub rtt: u64,
}

/// The sequence that item `j` of an acknowledgement names, if it names one:
/// item 0 is `ack` itself, and item `j` is the packet `j` before it where bit
/// `j - 1` is set.
pub open spec fn ack_target(ack: u16, bits: u32, j: int) -> Option<u16> {
    if j == 0 {
        Some(ack)
    } else if bit_is_set(bits, (j - 1) as u32) {
        Some(seq_back(ack, j))
    } else {
        None
    }
}

/// Nanoseconds from `then` to `now`, zero if `then` is later.
pub open spec fn elapsed(now: u64, then: u64) -> u64 {
    if now >= then {
        (now - then) as u64
    } else {
        0
    }
}

/// The state after the packet `sequence` was confirmed at `now`: a packet
/// that is remembered and confirmed for the first time gives a sample of the
/// round-trip time, and its frames are acknowledged to their channels.
pub open spec fn confirm_one(s: AckState, sequence: u16, now: u64, factor: u32) -> AckState {
    if s.sent.pending(sequence) {
        let p = s.sent.slots[s.sent.place(sequence)].unwrap();
        AckState {
            sent: s.sent.confirmed(sequence),
            channels: acknowledged(s.channels, p.keys, p.keys.len() as int),
            rtt: next_estimate(s.rtt as int, elapsed(now, p.time) as int, factor as int) as u64,
        }
    } else {
        s
    }
}

/// The state after the first `n` items of the acknowledgement `ack`, `bits`.
pub open spec fn confirmed_all(s: AckState, ack: u16, bits: u32, now: u64, factor: u32, n: int) -> AckState
    decreases n,
{
    if n <= 0 {
        s
    } else {
        let before = confirmed_all(s, ack, bits, now, factor, n - 1);
        match ack_target(ack, bits, n - 1) {
            Some(sequence) => confirm_one(before, sequence, now, factor),
            None => before,
        }
    }
}

/// The newest of the confirmed sequences once `ack` was confirmed.
pub open spec fn newest_ack(latest: Option<u16>, ack: u16) -> Option<u16> {
    match latest {
        None => Some(ack),
        Some(l) => if seq_newer(ack, l) {
            Some(ack)
        } else {
            Some(l)
        },
    }
}

/// Applies the acknowledgement `ack`, `bits` that arrived at `now`.
fn confirm_all(
    sent: &mut SentPackets,
    channels: &mut Vec<Channel>,
    rtt: &mut u64,
    ack: u16,
    bits: u32,
    now: u64,
    factor: u32,
)
    requires
        channels_wf(channel_views(old(channels)@)),
        factor <= UNIT,
    ensures
        channels_wf(channel_views(final(channels)@)),
        final(channels)@.len() == old(channels)@.len(),
        (AckState {
            sent: final(sent)@,
            channels: channel_views(final(channels)@),
            rtt: *final(rtt),
        }) == confirmed_all(
            AckState { sent: old(sent)@, channels: channel_views(old(channels)@), rtt: *old(rtt) },
            ack,
            bits,
            now,
            factor,
            33,
        ),
{
    let ghost start = AckState { sent: sent@, channels: channel_views(channels@), rtt: *rtt };
    let mut j: u32 = 0;
    while j < 33
        invariant
            j <= 33,
            factor <= UNIT,
            channels_wf(channel_views(channels@)),
            channels@.len() == old(channels)@.len(),
            (AckState { sent: sent@, channels: channel_views(channels@), rtt: *rtt })
                == confirmed_all(start, ack, bits, now, factor, j as int),
        decreases 33 - j,
    {
        let target = if j == 0 {
            Some(ack)
        } else if test_bit(bits, j - 1) {
            Some(sequence_before(ack, j as u16))
        } else {
            None
        };
        assert(target == ack_target(ack, bits, j as int));
        if let Some(sequence) = target {
            let ghost before = AckState {
                sent: sent@,
                channels: channel_views(channels@),
                rtt: *rtt,
            };
            if let Some((time, keys)) = sent.confirm(sequence) {
                acknowledge(channels, &keys);
                let sample: u64 = if now >= time {
                    now - time
                } else {
                    0
                };
                let next = estimate(*rtt as u128, sample as u128, factor);
                assert(next <= u64::MAX) by {
                    crate::network_info::lemma_estimate_between(
                        *rtt as int,
                        sample as int,
                        factor as int,
                    );
                }
                *rtt = next as u64;
            }
            assert((AckState { sent: sent@, channels: channel_views(channels@), rtt: *rtt })
                == confirm_one(before, sequence, now, factor));
        }
        j = j + 1;
    }
}

/// A connection as a mathematical value.
pub struct ConnectionModel {
    pub limits: ConnectionLimits,
    pub channels: Seq<ChannelModel>,
    /// Why the connection ended, if it did.
    pub reason: Option<DisconnectionReason>,
    /// The time, in nanoseconds since the connection was made.
    pub now: u64,
    /// When the last packet arrived.
    pub last_received: u64,
    /// When the last packet left, if any did.
    pub last_sent: Option<u64>,
    /// The sequence of the next packet.
    pub sequence: u16,
    pub received: ReceivedModel,
    pub sent: SentModel,
    pub reassembly: ReassemblyModel,
    /// The newest sequence that the peer confirmed, if it confirmed any.
    pub latest_ack: Option<u16>,
    /// The smoothed round-trip time, in nanoseconds.
    pub rtt: u64,
    /// The smoothed fraction of lost packets, in millionths.
    pub packet_loss: u64,
    /// The samples of the datagrams that left, newest first.
    pub sent_samples: Seq<PacketInfo>,
    /// The samples of the datagrams that arrived, newest first.
    pub received_samples: Seq<PacketInfo>,
    /// The smoothed throughput of what left.
    pub sent_kbps: u128,
    /// The smoothed throughput of what arrived.
    pub received_kbps: u128,
}

impl ConnectionModel {
    pub open spec fn wf(self) -> bool {
        &&& self.limits.wf()
        &&& channels_wf(self.channels)
        &&& self.reassembly.wf()
        &&& self.packet_loss <= UNIT
    }

    /// A connection at time zero, with the channels `channels`.
    pub open spec fn fresh(limits: ConnectionLimits, channels: Seq<ChannelModel>) -> ConnectionModel {
        ConnectionModel {
            limits,
            channels,
            reason: None,
            now: 0,
            last_received: 0,
            last_sent: None,
            sequence: 0,
            received: ReceivedModel::fresh(limits.received_packets_buffer_size as nat),
            sent: SentModel::fresh(limits.sent_packets_buffer_size as nat),
            reassembly: ReassemblyModel::fresh(limits.reassembly_buffer_size),
            latest_ack: None,
            rtt: 0,
            packet_loss: 0,
            sent_samples: Seq::empty(),
            received_samples: Seq::empty(),
            sent_kbps: 0,
            received_kbps: 0,
        }
    }

    /// The measurements, as the application sees them.
    pub open spec fn info(self) -> NetworkInfo {
        NetworkInfo {
            rtt: self.rtt,
            sent_kbps: self.sent_kbps,
            received_kbps: self.received_kbps,
            packet_loss: self.packet_loss,
        }
    }

    /// The connection once it ended for `reason`, unless it had ended before.
    pub open spec fn ended(self, reason: DisconnectionReason) -> ConnectionModel {
        if self.reason is None {
            ConnectionModel { reason: Some(reason), ..self }
        } else {
            self
        }
    }

    /// The connection after `payload` was handed to the channel
    /// `channel_id`. If no channel has the id, or the channel fails, the
    /// connection ends. A connection that has ended takes nothing.
    pub open spec fn send(self, channel_id: u8, payload: Seq<u8>) -> ConnectionModel {
        let k = find_channel(self.channels, channel_id);
        if self.reason is Some {
            self
        } else if k < self.channels.len() {
            let channel = self.channels[k].send(payload);
            ConnectionModel {
                channels: self.channels.update(k, channel),
                reason: match channel.error() {
                    Some(error) => Some(DisconnectionReason::Channel { channel_id, error }),
                    None => None,
                },
                ..self
            }
        } else {
            ConnectionModel {
                reason: Some(
                    DisconnectionReason::Channel { channel_id, error: ChannelError::UnknownChannel },
                ),
                ..self
            }
        }
    }

    pub open spec fn can_send(self, channel_id: u8) -> bool {
        let k = find_channel(self.channels, channel_id);
        self.reason is None && k < self.channels.len() && self.channels[k].can_send()
    }

    /// The message that the channel `channel_id` hands out next, if the
    /// channel is there and has one.
    pub open spec fn next_message(self, channel_id: u8) -> Option<Seq<u8>> {
        let k = find_channel(self.channels, channel_id);
        if k < self.channels.len() {
            self.channels[k].next_message()
        } else {
            None
        }
    }

    pub open spec fn after_receive(self, channel_id: u8) -> ConnectionModel {
        let k = find_channel(self.channels, channel_id);
        if k < self.channels.len() {
            ConnectionModel {
                channels: self.channels.update(k, self.channels[k].after_receive()),
                ..self
            }
        } else {
            self
        }
    }

    /// The fraction of lost packets after one more measurement.
    pub open spec fn measured_loss(self) -> u64 {
        match self.latest_ack {
            Some(ack) => next_estimate(
                self.packet_loss as int,
                self.sent.loss(ack) as int,
                self.limits.measure_smoothing_factor as int,
            ) as u64,
            None => self.packet_loss,
        }
    }

    /// The connection `duration` nanoseconds later: it has ended if nothing
    /// arrived for `keep_alive_timeout`, and the loss and the throughput are
    /// measured anew.
    pub open spec fn advanced(self, duration: u64) -> ConnectionModel {
        let now = (self.now + duration) as u64;
        ConnectionModel {
            now,
            reason: if self.reason is None && self.last_received + self.limits.keep_alive_timeout
                <= now {
                Some(DisconnectionReason::Timeout)
            } else {
                self.reason
            },
            packet_loss: self.measured_loss(),
            sent_kbps: next_estimate(
                self.sent_kbps as int,
                throughput(self.sent_samples) as int,
                self.limits.measure_smoothing_factor as int,
            ) as u128,
            received_kbps: next_estimate(
                self.received_kbps as int,
                throughput(self.received_samples) as int,
                self.limits.measure_smoothing_factor as int,
            ) as u128,
            ..self
        }
    }
}

/// The measurements of a connection are in range at every time: the loss of
/// packets is a fraction, at most one, and stays one when time goes on. The
/// round-trip time and the loss are unsigned, so neither is ever negative.
pub proof fn lemma_measurements_in_range(connection: ConnectionModel, duration: u64)
    requires
        connection.wf(),
    ensures
        0 <= connection.info().rtt,
        0 <= connection.info().packet_loss <= UNIT,
        0 <= connection.advanced(duration).info().rtt,
        0 <= connection.advanced(duration).info().packet_loss <= UNIT,
{
    if let Some(ack) = connection.latest_ack {
        connection.sent.lemma_loss_is_fraction(ack);
        crate::network_info::lemma_estimate_between(
            connection.packet_loss as int,
            connection.sent.loss(ack) as int,
            connection.limits.measure_smoothing_factor as int,
        );
    }
}

/// What stands for a failure in a result.
pub open spec fn result_of(reason: Option<DisconnectionReason>) -> Result<(), RechannelError> {
    match reason {
        Some(r) => Err(RechannelError::ClientDisconnected(r)),
        None => Ok(()),
    }
}

/// One endpoint of a connection.
pub struct RemoteConnection {
    limits: ConnectionLimits,
    channels: Vec<Channel>,
    reason: Option<DisconnectionReason>,
    current_time: u64,
    last_received: u64,
    last_sent: Option<u64>,
    sequence: u16,
    received: ReceivedPackets,
    sent: SentPackets,
    reassembly: Reassembly,
    latest_ack: Option<u16>,
    rtt: u64,
    packet_loss: u64,
    bandwidth: BandwidthInfo,
}

impl View for RemoteConnection {
    type V = ConnectionModel;

    closed spec fn view(&self) -> ConnectionModel {
        ConnectionModel {
            limits: self.limits,
            channels: channel_views(self.channels@),
            reason: self.reason,
            now: self.current_time,
            last_received: self.last_received,
            last_sent: self.last_sent,
            sequence: self.sequence,
            received: self.received@,
            sent: self.sent@,
            reassembly: self.reassembly@,
            latest_ack: self.latest_ack,
            rtt: self.rtt,
            packet_loss: self.packet_loss,
            sent_samples: self.bandwidth.sent(),
            received_samples: self.bandwidth.received(),
            sent_kbps: self.bandwidth.sent_rate(),
            received_kbps: self.bandwidth.received_rate(),
        }
    }
}

/// The channels that `configs` asks for.
pub open spec fn fresh_channels(configs: Seq<ChannelConfig>) -> Seq<ChannelModel> {
    Seq::new(configs.len(), |i: int| ChannelModel::fresh(configs[i]))
}

impl RemoteConnection {
    /// The connection's invariant: see [`ConnectionModel::wf`]; the factor of
    /// the bandwidth measurement is that of the limits.
    pub closed spec fn wf(&self) -> bool {
        &&& self@.wf()
        &&& self.bandwidth.wf()
        &&& self.bandwidth.factor() == self.limits.measure_smoothing_factor
    }

    /// A connection at time zero.
    pub fn new(config: ConnectionConfig) -> (connection: Self)
        requires
            config.wf(),
        ensures
            connection.wf(),
            connection@ == ConnectionModel::fresh(
                config.spec_limits(),
                fresh_channels(config.channels_config@),
            ),
    {
        Self::from_config(&config)
    }

    /// A connection at time zero.
    pub fn from_config(config: &ConnectionConfig) -> (connection: Self)
        requires
            config.wf(),
        ensures
            connection.wf(),
            connection@ == ConnectionModel::fresh(
                config.spec_limits(),
                fresh_channels(config.channels_config@),
            ),
    {
        let limits = config.limits();
        let mut channels: Vec<Channel> = Vec::new();
        let mut i: usize = 0;
        while i < config.channels_config.len()
            invariant
                i <= config.channels_config@.len(),
                config.wf(),
                channels@.len() == i,
                forall|j: int|
                    0 <= j < i ==> (#[trigger] channels@[j])@ == ChannelModel::fresh(
                        config.channels_config@[j],
                    ) && channels@[j].wf(),
            decreases config.channels_config@.len() - i,
        {
            assert(config.channels_config@[i as int].wf());
            channels.push(Channel::new(config.channels_config[i]));
            i = i + 1;
        }
        let connection = RemoteConnection {
            limits,
            channels,
            reason: None,
            current_time: 0,
            last_received: 0,
            last_sent: None,
            sequence: 0,
            received: ReceivedPackets::new(limits.received_packets_buffer_size),
            sent: SentPackets::new(limits.sent_packets_buffer_size),
            reassembly: Reassembly::new(limits.reassembly_buffer_size),
            latest_ack: None,
            rtt: 0,
            packet_loss: 0,
            bandwidth: BandwidthInfo::new(limits.measure_smoothing_factor),
        };
        assert(connection@.channels =~= fresh_channels(config.channels_config@));
        connection
    }

    pub fn is_connected(&self) -> (connected: bool)
        ensures
            connected == (self@.reason is None),
    {
        self.reason.is_none()
    }

    /// Why the connection ended, if it did.
    pub fn disconnected(&self) -> (reason: Option<DisconnectionReason>)
        ensures
            reason == self@.reason,
    {
        self.reason
    }

    /// Ends the connection from this side.
    pub fn disconnect(&mut self)
        requires
            old(self).wf(),
        ensures
            final(self).wf(),
            final(self)@ == old(self)@.ended(DisconnectionReason::DisconnectedByClient),
    {
        self.disconnect_with_reason(DisconnectionReason::DisconnectedByClient);
    }

    /// Ends the connection for `reason`, unless it has ended.
    pub fn disconnect_with_reason(&mut self, reason: DisconnectionReason)
        requires
            old(self).wf(),
        ensures
            final(self).wf(),
            final(self)@ == old(self)@.ended(reason),
    {
        if self.reason.is_none() {
            self.reason = Some(reason);
        }
    }

    /// The measurements of the connection.
    pub fn network_info(&self) -> (info: NetworkInfo)
        requires
            self.wf(),
        ensures
            info == self@.info(),
            info.packet_loss <= UNIT,
    {
        NetworkInfo {
            rtt: self.rtt,
            sent_kbps: self.bandwidth.sent_kbps(),
            received_kbps: self.bandwidth.received_kbps(),
            packet_loss: self.packet_loss,
        }
    }

    pub fn can_send_message(&self, channel_id: u8) -> (can: bool)
        ensures
            can == self@.can_send(channel_id),
    {
        if self.reason.is_some() {
            return false;
        }
        let k = channel_index(&self.channels, channel_id);
        if k < self.channels.len() {
            assert(self@.channels[k as int] == self.channels@[k as int]@);
            self.channels[k].can_send_message()
        } else {
            false
        }
    }

    /// Hands `message` to the channel `channel_id`.
    pub fn send_message(&mut self, channel_id: u8, message: Vec<u8>)
        requires
            old(self).wf(),
        ensures
            final(self).wf(),
            final(self)@ == old(self)@.send(channel_id, message@),
    {
        if self.reason.is_some() {
            return ;
        }
        let ghost before = channel_views(self.channels@);
        let k = channel_index(&self.channels, channel_id);
        if k < self.channels.len() {
            assert(before[k as int].wf());
            assert(before[k as int] == self.channels@[k as int]@);
            let error = self.channels[k].send_message(message);
            assert(channel_views(self.channels@) =~= before.update(
                k as int,
                before[k as int].send(message@),
            ));
            assert forall|j: int| 0 <= j < self.channels@.len() implies (#[trigger] channel_views(
                self.channels@,
            )[j]).wf() by {
                if j != k {
                    assert(before[j].wf());
                }
            }
            if let Some(error) = error {
                self.reason = Some(DisconnectionReason::Channel { channel_id, error });
            }
        } else {
            self.reason = Some(
                DisconnectionReason::Channel { channel_id, error: ChannelError::UnknownChannel },
            );
        }
    }

    /// The next message of the channel `channel_id`, if one is there.
    pub fn receive_message(&mut self, channel_id: u8) -> (message: Option<Vec<u8>>)
        requires
            old(self).wf(),
        ensures
            final(self).wf(),
            final(self)@ == old(self)@.after_receive(channel_id),
            match message {
                Some(m) => old(self)@.next_message(channel_id) == Some(m@),
                None => old(self)@.next_message(channel_id) is None,
            },
    {
        let ghost before = channel_views(self.channels@);
        let k = channel_index(&self.channels, channel_id);
        if k < self.channels.len() {
            assert(before[k as int].wf());
            assert(before[k as int] == self.channels@[k as int]@);
            let message = self.channels[k].receive_message();
            assert(channel_views(self.channels@) =~= before.update(
                k as int,
                before[k as int].after_receive(),
            ));
            assert forall|j: int| 0 <= j < self.channels@.len() implies (#[trigger] channel_views(
                self.channels@,
            )[j]).wf() by {
                if j != k {
                    assert(before[j].wf());
                }
            }
            message
        } else {
            None
        }
    }

    /// Advances the time by `duration` nanoseconds, and says whether the
    /// connection still stands.
    pub fn update(&mut self, duration: u64) -> (result: Result<(), RechannelError>)
        requires
            old(self).wf(),
            old(self)@.now + duration <= u64::MAX,
        ensures
            final(self).wf(),
            final(self)@ == old(self)@.advanced(duration),
            result == result_of(final(self)@.reason),
    {
        let now = self.current_time + duration;
        self.current_time = now;
        if self.reason.is_none() && now >= self.last_received && now - self.last_received
            >= self.limits.keep_alive_timeout {
            self.reason = Some(DisconnectionReason::Timeout);
        }
        if let Some(ack) = self.latest_ack {
            let sample = self.sent.loss(ack);
            let next = estimate(
                self.packet_loss as u128,
                sample as u128,
                self.limits.measure_smoothing_factor,
            );
            proof {
                crate::network_info::lemma_estimate_between(
                    self.packet_loss as int,
                    sample as int,
                    self.limits.measure_smoothing_factor as int,
                );
            }
            self.packet_loss = next as u64;
        }
        self.bandwidth.update_metrics();
        match self.reason {
            Some(reason) => Err(RechannelError::ClientDisconnected(reason)),
            None => Ok(()),
        }
    }
}

/// The samples `samples` after the first `n` of `datagrams` left at `now`.
pub open spec fn sampled(samples: Seq<PacketInfo>, datagrams: Seq<Seq<u8>>, now: u64, n: int) -> Seq<
    PacketInfo,
>
    decreases n,
{
    if n <= 0 {
        samples
    } else {
        pushed(
            sampled(samples, datagrams, now, n - 1),
            PacketInfo { time: now, size: datagrams[n - 1].len() as usize },
            CIRCULAR_BUFFER_SIZE as nat,
        )
    }
}

/// Whether `bits` says of each of the 32 packets before the newest whether
/// it arrived.
pub open spec fn acknowledges_all(received: ReceivedModel, bits: u32) -> bool {
    forall|i: u32| i < 32 ==> bit_is_set(bits, i) == received.acknowledges(i)
}

impl ConnectionModel {
    /// The connection after a datagram of `size` bytes was counted.
    pub open spec fn heard(self, size: nat) -> ConnectionModel {
        ConnectionModel {
            received_samples: pushed(
                self.received_samples,
                PacketInfo { time: self.now, size: size as usize },
                CIRCULAR_BUFFER_SIZE as nat,
            ),
            ..self
        }
    }

    /// The acknowledgements of a packet, applied.
    pub open spec fn acked(self, ack: Option<u16>, ack_bits: u32) -> AckState {
        let start = AckState { sent: self.sent, channels: self.channels, rtt: self.rtt };
        match ack {
            Some(a) => confirmed_all(
                start,
                a,
                ack_bits,
                self.now,
                self.limits.measure_smoothing_factor,
                33,
            ),
            None => start,
        }
    }

    /// The connection after a packet of frames arrived. A packet that
    /// arrived before changes nothing but the time of the last arrival.
    /// Otherwise its acknowledgements are applied, then its frames are
    /// handed to their channels, and the connection ends if one is refused.
    pub open spec fn after_frames(
        self,
        sequence: u16,
        ack: Option<u16>,
        ack_bits: u32,
        frames: Seq<FrameView>,
    ) -> ConnectionModel {
        if self.received.holds(sequence) {
            ConnectionModel { last_received: self.now, ..self }
        } else {
            let acked = self.acked(ack, ack_bits);
            let d = delivered(acked.channels, frames, frames.len() as int);
            ConnectionModel {
                last_received: self.now,
                received: self.received.marked(sequence),
                sent: acked.sent,
                rtt: acked.rtt,
                latest_ack: match ack {
                    Some(a) => newest_ack(self.latest_ack, a),
                    None => self.latest_ack,
                },
                channels: d.channels,
                reason: d.failure,
                ..self
            }
        }
    }

    /// The connection after the piece of a packet arrived.
    pub open spec fn pieced(self, sequence: u16, id: u8, count: u16, payload: Seq<u8>) -> ConnectionModel {
        ConnectionModel {
            reassembly: self.reassembly.accept(sequence, id, count, payload),
            last_received: self.now,
            ..self
        }
    }

    /// Whether the datagram `bytes` is refused as malformed: it is no packet,
    /// or it completes a fragmented packet that is no packet of frames.
    pub open spec fn malformed(self, bytes: Seq<u8>) -> bool {
        match parse_packet(bytes) {
            None => true,
            Some(PacketView::Fragment { sequence, fragment_id, fragment_count, payload }) => {
                match self.reassembly.whole(sequence, fragment_id, fragment_count, payload) {
                    None => false,
                    Some(whole) => !(parse_packet(whole) matches Some(PacketView::Normal { .. })),
                }
            },
            _ => false,
        }
    }

    /// The connection after the datagram `bytes` arrived. A connection that
    /// has ended takes nothing.
    pub open spec fn after_packet(self, bytes: Seq<u8>) -> ConnectionModel {
        if self.reason is Some {
            self
        } else {
            let m = self.heard(bytes.len());
            match parse_packet(bytes) {
                None => m,
                Some(PacketView::Disconnect { reason }) => ConnectionModel {
                    reason: Some(reason),
                    last_received: m.now,
                    ..m
                },
                Some(PacketView::Normal { sequence, ack, ack_bits, frames }) => m.after_frames(
                    sequence,
                    ack,
                    ack_bits,
                    frames,
                ),
                Some(PacketView::Fragment { sequence, fragment_id, fragment_count, payload }) => {
                    let pieced = m.pieced(sequence, fragment_id, fragment_count, payload);
                    match m.reassembly.whole(sequence, fragment_id, fragment_count, payload) {
                        None => pieced,
                        Some(whole) => match parse_packet(whole) {
                            Some(PacketView::Normal { sequence, ack, ack_bits, frames }) => {
                                pieced.after_frames(sequence, ack, ack_bits, frames)
                            },
                            _ => pieced,
                        },
                    }
                },
            }
        }
    }

    /// What the arrival of the datagram `bytes` returns: the reason if the
    /// connection had ended, an error for a malformed datagram, success for
    /// the peer's goodbye, and otherwise whether the connection still stands.
    pub open spec fn packet_result(self, bytes: Seq<u8>) -> Result<(), RechannelError> {
        if self.reason is Some {
            result_of(self.reason)
        } else if self.malformed(bytes) {
            Err(RechannelError::InvalidPacket)
        } else if parse_packet(bytes) matches Some(PacketView::Disconnect { .. }) {
            Ok(())
        } else {
            result_of(self.after_packet(bytes).reason)
        }
    }

    /// Whether a packet goes out though no channel has a frame for it.
    pub open spec fn heartbeat_due(self) -> bool {
        match self.last_sent {
            None => true,
            Some(t) => t + self.limits.heartbeat_time <= self.now,
        }
    }

    /// Bytes of frames that fit in one packet.
    pub open spec fn room(self) -> usize {
        (self.limits.max_packet_size - PACKET_HEADER_BYTES) as usize
    }

    /// What the channels put in the next packet.
    pub open spec fn gathering(self) -> crate::channels::Gathering {
        gathered(self.channels, self.now, self.room(), self.channels.len() as int)
    }

    /// Whether a packet goes out now.
    pub open spec fn sends(self) -> bool {
        self.reason is None && (self.gathering().frames.len() > 0 || self.heartbeat_due())
    }

    /// The packet that goes out now, with `ack_bits` for its acknowledgement.
    pub open spec fn outgoing(self, ack_bits: u32) -> PacketView {
        PacketView::Normal {
            sequence: self.sequence,
            ack: self.received.newest,
            ack_bits,
            frames: self.gathering().frames,
        }
    }

    /// The datagrams that go out now: none, the packet, or its fragments if
    /// it is larger than `fragment_above`.
    pub open spec fn datagrams(self, ack_bits: u32) -> Seq<Seq<u8>> {
        let bytes = packet_wire(self.outgoing(ack_bits));
        if !self.sends() {
            Seq::empty()
        } else if bytes.len() > self.limits.fragment_above {
            Seq::new(
                count_slices(bytes.len() as int, self.limits.fragment_size as int) as nat,
                |i: int|
                    packet_wire(
                        fragment_of(bytes, self.sequence, self.limits.fragment_size as int, i),
                    ),
            )
        } else {
            seq![bytes]
        }
    }

    /// Whether the peer reads what goes out now as what it is: the packet,
    /// or each fragment as the piece of the packet's bytes that it carries.
    #[verifier::opaque]
    pub open spec fn read_back(self, ack_bits: u32) -> bool {
        let packet = self.outgoing(ack_bits);
        let bytes = packet_wire(packet);
        let datagrams = self.datagrams(ack_bits);
        &&& parse_packet(bytes) == Some(packet)
        &&& forall|i: int|
            0 <= i < datagrams.len() ==> parse_packet(#[trigger] datagrams[i]) == Some(
                if bytes.len() > self.limits.fragment_above {
                    fragment_of(bytes, self.sequence, self.limits.fragment_size as int, i)
                } else {
                    packet
                },
            )
    }

    /// The connection after it was asked for its datagrams.
    pub open spec fn after_sending(self, ack_bits: u32) -> ConnectionModel {
        if self.reason is Some {
            self
        } else if !self.sends() {
            ConnectionModel { channels: self.gathering().channels, ..self }
        } else {
            ConnectionModel {
                channels: self.gathering().channels,
                sent: self.sent.recorded(
                    self.sequence,
                    self.now,
                    frame_keys(self.gathering().frames),
                ),
                sequence: seq_plus(self.sequence, 1),
                last_sent: Some(self.now),
                sent_samples: sampled(
                    self.sent_samples,
                    self.datagrams(ack_bits),
                    self.now,
                    self.datagrams(ack_bits).len() as int,
                ),
                ..self
            }
        }
    }
}

/// What leaves a connection is read back as what it is.
proof fn lemma_read_back(m: ConnectionModel, bits: u32)
    requires
        m.limits.wf(),
        frames_wf(m.gathering().frames),
        frames_size(m.gathering().frames) <= m.room(),
    ensures
        m.read_back(bits),
{
    reveal(ConnectionModel::read_back);
    let packet = m.outgoing(bits);
    let bytes = packet_wire(packet);
    let size = m.limits.fragment_size as int;
    crate::packet::lemma_packet_round_trip(packet);
    lemma_frames_wire_len(m.gathering().frames);
    assert(bytes.len() == PACKET_HEADER_BYTES + frames_size(m.gathering().frames));
    lemma_count_slices_monotonic(bytes.len() as int, m.limits.max_packet_size as int, size);
    crate::block::lemma_slice_bounds(bytes.len() as int, size, 0);
    let datagrams = m.datagrams(bits);
    if bytes.len() > m.limits.fragment_above {
        assert forall|i: int| 0 <= i < datagrams.len() implies parse_packet(
            #[trigger] datagrams[i],
        ) == Some(fragment_of(bytes, m.sequence, size, i)) by {
            crate::packet::lemma_packet_round_trip(fragment_of(bytes, m.sequence, size, i));
        }
    }
}

/// Counts the datagrams that leave at `now`.
fn sample_all(bandwidth: &mut BandwidthInfo, datagrams: &Vec<Vec<u8>>, now: u64)
    requires
        old(bandwidth).wf(),
    ensures
        final(bandwidth).wf(),
        final(bandwidth).sent() == sampled(
            old(bandwidth).sent(),
            byte_views(datagrams@),
            now,
            datagrams@.len() as int,
        ),
        final(bandwidth).received() == old(bandwidth).received(),
        final(bandwidth).factor() == old(bandwidth).factor(),
        final(bandwidth).sent_rate() == old(bandwidth).sent_rate(),
        final(bandwidth).received_rate() == old(bandwidth).received_rate(),
{
    let mut i: usize = 0;
    while i < datagrams.len()
        invariant
            i <= datagrams@.len(),
            bandwidth.wf(),
            bandwidth.sent() == sampled(old(bandwidth).sent(), byte_views(datagrams@), now, i as int),
            bandwidth.received() == old(bandwidth).received(),
            bandwidth.factor() == old(bandwidth).factor(),
            bandwidth.sent_rate() == old(bandwidth).sent_rate(),
            bandwidth.received_rate() == old(bandwidth).received_rate(),
        decreases datagrams@.len() - i,
    {
        assert(byte_views(datagrams@)[i as int] == datagrams@[i as int]@);
        bandwidth.sent_packet(now, datagrams[i].len());
        i = i + 1;
    }
}

impl RemoteConnection {
    /// Takes in a packet of frames.
    fn process_frames(
        &mut self,
        sequence: u16,
        ack: Option<u16>,
        ack_bits: u32,
        frames: Vec<Frame>,
    ) -> (result: Result<(), RechannelError>)
        requires
            old(self).wf(),
            old(self)@.reason is None,
        ensures
            final(self).wf(),
            final(self)@ == old(self)@.after_frames(sequence, ack, ack_bits, frame_views(frames@)),
            result == result_of(final(self)@.reason),
    {
        self.last_received = self.current_time;
        if self.received.holds(sequence) {
            return Ok(());
        }
        self.received.mark(sequence);
        if let Some(a) = ack {
            confirm_all(
                &mut self.sent,
                &mut self.channels,
                &mut self.rtt,
                a,
                ack_bits,
                self.current_time,
                self.limits.measure_smoothing_factor,
            );
            self.latest_ack = match self.latest_ack {
                None => Some(a),
                Some(latest) => if sequence_newer(a, latest) {
                    Some(a)
                } else {
                    Some(latest)
                },
            };
        }
        let failure = deliver(&mut self.channels, frames);
        self.reason = failure;
        match failure {
            Some(reason) => Err(RechannelError::ClientDisconnected(reason)),
            None => Ok(()),
        }
    }

    /// Takes in a datagram that arrived from the peer.
    pub fn process_packet(&mut self, bytes: &[u8]) -> (result: Result<(), RechannelError>)
        requires
            old(self).wf(),
        ensures
            final(self).wf(),
            final(self)@ == old(self)@.after_packet(bytes@),
            result == old(self)@.packet_result(bytes@),
    {
        if let Some(reason) = self.reason {
            return Err(RechannelError::ClientDisconnected(reason));
        }
        self.bandwidth.received_packet(self.current_time, bytes.len());
        assert(self@ == old(self)@.heard(bytes@.len()));
        match Packet::decode(bytes) {
            None => Err(RechannelError::InvalidPacket),
            Some(Packet::Disconnect { reason }) => {
                self.reason = Some(reason);
                self.last_received = self.current_time;
                Ok(())
            },
            Some(Packet::Normal { sequence, ack, ack_bits, frames }) => {
                self.process_frames(sequence, ack, ack_bits, frames)
            },
            Some(Packet::Fragment { sequence, fragment_id, fragment_count, payload }) => {
                self.last_received = self.current_time;
                match self.reassembly.accept(sequence, fragment_id, fragment_count, payload) {
                    None => Ok(()),
                    Some(whole) => match Packet::decode(whole.as_slice()) {
                        Some(Packet::Normal { sequence, ack, ack_bits, frames }) => {
                            self.process_frames(sequence, ack, ack_bits, frames)
                        },
                        _ => Err(RechannelError::InvalidPacket),
                    },
                }
            },
        }
    }

    /// The datagrams to hand to the transport now: the frames that the
    /// channels have for the peer in one packet, which also carries the
    /// acknowledgement of what arrived; a packet without frames once
    /// `heartbeat_time` has passed since the last; nothing otherwise.
    #[verifier::rlimit(40)]
    pub fn get_packets_to_send(&mut self) -> (result: Result<Vec<Vec<u8>>, RechannelError>)
        requires
            old(self).wf(),
        ensures
            final(self).wf(),
            match result {
                Ok(datagrams) => {
                    &&& old(self)@.reason is None
                    &&& exists|bits: u32|
                        {
                            &&& acknowledges_all(old(self)@.received, bits)
                            &&& byte_views(datagrams@) == #[trigger] old(self)@.datagrams(bits)
                            &&& final(self)@ == old(self)@.after_sending(bits)
                            &&& old(self)@.read_back(bits)
                        }
                    &&& forall|i: int|
                        0 <= i < datagrams@.len() ==> (#[trigger] datagrams@[i])@.len()
                            <= old(self)@.limits.datagram_limit()
                },
                Err(e) => {
                    &&& old(self)@.reason is Some
                    &&& Err::<(), RechannelError>(e) == result_of(old(self)@.reason)
                    &&& final(self)@ == old(self)@
                },
            },
    {
        if let Some(reason) = self.reason {
            return Err(RechannelError::ClientDisconnected(reason));
        }
        let ghost model = self@;
        let now = self.current_time;
        let room = self.limits.max_packet_size - PACKET_HEADER_BYTES;
        let frames = gather(&mut self.channels, now, room);
        let ghost g = model.gathering();
        let due = match self.last_sent {
            None => true,
            Some(t) => now >= t && now - t >= self.limits.heartbeat_time,
        };
        let bits = self.received.ack_bits();
        assert(acknowledges_all(model.received, bits));
        proof {
            lemma_read_back(model, bits);
        }
        if frames.len() == 0 && !due {
            let datagrams: Vec<Vec<u8>> = Vec::new();
            assert(byte_views(datagrams@) =~= model.datagrams(bits));
            assert(self@ == model.after_sending(bits));
            return Ok(datagrams);
        }
        assert(model.sends());
        let keys = keys_of(&frames);
        let sequence = self.sequence;
        let packet = Packet::Normal { sequence, ack: self.received.newest(), ack_bits: bits, frames };
        assert(packet@ == model.outgoing(bits));
        let bytes = packet.encode();
        proof {
            lemma_frames_wire_len(g.frames);
            assert(bytes@.len() == PACKET_HEADER_BYTES + frames_size(g.frames));
            lemma_count_slices_monotonic(
                bytes@.len() as int,
                self.limits.max_packet_size as int,
                self.limits.fragment_size as int,
            );
        }
        self.sent.record(sequence, now, keys);
        self.sequence = sequence_after(sequence);
        self.last_sent = Some(now);
        let datagrams = if bytes.len() > self.limits.fragment_above {
            let pieces = split(&bytes, sequence, self.limits.fragment_size);
            assert(byte_views(pieces@) =~= model.datagrams(bits));
            assert forall|i: int| 0 <= i < pieces@.len() implies (#[trigger] pieces@[i])@.len()
                <= model.limits.datagram_limit() by {
                crate::block::lemma_slice_bounds(
                    bytes@.len() as int,
                    self.limits.fragment_size as int,
                    i,
                );
            }
            pieces
        } else {
            let mut whole: Vec<Vec<u8>> = Vec::new();
            whole.push(bytes);
            assert(byte_views(whole@) =~= model.datagrams(bits));
            whole
        };
        sample_all(&mut self.bandwidth, &datagrams, now);
        assert(self@ == model.after_sending(bits));
        Ok(datagrams)
    }
}

} // verus!
