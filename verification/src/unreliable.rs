//! The unreliable channel: messages go out with the next packet and are then
//! forgotten; what arrives is handed out as it came.
use crate::packet::{
    frame_views, frames_size, frames_wf, lemma_frames_push, Frame, FrameKind, FrameView,
    FRAME_HEADER_BYTES,
};
use crate::reliable::clone_bytes;
use std::collections::VecDeque;
use vstd::prelude::*;

verus! {

/// Options of one unreliable channel.
#[derive(Debug, Clone, Copy)]
pub struct UnreliableChannelConfig {
    pub channel_id: u8,
    /// Most messages that wait for the next packet.
    pub message_send_queue_size: usize,
    /// Most messages that wait for the application.
    pub message_receive_queue_size: usize,
    /// Largest message, in bytes.
    pub max_message_size: usize,
    /// Most bytes of frames that the channel adds to one packet.
    pub packet_budget: usize,
}

impl UnreliableChannelConfig {
    /// The default options of the channel `channel_id`.
    pub open spec fn defaults(channel_id: u8) -> UnreliableChannelConfig {
        UnreliableChannelConfig {
            channel_id,
            message_send_queue_size: 256,
            message_receive_queue_size: 256,
            max_message_size: 3000,
            packet_budget: 6000,
        }
    }

    pub open spec fn wf(&self) -> bool {
        self.max_message_size <= u16::MAX
    }

    /// The default options: queues of 256 messages, messages of up to 3000
    /// bytes, 6000 bytes in a packet.
    pub fn new(channel_id: u8) -> (config: Self)
        ensures
            config.wf(),
            config == (UnreliableChannelConfig {
                channel_id,
                message_send_queue_size: 256,
                message_receive_queue_size: 256,
                max_message_size: 3000,
                packet_budget: 6000,
            }),
    {
        UnreliableChannelConfig {
            channel_id,
            message_send_queue_size: 256,
            message_receive_queue_size: 256,
            max_message_size: 3000,
            packet_budget: 6000,
        }
    }
}

/// The messages of `messages`, each by its view.
pub open spec fn byte_views(messages: Seq<Vec<u8>>) -> Seq<Seq<u8>> {
    Seq::new(messages.len(), |i: int| messages[i]@)
}

/// Bytes that the first `n` messages take of the budget, when each message
/// that still fits is taken, in the order of the queue.
pub open spec fn fitted(messages: Seq<Seq<u8>>, budget: int, n: int) -> int
    decreases n,
{
    if n <= 0 {
        0
    } else {
        let before = fitted(messages, budget, n - 1);
        let size = FRAME_HEADER_BYTES + messages[n - 1].len();
        if before + size <= budget {
            before + size
        } else {
            before
        }
    }
}

/// The frame that carries `payload` on the channel `channel_id`.
pub open spec fn plain_frame(channel_id: u8, payload: Seq<u8>) -> FrameView {
    FrameView {
        channel_id,
        kind: FrameKind::Unreliable,
        id: 0,
        slice_index: 0,
        slice_count: 0,
        payload,
    }
}

/// The frames of the messages taken among the first `n`.
pub open spec fn packed(messages: Seq<Seq<u8>>, budget: int, channel_id: u8, n: int) -> Seq<
    FrameView,
>
    decreases n,
{
    if n <= 0 {
        Seq::empty()
    } else {
        let before = packed(messages, budget, channel_id, n - 1);
        if fitted(messages, budget, n - 1) + FRAME_HEADER_BYTES + messages[n - 1].len() <= budget {
            before.push(plain_frame(channel_id, messages[n - 1]))
        } else {
            before
        }
    }
}

/// An unreliable channel as a mathematical value.
pub struct UnreliableModel {
    pub config: UnreliableChannelConfig,
    /// The messages that wait for the next packet, oldest first.
    pub outgoing: Seq<Seq<u8>>,
    /// The messages that wait for the application, oldest first.
    pub incoming: Seq<Seq<u8>>,
}

impl UnreliableModel {
    pub open spec fn wf(self) -> bool {
        &&& self.config.wf()
        &&& forall|i: int|
            0 <= i < self.outgoing.len() ==> (#[trigger] self.outgoing[i]).len()
                <= self.config.max_message_size
    }

    pub open spec fn fresh(config: UnreliableChannelConfig) -> UnreliableModel {
        UnreliableModel { config, outgoing: Seq::empty(), incoming: Seq::empty() }
    }

    pub open spec fn can_send(self) -> bool {
        self.outgoing.len() < self.config.message_send_queue_size
    }

    /// Whether `payload` is queued: it is if it is not too large and the
    /// queue has room, and dropped otherwise.
    pub open spec fn takes(self, payload: Seq<u8>) -> bool {
        payload.len() <= self.config.max_message_size && self.can_send()
    }

    pub open spec fn send(self, payload: Seq<u8>) -> UnreliableModel {
        if self.takes(payload) {
            UnreliableModel { outgoing: self.outgoing.push(payload), ..self }
        } else {
            self
        }
    }

    pub open spec fn budget(self, available: usize) -> int {
        if available < self.config.packet_budget {
            available as int
        } else {
            self.config.packet_budget as int
        }
    }

    /// The frames that the channel adds to a packet with `available` bytes
    /// left: every waiting message that fits.
    pub open spec fn frames_to_send(self, available: usize) -> Seq<FrameView> {
        packed(
            self.outgoing,
            self.budget(available),
            self.config.channel_id,
            self.outgoing.len() as int,
        )
    }

    /// The channel after a packet was made: nothing waits any more.
    pub open spec fn after_sending(self) -> UnreliableModel {
        UnreliableModel { outgoing: Seq::empty(), ..self }
    }

    /// The channel after `payload` arrived: it waits for the application if
    /// there is room, and is dropped otherwise.
    pub open spec fn received(self, payload: Seq<u8>) -> UnreliableModel {
        if self.incoming.len() < self.config.message_receive_queue_size {
            UnreliableModel { incoming: self.incoming.push(payload), ..self }
        } else {
            self
        }
    }

    pub open spec fn next_message(self) -> Option<Seq<u8>> {
        if self.incoming.len() > 0 {
            Some(self.incoming[0])
        } else {
            None
        }
    }

    pub open spec fn after_receive(self) -> UnreliableModel {
        if self.incoming.len() > 0 {
            UnreliableModel { incoming: self.incoming.skip(1), ..self }
        } else {
            self
        }
    }
}

/// One unreliable channel of a connection.
pub struct UnreliableChannel {
    config: UnreliableChannelConfig,
    outgoing: Vec<Vec<u8>>,
    incoming: VecDeque<Vec<u8>>,
}

impl View for UnreliableChannel {
    type V = UnreliableModel;

    closed spec fn view(&self) -> UnreliableModel {
        UnreliableModel {
            config: self.config,
            outgoing: byte_views(self.outgoing@),
            incoming: byte_views(self.incoming@),
        }
    }
}

impl UnreliableChannel {
    /// The channel's invariant; see [`UnreliableModel::wf`].
    pub open spec fn wf(&self) -> bool {
        self@.wf()
    }

    pub fn new(config: UnreliableChannelConfig) -> (channel: Self)
        requires
            config.wf(),
        ensures
            channel.wf(),
            channel@ == UnreliableModel::fresh(config),
    {
        let channel = UnreliableChannel {
            config,
            outgoing: Vec::new(),
            incoming: VecDeque::new(),
        };
        assert(channel@.outgoing =~= Seq::empty());
        assert(channel@.incoming =~= Seq::empty());
        channel
    }

    pub fn channel_id(&self) -> (id: u8)
        ensures
            id == self@.config.channel_id,
    {
        self.config.channel_id
    }

    pub fn can_send_message(&self) -> (can: bool)
        ensures
            can == self@.can_send(),
    {
        self.outgoing.len() < self.config.message_send_queue_size
    }

    /// Queues `payload` for the next packet, and says whether it did.
    pub fn send_message(&mut self, payload: Vec<u8>) -> (queued: bool)
        requires
            old(self).wf(),
        ensures
            final(self).wf(),
            final(self)@ == old(self)@.send(payload@),
            queued == old(self)@.takes(payload@),
    {
        if payload.len() > self.config.max_message_size || !self.can_send_message() {
            return false;
        }
        let ghost before = self.outgoing@;
        self.outgoing.push(payload);
        assert(byte_views(self.outgoing@) =~= byte_views(before).push(payload@));
        true
    }

    /// The frames to put in a packet that has `available` bytes left. The
    /// waiting messages that do not fit are dropped with the others.
    pub fn get_frames_to_send(&mut self, available: usize) -> (frames: Vec<Frame>)
        requires
            old(self).wf(),
        ensures
            final(self).wf(),
            frame_views(frames@) == old(self)@.frames_to_send(available),
            final(self)@ == old(self)@.after_sending(),
            frames_wf(frame_views(frames@)),
            frames_size(frame_views(frames@)) <= available,
    {
        let budget = if available < self.config.packet_budget {
            available
        } else {
            self.config.packet_budget
        };
        let channel_id = self.config.channel_id;
        let ghost messages = byte_views(self.outgoing@);
        let n = self.outgoing.len();
        let mut frames: Vec<Frame> = Vec::new();
        let mut used: usize = 0;
        let mut i: usize = 0;
        while i < n
            invariant
                i <= n,
                n == self.outgoing@.len(),
                messages == byte_views(self.outgoing@),
                self.wf(),
                used <= budget,
                used == fitted(messages, budget as int, i as int),
                frame_views(frames@) == packed(messages, budget as int, channel_id, i as int),
                frames_wf(frame_views(frames@)),
                frames_size(frame_views(frames@)) == used,
            decreases n - i,
        {
            assert(messages[i as int] == self.outgoing@[i as int]@);
            assert(self@.outgoing[i as int].len() <= self.config.max_message_size);
            let size = FRAME_HEADER_BYTES + self.outgoing[i].len();
            if size <= budget - used {
                let frame = Frame {
                    channel_id,
                    kind: FrameKind::Unreliable,
                    id: 0,
                    slice_index: 0,
                    slice_count: 0,
                    payload: clone_bytes(&self.outgoing[i]),
                };
                assert(frame@ == plain_frame(channel_id, messages[i as int]));
                proof {
                    assert(frame_views(frames@.push(frame)) =~= frame_views(frames@).push(frame@));
                    lemma_frames_push(frame_views(frames@), frame@);
                }
                frames.push(frame);
                used = used + size;
            }
            i = i + 1;
        }
        self.outgoing.clear();
        assert(byte_views(self.outgoing@) =~= Seq::empty());
        frames
    }

    /// Takes in a message that a packet brought.
    pub fn process_message(&mut self, payload: Vec<u8>)
        requires
            old(self).wf(),
        ensures
            final(self).wf(),
            final(self)@ == old(self)@.received(payload@),
    {
        if self.incoming.len() < self.config.message_receive_queue_size {
            let ghost before = self.incoming@;
            self.incoming.push_back(payload);
            assert(byte_views(self.incoming@) =~= byte_views(before).push(payload@));
        }
        assert(self@.outgoing == old(self)@.outgoing);
    }

    /// Hands out the oldest message that waits, if any does.
    pub fn receive_message(&mut self) -> (message: Option<Vec<u8>>)
        requires
            old(self).wf(),
        ensures
            final(self).wf(),
            final(self)@ == old(self)@.after_receive(),
            match message {
                Some(m) => old(self)@.next_message() == Some(m@),
                None => old(self)@.next_message() is None,
            },
    {
        let ghost before = self.incoming@;
        let message = self.incoming.pop_front();
        if message.is_some() {
            assert(byte_views(self.incoming@) =~= byte_views(before).skip(1));
        }
        assert(self@.outgoing == old(self)@.outgoing);
        message
    }
}

} // verus!
