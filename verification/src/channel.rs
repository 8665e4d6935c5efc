//! A channel of any of the three variants.
use crate::block::{BlockChannel, BlockChannelConfig, BlockModel};
use crate::error::ChannelError;
use crate::packet::{frame_views, frames_size, frames_wf, Frame, FrameKind, FrameView};
use crate::reliable::{ReliableChannel, ReliableChannelConfig, ReliableModel};
use crate::unreliable::{UnreliableChannel, UnreliableChannelConfig, UnreliableModel};
use vstd::prelude::*;

verus! {

/// Options of one channel.
#[derive(Debug, Clone, Copy)]
pub enum ChannelConfig {
    Reliable(ReliableChannelConfig),
    Unreliable(UnreliableChannelConfig),
    Block(BlockChannelConfig),
}

impl ChannelConfig {
    pub open spec fn wf(&self) -> bool {
        match self {
            ChannelConfig::Reliable(c) => c.wf(),
            ChannelConfig::Unreliable(c) => c.wf(),
            ChannelConfig::Block(c) => c.wf(),
        }
    }

    pub open spec fn id(&self) -> u8 {
        match self {
            ChannelConfig::Reliable(c) => c.channel_id,
            ChannelConfig::Unreliable(c) => c.channel_id,
            ChannelConfig::Block(c) => c.channel_id,
        }
    }

    pub fn channel_id(&self) -> (id: u8)
        ensures
            id == self.id(),
    {
        match self {
            ChannelConfig::Reliable(c) => c.channel_id,
            ChannelConfig::Unreliable(c) => c.channel_id,
            ChannelConfig::Block(c) => c.channel_id,
        }
    }
}

/// What names a frame for its acknowledgement: its channel, and there its
/// message, or its block and slice.
#[derive(Debug, Clone, Copy)]
pub struct FrameKey {
    pub channel_id: u8,
    pub kind: FrameKind,
    pub id: u16,
    pub slice_index: u32,
}

/// The key of the frame `f`.
pub open spec fn key_of(f: FrameView) -> FrameKey {
    FrameKey { channel_id: f.channel_id, kind: f.kind, id: f.id, slice_index: f.slice_index }
}

/// One channel of a connection.
pub enum Channel {
    Reliable(ReliableChannel),
    Unreliable(UnreliableChannel),
    Block(BlockChannel),
}

/// A [`Channel`] as a mathematical value.
pub enum ChannelModel {
    Reliable(ReliableModel),
    Unreliable(UnreliableModel),
    Block(BlockModel),
}

impl View for Channel {
    type V = ChannelModel;

    open spec fn view(&self) -> ChannelModel {
        match self {
            Channel::Reliable(c) => ChannelModel::Reliable(c@),
            Channel::Unreliable(c) => ChannelModel::Unreliable(c@),
            Channel::Block(c) => ChannelModel::Block(c@),
        }
    }
}

impl ChannelModel {
    pub open spec fn wf(self) -> bool {
        match self {
            ChannelModel::Reliable(m) => m.wf(),
            ChannelModel::Unreliable(m) => m.wf(),
            ChannelModel::Block(m) => m.wf(),
        }
    }

    pub open spec fn fresh(config: ChannelConfig) -> ChannelModel {
        match config {
            ChannelConfig::Reliable(c) => ChannelModel::Reliable(ReliableModel::fresh(c)),
            ChannelConfig::Unreliable(c) => ChannelModel::Unreliable(UnreliableModel::fresh(c)),
            ChannelConfig::Block(c) => ChannelModel::Block(BlockModel::fresh(c)),
        }
    }

    pub open spec fn channel_id(self) -> u8 {
        match self {
            ChannelModel::Reliable(m) => m.config.channel_id,
            ChannelModel::Unreliable(m) => m.config.channel_id,
            ChannelModel::Block(m) => m.config.channel_id,
        }
    }

    /// The kind of the frames of the channel.
    pub open spec fn kind(self) -> FrameKind {
        match self {
            ChannelModel::Reliable(_) => FrameKind::Reliable,
            ChannelModel::Unreliable(_) => FrameKind::Unreliable,
            ChannelModel::Block(_) => FrameKind::Slice,
        }
    }

    /// The error that the channel failed with, if it did. An unreliable
    /// channel never fails.
    pub open spec fn error(self) -> Option<ChannelError> {
        match self {
            ChannelModel::Reliable(m) => m.error,
            ChannelModel::Unreliable(_) => None,
            ChannelModel::Block(m) => m.error,
        }
    }

    pub open spec fn can_send(self) -> bool {
        match self {
            ChannelModel::Reliable(m) => m.can_send(),
            ChannelModel::Unreliable(m) => m.can_send(),
            ChannelModel::Block(m) => m.can_send(),
        }
    }

    /// The channel after `payload` was handed to it.
    pub open spec fn send(self, payload: Seq<u8>) -> ChannelModel {
        match self {
            ChannelModel::Reliable(m) => ChannelModel::Reliable(m.send(payload)),
            ChannelModel::Unreliable(m) => ChannelModel::Unreliable(m.send(payload)),
            ChannelModel::Block(m) => ChannelModel::Block(m.send(payload)),
        }
    }

    pub open spec fn frames_to_send(self, now: u64, available: usize) -> Seq<FrameView> {
        match self {
            ChannelModel::Reliable(m) => m.frames_to_send(now, available),
            ChannelModel::Unreliable(m) => m.frames_to_send(available),
            ChannelModel::Block(m) => m.frames_to_send(now, available),
        }
    }

    pub open spec fn after_sending(self, now: u64, available: usize) -> ChannelModel {
        match self {
            ChannelModel::Reliable(m) => ChannelModel::Reliable(m.after_sending(now, available)),
            ChannelModel::Unreliable(m) => ChannelModel::Unreliable(m.after_sending()),
            ChannelModel::Block(m) => ChannelModel::Block(m.after_sending(now, available)),
        }
    }

    /// The channel after the frame `f` arrived. A frame of another kind
    /// leaves the channel as it is.
    pub open spec fn received(self, f: FrameView) -> ChannelModel {
        if f.kind != self.kind() {
            self
        } else {
            match self {
                ChannelModel::Reliable(m) => ChannelModel::Reliable(m.received(f.id, f.payload)),
                ChannelModel::Unreliable(m) => ChannelModel::Unreliable(m.received(f.payload)),
                ChannelModel::Block(m) => ChannelModel::Block(
                    m.received(f.id, f.slice_count, f.slice_index, f.payload),
                ),
            }
        }
    }

    /// The error that the arrival of `f` ends with: a frame of another kind
    /// than the channel's is refused, and a failed channel keeps its error.
    pub open spec fn receive_error(self, f: FrameView) -> Option<ChannelError> {
        if f.kind != self.kind() {
            Some(ChannelError::UnknownChannel)
        } else {
            self.received(f).error()
        }
    }

    /// The channel after the frame named by `key` was acknowledged.
    pub open spec fn acked(self, key: FrameKey) -> ChannelModel {
        if key.kind != self.kind() {
            self
        } else {
            match self {
                ChannelModel::Reliable(m) => ChannelModel::Reliable(m.acked(key.id)),
                ChannelModel::Unreliable(m) => self,
                ChannelModel::Block(m) => ChannelModel::Block(m.acked(key.id, key.slice_index)),
            }
        }
    }

    pub open spec fn next_message(self) -> Option<Seq<u8>> {
        match self {
            ChannelModel::Reliable(m) => m.next_message(),
            ChannelModel::Unreliable(m) => m.next_message(),
            ChannelModel::Block(m) => m.next_message(),
        }
    }

    pub open spec fn after_receive(self) -> ChannelModel {
        match self {
            ChannelModel::Reliable(m) => ChannelModel::Reliable(m.after_receive()),
            ChannelModel::Unreliable(m) => ChannelModel::Unreliable(m.after_receive()),
            ChannelModel::Block(m) => ChannelModel::Block(m.after_receive()),
        }
    }
}

impl Channel {
    pub open spec fn wf(&self) -> bool {
        self@.wf()
    }

    pub fn new(config: ChannelConfig) -> (channel: Self)
        requires
            config.wf(),
        ensures
            channel.wf(),
            channel@ == ChannelModel::fresh(config),
            channel@.channel_id() == config.id(),
    {
        match config {
            ChannelConfig::Reliable(c) => Channel::Reliable(ReliableChannel::new(c)),
            ChannelConfig::Unreliable(c) => Channel::Unreliable(UnreliableChannel::new(c)),
            ChannelConfig::Block(c) => Channel::Block(BlockChannel::new(c)),
        }
    }

    pub fn channel_id(&self) -> (id: u8)
        ensures
            id == self@.channel_id(),
    {
        match self {
            Channel::Reliable(c) => c.channel_id(),
            Channel::Unreliable(c) => c.channel_id(),
            Channel::Block(c) => c.channel_id(),
        }
    }

    pub fn kind(&self) -> (kind: FrameKind)
        ensures
            kind == self@.kind(),
    {
        match self {
            Channel::Reliable(_) => FrameKind::Reliable,
            Channel::Unreliable(_) => FrameKind::Unreliable,
            Channel::Block(_) => FrameKind::Slice,
        }
    }

    /// The error that the channel failed with, if it did.
    pub fn error(&self) -> (error: Option<ChannelError>)
        ensures
            error == self@.error(),
    {
        match self {
            Channel::Reliable(c) => c.error(),
            Channel::Unreliable(_) => None,
            Channel::Block(c) => c.error(),
        }
    }

    pub fn can_send_message(&self) -> (can: bool)
        ensures
            can == self@.can_send(),
    {
        match self {
            Channel::Reliable(c) => c.can_send_message(),
            Channel::Unreliable(c) => c.can_send_message(),
            Channel::Block(c) => c.can_send_message(),
        }
    }

    /// Hands `payload` to the channel, and returns the error that the
    /// channel has failed with, if it has.
    pub fn send_message(&mut self, payload: Vec<u8>) -> (error: Option<ChannelError>)
        requires
            old(self).wf(),
        ensures
            final(self).wf(),
            final(self)@ == old(self)@.send(payload@),
            error == final(self)@.error(),
    {
        match self {
            Channel::Reliable(c) => match c.send_message(payload) {
                Ok(_) => None,
                Err(e) => Some(e),
            },
            Channel::Unreliable(c) => {
                let _ = c.send_message(payload);
                None
            },
            Channel::Block(c) => match c.send_message(payload) {
                Ok(_) => None,
                Err(e) => Some(e),
            },
        }
    }

    /// The frames that the channel adds at `now` to a packet with
    /// `available` bytes left.
    pub fn get_frames_to_send(&mut self, now: u64, available: usize) -> (frames: Vec<Frame>)
        requires
            old(self).wf(),
        ensures
            final(self).wf(),
            frame_views(frames@) == old(self)@.frames_to_send(now, available),
            final(self)@ == old(self)@.after_sending(now, available),
            frames_wf(frame_views(frames@)),
            frames_size(frame_views(frames@)) <= available,
    {
        match self {
            Channel::Reliable(c) => c.get_frames_to_send(now, available),
            Channel::Unreliable(c) => c.get_frames_to_send(available),
            Channel::Block(c) => c.get_frames_to_send(now, available),
        }
    }

    /// Takes in a frame that a packet brought, and returns the error that
    /// its arrival ends with, if any.
    pub fn process_frame(&mut self, frame: Frame) -> (error: Option<ChannelError>)
        requires
            old(self).wf(),
        ensures
            final(self).wf(),
            final(self)@ == old(self)@.received(frame@),
            error == old(self)@.receive_error(frame@),
    {
        match self {
            Channel::Reliable(c) => {
                if frame.kind != FrameKind::Reliable {
                    return Some(ChannelError::UnknownChannel);
                }
                match c.process_message(frame.id, frame.payload) {
                    Ok(_) => None,
                    Err(e) => Some(e),
                }
            },
            Channel::Unreliable(c) => {
                if frame.kind != FrameKind::Unreliable {
                    return Some(ChannelError::UnknownChannel);
                }
                c.process_message(frame.payload);
                None
            },
            Channel::Block(c) => {
                if frame.kind != FrameKind::Slice {
                    return Some(ChannelError::UnknownChannel);
                }
                match c.process_slice(
                    frame.id,
                    frame.slice_count,
                    frame.slice_index,
                    frame.payload,
                ) {
                    Ok(_) => None,
                    Err(e) => Some(e),
                }
            },
        }
    }

    /// Notes that the frame named by `key` has arrived at the peer.
    pub fn process_ack(&mut self, key: FrameKey)
        requires
            old(self).wf(),
        ensures
            final(self).wf(),
            final(self)@ == old(self)@.acked(key),
    {
        match self {
            Channel::Reliable(c) => {
                if key.kind == FrameKind::Reliable {
                    c.process_ack(key.id);
                }
            },
            Channel::Unreliable(_) => {},
            Channel::Block(c) => {
                if key.kind == FrameKind::Slice {
                    c.process_ack(key.id, key.slice_index);
                }
            },
        }
    }

    /// Hands out the next message of the channel, if one is there.
    pub fn receive_message(&mut self) -> (message: Option<Vec<u8>>)
        requires
            old(self).wf(),
        ensures
            final(self).wf(),
            final(self)@ == old(self)@.after_receive(),
            match message {
                Some(m) => old(self)@.next_message() == Some(m@),
                None => old(self)@.next_message() is None,
            },
    {
        match self {
            Channel::Reliable(c) => c.receive_message(),
            Channel::Unreliable(c) => c.receive_message(),
            Channel::Block(c) => c.receive_message(),
        }
    }
}

} // verus!
