//! Errors of the channel layer and of the transport queues, and the reasons
//! for which a connection ends.
use vstd::prelude::*;

verus! {

/// What can go wrong inside one channel.
#[derive(Debug, Clone, Copy, PartialEq, Eq, Structural)]
pub enum ChannelError {
    /// More messages wait for their acknowledgement than the channel may keep.
    SendQueueFull,
    /// A message arrived that lies beyond what the channel may hold back.
    ReceiveQueueFull,
    /// A slice arrived that says of its block another number of slices than
    /// the slices before it.
    BlockInProgress,
    /// A slice arrived that lies outside what a block of the channel can have.
    FragmentOverflow,
    /// No channel has the given id, or the channel is of another variant.
    UnknownChannel,
    /// The message is larger than the channel accepts.
    OversizedMessage,
}

/// Why a connection ended.
#[derive(Debug, Clone, Copy, PartialEq, Eq, Structural)]
pub enum DisconnectionReason {
    DisconnectedByClient,
    DisconnectedByServer,
    /// Nothing was received for longer than the connection waits.
    Timeout,
    /// The channel `channel_id` failed with `error`.
    Channel { channel_id: u8, error: ChannelError },
}

/// Errors returned by the channel layer.
#[derive(Debug, Clone, Copy, PartialEq, Eq, Structural)]
pub enum RechannelError {
    /// The server holds no connection for the client.
    ClientNotFound,
    /// The connection has ended.
    ClientDisconnected(DisconnectionReason),
    /// The bytes are not a packet of the channel layer.
    InvalidPacket,
}

/// Errors returned by the server.
#[derive(Debug, Clone, Copy, PartialEq, Eq, Structural)]
pub enum RenetError {
    /// The queue of outgoing datagrams has lost the transport.
    SenderDisconnected,
    /// The queue of incoming datagrams has lost the transport.
    ReceiverDisconnected,
    /// The text given for the server's address is no address of a socket.
    InvalidAddress,
}

/// The byte that stands for `error` on the wire.
pub open spec fn channel_error_code(error: ChannelError) -> u8 {
    match error {
        ChannelError::SendQueueFull => 0,
        ChannelError::ReceiveQueueFull => 1,
        ChannelError::BlockInProgress => 2,
        ChannelError::FragmentOverflow => 3,
        ChannelError::UnknownChannel => 4,
        ChannelError::OversizedMessage => 5,
    }
}

/// The two bytes that stand for `reason` on the wire: its code, and the
/// channel for the reasons that name one.
pub open spec fn reason_code(reason: DisconnectionReason) -> (u8, u8) {
    match reason {
        DisconnectionReason::DisconnectedByClient => (0, 0),
        DisconnectionReason::DisconnectedByServer => (1, 0),
        DisconnectionReason::Timeout => (2, 0),
        DisconnectionReason::Channel { channel_id, error } => (
            (3 + channel_error_code(error)) as u8,
            channel_id,
        ),
    }
}

/// The reason that the two bytes stand for, if any.
pub open spec fn reason_of_code(code: u8, channel_id: u8) -> Option<DisconnectionReason> {
    if code == 0 && channel_id == 0 {
        Some(DisconnectionReason::DisconnectedByClient)
    } else if code == 1 && channel_id == 0 {
        Some(DisconnectionReason::DisconnectedByServer)
    } else if code == 2 && channel_id == 0 {
        Some(DisconnectionReason::Timeout)
    } else if code == 3 {
        Some(DisconnectionReason::Channel { channel_id, error: ChannelError::SendQueueFull })
    } else if code == 4 {
        Some(DisconnectionReason::Channel { channel_id, error: ChannelError::ReceiveQueueFull })
    } else if code == 5 {
        Some(DisconnectionReason::Channel { channel_id, error: ChannelError::BlockInProgress })
    } else if code == 6 {
        Some(DisconnectionReason::Channel { channel_id, error: ChannelError::FragmentOverflow })
    } else if code == 7 {
        Some(DisconnectionReason::Channel { channel_id, error: ChannelError::UnknownChannel })
    } else if code == 8 {
        Some(DisconnectionReason::Channel { channel_id, error: ChannelError::OversizedMessage })
    } else {
        None
    }
}

impl DisconnectionReason {
    /// The two bytes of [`reason_code`].
    pub fn code(&self) -> (bytes: (u8, u8))
        ensures
            bytes == reason_code(*self),
    {
        match self {
            DisconnectionReason::DisconnectedByClient => (0, 0),
            DisconnectionReason::DisconnectedByServer => (1, 0),
            DisconnectionReason::Timeout => (2, 0),
            DisconnectionReason::Channel { channel_id, error } => {
                let code: u8 = match error {
                    ChannelError::SendQueueFull => 3,
                    ChannelError::ReceiveQueueFull => 4,
                    ChannelError::BlockInProgress => 5,
                    ChannelError::FragmentOverflow => 6,
                    ChannelError::UnknownChannel => 7,
                    ChannelError::OversizedMessage => 8,
                };
                (code, *channel_id)
            },
        }
    }

    /// The reason of [`reason_of_code`].
    pub fn from_code(code: u8, channel_id: u8) -> (reason: Option<DisconnectionReason>)
        ensures
            reason == reason_of_code(code, channel_id),
    {
        if code <= 2 {
            if channel_id != 0 {
                None
            } else if code == 0 {
                Some(DisconnectionReason::DisconnectedByClient)
            } else if code == 1 {
                Some(DisconnectionReason::DisconnectedByServer)
            } else {
                Some(DisconnectionReason::Timeout)
            }
        } else {
            let error = if code == 3 {
                ChannelError::SendQueueFull
            } else if code == 4 {
                ChannelError::ReceiveQueueFull
            } else if code == 5 {
                ChannelError::BlockInProgress
            } else if code == 6 {
                ChannelError::FragmentOverflow
            } else if code == 7 {
                ChannelError::UnknownChannel
            } else if code == 8 {
                ChannelError::OversizedMessage
            } else {
                return None;
            };
            Some(DisconnectionReason::Channel { channel_id, error })
        }
    }
}

/// Every reason is read back from its two bytes.
pub proof fn lemma_reason_round_trip(reason: DisconnectionReason)
    ensures
        reason_of_code(reason_code(reason).0, reason_code(reason).1) == Some(reason),
{
}

} // verus!
