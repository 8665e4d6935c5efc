//! Client/server networking for real-time applications over unreliable
//! datagrams.
//!
//! Two layers work together. The session layer, which is `renetcode`,
//! establishes authenticated and encrypted sessions; [`session`] holds what
//! is taken on trust of it. The channel layer, which is verified here, runs
//! reliable, unreliable and block channels over each session:
//!
//! * [`packet`] is the wire format, [`sequence`] the arithmetic of sequence
//!   numbers, [`acks`] the bookkeeping of acknowledgements, [`fragment`] the
//!   cutting and joining of large packets;
//! * [`reliable`], [`unreliable`] and [`block`] are the three kinds of
//!   channel, [`channel`] and [`channels`] put them side by side;
//! * [`remote_connection`] is one endpoint of a connection, and
//!   [`channel_server`] the connections of a server, one for each client;
//! * [`network_info`] measures throughput, round-trip time and loss;
//! * [`server`] joins the two layers, between the queues of [`transport`].
//!
//! [`link`] shows what the channels are for: across a link that loses what
//! it likes, the messages and blocks handed out are the first that were
//! queued, in order, each once and unchanged.
//!
//! Time is counted in nanoseconds and enters only with the calls that
//! advance it. Ratios are counted in millionths.
use vstd::prelude::*;

pub mod acks;
pub mod block;
pub mod channel;
pub mod channel_server;
pub mod channels;
pub mod error;
pub mod fragment;
pub mod link;
pub mod network_info;
pub mod packet;
pub mod reliable;
pub mod remote_connection;
pub mod sequence;
pub mod server;
pub mod session;
pub mod transport;
pub mod unreliable;

verus! {

/// Number of `Disconnect` datagrams emitted back-to-back on teardown.
pub const NUM_DISCONNECT_PACKETS_TO_SEND: usize = 5;

} // verus!
