//! The two queues between the server and the transport. The transport (a UDP
//! socket, a mock) puts the datagrams that arrived in the one and takes the
//! datagrams to send from the other; either end can be lost.
use crate::error::RenetError;
use std::collections::VecDeque;
use vstd::prelude::*;

verus! {

/// A datagram and the address of the remote end, as mathematical values.
pub type DatagramView = (Seq<char>, Seq<u8>);

/// The datagrams of `queue`, each by its view.
pub open spec fn datagram_views(queue: Seq<(String, Vec<u8>)>) -> Seq<DatagramView> {
    Seq::new(queue.len(), |i: int| (queue[i].0@, queue[i].1@))
}

/// A queue as a mathematical value.
pub struct QueueModel {
    /// The datagrams that wait, oldest first.
    pub queue: Seq<DatagramView>,
    /// Whether the other end is still there.
    pub connected: bool,
}

impl QueueModel {
    /// The queue after `datagrams` were sent into it: nothing is taken once
    /// the other end is gone.
    pub open spec fn sent(self, datagrams: Seq<DatagramView>) -> QueueModel {
        if self.connected {
            QueueModel { queue: self.queue + datagrams, ..self }
        } else {
            self
        }
    }

    /// What sending `datagrams` returns.
    pub open spec fn send_result(self, datagrams: Seq<DatagramView>) -> Result<(), RenetError> {
        if self.connected || datagrams.len() == 0 {
            Ok(())
        } else {
            Err(RenetError::SenderDisconnected)
        }
    }
}

/// Why nothing was received.
#[derive(Debug, Clone, Copy, PartialEq, Eq, Structural)]
pub enum TryRecvError {
    /// Nothing waits, but more may come.
    Empty,
    /// Nothing waits, and the transport is gone.
    Disconnected,
}

/// The queue of the datagrams to send.
pub struct PacketSender {
    queue: Vec<(String, Vec<u8>)>,
    connected: bool,
}

impl View for PacketSender {
    type V = QueueModel;

    closed spec fn view(&self) -> QueueModel {
        QueueModel { queue: datagram_views(self.queue@), connected: self.connected }
    }
}

impl PacketSender {
    /// An empty queue with the transport at its end.
    pub fn new() -> (sender: Self)
        ensures
            sender@ == (QueueModel { queue: Seq::empty(), connected: true }),
    {
        let sender = PacketSender { queue: Vec::new(), connected: true };
        assert(sender@.queue =~= Seq::empty());
        sender
    }

    pub fn is_connected(&self) -> (connected: bool)
        ensures
            connected == self@.connected,
    {
        self.connected
    }

    /// Queues a datagram for the transport.
    pub fn send(&mut self, datagram: (String, Vec<u8>)) -> (result: Result<(), RenetError>)
        ensures
            final(self)@ == old(self)@.sent(seq![(datagram.0@, datagram.1@)]),
            result == old(self)@.send_result(seq![(datagram.0@, datagram.1@)]),
    {
        if !self.connected {
            return Err(RenetError::SenderDisconnected);
        }
        let ghost before = datagram_views(self.queue@);
        self.queue.push(datagram);
        assert(datagram_views(self.queue@) =~= before + seq![(datagram.0@, datagram.1@)]);
        Ok(())
    }

    /// For the transport: takes every datagram that waits.
    pub fn take(&mut self) -> (datagrams: Vec<(String, Vec<u8>)>)
        ensures
            datagram_views(datagrams@) == old(self)@.queue,
            final(self)@ == (QueueModel { queue: Seq::empty(), ..old(self)@ }),
    {
        let mut datagrams: Vec<(String, Vec<u8>)> = Vec::new();
        core::mem::swap(&mut self.queue, &mut datagrams);
        assert(datagram_views(self.queue@) =~= Seq::empty());
        datagrams
    }

    /// For the transport: says that it is gone.
    pub fn disconnect(&mut self)
        ensures
            final(self)@ == (QueueModel { connected: false, ..old(self)@ }),
    {
        self.connected = false;
    }
}

/// The queue of the datagrams that arrived.
pub struct PacketReceiver {
    queue: VecDeque<(String, Vec<u8>)>,
    connected: bool,
}

impl View for PacketReceiver {
    type V = QueueModel;

    closed spec fn view(&self) -> QueueModel {
        QueueModel { queue: datagram_views(self.queue@), connected: self.connected }
    }
}

impl PacketReceiver {
    /// An empty queue with the transport at its end.
    pub fn new() -> (receiver: Self)
        ensures
            receiver@ == (QueueModel { queue: Seq::empty(), connected: true }),
    {
        let receiver = PacketReceiver { queue: VecDeque::new(), connected: true };
        assert(receiver@.queue =~= Seq::empty());
        receiver
    }

    /// For the transport: queues a datagram that arrived from `address`.
    pub fn deliver(&mut self, address: String, payload: Vec<u8>)
        ensures
            final(self)@ == (QueueModel {
                queue: old(self)@.queue.push((address@, payload@)),
                ..old(self)@
            }),
    {
        let ghost before = datagram_views(self.queue@);
        self.queue.push_back((address, payload));
        assert(datagram_views(self.queue@) =~= before.push((address@, payload@)));
    }

    /// For the transport: says that it is gone.
    pub fn disconnect(&mut self)
        ensures
            final(self)@ == (QueueModel { connected: false, ..old(self)@ }),
    {
        self.connected = false;
    }

    /// The oldest datagram that waits. What was queued before the transport
    /// went is still handed out.
    pub fn try_recv(&mut self) -> (result: Result<(String, Vec<u8>), TryRecvError>)
        ensures
            final(self)@.connected == old(self)@.connected,
            match result {
                Ok(datagram) => {
                    &&& old(self)@.queue.len() > 0
                    &&& (datagram.0@, datagram.1@) == old(self)@.queue[0]
                    &&& final(self)@.queue == old(self)@.queue.skip(1)
                },
                Err(e) => {
                    &&& old(self)@.queue.len() == 0
                    &&& final(self)@.queue == old(self)@.queue
                    &&& e == if old(self)@.connected {
                        TryRecvError::Empty
                    } else {
                        TryRecvError::Disconnected
                    }
                },
            },
    {
        let ghost before = datagram_views(self.queue@);
        match self.queue.pop_front() {
            Some(datagram) => {
                assert(datagram_views(self.queue@) =~= before.skip(1));
                Ok(datagram)
            },
            None => {
                if self.connected {
                    Err(TryRecvError::Empty)
                } else {
                    Err(TryRecvError::Disconnected)
                }
            },
        }
    }
}

} // verus!
