//! The reliable-ordered channel.
//!
//! The sender numbers its messages and sends each again until the packet that
//! carried it is acknowledged. The receiver holds back what arrives early and
//! hands the messages out in the order of their numbers, each once.
use crate::error::ChannelError;
use crate::packet::{
    copy_range, frame_views, frames_size, frames_wf, lemma_frames_push, Frame, FrameKind, FrameView,
    FRAME_HEADER_BYTES,
};
use crate::sequence::{seq_offset, seq_plus, sequence_after, sequence_offset, SEQUENCE_HALF};
use vstd::prelude::*;

verus! {

/// Options of one reliable channel. Both endpoints use the same.
#[derive(Debug, Clone, Copy)]
pub struct ReliableChannelConfig {
    pub channel_id: u8,
    /// How far the sender may run ahead of its oldest unacknowledged message.
    pub message_send_queue_size: usize,
    /// How far ahead of the next expected message the receiver holds messages.
    pub message_receive_queue_size: usize,
    /// Largest message, in bytes.
    pub max_message_size: usize,
    /// Most bytes of frames that the channel adds to one packet.
    pub packet_budget: usize,
    /// Nanoseconds after which an unacknowledged message is sent again.
    pub message_resend_time: u64,
}

impl ReliableChannelConfig {
    /// The default options of the channel `channel_id`.
    pub open spec fn defaults(channel_id: u8) -> ReliableChannelConfig {
        ReliableChannelConfig {
            channel_id,
            message_send_queue_size: 1024,
            message_receive_queue_size: 1024,
            max_message_size: 3000,
            packet_budget: 6000,
            message_resend_time: 300_000_000,
        }
    }

    /// Both windows hold a message at least, and together no more than half
    /// the span of the numbers, so that a number always tells a message that
    /// is still to come from one that has been handed out.
    pub open spec fn wf(&self) -> bool {
        &&& 0 < self.message_send_queue_size
        &&& 0 < self.message_receive_queue_size
        &&& self.message_send_queue_size + self.message_receive_queue_size <= SEQUENCE_HALF
        &&& self.max_message_size <= u16::MAX
    }

    /// The default options: queues of 1024 messages, messages of up to 3000
    /// bytes, 6000 bytes in a packet, 300 ms before a message is sent again.
    pub fn new(channel_id: u8) -> (config: Self)
        ensures
            config.wf(),
            config == (ReliableChannelConfig {
                channel_id,
                message_send_queue_size: 1024,
                message_receive_queue_size: 1024,
                max_message_size: 3000,
                packet_budget: 6000,
                message_resend_time: 300_000_000,
            }),
    {
        ReliableChannelConfig {
            channel_id,
            message_send_queue_size: 1024,
            message_receive_queue_size: 1024,
            max_message_size: 3000,
            packet_budget: 6000,
            message_resend_time: 300_000_000,
        }
    }
}

/// A message that waits for its acknowledgement.
#[derive(Debug)]
pub struct Outgoing {
    pub id: u16,
    pub payload: Vec<u8>,
    /// When the message was last put in a packet, if it ever was.
    pub last_sent: Option<u64>,
}

/// An [`Outgoing`] as a mathematical value.
pub struct OutgoingView {
    pub id: u16,
    pub payload: Seq<u8>,
    pub last_sent: Option<u64>,
}

impl View for Outgoing {
    type V = OutgoingView;

    open spec fn view(&self) -> OutgoingView {
        OutgoingView { id: self.id, payload: self.payload@, last_sent: self.last_sent }
    }
}

/// The messages of `queue`, each by its view.
pub open spec fn outgoing_views(queue: Seq<Outgoing>) -> Seq<OutgoingView> {
    Seq::new(queue.len(), |i: int| queue[i]@)
}

/// The places of `slots`, each by its view.
pub open spec fn slot_views(slots: Seq<Option<Vec<u8>>>) -> Seq<Option<Seq<u8>>> {
    Seq::new(
        slots.len(),
        |i: int|
            match slots[i] {
                Some(payload) => Some(payload@),
                None => None,
            },
    )
}

/// Whether the message is to be put in a packet at `now`: it never was, or
/// `resend` nanoseconds have passed since.
pub open spec fn is_due(e: OutgoingView, now: u64, resend: u64) -> bool {
    match e.last_sent {
        None => true,
        Some(t) => t + resend <= now,
    }
}

/// Bytes that the first `n` messages of `q` take of the budget, when each due
/// message that still fits is taken, in the order of the queue.
pub open spec fn spent(q: Seq<OutgoingView>, now: u64, resend: u64, budget: int, n: int) -> int
    decreases n,
{
    if n <= 0 {
        0
    } else {
        let before = spent(q, now, resend, budget, n - 1);
        let size = FRAME_HEADER_BYTES + q[n - 1].payload.len();
        if is_due(q[n - 1], now, resend) && before + size <= budget {
            before + size
        } else {
            before
        }
    }
}

/// Whether message `i` of `q` is taken.
pub open spec fn is_chosen(q: Seq<OutgoingView>, now: u64, resend: u64, budget: int, i: int) -> bool {
    is_due(q[i], now, resend) && spent(q, now, resend, budget, i) + FRAME_HEADER_BYTES
        + q[i].payload.len() <= budget
}

/// The frame that carries the message `e` on the channel `channel_id`.
pub open spec fn frame_of(channel_id: u8, e: OutgoingView) -> FrameView {
    FrameView {
        channel_id,
        kind: FrameKind::Reliable,
        id: e.id,
        slice_index: 0,
        slice_count: 0,
        payload: e.payload,
    }
}

/// The frames of the messages taken among the first `n` of `q`.
pub open spec fn collected(
    q: Seq<OutgoingView>,
    now: u64,
    resend: u64,
    budget: int,
    channel_id: u8,
    n: int,
) -> Seq<FrameView>
    decreases n,
{
    if n <= 0 {
        Seq::empty()
    } else {
        let before = collected(q, now, resend, budget, channel_id, n - 1);
        if is_chosen(q, now, resend, budget, n - 1) {
            before.push(frame_of(channel_id, q[n - 1]))
        } else {
            before
        }
    }
}

/// The queue `q` once every taken message was stamped with `now`.
pub open spec fn stamped(q: Seq<OutgoingView>, now: u64, resend: u64, budget: int) -> Seq<
    OutgoingView,
> {
    Seq::new(
        q.len(),
        |i: int|
            if is_chosen(q, now, resend, budget, i) {
                OutgoingView { last_sent: Some(now), ..q[i] }
            } else {
                q[i]
            },
    )
}

/// The queue `q` without its first message numbered `id`.
pub open spec fn without(q: Seq<OutgoingView>, id: u16) -> Seq<OutgoingView>
    decreases q.len(),
{
    if q.len() == 0 {
        q
    } else if q[0].id == id {
        q.skip(1)
    } else {
        seq![q[0]] + without(q.skip(1), id)
    }
}

proof fn lemma_without_at(q: Seq<OutgoingView>, id: u16, k: int)
    requires
        0 <= k <= q.len(),
        forall|j: int| 0 <= j < k ==> q[j].id != id,
        k < q.len() ==> q[k].id == id,
    ensures
        without(q, id) == if k < q.len() {
            q.remove(k)
        } else {
            q
        },
    decreases q.len(),
{
    if q.len() == 0 {
    } else if k == 0 {
        assert(q.skip(1) =~= q.remove(0));
    } else {
        let rest = q.skip(1);
        assert forall|j: int| 0 <= j < k - 1 implies rest[j].id != id by {
            assert(rest[j] == q[j + 1]);
        }
        lemma_without_at(rest, id, k - 1);
        if k < q.len() {
            assert(seq![q[0]] + rest.remove(k - 1) =~= q.remove(k));
        } else {
            assert(seq![q[0]] + rest =~= q);
        }
    }
}

/// The receiving half: the number of the next message to hand out, and the
/// messages held back, `slots[d]` being the one numbered `cursor + d`.
pub struct ReceiverModel {
    pub cursor: u16,
    pub slots: Seq<Option<Seq<u8>>>,
}

impl ReceiverModel {
    /// A receiver that holds nothing and expects the message 0.
    pub open spec fn fresh(window: nat) -> ReceiverModel {
        ReceiverModel { cursor: 0, slots: Seq::new(window, |i: int| None) }
    }

    /// Whether the message `id` lies ahead of everything the receiver holds.
    pub open spec fn overflows(self, id: u16) -> bool {
        self.slots.len() <= seq_offset(self.cursor, id) < SEQUENCE_HALF
    }

    /// The receiver after the message `id` arrived: it is kept if its place
    /// is within the window and empty, and dropped otherwise.
    pub open spec fn accept(self, id: u16, payload: Seq<u8>) -> ReceiverModel {
        let d = seq_offset(self.cursor, id);
        if d < self.slots.len() && self.slots[d] is None {
            ReceiverModel { slots: self.slots.update(d, Some(payload)), ..self }
        } else {
            self
        }
    }

    /// Whether the next message is there.
    pub open spec fn ready(self) -> bool {
        self.slots.len() > 0 && self.slots[0] is Some
    }

    /// The receiver after it handed out the next message.
    pub open spec fn deliver(self) -> ReceiverModel {
        ReceiverModel { cursor: seq_plus(self.cursor, 1), slots: self.slots.skip(1).push(None) }
    }
}

/// A reliable channel as a mathematical value.
pub struct ReliableModel {
    pub config: ReliableChannelConfig,
    /// The number that the next message gets.
    pub next_message_id: u16,
    /// The messages that wait for their acknowledgement, oldest first.
    pub outgoing: Seq<OutgoingView>,
    pub receiver: ReceiverModel,
    /// The error that the channel failed with, if it did.
    pub error: Option<ChannelError>,
}

impl ReliableModel {
    pub open spec fn wf(self) -> bool {
        &&& self.config.wf()
        &&& self.receiver.slots.len() == self.config.message_receive_queue_size
        &&& forall|i: int|
            0 <= i < self.outgoing.len() ==> (#[trigger] self.outgoing[i]).payload.len()
                <= self.config.max_message_size
    }

    pub open spec fn fresh(config: ReliableChannelConfig) -> ReliableModel {
        ReliableModel {
            config,
            next_message_id: 0,
            outgoing: Seq::empty(),
            receiver: ReceiverModel::fresh(config.message_receive_queue_size as nat),
            error: None,
        }
    }

    /// Whether one more message may be queued: the channel has not failed,
    /// and the next number is within the window that starts at the oldest
    /// unacknowledged message.
    pub open spec fn can_send(self) -> bool {
        &&& self.error is None
        &&& self.outgoing.len() < self.config.message_send_queue_size
        &&& (self.outgoing.len() > 0 ==> seq_offset(self.outgoing[0].id, self.next_message_id)
            < self.config.message_send_queue_size)
    }

    /// The error with which `payload` is refused, if it is.
    pub open spec fn send_error(self, payload: Seq<u8>) -> Option<ChannelError> {
        if self.error is Some {
            self.error
        } else if payload.len() > self.config.max_message_size {
            Some(ChannelError::OversizedMessage)
        } else if !self.can_send() {
            Some(ChannelError::SendQueueFull)
        } else {
            None
        }
    }

    /// The channel after `payload` was handed to it: queued under the next
    /// number, or the channel has failed.
    pub open spec fn send(self, payload: Seq<u8>) -> ReliableModel {
        match self.send_error(payload) {
            Some(e) => ReliableModel { error: Some(e), ..self },
            None => ReliableModel {
                next_message_id: seq_plus(self.next_message_id, 1),
                outgoing: self.outgoing.push(
                    OutgoingView { id: self.next_message_id, payload, last_sent: None },
                ),
                ..self
            },
        }
    }

    /// Bytes of frames that the channel may add to a packet with `available`
    /// bytes left.
    pub open spec fn budget(self, available: usize) -> int {
        if available < self.config.packet_budget {
            available as int
        } else {
            self.config.packet_budget as int
        }
    }

    /// The frames that the channel adds at `now` to a packet with `available`
    /// bytes left.
    pub open spec fn frames_to_send(self, now: u64, available: usize) -> Seq<FrameView> {
        collected(
            self.outgoing,
            now,
            self.config.message_resend_time,
            self.budget(available),
            self.config.channel_id,
            self.outgoing.len() as int,
        )
    }

    /// The channel after it added those frames.
    pub open spec fn after_sending(self, now: u64, available: usize) -> ReliableModel {
        ReliableModel {
            outgoing: stamped(
                self.outgoing,
                now,
                self.config.message_resend_time,
                self.budget(available),
            ),
            ..self
        }
    }

    /// The channel after the message `id` was acknowledged.
    pub open spec fn acked(self, id: u16) -> ReliableModel {
        ReliableModel { outgoing: without(self.outgoing, id), ..self }
    }

    /// The channel after the message `id` arrived.
    pub open spec fn received(self, id: u16, payload: Seq<u8>) -> ReliableModel {
        if self.error is Some {
            self
        } else if self.receiver.overflows(id) {
            ReliableModel { error: Some(ChannelError::ReceiveQueueFull), ..self }
        } else {
            ReliableModel { receiver: self.receiver.accept(id, payload), ..self }
        }
    }

    /// The message that the channel hands out next, if it is there.
    pub open spec fn next_message(self) -> Option<Seq<u8>> {
        if self.receiver.ready() {
            self.receiver.slots[0]
        } else {
            None
        }
    }

    /// The channel after it was asked for a message.
    pub open spec fn after_receive(self) -> ReliableModel {
        if self.receiver.ready() {
            ReliableModel { receiver: self.receiver.deliver(), ..self }
        } else {
            self
        }
    }
}

/// A copy of `bytes`.
pub fn clone_bytes(bytes: &Vec<u8>) -> (copy: Vec<u8>)
    ensures
        copy@ == bytes@,
{
    let copy = copy_range(bytes.as_slice(), 0, bytes.len());
    assert(bytes@.subrange(0, bytes@.len() as int) =~= bytes@);
    copy
}

/// Takes from `queue` the due messages that fit in `budget` bytes, stamps
/// them with `now` and returns their frames.
fn collect_due(queue: &mut Vec<Outgoing>, channel_id: u8, now: u64, resend: u64, budget: usize) -> (frames:
    Vec<Frame>)
    requires
        forall|i: int|
            0 <= i < old(queue)@.len() ==> (#[trigger] old(queue)@[i]).payload@.len() <= u16::MAX,
    ensures
        frame_views(frames@) == collected(
            outgoing_views(old(queue)@),
            now,
            resend,
            budget as int,
            channel_id,
            old(queue)@.len() as int,
        ),
        outgoing_views(final(queue)@) == stamped(
            outgoing_views(old(queue)@),
            now,
            resend,
            budget as int,
        ),
        frames_wf(frame_views(frames@)),
        frames_size(frame_views(frames@)) <= budget,
{
    let ghost q0 = outgoing_views(queue@);
    let n = queue.len();
    let mut frames: Vec<Frame> = Vec::new();
    let mut used: usize = 0;
    let mut i: usize = 0;
    while i < n
        invariant
            i <= n,
            n == queue@.len(),
            q0.len() == n,
            used <= budget,
            used == spent(q0, now, resend, budget as int, i as int),
            frame_views(frames@) == collected(q0, now, resend, budget as int, channel_id, i as int),
            frames_wf(frame_views(frames@)),
            frames_size(frame_views(frames@)) == used,
            forall|j: int| 0 <= j < n ==> (#[trigger] q0[j]).payload.len() <= u16::MAX,
            forall|j: int|
                0 <= j < n ==> (#[trigger] queue@[j])@ == if j < i && is_chosen(
                    q0,
                    now,
                    resend,
                    budget as int,
                    j,
                ) {
                    OutgoingView { last_sent: Some(now), ..q0[j] }
                } else {
                    q0[j]
                },
        decreases n - i,
    {
        assert(queue@[i as int]@ == q0[i as int]);
        let due = match queue[i].last_sent {
            None => true,
            Some(t) => now >= t && now - t >= resend,
        };
        let size = FRAME_HEADER_BYTES + queue[i].payload.len();
        if due && size <= budget - used {
            let payload = clone_bytes(&queue[i].payload);
            let frame = Frame {
                channel_id,
                kind: FrameKind::Reliable,
                id: queue[i].id,
                slice_index: 0,
                slice_count: 0,
                payload,
            };
            assert(frame@ == frame_of(channel_id, q0[i as int]));
            proof {
                assert(frame_views(frames@.push(frame)) =~= frame_views(frames@).push(frame@));
                lemma_frames_push(frame_views(frames@), frame@);
            }
            frames.push(frame);
            stamp(queue, i, now);
            used = used + size;
        }
        i = i + 1;
    }
    assert(outgoing_views(queue@) =~= stamped(q0, now, resend, budget as int));
    frames
}

/// Notes that message `i` of `queue` was put in a packet at `now`.
fn stamp(queue: &mut Vec<Outgoing>, i: usize, now: u64)
    requires
        i < old(queue)@.len(),
    ensures
        final(queue)@.len() == old(queue)@.len(),
        forall|j: int| 0 <= j < old(queue)@.len() && j != i ==> final(queue)@[j] == old(queue)@[j],
        final(queue)@[i as int]@ == (OutgoingView {
            last_sent: Some(now),
            ..old(queue)@[i as int]@
        }),
{
    let entry = queue.remove(i);
    let stamped = Outgoing { id: entry.id, payload: entry.payload, last_sent: Some(now) };
    queue.insert(i, stamped);
}

/// Takes the first message numbered `id` out of `queue`.
fn remove_acked(queue: &mut Vec<Outgoing>, id: u16)
    ensures
        outgoing_views(final(queue)@) == without(outgoing_views(old(queue)@), id),
        final(queue)@.len() <= old(queue)@.len(),
        forall|i: int|
            0 <= i < final(queue)@.len() ==> #[trigger] final(queue)@[i] == old(queue)@[i] || (i
                + 1 < old(queue)@.len() && final(queue)@[i] == old(queue)@[i + 1]),
{
    let ghost q0 = outgoing_views(queue@);
    let n = queue.len();
    let mut i: usize = 0;
    while i < n
        invariant
            i <= n,
            n == queue@.len(),
            queue@ == old(queue)@,
            q0 == outgoing_views(queue@),
            forall|j: int| 0 <= j < i ==> q0[j].id != id,
        decreases n - i,
    {
        if queue[i].id == id {
            proof {
                lemma_without_at(q0, id, i as int);
            }
            let _ = queue.remove(i);
            assert(outgoing_views(queue@) =~= q0.remove(i as int));
            return ;
        }
        i = i + 1;
    }
    proof {
        lemma_without_at(q0, id, n as int);
    }
}

/// One reliable channel of a connection.
pub struct ReliableChannel {
    config: ReliableChannelConfig,
    next_message_id: u16,
    outgoing: Vec<Outgoing>,
    cursor: u16,
    slots: Vec<Option<Vec<u8>>>,
    error: Option<ChannelError>,
}

impl View for ReliableChannel {
    type V = ReliableModel;

    closed spec fn view(&self) -> ReliableModel {
        ReliableModel {
            config: self.config,
            next_message_id: self.next_message_id,
            outgoing: outgoing_views(self.outgoing@),
            receiver: ReceiverModel { cursor: self.cursor, slots: slot_views(self.slots@) },
            error: self.error,
        }
    }
}

impl ReliableChannel {
    /// The channel's invariant; see [`ReliableModel::wf`].
    pub open spec fn wf(&self) -> bool {
        self@.wf()
    }

    pub fn new(config: ReliableChannelConfig) -> (channel: Self)
        requires
            config.wf(),
        ensures
            channel.wf(),
            channel@ == ReliableModel::fresh(config),
    {
        let mut slots: Vec<Option<Vec<u8>>> = Vec::new();
        let mut i: usize = 0;
        while i < config.message_receive_queue_size
            invariant
                i <= config.message_receive_queue_size,
                slots@.len() == i,
                forall|j: int| 0 <= j < i ==> slots@[j] is None,
            decreases config.message_receive_queue_size - i,
        {
            slots.push(None);
            i = i + 1;
        }
        let channel = ReliableChannel {
            config,
            next_message_id: 0,
            outgoing: Vec::new(),
            cursor: 0,
            slots,
            error: None,
        };
        assert(channel@.receiver.slots =~= ReceiverModel::fresh(
            config.message_receive_queue_size as nat,
        ).slots);
        assert(channel@.outgoing =~= Seq::empty());
        channel
    }

    pub fn channel_id(&self) -> (id: u8)
        ensures
            id == self@.config.channel_id,
    {
        self.config.channel_id
    }

    /// The error that the channel failed with, if it did.
    pub fn error(&self) -> (error: Option<ChannelError>)
        ensures
            error == self@.error,
    {
        self.error
    }

    pub fn can_send_message(&self) -> (can: bool)
        ensures
            can == self@.can_send(),
    {
        if self.error.is_some() {
            return false;
        }
        if self.outgoing.len() >= self.config.message_send_queue_size {
            return false;
        }
        if self.outgoing.len() > 0 {
            assert(self.outgoing@[0]@ == self@.outgoing[0]);
            let ahead = sequence_offset(self.outgoing[0].id, self.next_message_id);
            if ahead as usize >= self.config.message_send_queue_size {
                return false;
            }
        }
        true
    }

    /// Queues `payload` under the next number. A message that is too large,
    /// or one for which the queue has no room, makes the channel fail.
    pub fn send_message(&mut self, payload: Vec<u8>) -> (result: Result<(), ChannelError>)
        requires
            old(self).wf(),
        ensures
            final(self).wf(),
            final(self)@ == old(self)@.send(payload@),
            result == match old(self)@.send_error(payload@) {
                Some(e) => Err::<(), ChannelError>(e),
                None => Ok(()),
            },
    {
        if let Some(e) = self.error {
            return Err(e);
        }
        if payload.len() > self.config.max_message_size {
            self.error = Some(ChannelError::OversizedMessage);
            return Err(ChannelError::OversizedMessage);
        }
        if !self.can_send_message() {
            self.error = Some(ChannelError::SendQueueFull);
            return Err(ChannelError::SendQueueFull);
        }
        let id = self.next_message_id;
        let ghost before = self.outgoing@;
        let entry = Outgoing { id, payload, last_sent: None };
        self.outgoing.push(entry);
        self.next_message_id = sequence_after(id);
        assert(outgoing_views(self.outgoing@) =~= outgoing_views(before).push(
            OutgoingView { id, payload: payload@, last_sent: None },
        ));
        Ok(())
    }

    /// The frames to put in a packet that is made at `now` and has
    /// `available` bytes left: the messages never sent and those whose last
    /// sending is `message_resend_time` old, oldest first, as far as they fit.
    pub fn get_frames_to_send(&mut self, now: u64, available: usize) -> (frames: Vec<Frame>)
        requires
            old(self).wf(),
        ensures
            final(self).wf(),
            frame_views(frames@) == old(self)@.frames_to_send(now, available),
            final(self)@ == old(self)@.after_sending(now, available),
            frames_wf(frame_views(frames@)),
            frames_size(frame_views(frames@)) <= available,
    {
        let budget = if available < self.config.packet_budget {
            available
        } else {
            self.config.packet_budget
        };
        assert forall|i: int| 0 <= i < self.outgoing@.len() implies (
        #[trigger] self.outgoing@[i]).payload@.len() <= u16::MAX by {
            assert(self@.outgoing[i].payload == self.outgoing@[i].payload@);
        }
        let frames = collect_due(
            &mut self.outgoing,
            self.config.channel_id,
            now,
            self.config.message_resend_time,
            budget,
        );
        assert forall|i: int| 0 <= i < self@.outgoing.len() implies (
        #[trigger] self@.outgoing[i]).payload.len() <= self.config.max_message_size by {
            assert(self@.outgoing[i].payload == old(self)@.outgoing[i].payload);
        }
        frames
    }

    /// Forgets the message `id`: the packet that carried it has arrived.
    pub fn process_ack(&mut self, id: u16)
        requires
            old(self).wf(),
        ensures
            final(self).wf(),
            final(self)@ == old(self)@.acked(id),
    {
        let ghost limit = self.config.max_message_size as int;
        assert forall|i: int| 0 <= i < self.outgoing@.len() implies (
        #[trigger] self.outgoing@[i]).payload@.len() <= limit by {
            assert(self@.outgoing[i].payload == self.outgoing@[i].payload@);
        }
        let ghost before = self.outgoing@;
        remove_acked(&mut self.outgoing, id);
        assert forall|i: int| 0 <= i < self@.outgoing.len() implies (
        #[trigger] self@.outgoing[i]).payload.len() <= self.config.max_message_size by {
            assert(self@.outgoing[i].payload == self.outgoing@[i].payload@);
            assert(before[i].payload@.len() <= limit);
            if i + 1 < before.len() {
                assert(before[i + 1].payload@.len() <= limit);
            }
        }
    }

    /// Takes in the message `id` that a packet brought. A message that lies
    /// ahead of the window makes the channel fail; one that was handed out
    /// before, or is held already, is dropped.
    pub fn process_message(&mut self, id: u16, payload: Vec<u8>) -> (result: Result<
        (),
        ChannelError,
    >)
        requires
            old(self).wf(),
        ensures
            final(self).wf(),
            final(self)@ == old(self)@.received(id, payload@),
            result == match final(self)@.error {
                Some(e) => Err::<(), ChannelError>(e),
                None => Ok(()),
            },
    {
        if let Some(e) = self.error {
            return Err(e);
        }
        let d = sequence_offset(self.cursor, id) as usize;
        if d < self.slots.len() {
            if self.slots[d].is_none() {
                let ghost before = self.slots@;
                self.slots.set(d, Some(payload));
                assert(slot_views(self.slots@) =~= slot_views(before).update(
                    d as int,
                    Some(payload@),
                ));
            }
            Ok(())
        } else if d < SEQUENCE_HALF as usize {
            self.error = Some(ChannelError::ReceiveQueueFull);
            Err(ChannelError::ReceiveQueueFull)
        } else {
            Ok(())
        }
    }

    /// Hands out the next message, if it has arrived.
    pub fn receive_message(&mut self) -> (message: Option<Vec<u8>>)
        requires
            old(self).wf(),
        ensures
            final(self).wf(),
            final(self)@ == old(self)@.after_receive(),
            match message {
                Some(m) => old(self)@.next_message() == Some(m@),
                None => old(self)@.next_message() is None,
            },
    {
        if self.slots.len() == 0 || self.slots[0].is_none() {
            return None;
        }
        let ghost before = self.slots@;
        let first = self.slots.remove(0);
        self.slots.push(None);
        self.cursor = sequence_after(self.cursor);
        assert(slot_views(self.slots@) =~= slot_views(before).skip(1).push(None));
        first
    }
}

/// What happens to a receiver: the message numbered `index` in the order of
/// sending arrives, or the application asks for a message.
pub enum ReceiverStep {
    Arrive { index: nat },
    Take,
}

/// A receiver, and what it has handed out so far.
pub struct ReceiverRun {
    pub state: ReceiverModel,
    pub delivered: Seq<Seq<u8>>,
}

/// The outcome of `steps` on a fresh receiver, where `sent` are the messages
/// in the order in which the peer queued them: message `index` travels under
/// the number `index % 65536`.
pub open spec fn receiver_run(window: nat, sent: Seq<Seq<u8>>, steps: Seq<ReceiverStep>) -> ReceiverRun
    decreases steps.len(),
{
    if steps.len() == 0 {
        ReceiverRun { state: ReceiverModel::fresh(window), delivered: Seq::empty() }
    } else {
        let before = receiver_run(window, sent, steps.drop_last());
        match steps.last() {
            ReceiverStep::Arrive { index } => ReceiverRun {
                state: before.state.accept((index % 65536) as u16, sent[index as int]),
                ..before
            },
            ReceiverStep::Take => if before.state.ready() {
                ReceiverRun {
                    state: before.state.deliver(),
                    delivered: before.delivered.push(before.state.slots[0].unwrap()),
                }
            } else {
                before
            },
        }
    }
}

/// Whether every arrival of `steps` brings a message that was sent, and
/// brings it in time: less than half the span of the numbers after the
/// receiver handed out its predecessors, and less than a whole span before.
pub open spec fn timely(window: nat, sent: Seq<Seq<u8>>, steps: Seq<ReceiverStep>) -> bool
    decreases steps.len(),
{
    steps.len() == 0 || {
        &&& timely(window, sent, steps.drop_last())
        &&& match steps.last() {
            ReceiverStep::Arrive { index } => {
                let handed = receiver_run(window, sent, steps.drop_last()).delivered.len();
                index < sent.len() && handed <= index + SEQUENCE_HALF && index < handed + 65536
            },
            ReceiverStep::Take => true,
        }
    }
}

/// What a run keeps true: the receiver has handed out the first messages of
/// `sent`, in order, and holds later ones at their places.
pub open spec fn in_order(run: ReceiverRun, window: nat, sent: Seq<Seq<u8>>) -> bool {
    let handed = run.delivered.len() as int;
    &&& handed <= sent.len()
    &&& run.delivered == sent.subrange(0, handed)
    &&& run.state.cursor == handed % 65536
    &&& run.state.slots.len() == window
    &&& forall|d: int|
        0 <= d < window && (#[trigger] run.state.slots[d]) is Some ==> handed + d < sent.len()
            && run.state.slots[d] == Some(sent[handed + d])
}

proof fn lemma_run_in_order(window: nat, sent: Seq<Seq<u8>>, steps: Seq<ReceiverStep>)
    requires
        0 < window <= SEQUENCE_HALF,
        timely(window, sent, steps),
    ensures
        in_order(receiver_run(window, sent, steps), window, sent),
    decreases steps.len(),
{
    let run = receiver_run(window, sent, steps);
    if steps.len() == 0 {
        assert(run.delivered =~= sent.subrange(0, 0));
    } else {
        lemma_run_in_order(window, sent, steps.drop_last());
        let before = receiver_run(window, sent, steps.drop_last());
        let handed = before.delivered.len() as int;
        match steps.last() {
            ReceiverStep::Arrive { index } => {
                let id = (index % 65536) as u16;
                let d = seq_offset(before.state.cursor, id);
                if d < window && before.state.slots[d] is None {
                    assert(index == handed + d);
                    assert forall|e: int|
                        0 <= e < window && (#[trigger] run.state.slots[e]) is Some implies handed
                        + e < sent.len() && run.state.slots[e] == Some(sent[handed + e]) by {
                        if e != d {
                            assert(run.state.slots[e] == before.state.slots[e]);
                        }
                    }
                }
            },
            ReceiverStep::Take => {
                if before.state.ready() {
                    assert(before.state.slots[0] is Some);
                    assert(run.delivered =~= sent.subrange(0, handed + 1));
                    assert forall|e: int|
                        0 <= e < window && (#[trigger] run.state.slots[e]) is Some implies handed
                        + 1 + e < sent.len() && run.state.slots[e] == Some(sent[handed + 1 + e]) by {
                        assert(e + 1 < window);
                        assert(run.state.slots[e] == before.state.slots[e + 1]);
                    }
                }
            },
        }
    }
}

/// Whatever is lost, repeated or out of order among the arrivals, as long as
/// each is timely: what the receiver hands out is a prefix of what the peer
/// queued, so no message is handed out twice and none out of turn.
pub proof fn lemma_delivery_is_prefix(window: nat, sent: Seq<Seq<u8>>, steps: Seq<ReceiverStep>)
    requires
        0 < window <= SEQUENCE_HALF,
        timely(window, sent, steps),
    ensures
        receiver_run(window, sent, steps).delivered.is_prefix_of(sent),
{
    lemma_run_in_order(window, sent, steps);
}

/// Index of the first message of `q` numbered `id`, or the length of `q` if
/// none is.
pub open spec fn first_numbered(q: Seq<OutgoingView>, id: u16) -> int
    decreases q.len(),
{
    if q.len() == 0 {
        0
    } else if q[0].id == id {
        0
    } else {
        1 + first_numbered(q.skip(1), id)
    }
}

/// Taking the message `id` out of the queue takes out the first message
/// with that number.
pub proof fn lemma_first_numbered(q: Seq<OutgoingView>, id: u16)
    ensures
        0 <= first_numbered(q, id) <= q.len(),
        without(q, id) == if first_numbered(q, id) < q.len() {
            q.remove(first_numbered(q, id))
        } else {
            q
        },
    decreases q.len(),
{
    if q.len() > 0 {
        if q[0].id == id {
            assert(q.skip(1) =~= q.remove(0));
        } else {
            let rest = q.skip(1);
            lemma_first_numbered(rest, id);
            let k = first_numbered(rest, id);
            if k < rest.len() {
                assert(seq![q[0]] + rest.remove(k) =~= q.remove(k + 1));
            } else {
                assert(seq![q[0]] + rest =~= q);
            }
        }
    }
}

/// What happens to a sender: the application hands it a message, a packet is
/// filled at `now`, or the acknowledgement of the message `id` arrives.
pub enum SenderStep {
    Send { payload: Seq<u8> },
    Collect { now: u64, available: usize },
    Ack { id: u16 },
}

/// A frame that left the sender, and how many messages the sender had taken
/// by then.
pub struct Emission {
    pub frame: FrameView,
    pub taken: nat,
}

/// A sender, the messages that it has taken so far, the place of each
/// waiting message among them, and the frames that it has emitted.
pub struct SenderRun {
    pub state: ReliableModel,
    pub taken: Seq<Seq<u8>>,
    pub places: Seq<nat>,
    pub emitted: Seq<Emission>,
}

/// The outcome of `steps` on a fresh channel with the options `config`.
pub open spec fn sender_run(config: ReliableChannelConfig, steps: Seq<SenderStep>) -> SenderRun
    decreases steps.len(),
{
    if steps.len() == 0 {
        SenderRun {
            state: ReliableModel::fresh(config),
            taken: Seq::empty(),
            places: Seq::empty(),
            emitted: Seq::empty(),
        }
    } else {
        let before = sender_run(config, steps.drop_last());
        match steps.last() {
            SenderStep::Send { payload } => if before.state.send_error(payload) is None {
                SenderRun {
                    state: before.state.send(payload),
                    taken: before.taken.push(payload),
                    places: before.places.push(before.taken.len()),
                    ..before
                }
            } else {
                SenderRun { state: before.state.send(payload), ..before }
            },
            SenderStep::Collect { now, available } => {
                let frames = before.state.frames_to_send(now, available);
                SenderRun {
                    state: before.state.after_sending(now, available),
                    emitted: before.emitted + Seq::new(
                        frames.len(),
                        |i: int| Emission { frame: frames[i], taken: before.taken.len() },
                    ),
                    ..before
                }
            },
            SenderStep::Ack { id } => {
                let k = first_numbered(before.state.outgoing, id);
                SenderRun {
                    state: before.state.acked(id),
                    places: if k < before.places.len() {
                        before.places.remove(k)
                    } else {
                        before.places
                    },
                    ..before
                }
            },
        }
    }
}

/// Whether the frame carries the message at the place `place` of `taken`
/// under its number, and that message was among the last `window` taken
/// when the frame left.
pub open spec fn carries(e: Emission, taken: Seq<Seq<u8>>, place: nat, window: nat) -> bool {
    &&& place < e.taken <= taken.len()
    &&& e.taken <= place + window
    &&& e.frame.kind == FrameKind::Reliable
    &&& e.frame.id == place % 65536
    &&& e.frame.payload == taken[place as int]
}

/// Whether the frame carries one of the messages of `taken`; see [`carries`].
pub open spec fn carries_one(e: Emission, taken: Seq<Seq<u8>>, window: nat) -> bool {
    exists|place: nat| carries(e, taken, place, window)
}

/// What a run keeps true of the waiting messages and of the emitted frames.
pub open spec fn sender_in_order(run: SenderRun, config: ReliableChannelConfig) -> bool {
    let q = run.state.outgoing;
    let window = config.message_send_queue_size as nat;
    &&& run.state.config == config
    &&& run.state.next_message_id == run.taken.len() % 65536
    &&& run.places.len() == q.len()
    &&& forall|i: int|
        0 <= i < q.len() ==> (#[trigger] run.places[i]) < run.taken.len() && run.taken.len()
            <= run.places[i] + window && q[i].id == run.places[i] % 65536 && q[i].payload
            == run.taken[run.places[i] as int]
    &&& forall|i: int, j: int|
        0 <= i < j < q.len() ==> (#[trigger] run.places[i]) < (#[trigger] run.places[j])
    &&& forall|j: int|
        0 <= j < run.emitted.len() ==> carries_one(#[trigger] run.emitted[j], run.taken, window)
}

/// Every frame taken is the frame of one of the waiting messages.
pub proof fn lemma_collected_from_queue(
    q: Seq<OutgoingView>,
    now: u64,
    resend: u64,
    budget: int,
    channel_id: u8,
    n: int,
)
    requires
        0 <= n <= q.len(),
    ensures
        forall|j: int|
            0 <= j < collected(q, now, resend, budget, channel_id, n).len() ==> exists|i: int|
                0 <= i < n && #[trigger] collected(q, now, resend, budget, channel_id, n)[j]
                    == frame_of(channel_id, q[i]),
    decreases n,
{
    if n > 0 {
        lemma_collected_from_queue(q, now, resend, budget, channel_id, n - 1);
        let before = collected(q, now, resend, budget, channel_id, n - 1);
        let all = collected(q, now, resend, budget, channel_id, n);
        assert forall|j: int| 0 <= j < all.len() implies exists|i: int|
            0 <= i < n && #[trigger] all[j] == frame_of(channel_id, q[i]) by {
            if j < before.len() {
                let i = choose|i: int| 0 <= i < n - 1 && before[j] == frame_of(channel_id, q[i]);
                assert(all[j] == frame_of(channel_id, q[i]));
            } else {
                assert(all[j] == frame_of(channel_id, q[n - 1]));
            }
        }
    }
}

proof fn lemma_sender_in_order(config: ReliableChannelConfig, steps: Seq<SenderStep>)
    requires
        config.wf(),
    ensures
        sender_in_order(sender_run(config, steps), config),
    decreases steps.len(),
{
    let run = sender_run(config, steps);
    let window = config.message_send_queue_size as nat;
    if steps.len() > 0 {
        lemma_sender_in_order(config, steps.drop_last());
        let before = sender_run(config, steps.drop_last());
        let q = before.state.outgoing;
        let count = before.taken.len();
        match steps.last() {
            SenderStep::Send { payload } => {
                if before.state.send_error(payload) is None {
                    if q.len() > 0 {
                        assert(before.places[0] < count);
                        crate::sequence::lemma_offset_of_counts(before.places[0], count);
                    }
                    assert forall|i: int| 0 <= i < run.state.outgoing.len() implies (
                    #[trigger] run.places[i]) < run.taken.len() && run.taken.len() <= run.places[i]
                        + window && run.state.outgoing[i].id == run.places[i] % 65536
                        && run.state.outgoing[i].payload == run.taken[run.places[i] as int] by {
                        if i < q.len() {
                            assert(before.places[i] < count);
                            if i > 0 {
                                assert(before.places[0] < before.places[i]);
                            }
                        }
                    }
                    assert forall|i: int, j: int| 0 <= i < j < run.state.outgoing.len() implies (
                    #[trigger] run.places[i]) < (#[trigger] run.places[j]) by {
                        if j < q.len() {
                            assert(before.places[i] < before.places[j]);
                        } else {
                            assert(before.places[i] < count);
                        }
                    }
                    assert forall|j: int| 0 <= j < run.emitted.len() implies carries_one(
                        #[trigger] run.emitted[j],
                        run.taken,
                        window,
                    ) by {
                        assert(carries_one(before.emitted[j], before.taken, window));
                        let place = choose|place: nat|
                            carries(before.emitted[j], before.taken, place, window);
                        assert(carries(run.emitted[j], run.taken, place, window));
                    }
                }
            },
            SenderStep::Collect { now, available } => {
                let budget = before.state.budget(available);
                let resend = config.message_resend_time;
                lemma_collected_from_queue(q, now, resend, budget, config.channel_id, q.len() as int);
                let frames = before.state.frames_to_send(now, available);
                assert forall|i: int| 0 <= i < run.state.outgoing.len() implies (
                #[trigger] run.places[i]) < run.taken.len() && run.taken.len() <= run.places[i]
                    + window && run.state.outgoing[i].id == run.places[i] % 65536
                    && run.state.outgoing[i].payload == run.taken[run.places[i] as int] by {
                    assert(before.places[i] < count);
                }
                assert forall|j: int| 0 <= j < run.emitted.len() implies carries_one(
                    #[trigger] run.emitted[j],
                    run.taken,
                    window,
                ) by {
                    if j < before.emitted.len() {
                        assert(carries_one(before.emitted[j], before.taken, window));
                        let place = choose|place: nat|
                            carries(before.emitted[j], before.taken, place, window);
                        assert(carries(run.emitted[j], run.taken, place, window));
                    } else {
                        let f = frames[j - before.emitted.len()];
                        let i = choose|i: int| 0 <= i < q.len() && f == frame_of(config.channel_id, q[i]);
                        assert(before.places[i] < count);
                        assert(carries(run.emitted[j], run.taken, before.places[i], window));
                    }
                }
            },
            SenderStep::Ack { id } => {
                lemma_first_numbered(q, id);
                let k = first_numbered(q, id);
                if k < q.len() {
                    assert forall|i: int| 0 <= i < run.state.outgoing.len() implies (
                    #[trigger] run.places[i]) < run.taken.len() && run.taken.len()
                        <= run.places[i] + window && run.state.outgoing[i].id == run.places[i]
                        % 65536 && run.state.outgoing[i].payload == run.taken[run.places[i] as int] by {
                        let a = if i < k {
                            i
                        } else {
                            i + 1
                        };
                        assert(before.places[a] < count);
                    }
                    assert forall|i: int, j: int| 0 <= i < j < run.state.outgoing.len() implies (
                    #[trigger] run.places[i]) < (#[trigger] run.places[j]) by {
                        let a = if i < k {
                            i
                        } else {
                            i + 1
                        };
                        let b = if j < k {
                            j
                        } else {
                            j + 1
                        };
                        assert(before.places[a] < before.places[b]);
                    }
                }
                assert forall|j: int| 0 <= j < run.emitted.len() implies carries_one(
                    #[trigger] run.emitted[j],
                    run.taken,
                    window,
                ) by {
                    assert(carries_one(before.emitted[j], before.taken, window));
                    let place = choose|place: nat|
                        carries(before.emitted[j], before.taken, place, window);
                    assert(carries(run.emitted[j], run.taken, place, window));
                }
            },
        }
    }
}

/// Whatever the application sends and whatever is acknowledged: the numbers
/// are given out in the order of sending, and every frame that leaves the
/// channel carries, under its number, one of the last
/// `message_send_queue_size` messages that the channel had taken by then. So
/// what reaches the peer is what [`receiver_run`] expects to arrive.
pub proof fn lemma_frames_carry_what_was_sent(config: ReliableChannelConfig, steps: Seq<SenderStep>)
    requires
        config.wf(),
    ensures
        sender_run(config, steps).state.next_message_id == sender_run(config, steps).taken.len()
            % 65536,
        forall|j: int|
            0 <= j < sender_run(config, steps).emitted.len() ==> carries_one(
                #[trigger] sender_run(config, steps).emitted[j],
                sender_run(config, steps).taken,
                config.message_send_queue_size as nat,
            ),
{
    lemma_sender_in_order(config, steps);
}

} // verus!
