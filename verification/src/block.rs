//! The block channel, for messages larger than a packet.
//!
//! The sender cuts one block at a time into slices of a fixed size and sends
//! each slice again until it is acknowledged; the blocks queued meanwhile
//! wait. The receiver gathers the slices and hands the block out once all of
//! them have arrived.
use crate::error::ChannelError;
use crate::packet::{
    copy_range, frame_views, frames_size, frames_wf, lemma_frames_push, Frame, FrameKind, FrameView,
    FRAME_HEADER_BYTES,
};
use crate::reliable::slot_views;
use crate::sequence::{seq_plus, sequence_after};
use crate::unreliable::byte_views;
use std::collections::VecDeque;
use vstd::prelude::*;

verus! {

/// Options of one block channel. Both endpoints use the same.
#[derive(Debug, Clone, Copy)]
pub struct BlockChannelConfig {
    pub channel_id: u8,
    /// Bytes of every slice but the last of a block.
    pub slice_size: usize,
    /// Largest block, in bytes.
    pub max_message_size: usize,
    /// Most blocks that wait behind the one being sent.
    pub message_send_queue_size: usize,
    /// Most whole blocks that wait for the application.
    pub message_receive_queue_size: usize,
    /// Most bytes of frames that the channel adds to one packet.
    pub packet_budget: usize,
    /// Nanoseconds after which an unacknowledged slice is sent again.
    pub resend_time: u64,
}

impl BlockChannelConfig {
    /// The default options of the channel `channel_id`.
    pub open spec fn defaults(channel_id: u8) -> BlockChannelConfig {
        BlockChannelConfig {
            channel_id,
            slice_size: 1135,
            max_message_size: 262144,
            message_send_queue_size: 8,
            message_receive_queue_size: 8,
            packet_budget: 4000,
            resend_time: 300_000_000,
        }
    }

    pub open spec fn wf(&self) -> bool {
        &&& 0 < self.slice_size <= u16::MAX
        &&& self.max_message_size <= u32::MAX
    }

    /// The default options: slices of 1135 bytes, blocks of up to 256 KiB,
    /// queues of 8 blocks, 4000 bytes in a packet, 300 ms before a slice is
    /// sent again.
    pub fn new(channel_id: u8) -> (config: Self)
        ensures
            config.wf(),
            config == (BlockChannelConfig {
                channel_id,
                slice_size: 1135,
                max_message_size: 262144,
                message_send_queue_size: 8,
                message_receive_queue_size: 8,
                packet_budget: 4000,
                resend_time: 300_000_000,
            }),
    {
        BlockChannelConfig {
            channel_id,
            slice_size: 1135,
            max_message_size: 262144,
            message_send_queue_size: 8,
            message_receive_queue_size: 8,
            packet_budget: 4000,
            resend_time: 300_000_000,
        }
    }
}

/// Number of slices of a block of `len` bytes. An empty block has one slice,
/// which is empty.
pub open spec fn count_slices(len: int, slice_size: int) -> int {
    if len <= 0 {
        1
    } else {
        (len - 1) / slice_size + 1
    }
}

/// Slice `i` of `data`.
pub open spec fn slice_of(data: Seq<u8>, slice_size: int, i: int) -> Seq<u8> {
    let start = i * slice_size;
    let end = if start + slice_size <= data.len() {
        start + slice_size
    } else {
        data.len() as int
    };
    data.subrange(start, end)
}

/// The first `n` of `slices`, one after the other.
pub open spec fn joined(slices: Seq<Option<Seq<u8>>>, n: int) -> Seq<u8>
    decreases n,
{
    if n <= 0 {
        Seq::empty()
    } else {
        joined(slices, n - 1) + slices[n - 1].unwrap()
    }
}

/// Whether no slice is missing.
pub open spec fn all_present(slices: Seq<Option<Seq<u8>>>) -> bool {
    forall|i: int| 0 <= i < slices.len() ==> (#[trigger] slices[i]) is Some
}

/// Whether every slice is acknowledged.
pub open spec fn all_true(flags: Seq<bool>) -> bool {
    forall|i: int| 0 <= i < flags.len() ==> #[trigger] flags[i]
}

/// Where the slices of a block of `len` bytes lie: each begins inside the
/// block, and together they cover it.
pub proof fn lemma_slice_bounds(len: int, slice_size: int, i: int)
    requires
        0 <= len,
        0 < slice_size,
        0 <= i < count_slices(len, slice_size),
    ensures
        0 <= i * slice_size <= len,
        len > 0 ==> i * slice_size < len,
        1 <= count_slices(len, slice_size),
        len > 0 ==> count_slices(len, slice_size) <= len,
        len <= count_slices(len, slice_size) * slice_size,
        (i + 1) * slice_size == i * slice_size + slice_size,
{
    if len > 0 {
        let q = (len - 1) / slice_size;
        let r = (len - 1) % slice_size;
        assert(len - 1 == slice_size * q + r && 0 <= r < slice_size) by (nonlinear_arith)
            requires
                q == (len - 1) / slice_size,
                r == (len - 1) % slice_size,
                0 < slice_size,
                0 <= len - 1,
        ;
        assert(0 <= q) by (nonlinear_arith)
            requires
                len - 1 == slice_size * q + r,
                0 <= r < slice_size,
                0 <= len - 1,
                0 < slice_size,
        ;
        assert(0 <= i * slice_size <= q * slice_size) by (nonlinear_arith)
            requires
                0 <= i <= q,
                0 < slice_size,
        ;
        assert(q * slice_size == slice_size * q) by (nonlinear_arith);
        assert(q <= q * slice_size) by (nonlinear_arith)
            requires
                0 <= q,
                1 <= slice_size,
        ;
        assert((q + 1) * slice_size == q * slice_size + slice_size) by (nonlinear_arith);
    } else {
        assert(i == 0);
        assert(i * slice_size == 0);
        assert(1 * slice_size == slice_size);
    }
    assert((i + 1) * slice_size == i * slice_size + slice_size) by (nonlinear_arith);
}

/// A longer block has no fewer slices.
pub proof fn lemma_count_slices_monotonic(a: int, b: int, slice_size: int)
    requires
        0 <= a <= b,
        0 < slice_size,
    ensures
        count_slices(a, slice_size) <= count_slices(b, slice_size),
{
    if a > 0 {
        assert((a - 1) / slice_size <= (b - 1) / slice_size) by (nonlinear_arith)
            requires
                0 <= a - 1 <= b - 1,
                0 < slice_size,
        ;
    } else if b > 0 {
        assert(0 <= (b - 1) / slice_size) by (nonlinear_arith)
            requires
                0 <= b - 1,
                0 < slice_size,
        ;
    }
}

proof fn lemma_joined_prefix(data: Seq<u8>, slice_size: int, slices: Seq<Option<Seq<u8>>>, n: int)
    requires
        0 < slice_size,
        slices.len() == count_slices(data.len() as int, slice_size),
        0 <= n <= slices.len(),
        forall|i: int|
            0 <= i < slices.len() ==> #[trigger] slices[i] == Some(slice_of(data, slice_size, i)),
    ensures
        joined(slices, n) == data.subrange(
            0,
            if n * slice_size <= data.len() {
                n * slice_size
            } else {
                data.len() as int
            },
        ),
    decreases n,
{
    let len = data.len() as int;
    if n == 0 {
        assert(0 * slice_size == 0);
        assert(joined(slices, 0) =~= data.subrange(0, 0));
    } else {
        lemma_joined_prefix(data, slice_size, slices, n - 1);
        lemma_slice_bounds(len, slice_size, n - 1);
        let start = (n - 1) * slice_size;
        assert(n * slice_size == start + slice_size);
        assert(slices[n - 1] == Some(slice_of(data, slice_size, n - 1)));
        let end = if start + slice_size <= len {
            start + slice_size
        } else {
            len
        };
        assert(joined(slices, n - 1) == data.subrange(0, start));
        assert(data.subrange(0, start) + data.subrange(start, end) =~= data.subrange(0, end));
    }
}

/// The slices of a block, one after the other, are the block.
pub proof fn lemma_slices_join(data: Seq<u8>, slice_size: int, slices: Seq<Option<Seq<u8>>>)
    requires
        0 < slice_size,
        slices.len() == count_slices(data.len() as int, slice_size),
        forall|i: int|
            0 <= i < slices.len() ==> #[trigger] slices[i] == Some(slice_of(data, slice_size, i)),
    ensures
        joined(slices, slices.len() as int) == data,
{
    let len = data.len() as int;
    let n = slices.len() as int;
    lemma_joined_prefix(data, slice_size, slices, n);
    lemma_slice_bounds(len, slice_size, 0);
    assert(data.subrange(0, len) =~= data);
}

/// Whether slice `i` is to be put in a packet at `now`.
pub open spec fn slice_due(
    acked: Seq<bool>,
    last_sent: Seq<Option<u64>>,
    now: u64,
    resend: u64,
    i: int,
) -> bool {
    !acked[i] && match last_sent[i] {
        None => true,
        Some(t) => t + resend <= now,
    }
}

/// The block that is being sent, with what is known of each slice.
pub struct Sending {
    pub block_id: u16,
    pub data: Seq<u8>,
    pub acked: Seq<bool>,
    pub last_sent: Seq<Option<u64>>,
}

impl Sending {
    /// Bytes that the first `n` slices take of the budget, when each due
    /// slice that still fits is taken, in order.
    pub open spec fn spent(self, slice_size: int, now: u64, resend: u64, budget: int, n: int) -> int
        decreases n,
    {
        if n <= 0 {
            0
        } else {
            let before = self.spent(slice_size, now, resend, budget, n - 1);
            let size = FRAME_HEADER_BYTES + slice_of(self.data, slice_size, n - 1).len();
            if slice_due(self.acked, self.last_sent, now, resend, n - 1) && before + size
                <= budget {
                before + size
            } else {
                before
            }
        }
    }

    /// Whether slice `i` is taken.
    pub open spec fn chosen(self, slice_size: int, now: u64, resend: u64, budget: int, i: int) -> bool {
        slice_due(self.acked, self.last_sent, now, resend, i) && self.spent(
            slice_size,
            now,
            resend,
            budget,
            i,
        ) + FRAME_HEADER_BYTES + slice_of(self.data, slice_size, i).len() <= budget
    }

    /// The frame that carries slice `i`.
    pub open spec fn frame(self, channel_id: u8, slice_size: int, i: int) -> FrameView {
        FrameView {
            channel_id,
            kind: FrameKind::Slice,
            id: self.block_id,
            slice_index: i as u32,
            slice_count: self.acked.len() as u32,
            payload: slice_of(self.data, slice_size, i),
        }
    }

    /// The frames of the slices taken among the first `n`.
    pub open spec fn collected(
        self,
        channel_id: u8,
        slice_size: int,
        now: u64,
        resend: u64,
        budget: int,
        n: int,
    ) -> Seq<FrameView>
        decreases n,
    {
        if n <= 0 {
            Seq::empty()
        } else {
            let before = self.collected(channel_id, slice_size, now, resend, budget, n - 1);
            if self.chosen(slice_size, now, resend, budget, n - 1) {
                before.push(self.frame(channel_id, slice_size, n - 1))
            } else {
                before
            }
        }
    }

    /// The block once every taken slice was stamped with `now`.
    pub open spec fn stamped(self, slice_size: int, now: u64, resend: u64, budget: int) -> Sending {
        Sending {
            last_sent: Seq::new(
                self.last_sent.len(),
                |i: int|
                    if self.chosen(slice_size, now, resend, budget, i) {
                        Some(now)
                    } else {
                        self.last_sent[i]
                    },
            ),
            ..self
        }
    }
}

/// The receiving half: the number of the block that is expected or being
/// gathered, its slices as far as they have arrived, and the whole blocks
/// that wait for the application.
pub struct BlockReceiverModel {
    pub receiving: bool,
    pub block_id: u16,
    pub slices: Seq<Option<Seq<u8>>>,
    pub ready: Seq<Seq<u8>>,
}

/// What a slice does to a receiver.
pub enum SliceOutcome {
    /// The slice belongs to another block and is dropped.
    Ignored,
    /// The slice cannot belong to the block: the channel fails.
    Refused(ChannelError),
    /// The slice is kept, or was there already.
    Kept,
}

impl BlockReceiverModel {
    pub open spec fn fresh() -> BlockReceiverModel {
        BlockReceiverModel {
            receiving: false,
            block_id: 0,
            slices: Seq::empty(),
            ready: Seq::empty(),
        }
    }

    /// The slices gathered so far, a row of empty places before the first.
    pub open spec fn places(self, slice_count: u32) -> Seq<Option<Seq<u8>>> {
        if self.receiving {
            self.slices
        } else {
            Seq::new(slice_count as nat, |i: int| None)
        }
    }

    /// The places after the slice arrived.
    pub open spec fn filled(self, slice_count: u32, slice_index: u32, payload: Seq<u8>) -> Seq<
        Option<Seq<u8>>,
    > {
        let places = self.places(slice_count);
        if places[slice_index as int] is None {
            places.update(slice_index as int, Some(payload))
        } else {
            places
        }
    }

    /// What the arrival of the slice comes to.
    pub open spec fn outcome(
        self,
        config: BlockChannelConfig,
        block_id: u16,
        slice_count: u32,
        slice_index: u32,
        payload: Seq<u8>,
    ) -> SliceOutcome {
        if block_id != self.block_id {
            SliceOutcome::Ignored
        } else if slice_count < 1 || slice_count > count_slices(
            config.max_message_size as int,
            config.slice_size as int,
        ) || slice_index >= slice_count || payload.len() > config.slice_size {
            SliceOutcome::Refused(ChannelError::FragmentOverflow)
        } else if self.receiving && self.slices.len() != slice_count {
            SliceOutcome::Refused(ChannelError::BlockInProgress)
        } else if all_present(self.filled(slice_count, slice_index, payload)) && self.ready.len()
            >= config.message_receive_queue_size {
            SliceOutcome::Refused(ChannelError::ReceiveQueueFull)
        } else {
            SliceOutcome::Kept
        }
    }

    /// The receiver after the slice arrived.
    pub open spec fn accept(
        self,
        config: BlockChannelConfig,
        block_id: u16,
        slice_count: u32,
        slice_index: u32,
        payload: Seq<u8>,
    ) -> BlockReceiverModel {
        match self.outcome(config, block_id, slice_count, slice_index, payload) {
            SliceOutcome::Kept => {
                let filled = self.filled(slice_count, slice_index, payload);
                if all_present(filled) {
                    BlockReceiverModel {
                        receiving: false,
                        block_id: seq_plus(self.block_id, 1),
                        slices: Seq::empty(),
                        ready: self.ready.push(joined(filled, filled.len() as int)),
                    }
                } else {
                    BlockReceiverModel { receiving: true, slices: filled, ..self }
                }
            },
            _ => self,
        }
    }

    /// The receiver after it handed out the oldest whole block, if it had one.
    pub open spec fn deliver(self) -> BlockReceiverModel {
        if self.ready.len() > 0 {
            BlockReceiverModel { ready: self.ready.skip(1), ..self }
        } else {
            self
        }
    }
}

/// A block channel as a mathematical value.
pub struct BlockModel {
    pub config: BlockChannelConfig,
    /// Whether a block is being sent.
    pub active: bool,
    /// The block that is being sent, or the number of the next and nothing else.
    pub sending: Sending,
    /// The blocks that wait behind it, oldest first.
    pub waiting: Seq<Seq<u8>>,
    pub receiver: BlockReceiverModel,
    /// The error that the channel failed with, if it did.
    pub error: Option<ChannelError>,
}

impl BlockModel {
    pub open spec fn wf(self) -> bool {
        &&& self.config.wf()
        &&& forall|i: int|
            0 <= i < self.waiting.len() ==> (#[trigger] self.waiting[i]).len()
                <= self.config.max_message_size
        &&& self.sending.acked.len() == self.sending.last_sent.len()
        &&& self.active ==> {
            &&& self.sending.data.len() <= self.config.max_message_size
            &&& self.sending.acked.len() == count_slices(
                self.sending.data.len() as int,
                self.config.slice_size as int,
            )
        }
        &&& self.receiver.slices.len() <= u32::MAX
        &&& !self.receiver.receiving ==> self.receiver.slices.len() == 0
        &&& forall|i: int|
            0 <= i < self.receiver.slices.len() && (#[trigger] self.receiver.slices[i]) is Some
                ==> self.receiver.slices[i].unwrap().len() <= self.config.slice_size
    }

    pub open spec fn fresh(config: BlockChannelConfig) -> BlockModel {
        BlockModel {
            config,
            active: false,
            sending: Sending {
                block_id: 0,
                data: Seq::empty(),
                acked: Seq::empty(),
                last_sent: Seq::empty(),
            },
            waiting: Seq::empty(),
            receiver: BlockReceiverModel::fresh(),
            error: None,
        }
    }

    pub open spec fn can_send(self) -> bool {
        self.error is None && self.waiting.len() < self.config.message_send_queue_size
    }

    /// The error with which `payload` is refused, if it is.
    pub open spec fn send_error(self, payload: Seq<u8>) -> Option<ChannelError> {
        if self.error is Some {
            self.error
        } else if payload.len() > self.config.max_message_size {
            Some(ChannelError::OversizedMessage)
        } else if !self.can_send() {
            Some(ChannelError::SendQueueFull)
        } else {
            None
        }
    }

    /// The channel after `payload` was handed to it: it waits its turn, or
    /// the channel has failed.
    pub open spec fn send(self, payload: Seq<u8>) -> BlockModel {
        match self.send_error(payload) {
            Some(e) => BlockModel { error: Some(e), ..self },
            None => BlockModel { waiting: self.waiting.push(payload), ..self },
        }
    }

    /// The channel once the oldest waiting block has become the block being
    /// sent, if none was.
    pub open spec fn started(self) -> BlockModel {
        if !self.active && self.waiting.len() > 0 {
            let data = self.waiting[0];
            let n = count_slices(data.len() as int, self.config.slice_size as int) as nat;
            BlockModel {
                active: true,
                sending: Sending {
                    block_id: self.sending.block_id,
                    data,
                    acked: Seq::new(n, |i: int| false),
                    last_sent: Seq::new(n, |i: int| None),
                },
                waiting: self.waiting.skip(1),
                ..self
            }
        } else {
            self
        }
    }

    pub open spec fn budget(self, available: usize) -> int {
        if available < self.config.packet_budget {
            available as int
        } else {
            self.config.packet_budget as int
        }
    }

    /// The frames that the channel adds at `now` to a packet with `available`
    /// bytes left: the slices of the block being sent that were never sent,
    /// and the unacknowledged ones whose last sending is `resend_time` old,
    /// in order, as far as they fit.
    pub open spec fn frames_to_send(self, now: u64, available: usize) -> Seq<FrameView> {
        let m = self.started();
        if self.error is Some || !m.active {
            Seq::empty()
        } else {
            m.sending.collected(
                m.config.channel_id,
                m.config.slice_size as int,
                now,
                m.config.resend_time,
                m.budget(available),
                m.sending.acked.len() as int,
            )
        }
    }

    /// The channel after it added those frames.
    pub open spec fn after_sending(self, now: u64, available: usize) -> BlockModel {
        let m = self.started();
        if self.error is Some {
            self
        } else if !m.active {
            m
        } else {
            BlockModel {
                sending: m.sending.stamped(
                    m.config.slice_size as int,
                    now,
                    m.config.resend_time,
                    m.budget(available),
                ),
                ..m
            }
        }
    }

    /// The channel after slice `slice_index` of the block `block_id` was
    /// acknowledged: with the last slice the block is done.
    pub open spec fn acked(self, block_id: u16, slice_index: u32) -> BlockModel {
        if self.active && block_id == self.sending.block_id && slice_index
            < self.sending.acked.len() {
            let acked = self.sending.acked.update(slice_index as int, true);
            if all_true(acked) {
                BlockModel {
                    active: false,
                    sending: Sending {
                        block_id: seq_plus(self.sending.block_id, 1),
                        data: Seq::empty(),
                        acked: Seq::empty(),
                        last_sent: Seq::empty(),
                    },
                    ..self
                }
            } else {
                BlockModel { sending: Sending { acked, ..self.sending }, ..self }
            }
        } else {
            self
        }
    }

    /// The channel after a slice arrived.
    pub open spec fn received(
        self,
        block_id: u16,
        slice_count: u32,
        slice_index: u32,
        payload: Seq<u8>,
    ) -> BlockModel {
        if self.error is Some {
            self
        } else {
            match self.receiver.outcome(self.config, block_id, slice_count, slice_index, payload) {
                SliceOutcome::Refused(e) => BlockModel { error: Some(e), ..self },
                _ => BlockModel {
                    receiver: self.receiver.accept(
                        self.config,
                        block_id,
                        slice_count,
                        slice_index,
                        payload,
                    ),
                    ..self
                },
            }
        }
    }

    pub open spec fn next_message(self) -> Option<Seq<u8>> {
        if self.receiver.ready.len() > 0 {
            Some(self.receiver.ready[0])
        } else {
            None
        }
    }

    pub open spec fn after_receive(self) -> BlockModel {
        BlockModel { receiver: self.receiver.deliver(), ..self }
    }
}

/// Number of slices of a block of `len` bytes.
pub fn slice_count(len: usize, slice_size: usize) -> (n: usize)
    requires
        0 < slice_size,
    ensures
        n == count_slices(len as int, slice_size as int),
        1 <= n,
        len > 0 ==> n <= len,
{
    proof {
        lemma_slice_bounds(len as int, slice_size as int, 0);
    }
    if len == 0 {
        1
    } else {
        (len - 1) / slice_size + 1
    }
}

fn all_acked(flags: &Vec<bool>) -> (all: bool)
    ensures
        all == all_true(flags@),
{
    let mut i: usize = 0;
    while i < flags.len()
        invariant
            i <= flags@.len(),
            forall|j: int| 0 <= j < i ==> #[trigger] flags@[j],
        decreases flags@.len() - i,
    {
        if !flags[i] {
            return false;
        }
        i = i + 1;
    }
    true
}

/// Whether no slice is missing.
pub fn all_arrived(slices: &Vec<Option<Vec<u8>>>) -> (all: bool)
    ensures
        all == all_present(slot_views(slices@)),
{
    let mut i: usize = 0;
    while i < slices.len()
        invariant
            i <= slices@.len(),
            forall|j: int| 0 <= j < i ==> (#[trigger] slot_views(slices@)[j]) is Some,
        decreases slices@.len() - i,
    {
        if slices[i].is_none() {
            assert(slot_views(slices@)[i as int] is None);
            return false;
        }
        assert(slot_views(slices@)[i as int] is Some);
        i = i + 1;
    }
    true
}

/// The slices, one after the other.
pub fn join(slices: &Vec<Option<Vec<u8>>>) -> (data: Vec<u8>)
    requires
        all_present(slot_views(slices@)),
    ensures
        data@ == joined(slot_views(slices@), slices@.len() as int),
{
    let ghost views = slot_views(slices@);
    let mut data: Vec<u8> = Vec::new();
    let mut i: usize = 0;
    while i < slices.len()
        invariant
            i <= slices@.len(),
            views == slot_views(slices@),
            all_present(views),
            data@ == joined(views, i as int),
        decreases slices@.len() - i,
    {
        assert(views[i as int] is Some);
        match &slices[i] {
            Some(piece) => {
                assert(views[i as int] == Some(piece@));
                crate::packet::push_bytes(&mut data, piece.as_slice());
            },
            None => {},
        }
        i = i + 1;
    }
    data
}

/// A row of `n` empty places.
pub fn empty_places(n: usize) -> (places: Vec<Option<Vec<u8>>>)
    ensures
        slot_views(places@) == Seq::<Option<Seq<u8>>>::new(n as nat, |i: int| None),
{
    let mut places: Vec<Option<Vec<u8>>> = Vec::new();
    let mut i: usize = 0;
    while i < n
        invariant
            i <= n,
            places@.len() == i,
            forall|j: int| 0 <= j < i ==> places@[j] is None,
        decreases n - i,
    {
        places.push(None);
        i = i + 1;
    }
    assert(slot_views(places@) =~= Seq::<Option<Seq<u8>>>::new(n as nat, |i: int| None));
    places
}

fn unsent(n: usize) -> (marks: (Vec<bool>, Vec<Option<u64>>))
    ensures
        marks.0@ == Seq::<bool>::new(n as nat, |i: int| false),
        marks.1@ == Seq::<Option<u64>>::new(n as nat, |i: int| None),
{
    let mut acked: Vec<bool> = Vec::new();
    let mut last_sent: Vec<Option<u64>> = Vec::new();
    let mut i: usize = 0;
    while i < n
        invariant
            i <= n,
            acked@.len() == i,
            last_sent@.len() == i,
            forall|j: int| 0 <= j < i ==> !acked@[j],
            forall|j: int| 0 <= j < i ==> last_sent@[j] is None,
        decreases n - i,
    {
        acked.push(false);
        last_sent.push(None);
        i = i + 1;
    }
    assert(acked@ =~= Seq::<bool>::new(n as nat, |i: int| false));
    assert(last_sent@ =~= Seq::<Option<u64>>::new(n as nat, |i: int| None));
    (acked, last_sent)
}

/// Takes the due slices that fit in `budget` bytes, stamps them with `now`
/// and returns their frames.
fn collect_slices(
    data: &Vec<u8>,
    acked: &Vec<bool>,
    last_sent: &mut Vec<Option<u64>>,
    channel_id: u8,
    block_id: u16,
    slice_size: usize,
    now: u64,
    resend: u64,
    budget: usize,
) -> (frames: Vec<Frame>)
    requires
        0 < slice_size <= u16::MAX,
        acked@.len() == old(last_sent)@.len(),
        acked@.len() == count_slices(data@.len() as int, slice_size as int),
        data@.len() <= u32::MAX,
    ensures
        frame_views(frames@) == (Sending {
            block_id,
            data: data@,
            acked: acked@,
            last_sent: old(last_sent)@,
        }).collected(
            channel_id,
            slice_size as int,
            now,
            resend,
            budget as int,
            acked@.len() as int,
        ),
        final(last_sent)@ == (Sending {
            block_id,
            data: data@,
            acked: acked@,
            last_sent: old(last_sent)@,
        }).stamped(slice_size as int, now, resend, budget as int).last_sent,
        frames_wf(frame_views(frames@)),
        frames_size(frame_views(frames@)) <= budget,
{
    let ghost s = Sending { block_id, data: data@, acked: acked@, last_sent: last_sent@ };
    let ghost ss = slice_size as int;
    let n = acked.len();
    let len = data.len();
    proof {
        lemma_slice_bounds(len as int, ss, 0);
    }
    let mut frames: Vec<Frame> = Vec::new();
    let mut used: usize = 0;
    let mut start: usize = 0;
    let mut i: usize = 0;
    while i < n
        invariant
            i <= n,
            n == acked@.len(),
            n == last_sent@.len(),
            n == count_slices(len as int, ss),
            n <= u32::MAX,
            len == data@.len(),
            ss == slice_size,
            0 < slice_size <= u16::MAX,
            s == (Sending { block_id, data: data@, acked: acked@, last_sent: old(last_sent)@ }),
            i < n ==> start == i * ss,
            used <= budget,
            used == s.spent(ss, now, resend, budget as int, i as int),
            frame_views(frames@) == s.collected(channel_id, ss, now, resend, budget as int, i as int),
            frames_wf(frame_views(frames@)),
            frames_size(frame_views(frames@)) == used,
            forall|j: int|
                0 <= j < n ==> #[trigger] last_sent@[j] == if j < i && s.chosen(
                    ss,
                    now,
                    resend,
                    budget as int,
                    j,
                ) {
                    Some(now)
                } else {
                    s.last_sent[j]
                },
        decreases n - i,
    {
        proof {
            lemma_slice_bounds(len as int, ss, i as int);
        }
        let end: usize = if len - start >= slice_size {
            start + slice_size
        } else {
            len
        };
        assert(last_sent@[i as int] == s.last_sent[i as int]);
        let due = !acked[i] && match last_sent[i] {
            None => true,
            Some(t) => now >= t && now - t >= resend,
        };
        let size = FRAME_HEADER_BYTES + (end - start);
        if due && size <= budget - used {
            let payload = copy_range(data.as_slice(), start, end);
            let frame = Frame {
                channel_id,
                kind: FrameKind::Slice,
                id: block_id,
                slice_index: i as u32,
                slice_count: n as u32,
                payload,
            };
            assert(frame@ == s.frame(channel_id, ss, i as int));
            proof {
                assert(frame_views(frames@.push(frame)) =~= frame_views(frames@).push(frame@));
                lemma_frames_push(frame_views(frames@), frame@);
            }
            frames.push(frame);
            last_sent.set(i, Some(now));
            used = used + size;
        }
        proof {
            if i + 1 < n {
                lemma_slice_bounds(len as int, ss, i + 1);
            }
        }
        if i + 1 < n {
            start = start + slice_size;
        }
        i = i + 1;
    }
    assert(last_sent@ =~= s.stamped(ss, now, resend, budget as int).last_sent);
    frames
}

/// One block channel of a connection.
pub struct BlockChannel {
    config: BlockChannelConfig,
    active: bool,
    block_id: u16,
    data: Vec<u8>,
    acked: Vec<bool>,
    last_sent: Vec<Option<u64>>,
    waiting: VecDeque<Vec<u8>>,
    receiving: bool,
    expected: u16,
    slices: Vec<Option<Vec<u8>>>,
    ready: VecDeque<Vec<u8>>,
    error: Option<ChannelError>,
}

impl View for BlockChannel {
    type V = BlockModel;

    closed spec fn view(&self) -> BlockModel {
        BlockModel {
            config: self.config,
            active: self.active,
            sending: Sending {
                block_id: self.block_id,
                data: self.data@,
                acked: self.acked@,
                last_sent: self.last_sent@,
            },
            waiting: byte_views(self.waiting@),
            receiver: BlockReceiverModel {
                receiving: self.receiving,
                block_id: self.expected,
                slices: slot_views(self.slices@),
                ready: byte_views(self.ready@),
            },
            error: self.error,
        }
    }
}

impl BlockChannel {
    /// The channel's invariant; see [`BlockModel::wf`].
    pub open spec fn wf(&self) -> bool {
        self@.wf()
    }

    pub fn new(config: BlockChannelConfig) -> (channel: Self)
        requires
            config.wf(),
        ensures
            channel.wf(),
            channel@ == BlockModel::fresh(config),
    {
        let channel = BlockChannel {
            config,
            active: false,
            block_id: 0,
            data: Vec::new(),
            acked: Vec::new(),
            last_sent: Vec::new(),
            waiting: VecDeque::new(),
            receiving: false,
            expected: 0,
            slices: Vec::new(),
            ready: VecDeque::new(),
            error: None,
        };
        assert(channel@.waiting =~= Seq::empty());
        assert(channel@.receiver.ready =~= Seq::empty());
        assert(channel@.receiver.slices =~= Seq::empty());
        channel
    }

    pub fn channel_id(&self) -> (id: u8)
        ensures
            id == self@.config.channel_id,
    {
        self.config.channel_id
    }

    /// The error that the channel failed with, if it did.
    pub fn error(&self) -> (error: Option<ChannelError>)
        ensures
            error == self@.error,
    {
        self.error
    }

    pub fn can_send_message(&self) -> (can: bool)
        ensures
            can == self@.can_send(),
    {
        self.error.is_none() && self.waiting.len() < self.config.message_send_queue_size
    }

    /// Queues the block `payload`. A block that is too large, or one for
    /// which the queue has no room, makes the channel fail.
    pub fn send_message(&mut self, payload: Vec<u8>) -> (result: Result<(), ChannelError>)
        requires
            old(self).wf(),
        ensures
            final(self).wf(),
            final(self)@ == old(self)@.send(payload@),
            result == match old(self)@.send_error(payload@) {
                Some(e) => Err::<(), ChannelError>(e),
                None => Ok(()),
            },
    {
        if let Some(e) = self.error {
            return Err(e);
        }
        if payload.len() > self.config.max_message_size {
            self.error = Some(ChannelError::OversizedMessage);
            return Err(ChannelError::OversizedMessage);
        }
        if self.waiting.len() >= self.config.message_send_queue_size {
            self.error = Some(ChannelError::SendQueueFull);
            return Err(ChannelError::SendQueueFull);
        }
        let ghost before = self.waiting@;
        self.waiting.push_back(payload);
        assert(byte_views(self.waiting@) =~= byte_views(before).push(payload@));
        assert(self@.receiver == old(self)@.receiver);
        Ok(())
    }

    /// Makes the oldest waiting block the block being sent, if none is.
    fn start(&mut self)
        requires
            old(self).wf(),
        ensures
            final(self).wf(),
            final(self)@ == old(self)@.started(),
    {
        if self.active || self.waiting.len() == 0 {
            return ;
        }
        let ghost before = self.waiting@;
        assert(old(self)@.waiting[0].len() <= self.config.max_message_size);
        match self.waiting.pop_front() {
            Some(data) => {
                let n = slice_count(data.len(), self.config.slice_size);
                let marks = unsent(n);
                self.acked = marks.0;
                self.last_sent = marks.1;
                self.data = data;
                self.active = true;
                assert(byte_views(self.waiting@) =~= byte_views(before).skip(1));
                assert(self@.receiver == old(self)@.receiver);
                assert forall|i: int| 0 <= i < self@.waiting.len() implies (
                #[trigger] self@.waiting[i]).len() <= self.config.max_message_size by {
                    assert(self@.waiting[i] == old(self)@.waiting[i + 1]);
                }
            },
            None => {},
        }
    }

    /// The frames to put in a packet that is made at `now` and has
    /// `available` bytes left.
    pub fn get_frames_to_send(&mut self, now: u64, available: usize) -> (frames: Vec<Frame>)
        requires
            old(self).wf(),
        ensures
            final(self).wf(),
            frame_views(frames@) == old(self)@.frames_to_send(now, available),
            final(self)@ == old(self)@.after_sending(now, available),
            frames_wf(frame_views(frames@)),
            frames_size(frame_views(frames@)) <= available,
    {
        if self.error.is_some() {
            let frames: Vec<Frame> = Vec::new();
            assert(frame_views(frames@) =~= Seq::empty());
            return frames;
        }
        self.start();
        if !self.active {
            let frames: Vec<Frame> = Vec::new();
            assert(frame_views(frames@) =~= Seq::empty());
            return frames;
        }
        let budget = if available < self.config.packet_budget {
            available
        } else {
            self.config.packet_budget
        };
        let ghost m = self@;
        let frames = collect_slices(
            &self.data,
            &self.acked,
            &mut self.last_sent,
            self.config.channel_id,
            self.block_id,
            self.config.slice_size,
            now,
            self.config.resend_time,
            budget,
        );
        assert(self@.waiting == m.waiting);
        assert(self@.receiver == m.receiver);
        assert(self@.sending == m.sending.stamped(
            m.config.slice_size as int,
            now,
            m.config.resend_time,
            m.budget(available),
        ));
        frames
    }

    /// Notes that slice `slice_index` of the block `block_id` has arrived at
    /// the peer.
    pub fn process_ack(&mut self, block_id: u16, slice_index: u32)
        requires
            old(self).wf(),
        ensures
            final(self).wf(),
            final(self)@ == old(self)@.acked(block_id, slice_index),
    {
        if !self.active || block_id != self.block_id || slice_index as usize >= self.acked.len() {
            return ;
        }
        self.acked.set(slice_index as usize, true);
        if all_acked(&self.acked) {
            self.active = false;
            self.block_id = sequence_after(self.block_id);
            self.data = Vec::new();
            self.acked = Vec::new();
            self.last_sent = Vec::new();
        }
        assert(self@.waiting == old(self)@.waiting);
        assert(self@.receiver == old(self)@.receiver);
    }

    /// Takes in a slice that a packet brought. A slice of another block is
    /// dropped. The channel fails with `FragmentOverflow` for a slice that no
    /// block of the channel can have, with `BlockInProgress` for one that
    /// contradicts the slices gathered so far, and with `ReceiveQueueFull`
    /// for a block that completes while the application has left no room.
    pub fn process_slice(
        &mut self,
        block_id: u16,
        slice_count: u32,
        slice_index: u32,
        payload: Vec<u8>,
    ) -> (result: Result<(), ChannelError>)
        requires
            old(self).wf(),
        ensures
            final(self).wf(),
            final(self)@ == old(self)@.received(block_id, slice_count, slice_index, payload@),
            result == match final(self)@.error {
                Some(e) => Err::<(), ChannelError>(e),
                None => Ok(()),
            },
    {
        if let Some(e) = self.error {
            return Err(e);
        }
        if block_id != self.expected {
            return Ok(());
        }
        let most = slice_count_limit(&self.config);
        if slice_count < 1 || slice_count as usize > most || slice_index >= slice_count
            || payload.len() > self.config.slice_size {
            self.error = Some(ChannelError::FragmentOverflow);
            return Err(ChannelError::FragmentOverflow);
        }
        if self.receiving && self.slices.len() != slice_count as usize {
            self.error = Some(ChannelError::BlockInProgress);
            return Err(ChannelError::BlockInProgress);
        }
        let ghost model = self@;
        let ghost filled = model.receiver.filled(slice_count, slice_index, payload@);
        let ghost ready = self.ready@;
        if !self.receiving {
            self.slices = empty_places(slice_count as usize);
        }
        let ghost places = slot_views(self.slices@);
        assert(places == model.receiver.places(slice_count));
        let index = slice_index as usize;
        let missing = self.slices[index].is_none();
        assert(missing == (places[index as int] is None));
        if missing {
            if self.ready.len() >= self.config.message_receive_queue_size {
                if only_missing(&self.slices, index) {
                    assert(all_present(filled)) by {
                        assert forall|i: int| 0 <= i < filled.len() implies (
                        #[trigger] filled[i]) is Some by {
                            if i != index {
                                assert(places[i] is Some);
                            }
                        }
                    }
                    if !self.receiving {
                        self.slices = Vec::new();
                        assert(slot_views(self.slices@) =~= model.receiver.slices);
                    }
                    self.error = Some(ChannelError::ReceiveQueueFull);
                    return Err(ChannelError::ReceiveQueueFull);
                }
                proof {
                    let j = choose|j: int|
                        0 <= j < places.len() && j != index && (#[trigger] places[j]) is None;
                    assert(filled[j] is None);
                    assert(!all_present(filled));
                }
            }
            self.slices.set(index, Some(payload));
            assert(slot_views(self.slices@) =~= filled);
        } else {
            assert(slot_views(self.slices@) =~= filled);
            if self.ready.len() >= self.config.message_receive_queue_size && all_arrived(
                &self.slices,
            ) {
                if !self.receiving {
                    self.slices = Vec::new();
                    assert(slot_views(self.slices@) =~= model.receiver.slices);
                }
                self.error = Some(ChannelError::ReceiveQueueFull);
                return Err(ChannelError::ReceiveQueueFull);
            }
        }
        assert forall|i: int|
            0 <= i < filled.len() && (#[trigger] filled[i]) is Some implies filled[i].unwrap().len()
            <= self.config.slice_size by {
            if i != index && model.receiver.receiving {
                assert(model.receiver.slices[i] is Some);
            }
        }
        if all_arrived(&self.slices) {
            let block = join(&self.slices);
            self.ready.push_back(block);
            self.receiving = false;
            self.expected = sequence_after(self.expected);
            self.slices = Vec::new();
            assert(byte_views(self.ready@) =~= byte_views(ready).push(
                joined(filled, filled.len() as int),
            ));
            assert(slot_views(self.slices@) =~= Seq::empty());
        } else {
            self.receiving = true;
        }
        assert(self@.waiting == model.waiting);
        Ok(())
    }

    /// Hands out the oldest whole block that waits, if any does.
    pub fn receive_message(&mut self) -> (message: Option<Vec<u8>>)
        requires
            old(self).wf(),
        ensures
            final(self).wf(),
            final(self)@ == old(self)@.after_receive(),
            match message {
                Some(m) => old(self)@.next_message() == Some(m@),
                None => old(self)@.next_message() is None,
            },
    {
        let ghost before = self.ready@;
        let message = self.ready.pop_front();
        if message.is_some() {
            assert(byte_views(self.ready@) =~= byte_views(before).skip(1));
        }
        assert(self@.waiting == old(self)@.waiting);
        assert(self@.receiver.slices == old(self)@.receiver.slices);
        message
    }
}

/// Most slices that a block of the channel has.
fn slice_count_limit(config: &BlockChannelConfig) -> (most: usize)
    requires
        config.wf(),
    ensures
        most == count_slices(config.max_message_size as int, config.slice_size as int),
{
    slice_count(config.max_message_size, config.slice_size)
}

/// Whether `index` is the only empty place of `slices`.
fn only_missing(slices: &Vec<Option<Vec<u8>>>, index: usize) -> (only: bool)
    requires
        index < slices@.len(),
    ensures
        only == (forall|i: int|
            0 <= i < slices@.len() && i != index ==> (#[trigger] slot_views(slices@)[i]) is Some),
{
    let mut i: usize = 0;
    while i < slices.len()
        invariant
            i <= slices@.len(),
            forall|j: int| 0 <= j < i && j != index ==> (#[trigger] slot_views(slices@)[j]) is Some,
        decreases slices@.len() - i,
    {
        if i != index && slices[i].is_none() {
            assert(slot_views(slices@)[i as int] is None);
            return false;
        }
        if i != index {
            assert(slot_views(slices@)[i as int] is Some);
        }
        i = i + 1;
    }
    true
}

/// What happens to a receiver: slice `slice` of the block numbered `block` in
/// the order of sending arrives, or the application asks for a block.
pub enum BlockStep {
    Arrive { block: nat, slice: nat },
    Take,
}

/// A receiver, and what it has handed out so far.
pub struct BlockRun {
    pub state: BlockReceiverModel,
    pub delivered: Seq<Seq<u8>>,
}

/// The outcome of `steps` on a fresh receiver, where `sent` are the blocks in
/// the order in which the peer queued them: block `block` travels under the
/// number `block % 65536`, cut as [`slice_of`] says.
pub open spec fn block_run(config: BlockChannelConfig, sent: Seq<Seq<u8>>, steps: Seq<BlockStep>) -> BlockRun
    decreases steps.len(),
{
    if steps.len() == 0 {
        BlockRun { state: BlockReceiverModel::fresh(), delivered: Seq::empty() }
    } else {
        let before = block_run(config, sent, steps.drop_last());
        match steps.last() {
            BlockStep::Arrive { block, slice } => BlockRun {
                state: before.state.accept(
                    config,
                    (block % 65536) as u16,
                    count_slices(sent[block as int].len() as int, config.slice_size as int) as u32,
                    slice as u32,
                    slice_of(sent[block as int], config.slice_size as int, slice as int),
                ),
                ..before
            },
            BlockStep::Take => if before.state.ready.len() > 0 {
                BlockRun {
                    state: before.state.deliver(),
                    delivered: before.delivered.push(before.state.ready[0]),
                }
            } else {
                before
            },
        }
    }
}

/// Whether every arrival of `steps` brings a slice of a block that was sent,
/// less than a whole span of the numbers away from the blocks that the
/// receiver has completed.
pub open spec fn block_timely(config: BlockChannelConfig, sent: Seq<Seq<u8>>, steps: Seq<BlockStep>) -> bool
    decreases steps.len(),
{
    steps.len() == 0 || {
        &&& block_timely(config, sent, steps.drop_last())
        &&& match steps.last() {
            BlockStep::Arrive { block, slice } => {
                let before = block_run(config, sent, steps.drop_last());
                let whole = before.delivered.len() + before.state.ready.len();
                &&& block < sent.len()
                &&& slice < count_slices(
                    sent[block as int].len() as int,
                    config.slice_size as int,
                )
                &&& whole < block + 65536
                &&& block < whole + 65536
            },
            BlockStep::Take => true,
        }
    }
}

/// What a run keeps true: the blocks completed so far are the first blocks of
/// `sent`, and every slice gathered is a slice of the next.
pub open spec fn whole_blocks(run: BlockRun, config: BlockChannelConfig, sent: Seq<Seq<u8>>) -> bool {
    let whole = run.delivered + run.state.ready;
    let c = whole.len() as int;
    &&& c <= sent.len()
    &&& whole == sent.subrange(0, c)
    &&& run.state.block_id == c % 65536
    &&& run.state.receiving ==> {
        &&& c < sent.len()
        &&& run.state.slices.len() == count_slices(
            sent[c].len() as int,
            config.slice_size as int,
        )
        &&& forall|i: int|
            0 <= i < run.state.slices.len() && (#[trigger] run.state.slices[i]) is Some
                ==> run.state.slices[i] == Some(slice_of(sent[c], config.slice_size as int, i))
    }
}

proof fn lemma_run_whole_blocks(config: BlockChannelConfig, sent: Seq<Seq<u8>>, steps: Seq<BlockStep>)
    requires
        config.wf(),
        forall|b: int| 0 <= b < sent.len() ==> (#[trigger] sent[b]).len() <= config.max_message_size,
        block_timely(config, sent, steps),
    ensures
        whole_blocks(block_run(config, sent, steps), config, sent),
    decreases steps.len(),
{
    let run = block_run(config, sent, steps);
    let ss = config.slice_size as int;
    if steps.len() == 0 {
        assert(run.delivered + run.state.ready =~= sent.subrange(0, 0));
    } else {
        lemma_run_whole_blocks(config, sent, steps.drop_last());
        let before = block_run(config, sent, steps.drop_last());
        let whole = before.delivered + before.state.ready;
        let c = whole.len() as int;
        match steps.last() {
            BlockStep::Arrive { block, slice } => {
                let id = (block % 65536) as u16;
                let data = sent[block as int];
                let n = count_slices(data.len() as int, ss);
                lemma_slice_bounds(data.len() as int, ss, slice as int);
                assert(data.len() <= config.max_message_size);
                assert(1 <= n <= u32::MAX);
                let payload = slice_of(data, ss, slice as int);
                let outcome = before.state.outcome(config, id, n as u32, slice as u32, payload);
                if outcome is Kept {
                    assert(block == c);
                    let filled = before.state.filled(n as u32, slice as u32, payload);
                    assert forall|i: int|
                        0 <= i < filled.len() && (#[trigger] filled[i]) is Some implies filled[i]
                        == Some(slice_of(data, ss, i)) by {
                        if i != slice {
                            assert(before.state.places(n as u32)[i] is Some);
                            assert(before.state.slices[i] is Some);
                        }
                    }
                    if all_present(filled) {
                        assert forall|i: int| 0 <= i < filled.len() implies #[trigger] filled[i]
                            == Some(slice_of(data, ss, i)) by {
                            assert(filled[i] is Some);
                        }
                        lemma_slices_join(data, ss, filled);
                        assert(run.delivered + run.state.ready =~= sent.subrange(0, c + 1));
                    }
                }
            },
            BlockStep::Take => {
                if before.state.ready.len() > 0 {
                    assert(run.delivered + run.state.ready =~= whole);
                }
            },
        }
    }
}

/// Whatever is lost, repeated or out of order among the arriving slices, as
/// long as each is timely: the blocks that the receiver hands out are the
/// first blocks that the peer queued, each equal to what was queued, byte
/// for byte. No block is handed out in part.
pub proof fn lemma_blocks_arrive_whole(
    config: BlockChannelConfig,
    sent: Seq<Seq<u8>>,
    steps: Seq<BlockStep>,
)
    requires
        config.wf(),
        forall|b: int| 0 <= b < sent.len() ==> (#[trigger] sent[b]).len() <= config.max_message_size,
        block_timely(config, sent, steps),
    ensures
        block_run(config, sent, steps).delivered.is_prefix_of(sent),
        (block_run(config, sent, steps).delivered + block_run(
            config,
            sent,
            steps,
        ).state.ready).is_prefix_of(sent),
{
    lemma_run_whole_blocks(config, sent, steps);
}

/// What happens to a sender: the application hands it a block, a packet is
/// filled at `now`, or the acknowledgement of a slice arrives.
pub enum BlockSenderStep {
    Send { payload: Seq<u8> },
    Collect { now: u64, available: usize },
    Ack { block_id: u16, slice_index: u32 },
}

/// A sender, the blocks that it has taken so far, how many of them are done,
/// and the frames that it has emitted.
pub struct BlockSenderRun {
    pub state: BlockModel,
    pub taken: Seq<Seq<u8>>,
    pub done: nat,
    pub emitted: Seq<FrameView>,
}

/// The outcome of `steps` on a fresh channel with the options `config`.
pub open spec fn block_sender_run(config: BlockChannelConfig, steps: Seq<BlockSenderStep>) -> BlockSenderRun
    decreases steps.len(),
{
    if steps.len() == 0 {
        BlockSenderRun {
            state: BlockModel::fresh(config),
            taken: Seq::empty(),
            done: 0,
            emitted: Seq::empty(),
        }
    } else {
        let before = block_sender_run(config, steps.drop_last());
        match steps.last() {
            BlockSenderStep::Send { payload } => BlockSenderRun {
                state: before.state.send(payload),
                taken: if before.state.send_error(payload) is None {
                    before.taken.push(payload)
                } else {
                    before.taken
                },
                ..before
            },
            BlockSenderStep::Collect { now, available } => BlockSenderRun {
                state: before.state.after_sending(now, available),
                emitted: before.emitted + before.state.frames_to_send(now, available),
                ..before
            },
            BlockSenderStep::Ack { block_id, slice_index } => {
                let after = before.state.acked(block_id, slice_index);
                BlockSenderRun {
                    state: after,
                    done: if before.state.active && !after.active {
                        before.done + 1
                    } else {
                        before.done
                    },
                    ..before
                }
            },
        }
    }
}

/// Whether `f` is the frame of slice `slice` of the block at the place
/// `block` of `taken`.
pub open spec fn is_slice_of(
    f: FrameView,
    config: BlockChannelConfig,
    taken: Seq<Seq<u8>>,
    block: nat,
    slice: nat,
) -> bool {
    &&& block < taken.len()
    &&& slice < count_slices(taken[block as int].len() as int, config.slice_size as int)
    &&& f.kind == FrameKind::Slice
    &&& f.id == block % 65536
    &&& f.slice_count == count_slices(taken[block as int].len() as int, config.slice_size as int)
    &&& f.slice_index == slice
    &&& f.payload == slice_of(taken[block as int], config.slice_size as int, slice as int)
}

/// Whether `f` is the frame of a slice of one of the blocks of `taken`.
pub open spec fn is_slice_of_one(f: FrameView, config: BlockChannelConfig, taken: Seq<Seq<u8>>) -> bool {
    exists|block: nat, slice: nat| is_slice_of(f, config, taken, block, slice)
}

/// What a run keeps true of the block being sent, of the blocks that wait
/// and of the emitted frames.
pub open spec fn block_sender_in_order(run: BlockSenderRun, config: BlockChannelConfig) -> bool {
    let m = run.state;
    &&& m.config == config
    &&& m.wf()
    &&& m.sending.block_id == run.done % 65536
    &&& run.done <= run.taken.len()
    &&& if m.active {
        &&& run.done < run.taken.len()
        &&& m.sending.data == run.taken[run.done as int]
        &&& m.waiting == run.taken.skip(run.done as int + 1)
    } else {
        m.waiting == run.taken.skip(run.done as int)
    }
    &&& forall|j: int|
        0 <= j < run.emitted.len() ==> is_slice_of_one(#[trigger] run.emitted[j], config, run.taken)
}

/// Every frame taken is the frame of one of the slices.
pub proof fn lemma_collected_slices(
    s: Sending,
    channel_id: u8,
    slice_size: int,
    now: u64,
    resend: u64,
    budget: int,
    n: int,
)
    requires
        0 <= n,
    ensures
        forall|j: int|
            0 <= j < s.collected(channel_id, slice_size, now, resend, budget, n).len()
                ==> exists|i: int|
                0 <= i < n && #[trigger] s.collected(channel_id, slice_size, now, resend, budget, n)[j]
                    == s.frame(channel_id, slice_size, i),
    decreases n,
{
    if n > 0 {
        lemma_collected_slices(s, channel_id, slice_size, now, resend, budget, n - 1);
        let before = s.collected(channel_id, slice_size, now, resend, budget, n - 1);
        let all = s.collected(channel_id, slice_size, now, resend, budget, n);
        assert forall|j: int| 0 <= j < all.len() implies exists|i: int|
            0 <= i < n && #[trigger] all[j] == s.frame(channel_id, slice_size, i) by {
            if j < before.len() {
                let i = choose|i: int|
                    0 <= i < n - 1 && before[j] == s.frame(channel_id, slice_size, i);
                assert(all[j] == s.frame(channel_id, slice_size, i));
            } else {
                assert(all[j] == s.frame(channel_id, slice_size, n - 1));
            }
        }
    }
}

proof fn lemma_block_sender_in_order(config: BlockChannelConfig, steps: Seq<BlockSenderStep>)
    requires
        config.wf(),
    ensures
        block_sender_in_order(block_sender_run(config, steps), config),
    decreases steps.len(),
{
    let run = block_sender_run(config, steps);
    let ss = config.slice_size as int;
    if steps.len() == 0 {
        assert(run.state.waiting =~= run.taken.skip(0));
    } else {
        lemma_block_sender_in_order(config, steps.drop_last());
        let before = block_sender_run(config, steps.drop_last());
        let m = before.state;
        assert forall|j: int| 0 <= j < before.emitted.len() implies is_slice_of_one(
            #[trigger] before.emitted[j],
            config,
            run.taken,
        ) by {
            assert(is_slice_of_one(before.emitted[j], config, before.taken));
            let (block, slice) = choose|block: nat, slice: nat|
                is_slice_of(before.emitted[j], config, before.taken, block, slice);
            assert(is_slice_of(before.emitted[j], config, run.taken, block, slice));
        }
        match steps.last() {
            BlockSenderStep::Send { payload } => {
                if m.send_error(payload) is None {
                    if m.active {
                        assert(run.state.waiting =~= run.taken.skip(run.done as int + 1));
                    } else {
                        assert(run.state.waiting =~= run.taken.skip(run.done as int));
                    }
                }
            },
            BlockSenderStep::Collect { now, available } => {
                let started = m.started();
                if !m.active && m.waiting.len() > 0 {
                    assert(m.waiting[0] == before.taken[before.done as int]);
                    assert(started.waiting =~= before.taken.skip(before.done as int + 1));
                    lemma_slice_bounds(m.waiting[0].len() as int, ss, 0);
                }
                if m.error is None && started.active {
                    let data = started.sending.data;
                    let n = started.sending.acked.len() as int;
                    lemma_slice_bounds(data.len() as int, ss, 0);
                    lemma_collected_slices(
                        started.sending,
                        config.channel_id,
                        ss,
                        now,
                        config.resend_time,
                        started.budget(available),
                        n,
                    );
                    let frames = m.frames_to_send(now, available);
                    assert forall|j: int| 0 <= j < run.emitted.len() implies is_slice_of_one(
                        #[trigger] run.emitted[j],
                        config,
                        run.taken,
                    ) by {
                        if j >= before.emitted.len() {
                            let f = frames[j - before.emitted.len()];
                            let i = choose|i: int|
                                0 <= i < n && f == started.sending.frame(config.channel_id, ss, i);
                            assert(is_slice_of(f, config, run.taken, before.done, i as nat));
                        }
                    }
                    assert(run.state.wf());
                } else {
                    assert(run.emitted =~= before.emitted);
                }
            },
            BlockSenderStep::Ack { block_id, slice_index } => {},
        }
    }
}

/// Whatever the application sends and whatever is acknowledged: the blocks
/// go out one after the other in the order of sending, and every frame that
/// leaves the channel carries a slice of one of them, under the number of
/// its block and with the number of its slices. So what reaches the peer is
/// what [`block_run`] expects to arrive.
pub proof fn lemma_slices_carry_what_was_sent(config: BlockChannelConfig, steps: Seq<BlockSenderStep>)
    requires
        config.wf(),
    ensures
        forall|j: int|
            0 <= j < block_sender_run(config, steps).emitted.len() ==> is_slice_of_one(
                #[trigger] block_sender_run(config, steps).emitted[j],
                config,
                block_sender_run(config, steps).taken,
            ),
{
    lemma_block_sender_in_order(config, steps);
}

} // verus!
