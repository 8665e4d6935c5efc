//! A channel at work between two endpoints, across a link that loses what
//! it likes: what the receiving application is handed is always the
//! beginning of what the sending application queued. This is shown for the
//! reliable channel and for the block channel.
use crate::block::{
    all_present, all_true, count_slices, joined, lemma_collected_slices, lemma_slice_bounds,
    lemma_slices_join, lemma_count_slices_monotonic, slice_of, BlockChannelConfig, BlockModel,
    BlockReceiverModel, SliceOutcome,
};
use crate::reliable::{
    collected, first_numbered, frame_of, lemma_collected_from_queue, lemma_first_numbered,
    OutgoingView, ReceiverModel, ReliableChannelConfig, ReliableModel,
};
use crate::packet::FrameView;
use crate::sequence::{lemma_offset_of_counts, seq_offset};
use vstd::prelude::*;

verus! {

/// What happens on the link.
pub enum LinkStep {
    /// The sending application queues a message.
    Send { payload: Seq<u8> },
    /// The sender fills a packet at `now`. Frame `j` of it is lost where
    /// `lost[j]` holds; the others arrive at once, in order.
    Transfer { now: u64, available: usize, lost: Seq<bool> },
    /// The acknowledgement of the message `id` arrives at the sender. It
    /// counts only for a message that the receiver has.
    Ack { id: u16 },
    /// The receiving application asks for a message.
    Take,
}

/// The two endpoints, the messages queued so far, the place of each waiting
/// message among them, and what the receiving application has been handed.
pub struct LinkRun {
    pub sender: ReliableModel,
    pub receiver: ReliableModel,
    pub taken: Seq<Seq<u8>>,
    pub places: Seq<nat>,
    pub delivered: Seq<Seq<u8>>,
}

/// Whether a receiver that has handed out `handed` messages has the message
/// at the place `place`: it has handed it out, or holds it.
pub open spec fn has_message(r: ReceiverModel, handed: nat, place: nat) -> bool {
    place < handed || (place - handed < r.slots.len() && r.slots[place - handed] is Some)
}

/// The receiver after the first `n` of `frames` have come, but for the lost.
pub open spec fn arrive(r: ReliableModel, frames: Seq<FrameView>, lost: Seq<bool>, n: int) -> ReliableModel
    decreases n,
{
    if n <= 0 {
        r
    } else {
        let before = arrive(r, frames, lost, n - 1);
        if n - 1 < lost.len() && lost[n - 1] {
            before
        } else {
            before.received(frames[n - 1].id, frames[n - 1].payload)
        }
    }
}

/// The link after `step`.
pub open spec fn link_step(before: LinkRun, step: LinkStep) -> LinkRun {
    match step {
        LinkStep::Send { payload } => if before.sender.send_error(payload) is None {
            LinkRun {
                sender: before.sender.send(payload),
                taken: before.taken.push(payload),
                places: before.places.push(before.taken.len()),
                ..before
            }
        } else {
            LinkRun { sender: before.sender.send(payload), ..before }
        },
        LinkStep::Transfer { now, available, lost } => {
            let frames = before.sender.frames_to_send(now, available);
            LinkRun {
                sender: before.sender.after_sending(now, available),
                receiver: arrive(before.receiver, frames, lost, frames.len() as int),
                ..before
            }
        },
        LinkStep::Ack { id } => {
            let k = first_numbered(before.sender.outgoing, id);
            if k < before.places.len() && has_message(
                before.receiver.receiver,
                before.delivered.len(),
                before.places[k],
            ) {
                LinkRun {
                    sender: before.sender.acked(id),
                    places: before.places.remove(k),
                    ..before
                }
            } else {
                before
            }
        },
        LinkStep::Take => LinkRun {
            receiver: before.receiver.after_receive(),
            delivered: match before.receiver.next_message() {
                Some(message) => before.delivered.push(message),
                None => before.delivered,
            },
            ..before
        },
    }
}

/// The outcome of `steps` on two fresh endpoints with the options `config`.
pub open spec fn link_run(config: ReliableChannelConfig, steps: Seq<LinkStep>) -> LinkRun
    decreases steps.len(),
{
    if steps.len() == 0 {
        LinkRun {
            sender: ReliableModel::fresh(config),
            receiver: ReliableModel::fresh(config),
            taken: Seq::empty(),
            places: Seq::empty(),
            delivered: Seq::empty(),
        }
    } else {
        link_step(link_run(config, steps.drop_last()), steps.last())
    }
}

/// What the sender keeps true: the numbers follow the order of queueing, and
/// each waiting message is one of the last `message_send_queue_size` queued.
pub open spec fn sender_part(
    sender: ReliableModel,
    taken: Seq<Seq<u8>>,
    places: Seq<nat>,
    config: ReliableChannelConfig,
) -> bool {
    let q = sender.outgoing;
    &&& sender.config == config
    &&& sender.next_message_id == taken.len() % 65536
    &&& places.len() == q.len()
    &&& forall|i: int|
        0 <= i < q.len() ==> (#[trigger] places[i]) < taken.len() && taken.len() <= places[i]
            + config.message_send_queue_size && q[i].id == places[i] % 65536 && q[i].payload
            == taken[places[i] as int]
    &&& forall|i: int, j: int| 0 <= i < j < q.len() ==> (#[trigger] places[i]) < (#[trigger] places[j])
}

/// What the receiver keeps true: it has handed out the first messages, in
/// order, and holds later ones at their places.
pub open spec fn receiver_part(
    receiver: ReliableModel,
    taken: Seq<Seq<u8>>,
    handed: nat,
    config: ReliableChannelConfig,
) -> bool {
    let r = receiver.receiver;
    &&& receiver.config == config
    &&& handed <= taken.len()
    &&& r.cursor == handed % 65536
    &&& r.slots.len() == config.message_receive_queue_size
    &&& forall|d: int|
        0 <= d < r.slots.len() && (#[trigger] r.slots[d]) is Some ==> handed + d < taken.len()
            && r.slots[d] == Some(taken[handed + d])
}

/// What the two keep true together: as long as the receiver has not failed,
/// it has every message that no longer waits at the sender.
pub open spec fn joint_part(
    receiver: ReliableModel,
    taken: Seq<Seq<u8>>,
    places: Seq<nat>,
    handed: nat,
) -> bool {
    receiver.error is None ==> forall|p: nat|
        p < taken.len() && !places.contains(p) ==> #[trigger] has_message(
            receiver.receiver,
            handed,
            p,
        )
}

/// What every step on the link keeps true.
pub open spec fn link_in_order(run: LinkRun, config: ReliableChannelConfig) -> bool {
    &&& sender_part(run.sender, run.taken, run.places, config)
    &&& receiver_part(run.receiver, run.taken, run.delivered.len(), config)
    &&& joint_part(run.receiver, run.taken, run.places, run.delivered.len())
    &&& run.delivered == run.taken.subrange(0, run.delivered.len() as int)
}

/// One frame of a waiting message arrives.
proof fn lemma_arrival(
    sender: ReliableModel,
    receiver: ReliableModel,
    taken: Seq<Seq<u8>>,
    places: Seq<nat>,
    handed: nat,
    config: ReliableChannelConfig,
    i: int,
)
    requires
        config.wf(),
        sender_part(sender, taken, places, config),
        receiver_part(receiver, taken, handed, config),
        joint_part(receiver, taken, places, handed),
        0 <= i < places.len(),
    ensures
        receiver_part(
            receiver.received(sender.outgoing[i].id, sender.outgoing[i].payload),
            taken,
            handed,
            config,
        ),
        joint_part(
            receiver.received(sender.outgoing[i].id, sender.outgoing[i].payload),
            taken,
            places,
            handed,
        ),
{
    let place = places[i];
    let id = sender.outgoing[i].id;
    let payload = sender.outgoing[i].payload;
    let after = receiver.received(id, payload);
    let r = receiver.receiver;
    let window = config.message_receive_queue_size as int;
    if receiver.error is None {
        // The oldest waiting message is not far ahead of what was handed out.
        let oldest = places[0];
        assert(oldest <= place) by {
            if i > 0 {
                assert(places[0] < places[i]);
            }
        }
        assert(oldest <= handed + window) by {
            if oldest > 0 {
                let p = (oldest - 1) as nat;
                assert(!places.contains(p)) by {
                    if places.contains(p) {
                        let j = choose|j: int| 0 <= j < places.len() && places[j] == p;
                        if j > 0 {
                            assert(places[0] < places[j]);
                        }
                    }
                }
                assert(places[0] < taken.len());
                assert(has_message(r, handed, p));
            }
        }
        assert(taken.len() <= oldest + config.message_send_queue_size);
        assert(place < taken.len());
        if place >= handed {
            lemma_offset_of_counts(handed, place);
            let d = place - handed;
            assert(seq_offset(r.cursor, id) == d);
            if d < window && r.slots[d] is None {
                let slots = after.receiver.slots;
                assert forall|e: int| 0 <= e < slots.len() && (#[trigger] slots[e]) is Some implies handed
                    + e < taken.len() && slots[e] == Some(taken[handed + e]) by {
                    if e != d {
                        assert(r.slots[e] is Some);
                    }
                }
                assert forall|p: nat| p < taken.len() && !places.contains(p) implies #[trigger] has_message(
                    after.receiver,
                    handed,
                    p,
                ) by {
                    assert(has_message(r, handed, p));
                }
            }
        } else {
            lemma_offset_of_counts(place, handed);
            assert(seq_offset(id, r.cursor) == handed - place);
            assert(seq_offset(r.cursor, id) == 65536 - (handed - place));
        }
    }
}

/// The frames of one packet arrive, but for the lost.
proof fn lemma_arrivals(
    sender: ReliableModel,
    receiver: ReliableModel,
    taken: Seq<Seq<u8>>,
    places: Seq<nat>,
    handed: nat,
    config: ReliableChannelConfig,
    frames: Seq<FrameView>,
    lost: Seq<bool>,
    n: int,
)
    requires
        config.wf(),
        sender_part(sender, taken, places, config),
        receiver_part(receiver, taken, handed, config),
        joint_part(receiver, taken, places, handed),
        0 <= n <= frames.len(),
        forall|j: int|
            0 <= j < frames.len() ==> exists|i: int|
                0 <= i < places.len() && #[trigger] frames[j] == frame_of(
                    config.channel_id,
                    sender.outgoing[i],
                ),
    ensures
        receiver_part(arrive(receiver, frames, lost, n), taken, handed, config),
        joint_part(arrive(receiver, frames, lost, n), taken, places, handed),
    decreases n,
{
    if n > 0 {
        lemma_arrivals(sender, receiver, taken, places, handed, config, frames, lost, n - 1);
        let before = arrive(receiver, frames, lost, n - 1);
        if !(n - 1 < lost.len() && lost[n - 1]) {
            let i = choose|i: int|
                0 <= i < places.len() && frames[n - 1] == frame_of(
                    config.channel_id,
                    sender.outgoing[i],
                );
            lemma_arrival(sender, before, taken, places, handed, config, i);
        }
    }
}

proof fn lemma_send_keeps_order(before: LinkRun, config: ReliableChannelConfig, payload: Seq<u8>)
    requires
        config.wf(),
        link_in_order(before, config),
    ensures
        link_in_order(link_step(before, LinkStep::Send { payload }), config),
{
    let run = link_step(before, LinkStep::Send { payload });
    let q = before.sender.outgoing;
    let count = before.taken.len();
    let handed = before.delivered.len();
    let window = config.message_send_queue_size as nat;
    if before.sender.send_error(payload) is None {
        if q.len() > 0 {
            assert(before.places[0] < count);
            lemma_offset_of_counts(before.places[0], count);
        }
        assert forall|i: int| 0 <= i < run.sender.outgoing.len() implies (
        #[trigger] run.places[i]) < run.taken.len() && run.taken.len() <= run.places[i]
            + window && run.sender.outgoing[i].id == run.places[i] % 65536
            && run.sender.outgoing[i].payload == run.taken[run.places[i] as int] by {
            if i < q.len() {
                assert(before.places[i] < count);
                if i > 0 {
                    assert(before.places[0] < before.places[i]);
                }
            }
        }
        assert forall|i: int, j: int| 0 <= i < j < run.sender.outgoing.len() implies (
        #[trigger] run.places[i]) < (#[trigger] run.places[j]) by {
            if j < q.len() {
                assert(before.places[i] < before.places[j]);
            } else {
                assert(before.places[i] < count);
            }
        }
        assert forall|d: int|
            0 <= d < run.receiver.receiver.slots.len() && (
            #[trigger] run.receiver.receiver.slots[d]) is Some implies handed + d
            < run.taken.len() && run.receiver.receiver.slots[d] == Some(
            run.taken[handed + d],
        ) by {
            assert(before.receiver.receiver.slots[d] is Some);
        }
        if run.receiver.error is None {
            assert forall|p: nat|
                p < run.taken.len() && !run.places.contains(p) implies #[trigger] has_message(
                run.receiver.receiver,
                handed,
                p,
            ) by {
                assert(run.places[q.len() as int] == count);
                assert(p != count);
                if before.places.contains(p) {
                    let j = choose|j: int|
                        0 <= j < before.places.len() && before.places[j] == p;
                    assert(run.places[j] == p);
                }
                assert(has_message(before.receiver.receiver, handed, p));
            }
        }
        assert(run.delivered =~= run.taken.subrange(0, handed as int));
    }
}

proof fn lemma_transfer_keeps_order(
    before: LinkRun,
    config: ReliableChannelConfig,
    now: u64,
    available: usize,
    lost: Seq<bool>,
)
    requires
        config.wf(),
        link_in_order(before, config),
    ensures
        link_in_order(link_step(before, LinkStep::Transfer { now, available, lost }), config),
{
    let run = link_step(before, LinkStep::Transfer { now, available, lost });
    let q = before.sender.outgoing;
    let count = before.taken.len();
    let handed = before.delivered.len();
    let window = config.message_send_queue_size as nat;
    let budget = before.sender.budget(available);
    let resend = config.message_resend_time;
    let frames = before.sender.frames_to_send(now, available);
    lemma_collected_from_queue(q, now, resend, budget, config.channel_id, q.len() as int);
    lemma_arrivals(
        before.sender,
        before.receiver,
        before.taken,
        before.places,
        handed,
        config,
        frames,
        lost,
        frames.len() as int,
    );
    assert forall|i: int| 0 <= i < run.sender.outgoing.len() implies (
    #[trigger] run.places[i]) < run.taken.len() && run.taken.len() <= run.places[i]
        + window && run.sender.outgoing[i].id == run.places[i] % 65536
        && run.sender.outgoing[i].payload == run.taken[run.places[i] as int] by {
        assert(before.places[i] < count);
    }
}

proof fn lemma_ack_keeps_order(before: LinkRun, config: ReliableChannelConfig, id: u16)
    requires
        config.wf(),
        link_in_order(before, config),
    ensures
        link_in_order(link_step(before, LinkStep::Ack { id }), config),
{
    let run = link_step(before, LinkStep::Ack { id });
    let q = before.sender.outgoing;
    let count = before.taken.len();
    let handed = before.delivered.len();
    let window = config.message_send_queue_size as nat;
    lemma_first_numbered(q, id);
    let k = first_numbered(q, id);
    if k < before.places.len() && has_message(
        before.receiver.receiver,
        handed,
        before.places[k],
    ) {
        assert forall|i: int| 0 <= i < run.sender.outgoing.len() implies (
        #[trigger] run.places[i]) < run.taken.len() && run.taken.len() <= run.places[i]
            + window && run.sender.outgoing[i].id == run.places[i] % 65536
            && run.sender.outgoing[i].payload == run.taken[run.places[i] as int] by {
            let a = if i < k {
                i
            } else {
                i + 1
            };
            assert(before.places[a] < count);
        }
        assert forall|i: int, j: int| 0 <= i < j < run.sender.outgoing.len() implies (
        #[trigger] run.places[i]) < (#[trigger] run.places[j]) by {
            let a = if i < k {
                i
            } else {
                i + 1
            };
            let b = if j < k {
                j
            } else {
                j + 1
            };
            assert(before.places[a] < before.places[b]);
        }
        if run.receiver.error is None {
            assert forall|p: nat|
                p < run.taken.len() && !run.places.contains(p) implies #[trigger] has_message(
                run.receiver.receiver,
                handed,
                p,
            ) by {
                if p != before.places[k] {
                    if before.places.contains(p) {
                        let j = choose|j: int|
                            0 <= j < before.places.len() && before.places[j] == p;
                        let a = if j < k {
                            j
                        } else {
                            j - 1
                        };
                        assert(run.places[a] == p);
                    }
                    assert(has_message(before.receiver.receiver, handed, p));
                }
            }
        }
    }
}

proof fn lemma_take_keeps_order(before: LinkRun, config: ReliableChannelConfig)
    requires
        config.wf(),
        link_in_order(before, config),
    ensures
        link_in_order(link_step(before, LinkStep::Take), config),
{
    let run = link_step(before, LinkStep::Take);
    let handed = before.delivered.len();
    let r = before.receiver.receiver;
    if r.ready() {
        assert(r.slots[0] is Some);
        assert(run.delivered =~= run.taken.subrange(0, handed as int + 1));
        assert forall|d: int|
            0 <= d < run.receiver.receiver.slots.len() && (
            #[trigger] run.receiver.receiver.slots[d]) is Some implies handed + 1 + d
            < run.taken.len() && run.receiver.receiver.slots[d] == Some(
            run.taken[handed + 1 + d],
        ) by {
            assert(d + 1 < r.slots.len());
            assert(run.receiver.receiver.slots[d] == r.slots[d + 1]);
        }
        if run.receiver.error is None {
            assert forall|p: nat|
                p < run.taken.len() && !run.places.contains(p) implies #[trigger] has_message(
                run.receiver.receiver,
                (handed + 1) as nat,
                p,
            ) by {
                assert(has_message(r, handed, p));
                if p > handed {
                    assert(run.receiver.receiver.slots[p - handed - 1] == r.slots[p
                        - handed]);
                }
            }
        }
    }
}

proof fn lemma_link_in_order(config: ReliableChannelConfig, steps: Seq<LinkStep>)
    requires
        config.wf(),
    ensures
        link_in_order(link_run(config, steps), config),
    decreases steps.len(),
{
    if steps.len() == 0 {
        let run = link_run(config, steps);
        assert(run.delivered =~= run.taken.subrange(0, 0));
    } else {
        lemma_link_in_order(config, steps.drop_last());
        let before = link_run(config, steps.drop_last());
        match steps.last() {
            LinkStep::Send { payload } => lemma_send_keeps_order(before, config, payload),
            LinkStep::Transfer { now, available, lost } => lemma_transfer_keeps_order(
                before,
                config,
                now,
                available,
                lost,
            ),
            LinkStep::Ack { id } => lemma_ack_keeps_order(before, config, id),
            LinkStep::Take => lemma_take_keeps_order(before, config),
        }
    }
}

/// Whatever the link loses, and whenever the applications send and ask: the
/// messages handed out at the receiving end are the first messages queued at
/// the sending end, in their order, each once.
pub proof fn lemma_delivered_is_prefix_of_sent(config: ReliableChannelConfig, steps: Seq<LinkStep>)
    requires
        config.wf(),
    ensures
        link_run(config, steps).delivered.is_prefix_of(link_run(config, steps).taken),
{
    lemma_link_in_order(config, steps);
}

/// What happens on the link of a block channel.
pub enum BlockLinkStep {
    /// The sending application queues a block.
    Send { payload: Seq<u8> },
    /// The sender fills a packet at `now`. Frame `j` of it is lost where
    /// `lost[j]` holds; the others arrive at once, in order.
    Transfer { now: u64, available: usize, lost: Seq<bool> },
    /// The acknowledgement of a slice arrives at the sender. It counts only
    /// for a slice of the block being sent that the receiver has.
    Ack { block_id: u16, slice_index: u32 },
    /// The receiving application asks for a block.
    Take,
}

/// The two endpoints, the blocks queued so far, how many of them the sender
/// is done with, and what the receiving application has been handed.
pub struct BlockLinkRun {
    pub sender: BlockModel,
    pub receiver: BlockModel,
    pub taken: Seq<Seq<u8>>,
    pub done: nat,
    pub delivered: Seq<Seq<u8>>,
}

/// Whether a receiver that has completed `whole` blocks has slice `slice` of
/// the block at the place `block`: it has the whole block, or gathers it and
/// holds the slice.
pub open spec fn has_slice(r: BlockReceiverModel, whole: nat, block: nat, slice: int) -> bool {
    block < whole || (block == whole && r.receiving && 0 <= slice < r.slices.len()
        && r.slices[slice] is Some)
}

/// The receiver after the first `n` of `frames` have come, but for the lost.
pub open spec fn slices_arrive(r: BlockModel, frames: Seq<FrameView>, lost: Seq<bool>, n: int) -> BlockModel
    decreases n,
{
    if n <= 0 {
        r
    } else {
        let before = slices_arrive(r, frames, lost, n - 1);
        if n - 1 < lost.len() && lost[n - 1] {
            before
        } else {
            before.received(
                frames[n - 1].id,
                frames[n - 1].slice_count,
                frames[n - 1].slice_index,
                frames[n - 1].payload,
            )
        }
    }
}

/// The blocks that the receiver has completed.
pub open spec fn whole_count(run: BlockLinkRun) -> nat {
    run.delivered.len() + run.receiver.receiver.ready.len()
}

/// The link after `step`.
pub open spec fn block_link_step(before: BlockLinkRun, step: BlockLinkStep) -> BlockLinkRun {
    match step {
        BlockLinkStep::Send { payload } => BlockLinkRun {
            sender: before.sender.send(payload),
            taken: if before.sender.send_error(payload) is None {
                before.taken.push(payload)
            } else {
                before.taken
            },
            ..before
        },
        BlockLinkStep::Transfer { now, available, lost } => {
            let frames = before.sender.frames_to_send(now, available);
            BlockLinkRun {
                sender: before.sender.after_sending(now, available),
                receiver: slices_arrive(before.receiver, frames, lost, frames.len() as int),
                ..before
            }
        },
        BlockLinkStep::Ack { block_id, slice_index } => {
            if before.sender.active && block_id == before.sender.sending.block_id && has_slice(
                before.receiver.receiver,
                whole_count(before),
                before.done,
                slice_index as int,
            ) {
                let after = before.sender.acked(block_id, slice_index);
                BlockLinkRun {
                    sender: after,
                    done: if after.active {
                        before.done
                    } else {
                        before.done + 1
                    },
                    ..before
                }
            } else {
                before
            }
        },
        BlockLinkStep::Take => BlockLinkRun {
            receiver: before.receiver.after_receive(),
            delivered: match before.receiver.next_message() {
                Some(block) => before.delivered.push(block),
                None => before.delivered,
            },
            ..before
        },
    }
}

/// The outcome of `steps` on two fresh endpoints with the options `config`.
pub open spec fn block_link_run(config: BlockChannelConfig, steps: Seq<BlockLinkStep>) -> BlockLinkRun
    decreases steps.len(),
{
    if steps.len() == 0 {
        BlockLinkRun {
            sender: BlockModel::fresh(config),
            receiver: BlockModel::fresh(config),
            taken: Seq::empty(),
            done: 0,
            delivered: Seq::empty(),
        }
    } else {
        block_link_step(block_link_run(config, steps.drop_last()), steps.last())
    }
}

/// What the sender keeps true: the blocks go out one after the other.
pub open spec fn block_sender_part(
    sender: BlockModel,
    taken: Seq<Seq<u8>>,
    done: nat,
    config: BlockChannelConfig,
) -> bool {
    &&& sender.config == config
    &&& sender.wf()
    &&& sender.sending.block_id == done % 65536
    &&& done <= taken.len()
    &&& forall|b: int| 0 <= b < taken.len() ==> (#[trigger] taken[b]).len() <= config.max_message_size
    &&& if sender.active {
        &&& done < taken.len()
        &&& sender.sending.data == taken[done as int]
        &&& sender.waiting == taken.skip(done as int + 1)
    } else {
        sender.waiting == taken.skip(done as int)
    }
}

/// What the receiver keeps true: the blocks that it has completed are the
/// first blocks queued, and every slice gathered is a slice of the next.
pub open spec fn block_receiver_part(
    receiver: BlockModel,
    taken: Seq<Seq<u8>>,
    delivered: Seq<Seq<u8>>,
    config: BlockChannelConfig,
) -> bool {
    let r = receiver.receiver;
    let whole = delivered + r.ready;
    let c = whole.len() as int;
    &&& receiver.config == config
    &&& c <= taken.len()
    &&& whole == taken.subrange(0, c)
    &&& r.block_id == c % 65536
    &&& r.receiving ==> {
        &&& c < taken.len()
        &&& r.slices.len() == count_slices(taken[c].len() as int, config.slice_size as int)
        &&& !all_present(r.slices)
        &&& forall|i: int|
            0 <= i < r.slices.len() && (#[trigger] r.slices[i]) is Some ==> r.slices[i] == Some(
                slice_of(taken[c], config.slice_size as int, i),
            )
    }
}

/// What the two keep true together: the receiver is never behind the sender
/// and at most the block being sent ahead of it, and it has every slice that
/// was acknowledged.
pub open spec fn block_joint_part(run: BlockLinkRun) -> bool {
    let c = whole_count(run);
    &&& run.done <= c
    &&& c <= run.done + if run.sender.active {
        1nat
    } else {
        0nat
    }
    &&& run.sender.active ==> forall|i: int|
        0 <= i < run.sender.sending.acked.len() && #[trigger] run.sender.sending.acked[i]
            ==> has_slice(run.receiver.receiver, c, run.done, i)
}

/// What every step on the link keeps true.
pub open spec fn block_link_in_order(run: BlockLinkRun, config: BlockChannelConfig) -> bool {
    &&& block_sender_part(run.sender, run.taken, run.done, config)
    &&& block_receiver_part(run.receiver, run.taken, run.delivered, config)
    &&& block_joint_part(run)
}

/// One slice of the block being sent arrives.
proof fn lemma_slice_arrival(run: BlockLinkRun, config: BlockChannelConfig, slice: int)
    requires
        config.wf(),
        block_link_in_order(run, config),
        run.sender.active,
        0 <= slice < run.sender.sending.acked.len(),
    ensures
        block_link_in_order(
            BlockLinkRun {
                receiver: run.receiver.received(
                    run.sender.sending.block_id,
                    run.sender.sending.acked.len() as u32,
                    slice as u32,
                    slice_of(run.sender.sending.data, config.slice_size as int, slice),
                ),
                ..run
            },
            config,
        ),
{
    let ss = config.slice_size as int;
    let data = run.sender.sending.data;
    let n = run.sender.sending.acked.len() as int;
    let payload = slice_of(data, ss, slice);
    let id = run.sender.sending.block_id;
    let r = run.receiver.receiver;
    let c = whole_count(run) as int;
    let after = BlockLinkRun {
        receiver: run.receiver.received(id, n as u32, slice as u32, payload),
        ..run
    };
    lemma_slice_bounds(data.len() as int, ss, slice);
    lemma_count_slices_monotonic(data.len() as int, config.max_message_size as int, ss);
    if run.receiver.error is None && c == run.done {
        let outcome = r.outcome(config, id, n as u32, slice as u32, payload);
        if outcome is Kept {
            let filled = r.filled(n as u32, slice as u32, payload);
            assert forall|i: int| 0 <= i < filled.len() && (#[trigger] filled[i]) is Some implies filled[i]
                == Some(slice_of(data, ss, i)) by {
                if i != slice {
                    assert(r.places(n as u32)[i] is Some);
                    assert(r.slices[i] is Some);
                }
            }
            if all_present(filled) {
                assert forall|i: int| 0 <= i < filled.len() implies #[trigger] filled[i] == Some(
                    slice_of(data, ss, i),
                ) by {
                    assert(filled[i] is Some);
                }
                lemma_slices_join(data, ss, filled);
                assert(after.delivered + after.receiver.receiver.ready =~= run.taken.subrange(
                    0,
                    c + 1,
                ));
            } else {
                assert(after.delivered + after.receiver.receiver.ready =~= run.delivered
                    + r.ready);
                let acked = run.sender.sending.acked;
                assert forall|i: int| 0 <= i < acked.len() && #[trigger] acked[i] implies has_slice(
                    after.receiver.receiver,
                    c as nat,
                    run.done,
                    i,
                ) by {
                    assert(has_slice(r, c as nat, run.done, i));
                    if i != slice {
                        assert(r.places(n as u32)[i] is Some);
                    }
                }
            }
        }
    }
}

/// The frames of one packet arrive, but for the lost.
proof fn lemma_slice_arrivals(
    run: BlockLinkRun,
    config: BlockChannelConfig,
    frames: Seq<FrameView>,
    lost: Seq<bool>,
    n: int,
)
    requires
        config.wf(),
        block_link_in_order(run, config),
        0 <= n <= frames.len(),
        frames.len() > 0 ==> run.sender.active,
        forall|j: int|
            0 <= j < frames.len() ==> exists|i: int|
                0 <= i < run.sender.sending.acked.len() && #[trigger] frames[j]
                    == run.sender.sending.frame(config.channel_id, config.slice_size as int, i),
    ensures
        block_link_in_order(
            BlockLinkRun { receiver: slices_arrive(run.receiver, frames, lost, n), ..run },
            config,
        ),
    decreases n,
{
    if n > 0 {
        lemma_slice_arrivals(run, config, frames, lost, n - 1);
        let before = BlockLinkRun {
            receiver: slices_arrive(run.receiver, frames, lost, n - 1),
            ..run
        };
        if !(n - 1 < lost.len() && lost[n - 1]) {
            let i = choose|i: int|
                0 <= i < run.sender.sending.acked.len() && frames[n - 1]
                    == run.sender.sending.frame(config.channel_id, config.slice_size as int, i);
            lemma_slice_bounds(
                run.sender.sending.data.len() as int,
                config.slice_size as int,
                i,
            );
            lemma_slice_arrival(before, config, i);
        }
    } else {
        assert((BlockLinkRun { receiver: run.receiver, ..run }) == run);
    }
}

proof fn lemma_block_step_keeps_order(before: BlockLinkRun, config: BlockChannelConfig, step: BlockLinkStep)
    requires
        config.wf(),
        block_link_in_order(before, config),
    ensures
        block_link_in_order(block_link_step(before, step), config),
{
    let run = block_link_step(before, step);
    let ss = config.slice_size as int;
    let s = before.sender;
    let r = before.receiver.receiver;
    let c = whole_count(before) as int;
    match step {
        BlockLinkStep::Send { payload } => {
            if s.send_error(payload) is None {
                if s.active {
                    assert(run.sender.waiting =~= run.taken.skip(run.done as int + 1));
                } else {
                    assert(run.sender.waiting =~= run.taken.skip(run.done as int));
                }
                assert(run.delivered + run.receiver.receiver.ready =~= run.taken.subrange(0, c));
            }
        },
        BlockLinkStep::Transfer { now, available, lost } => {
            let started = s.started();
            let frames = s.frames_to_send(now, available);
            if !s.active && s.waiting.len() > 0 {
                assert(s.waiting[0] == before.taken[before.done as int]);
                assert(started.waiting =~= before.taken.skip(before.done as int + 1));
                lemma_slice_bounds(s.waiting[0].len() as int, ss, 0);
            }
            let middle = BlockLinkRun { sender: started, ..before };
            assert(block_link_in_order(middle, config));
            if s.error is None && started.active {
                lemma_collected_slices(
                    started.sending,
                    config.channel_id,
                    ss,
                    now,
                    config.resend_time,
                    started.budget(available),
                    started.sending.acked.len() as int,
                );
                lemma_slice_arrivals(middle, config, frames, lost, frames.len() as int);
                let arrived = BlockLinkRun {
                    receiver: slices_arrive(before.receiver, frames, lost, frames.len() as int),
                    ..middle
                };
                assert(block_link_in_order(arrived, config));
                assert(run.sender.wf());
            } else {
                assert(frames.len() == 0);
            }
        },
        BlockLinkStep::Ack { block_id, slice_index } => {
            if s.active && block_id == s.sending.block_id && has_slice(
                r,
                c as nat,
                before.done,
                slice_index as int,
            ) {
                let acked = s.sending.acked.update(slice_index as int, true);
                if slice_index < s.sending.acked.len() {
                    if all_true(acked) {
                        if c == before.done {
                            assert forall|i: int| 0 <= i < r.slices.len() implies (
                            #[trigger] r.slices[i]) is Some by {
                                assert(acked[i]);
                                if i != slice_index {
                                    assert(s.sending.acked[i]);
                                }
                                assert(has_slice(r, c as nat, before.done, i));
                            }
                        }
                    } else {
                        let still = run.sender.sending.acked;
                        assert forall|i: int| 0 <= i < still.len() && #[trigger] still[i] implies has_slice(
                            run.receiver.receiver,
                            c as nat,
                            run.done,
                            i,
                        ) by {
                            if i != slice_index {
                                assert(s.sending.acked[i]);
                            }
                        }
                    }
                }
            }
        },
        BlockLinkStep::Take => {
            if r.ready.len() > 0 {
                assert(run.delivered + run.receiver.receiver.ready =~= before.delivered + r.ready);
            }
        },
    }
}

proof fn lemma_block_link_in_order(config: BlockChannelConfig, steps: Seq<BlockLinkStep>)
    requires
        config.wf(),
    ensures
        block_link_in_order(block_link_run(config, steps), config),
    decreases steps.len(),
{
    if steps.len() == 0 {
        let run = block_link_run(config, steps);
        assert(run.delivered + run.receiver.receiver.ready =~= run.taken.subrange(0, 0));
        assert(run.sender.waiting =~= run.taken.skip(0));
    } else {
        lemma_block_link_in_order(config, steps.drop_last());
        lemma_block_step_keeps_order(
            block_link_run(config, steps.drop_last()),
            config,
            steps.last(),
        );
    }
}

/// Whatever the link loses, and whenever the applications send and ask: the
/// blocks handed out at the receiving end are the first blocks queued at the
/// sending end, in their order, each once and each equal to what was queued,
/// byte for byte. No block is handed out in part.
pub proof fn lemma_delivered_blocks_are_sent_blocks(config: BlockChannelConfig, steps: Seq<BlockLinkStep>)
    requires
        config.wf(),
    ensures
        block_link_run(config, steps).delivered.is_prefix_of(block_link_run(config, steps).taken),
{
    lemma_block_link_in_order(config, steps);
    let run = block_link_run(config, steps);
    let whole = run.delivered + run.receiver.receiver.ready;
    assert(run.delivered =~= whole.subrange(0, run.delivered.len() as int));
    assert(run.delivered =~= run.taken.subrange(0, run.delivered.len() as int));
}

} // verus!
