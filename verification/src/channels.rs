//! The channels of one connection, taken together: how acknowledgements and
//! arriving frames find their channel, and how the channels fill a packet.
use crate::channel::{key_of, Channel, ChannelModel, FrameKey};
use crate::error::{ChannelError, DisconnectionReason};
use crate::packet::{
    frame_views, frames_size, frames_wf, lemma_frames_concat, Frame, FrameView, FRAME_HEADER_BYTES,
};
use vstd::prelude::*;

verus! {

/// The channels of `channels`, each by its view.
pub open spec fn channel_views(channels: Seq<Channel>) -> Seq<ChannelModel> {
    Seq::new(channels.len(), |i: int| channels[i]@)
}

/// Whether every channel is in order.
pub open spec fn channels_wf(models: Seq<ChannelModel>) -> bool {
    forall|i: int| 0 <= i < models.len() ==> (#[trigger] models[i]).wf()
}

/// Index of the first channel with the id `id`, or the number of channels if
/// none has it.
pub open spec fn find_channel(models: Seq<ChannelModel>, id: u8) -> int
    decreases models.len(),
{
    if models.len() == 0 {
        0
    } else if models[0].channel_id() == id {
        0
    } else {
        1 + find_channel(models.skip(1), id)
    }
}

/// The place `k` is where the channel `id` is found if it has the id and no
/// channel before it has.
pub proof fn lemma_find_channel(models: Seq<ChannelModel>, id: u8, k: int)
    requires
        0 <= k <= models.len(),
        forall|j: int| 0 <= j < k ==> models[j].channel_id() != id,
        k < models.len() ==> models[k].channel_id() == id,
    ensures
        find_channel(models, id) == k,
    decreases models.len(),
{
    if models.len() > 0 && k > 0 {
        let rest = models.skip(1);
        assert forall|j: int| 0 <= j < k - 1 implies rest[j].channel_id() != id by {
            assert(rest[j] == models[j + 1]);
        }
        lemma_find_channel(rest, id, k - 1);
    }
}

/// Index of the first channel with the id `id`, or the number of channels.
pub fn channel_index(channels: &Vec<Channel>, id: u8) -> (k: usize)
    ensures
        k == find_channel(channel_views(channels@), id),
        k <= channels@.len(),
        k < channels@.len() ==> channels@[k as int]@.channel_id() == id,
{
    let ghost models = channel_views(channels@);
    let n = channels.len();
    let mut k: usize = 0;
    while k < n && channels[k].channel_id() != id
        invariant
            k <= n,
            n == channels@.len(),
            models == channel_views(channels@),
            forall|j: int| 0 <= j < k ==> models[j].channel_id() != id,
        decreases n - k,
    {
        assert(models[k as int] == channels@[k as int]@);
        k = k + 1;
    }
    proof {
        if k < n {
            assert(models[k as int] == channels@[k as int]@);
        }
        lemma_find_channel(models, id, k as int);
    }
    k
}

/// The channels after the frame named by `key` was acknowledged.
pub open spec fn acked_one(models: Seq<ChannelModel>, key: FrameKey) -> Seq<ChannelModel> {
    let k = find_channel(models, key.channel_id);
    if k < models.len() {
        models.update(k, models[k].acked(key))
    } else {
        models
    }
}

/// The channels after the first `n` of `keys` were acknowledged, in order.
pub open spec fn acknowledged(models: Seq<ChannelModel>, keys: Seq<FrameKey>, n: int) -> Seq<
    ChannelModel,
>
    decreases n,
{
    if n <= 0 {
        models
    } else {
        acked_one(acknowledged(models, keys, n - 1), keys[n - 1])
    }
}

/// Tells the channels that the frames named by `keys` have arrived.
pub fn acknowledge(channels: &mut Vec<Channel>, keys: &Vec<FrameKey>)
    requires
        channels_wf(channel_views(old(channels)@)),
    ensures
        channels_wf(channel_views(final(channels)@)),
        final(channels)@.len() == old(channels)@.len(),
        channel_views(final(channels)@) == acknowledged(
            channel_views(old(channels)@),
            keys@,
            keys@.len() as int,
        ),
{
    let ghost start = channel_views(channels@);
    let mut i: usize = 0;
    while i < keys.len()
        invariant
            i <= keys@.len(),
            channels@.len() == old(channels)@.len(),
            start == channel_views(old(channels)@),
            channels_wf(channel_views(channels@)),
            channel_views(channels@) == acknowledged(start, keys@, i as int),
        decreases keys@.len() - i,
    {
        let key = keys[i];
        let ghost before = channel_views(channels@);
        let k = channel_index(channels, key.channel_id);
        if k < channels.len() {
            assert(before[k as int].wf());
            assert(before[k as int] == channels@[k as int]@);
            channels[k].process_ack(key);
            assert(channel_views(channels@) =~= before.update(
                k as int,
                before[k as int].acked(key),
            ));
            assert forall|j: int| 0 <= j < channels@.len() implies (#[trigger] channel_views(
                channels@,
            )[j]).wf() by {
                if j != k {
                    assert(before[j].wf());
                }
            }
        }
        i = i + 1;
    }
}

/// The channels while frames are handed to them, and the reason for which
/// the connection ends, once a frame was refused.
pub struct Delivery {
    pub channels: Seq<ChannelModel>,
    pub failure: Option<DisconnectionReason>,
}

/// The delivery after the frame `f`: it goes to the channel with its id,
/// unless a frame before it was refused. A frame for a channel that is not
/// there, or of another kind than its channel, is refused, and so is one
/// that makes its channel fail.
pub open spec fn delivered_one(d: Delivery, f: FrameView) -> Delivery {
    if d.failure is Some {
        d
    } else {
        let k = find_channel(d.channels, f.channel_id);
        if k < d.channels.len() {
            Delivery {
                channels: d.channels.update(k, d.channels[k].received(f)),
                failure: match d.channels[k].receive_error(f) {
                    Some(error) => Some(
                        DisconnectionReason::Channel { channel_id: f.channel_id, error },
                    ),
                    None => None,
                },
            }
        } else {
            Delivery {
                channels: d.channels,
                failure: Some(
                    DisconnectionReason::Channel {
                        channel_id: f.channel_id,
                        error: ChannelError::UnknownChannel,
                    },
                ),
            }
        }
    }
}

/// The delivery of the first `n` of `frames`, in order.
pub open spec fn delivered(models: Seq<ChannelModel>, frames: Seq<FrameView>, n: int) -> Delivery
    decreases n,
{
    if n <= 0 {
        Delivery { channels: models, failure: None }
    } else {
        delivered_one(delivered(models, frames, n - 1), frames[n - 1])
    }
}

/// The frames of `frames` in the opposite order.
fn reversed(frames: Vec<Frame>) -> (back: Vec<Frame>)
    ensures
        back@.len() == frames@.len(),
        forall|i: int| 0 <= i < frames@.len() ==> back@[i] == frames@[frames@.len() - 1 - i],
{
    let mut frames = frames;
    let ghost all = frames@;
    let mut back: Vec<Frame> = Vec::new();
    while frames.len() > 0
        invariant
            frames@.len() + back@.len() == all.len(),
            forall|i: int| 0 <= i < frames@.len() ==> frames@[i] == all[i],
            forall|i: int| 0 <= i < back@.len() ==> back@[i] == all[all.len() - 1 - i],
        decreases frames@.len(),
    {
        match frames.pop() {
            Some(frame) => {
                back.push(frame);
            },
            None => {},
        }
    }
    back
}

/// Hands the frames to their channels, in order, until one is refused, and
/// returns the reason for which the connection ends if one was.
pub fn deliver(channels: &mut Vec<Channel>, frames: Vec<Frame>) -> (failure: Option<
    DisconnectionReason,
>)
    requires
        channels_wf(channel_views(old(channels)@)),
    ensures
        channels_wf(channel_views(final(channels)@)),
        final(channels)@.len() == old(channels)@.len(),
        channel_views(final(channels)@) == delivered(
            channel_views(old(channels)@),
            frame_views(frames@),
            frames@.len() as int,
        ).channels,
        failure == delivered(
            channel_views(old(channels)@),
            frame_views(frames@),
            frames@.len() as int,
        ).failure,
{
    let ghost start = channel_views(channels@);
    let ghost views = frame_views(frames@);
    let ghost all = frames@;
    let n = frames.len();
    let mut back = reversed(frames);
    let mut failure: Option<DisconnectionReason> = None;
    let mut i: usize = 0;
    while i < n
        invariant
            i <= n,
            n == all.len(),
            views == frame_views(all),
            back@.len() == n - i,
            forall|j: int| 0 <= j < back@.len() ==> back@[j] == all[n - 1 - j],
            channels@.len() == old(channels)@.len(),
            start == channel_views(old(channels)@),
            channels_wf(channel_views(channels@)),
            channel_views(channels@) == delivered(start, views, i as int).channels,
            failure == delivered(start, views, i as int).failure,
        decreases n - i,
    {
        let ghost before = channel_views(channels@);
        match back.pop() {
            Some(frame) => {
                assert(frame == all[i as int]);
                assert(frame@ == views[i as int]);
                if failure.is_none() {
                    let k = channel_index(channels, frame.channel_id);
                    if k < channels.len() {
                        assert(before[k as int].wf());
                        assert(before[k as int] == channels@[k as int]@);
                        let channel_id = frame.channel_id;
                        let error = channels[k].process_frame(frame);
                        assert(channel_views(channels@) =~= before.update(
                            k as int,
                            before[k as int].received(views[i as int]),
                        ));
                        assert forall|j: int| 0 <= j < channels@.len() implies (
                        #[trigger] channel_views(channels@)[j]).wf() by {
                            if j != k {
                                assert(before[j].wf());
                            }
                        }
                        failure = match error {
                            Some(error) => Some(DisconnectionReason::Channel { channel_id, error }),
                            None => None,
                        };
                    } else {
                        failure = Some(
                            DisconnectionReason::Channel {
                                channel_id: frame.channel_id,
                                error: ChannelError::UnknownChannel,
                            },
                        );
                    }
                }
            },
            None => {},
        }
        i = i + 1;
    }
    failure
}

/// The channels while they fill a packet, and the frames gathered so far.
pub struct Gathering {
    pub channels: Seq<ChannelModel>,
    pub frames: Seq<FrameView>,
}

/// What the first `n` channels put at `now` in a packet with room for
/// `available` bytes of frames: each channel in turn adds what fits in the
/// room that the channels before it have left.
pub open spec fn gathered(models: Seq<ChannelModel>, now: u64, available: usize, n: int) -> Gathering
    decreases n,
{
    if n <= 0 {
        Gathering { channels: models, frames: Seq::empty() }
    } else {
        let g = gathered(models, now, available, n - 1);
        let room = (available - frames_size(g.frames)) as usize;
        Gathering {
            channels: g.channels.update(n - 1, models[n - 1].after_sending(now, room)),
            frames: g.frames + models[n - 1].frames_to_send(now, room),
        }
    }
}

/// Lets every channel, in order, add its frames to a packet with room for
/// `available` bytes of frames.
pub fn gather(channels: &mut Vec<Channel>, now: u64, available: usize) -> (frames: Vec<Frame>)
    requires
        channels_wf(channel_views(old(channels)@)),
    ensures
        channels_wf(channel_views(final(channels)@)),
        final(channels)@.len() == old(channels)@.len(),
        channel_views(final(channels)@) == gathered(
            channel_views(old(channels)@),
            now,
            available,
            old(channels)@.len() as int,
        ).channels,
        frame_views(frames@) == gathered(
            channel_views(old(channels)@),
            now,
            available,
            old(channels)@.len() as int,
        ).frames,
        frames_wf(frame_views(frames@)),
        frames_size(frame_views(frames@)) <= available,
{
    let ghost start = channel_views(channels@);
    let n = channels.len();
    let mut frames: Vec<Frame> = Vec::new();
    let mut used: usize = 0;
    let mut i: usize = 0;
    assert(frame_views(frames@) =~= Seq::empty());
    while i < n
        invariant
            i <= n,
            n == channels@.len(),
            n == start.len(),
            channels_wf(channel_views(channels@)),
            channel_views(channels@) == gathered(start, now, available, i as int).channels,
            forall|j: int| i <= j < n ==> channel_views(channels@)[j] == start[j],
            frame_views(frames@) == gathered(start, now, available, i as int).frames,
            frames_wf(frame_views(frames@)),
            frames_size(frame_views(frames@)) == used,
            used <= available,
        decreases n - i,
    {
        let ghost before = channel_views(channels@);
        let ghost so_far = frame_views(frames@);
        let room = available - used;
        assert(before[i as int].wf());
        assert(before[i as int] == channels@[i as int]@);
        assert(before[i as int] == start[i as int]);
        let mut more = channels[i].get_frames_to_send(now, room);
        let ghost added = frame_views(more@);
        let added_bytes = frames_bytes(&more, room);
        proof {
            lemma_frames_concat(so_far, added);
            assert(channel_views(channels@) =~= before.update(
                i as int,
                start[i as int].after_sending(now, room),
            ));
            assert forall|j: int| 0 <= j < channels@.len() implies (#[trigger] channel_views(
                channels@,
            )[j]).wf() by {
                if j != i {
                    assert(before[j].wf());
                }
            }
        }
        let ghost pieces = frames@ + more@;
        frames.append(&mut more);
        assert(frame_views(frames@) =~= so_far + added) by {
            assert(frames@ == pieces);
        }
        used = used + added_bytes;
        i = i + 1;
    }
    frames
}

/// Bytes of `frames` on the wire, which are at most `bound`.
fn frames_bytes(frames: &Vec<Frame>, bound: usize) -> (bytes: usize)
    requires
        frames_size(frame_views(frames@)) <= bound,
    ensures
        bytes == frames_size(frame_views(frames@)),
{
    let ghost views = frame_views(frames@);
    let n = frames.len();
    let mut bytes: usize = 0;
    let mut i: usize = 0;
    while i < n
        invariant
            i <= n,
            n == frames@.len(),
            views == frame_views(frames@),
            frames_size(views) <= bound,
            bytes == frames_size(views.subrange(0, i as int)),
        decreases n - i,
    {
        proof {
            let next = views.subrange(0, i + 1);
            assert(next.drop_last() =~= views.subrange(0, i as int));
            assert(next.last() == frames@[i as int]@);
            assert(next + views.subrange(i + 1, n as int) =~= views);
            lemma_frames_concat(next, views.subrange(i + 1, n as int));
        }
        bytes = bytes + FRAME_HEADER_BYTES + frames[i].payload.len();
        i = i + 1;
    }
    assert(views.subrange(0, n as int) =~= views);
    bytes
}

/// The keys of `frames`, in order.
pub open spec fn frame_keys(frames: Seq<FrameView>) -> Seq<FrameKey> {
    Seq::new(frames.len(), |i: int| key_of(frames[i]))
}

/// The keys under which the frames of `frames` will be acknowledged.
pub fn keys_of(frames: &Vec<Frame>) -> (keys: Vec<FrameKey>)
    ensures
        keys@ == frame_keys(frame_views(frames@)),
{
    let mut keys: Vec<FrameKey> = Vec::new();
    let mut i: usize = 0;
    while i < frames.len()
        invariant
            i <= frames@.len(),
            keys@.len() == i,
            forall|j: int| 0 <= j < i ==> keys@[j] == key_of(frames@[j]@),
        decreases frames@.len() - i,
    {
        let f = &frames[i];
        keys.push(
            FrameKey { channel_id: f.channel_id, kind: f.kind, id: f.id, slice_index: f.slice_index },
        );
        i = i + 1;
    }
    assert(keys@ =~= frame_keys(frame_views(frames@)));
    keys
}

} // verus!
