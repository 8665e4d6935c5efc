//! The wire format of the channel layer: what travels inside the payload of
//! one datagram of the session layer.
//!
//! A packet is one of
//!
//! * `0, sequence (2), ack (4), ack bits (4), frames`: the frames of the
//!   channels, each `channel (1), kind (1), id (2), slice index (4),
//!   slice count (4), length (2), payload`;
//! * `1, sequence (2), fragment id (1), fragment count (2), bytes`: one piece
//!   of a packet of the first form that was too large for one datagram;
//! * `2, reason (1), channel (1)`: the connection ends.
//!
//! Integers are little-endian.
use crate::error::{lemma_reason_round_trip, reason_code, reason_of_code, DisconnectionReason};
use vstd::prelude::*;

verus! {

/// Bytes of a frame before its payload.
pub const FRAME_HEADER_BYTES: usize = 14;

/// Bytes of a packet of frames before its first frame.
pub const PACKET_HEADER_BYTES: usize = 11;

/// Bytes of a fragment before the piece it carries.
pub const FRAGMENT_HEADER_BYTES: usize = 6;

/// Most fragments that one packet is split into.
pub const MAX_FRAGMENTS: u16 = 256;

/// The word that says, in place of a sequence, that nothing was received yet.
pub const NO_ACK: u32 = 0xFFFF_FFFF;

/// The two bytes of `x`, the low byte first.
pub open spec fn u16_bytes(x: u16) -> Seq<u8> {
    seq![(x % 256) as u8, (x / 256) as u8]
}

/// The four bytes of `x`, the lowest byte first.
pub open spec fn u32_bytes(x: u32) -> Seq<u8> {
    seq![
        (x % 256) as u8,
        ((x / 256) % 256) as u8,
        ((x / 65536) % 256) as u8,
        (x / 16777216) as u8,
    ]
}

/// The integer that the two bytes of `s` at `i` stand for.
pub open spec fn u16_at(s: Seq<u8>, i: int) -> u16 {
    (s[i] + 256 * s[i + 1]) as u16
}

/// The integer that the four bytes of `s` at `i` stand for.
pub open spec fn u32_at(s: Seq<u8>, i: int) -> u32 {
    (s[i] + 256 * s[i + 1] + 65536 * s[i + 2] + 16777216 * s[i + 3]) as u32
}

/// Appends the two bytes of `x`.
pub fn push_u16(out: &mut Vec<u8>, x: u16)
    ensures
        final(out)@ == old(out)@ + u16_bytes(x),
{
    out.push((x % 256) as u8);
    out.push((x / 256) as u8);
    assert(out@ =~= old(out)@ + u16_bytes(x));
}

/// Appends the four bytes of `x`.
pub fn push_u32(out: &mut Vec<u8>, x: u32)
    ensures
        final(out)@ == old(out)@ + u32_bytes(x),
{
    out.push((x % 256) as u8);
    out.push(((x / 256) % 256) as u8);
    out.push(((x / 65536) % 256) as u8);
    out.push((x / 16777216) as u8);
    assert(out@ =~= old(out)@ + u32_bytes(x));
}

/// Appends `data`.
pub fn push_bytes(out: &mut Vec<u8>, data: &[u8])
    ensures
        final(out)@ == old(out)@ + data@,
{
    let mut i: usize = 0;
    while i < data.len()
        invariant
            i <= data@.len(),
            out@ == old(out)@ + data@.subrange(0, i as int),
        decreases data@.len() - i,
    {
        out.push(data[i]);
        i = i + 1;
        assert(out@ =~= old(out)@ + data@.subrange(0, i as int));
    }
    assert(data@.subrange(0, i as int) =~= data@);
}

/// The two bytes at `at`, read as an integer.
pub fn read_u16(bytes: &[u8], at: usize) -> (x: u16)
    requires
        at + 2 <= bytes@.len(),
    ensures
        x == u16_at(bytes@, at as int),
{
    bytes[at] as u16 + 256 * (bytes[at + 1] as u16)
}

/// The four bytes at `at`, read as an integer.
pub fn read_u32(bytes: &[u8], at: usize) -> (x: u32)
    requires
        at + 4 <= bytes@.len(),
    ensures
        x == u32_at(bytes@, at as int),
{
    bytes[at] as u32 + 256 * (bytes[at + 1] as u32) + 65536 * (bytes[at + 2] as u32) + 16777216
        * (bytes[at + 3] as u32)
}

/// A copy of the bytes from `start` up to `end`.
pub fn copy_range(bytes: &[u8], start: usize, end: usize) -> (copy: Vec<u8>)
    requires
        start <= end <= bytes@.len(),
    ensures
        copy@ == bytes@.subrange(start as int, end as int),
{
    let mut copy: Vec<u8> = Vec::new();
    let mut i: usize = start;
    while i < end
        invariant
            start <= i <= end <= bytes@.len(),
            copy@ == bytes@.subrange(start as int, i as int),
        decreases end - i,
    {
        copy.push(bytes[i]);
        i = i + 1;
        assert(copy@ =~= bytes@.subrange(start as int, i as int));
    }
    copy
}

/// The variant of the channel that a frame belongs to.
#[derive(Debug, Clone, Copy, PartialEq, Eq, Structural)]
pub enum FrameKind {
    Reliable,
    Unreliable,
    Slice,
}

/// The byte that stands for `kind`.
pub open spec fn kind_byte(kind: FrameKind) -> u8 {
    match kind {
        FrameKind::Reliable => 0,
        FrameKind::Unreliable => 1,
        FrameKind::Slice => 2,
    }
}

/// The kind that `byte` stands for, if it stands for one.
pub open spec fn kind_of_byte(byte: u8) -> Option<FrameKind> {
    if byte == 0 {
        Some(FrameKind::Reliable)
    } else if byte == 1 {
        Some(FrameKind::Unreliable)
    } else if byte == 2 {
        Some(FrameKind::Slice)
    } else {
        None
    }
}

/// One message, or one slice of a block, on its way through a channel.
///
/// `id` is the message id on a reliable channel and the block id on a block
/// channel; the two slice fields are zero but on a block channel.
#[derive(Debug)]
pub struct Frame {
    pub channel_id: u8,
    pub kind: FrameKind,
    pub id: u16,
    pub slice_index: u32,
    pub slice_count: u32,
    pub payload: Vec<u8>,
}

/// A [`Frame`] as a mathematical value.
pub struct FrameView {
    pub channel_id: u8,
    pub kind: FrameKind,
    pub id: u16,
    pub slice_index: u32,
    pub slice_count: u32,
    pub payload: Seq<u8>,
}

impl View for Frame {
    type V = FrameView;

    open spec fn view(&self) -> FrameView {
        FrameView {
            channel_id: self.channel_id,
            kind: self.kind,
            id: self.id,
            slice_index: self.slice_index,
            slice_count: self.slice_count,
            payload: self.payload@,
        }
    }
}

/// The frames of `frames`, each by its view.
pub open spec fn frame_views(frames: Seq<Frame>) -> Seq<FrameView> {
    Seq::new(frames.len(), |i: int| frames[i]@)
}

impl FrameView {
    /// The payload's length fits the two bytes that carry it.
    pub open spec fn wf(self) -> bool {
        self.payload.len() <= u16::MAX
    }

    /// Bytes of the frame on the wire.
    pub open spec fn size(self) -> nat {
        FRAME_HEADER_BYTES as nat + self.payload.len()
    }
}

/// The bytes of the frame `f` on the wire.
pub open spec fn frame_wire(f: FrameView) -> Seq<u8> {
    seq![f.channel_id, kind_byte(f.kind)] + u16_bytes(f.id) + u32_bytes(f.slice_index) + u32_bytes(
        f.slice_count,
    ) + u16_bytes(f.payload.len() as u16) + f.payload
}

/// The bytes of the frames `fs` on the wire, one frame after the other.
pub open spec fn frames_wire(fs: Seq<FrameView>) -> Seq<u8>
    decreases fs.len(),
{
    if fs.len() == 0 {
        Seq::empty()
    } else {
        frames_wire(fs.drop_last()) + frame_wire(fs.last())
    }
}

/// Bytes of the frames of `fs` on the wire.
pub open spec fn frames_size(fs: Seq<FrameView>) -> nat
    decreases fs.len(),
{
    if fs.len() == 0 {
        0
    } else {
        frames_size(fs.drop_last()) + fs.last().size()
    }
}

/// Whether the format can carry every frame of `fs`.
pub open spec fn frames_wf(fs: Seq<FrameView>) -> bool {
    forall|i: int| 0 <= i < fs.len() ==> (#[trigger] fs[i]).wf()
}

/// The frame that `s` begins with.
pub open spec fn first_frame(s: Seq<u8>) -> Option<FrameView> {
    if s.len() < FRAME_HEADER_BYTES {
        None
    } else {
        match kind_of_byte(s[1]) {
            None => None,
            Some(kind) => {
                let n = u16_at(s, 12) as int;
                if s.len() < FRAME_HEADER_BYTES + n {
                    None
                } else {
                    Some(
                        FrameView {
                            channel_id: s[0],
                            kind,
                            id: u16_at(s, 2),
                            slice_index: u32_at(s, 4),
                            slice_count: u32_at(s, 8),
                            payload: s.subrange(
                                FRAME_HEADER_BYTES as int,
                                FRAME_HEADER_BYTES + n,
                            ),
                        },
                    )
                }
            },
        }
    }
}

/// The frames that `s` is made of, if it is made of frames from end to end.
pub open spec fn parse_frames(s: Seq<u8>) -> Option<Seq<FrameView>>
    decreases s.len(),
{
    if s.len() == 0 {
        Some(Seq::empty())
    } else {
        match first_frame(s) {
            None => None,
            Some(f) => {
                if s.len() < FRAME_HEADER_BYTES + f.payload.len() {
                    None
                } else {
                    match parse_frames(s.skip(FRAME_HEADER_BYTES + f.payload.len())) {
                        None => None,
                        Some(rest) => Some(seq![f] + rest),
                    }
                }
            },
        }
    }
}

/// `front` before the frames of `rest`, if there are any.
pub open spec fn prepend(front: Seq<FrameView>, rest: Option<Seq<FrameView>>) -> Option<
    Seq<FrameView>,
> {
    match rest {
        None => None,
        Some(r) => Some(front + r),
    }
}

/// A packet of the channel layer.
#[derive(Debug)]
pub enum Packet {
    /// Frames of the channels, with the acknowledgements of the sender:
    /// `ack` is the newest sequence it received, if it received any, and bit
    /// `i` of `ack_bits` says whether it received the sequence `ack - 1 - i`.
    Normal { sequence: u16, ack: Option<u16>, ack_bits: u32, frames: Vec<Frame> },
    /// Piece `fragment_id` of the `fragment_count` pieces of the packet
    /// `sequence`.
    Fragment { sequence: u16, fragment_id: u8, fragment_count: u16, payload: Vec<u8> },
    /// The sender ended the connection.
    Disconnect { reason: DisconnectionReason },
}

/// A [`Packet`] as a mathematical value.
pub enum PacketView {
    Normal { sequence: u16, ack: Option<u16>, ack_bits: u32, frames: Seq<FrameView> },
    Fragment { sequence: u16, fragment_id: u8, fragment_count: u16, payload: Seq<u8> },
    Disconnect { reason: DisconnectionReason },
}

impl View for Packet {
    type V = PacketView;

    open spec fn view(&self) -> PacketView {
        match self {
            Packet::Normal { sequence, ack, ack_bits, frames } => PacketView::Normal {
                sequence: *sequence,
                ack: *ack,
                ack_bits: *ack_bits,
                frames: frame_views(frames@),
            },
            Packet::Fragment { sequence, fragment_id, fragment_count, payload } => {
                PacketView::Fragment {
                    sequence: *sequence,
                    fragment_id: *fragment_id,
                    fragment_count: *fragment_count,
                    payload: payload@,
                }
            },
            Packet::Disconnect { reason } => PacketView::Disconnect { reason: *reason },
        }
    }
}

impl PacketView {
    /// What the format can carry: frames whose lengths fit, and a fragment
    /// that is one of at most 256.
    pub open spec fn wf(self) -> bool {
        match self {
            PacketView::Normal { frames, .. } => frames_wf(frames),
            PacketView::Fragment { fragment_id, fragment_count, .. } => {
                fragment_id < fragment_count <= MAX_FRAGMENTS
            },
            PacketView::Disconnect { .. } => true,
        }
    }
}

/// The four bytes that carry `ack`: the sequence, or all ones for none.
pub open spec fn ack_word(ack: Option<u16>) -> u32 {
    match ack {
        Some(a) => a as u32,
        None => NO_ACK,
    }
}

/// The acknowledgement that the word `w` carries, if it carries one.
pub open spec fn ack_of_word(w: u32) -> Option<Option<u16>> {
    if w == NO_ACK {
        Some(None)
    } else if w <= u16::MAX {
        Some(Some(w as u16))
    } else {
        None
    }
}

/// The bytes of `p` on the wire.
pub open spec fn packet_wire(p: PacketView) -> Seq<u8> {
    match p {
        PacketView::Normal { sequence, ack, ack_bits, frames } => seq![0u8] + u16_bytes(sequence)
            + u32_bytes(ack_word(ack)) + u32_bytes(ack_bits) + frames_wire(frames),
        PacketView::Fragment { sequence, fragment_id, fragment_count, payload } => seq![1u8]
            + u16_bytes(sequence) + seq![fragment_id] + u16_bytes(fragment_count) + payload,
        PacketView::Disconnect { reason } => seq![2u8, reason_code(reason).0, reason_code(reason).1],
    }
}

/// The packet that the bytes `s` stand for, if they stand for one.
pub open spec fn parse_packet(s: Seq<u8>) -> Option<PacketView> {
    if s.len() == 0 {
        None
    } else if s[0] == 0 {
        if s.len() < PACKET_HEADER_BYTES || ack_of_word(u32_at(s, 3)) is None {
            None
        } else {
            match parse_frames(s.skip(PACKET_HEADER_BYTES as int)) {
                None => None,
                Some(frames) => Some(
                    PacketView::Normal {
                        sequence: u16_at(s, 1),
                        ack: ack_of_word(u32_at(s, 3)).unwrap(),
                        ack_bits: u32_at(s, 7),
                        frames,
                    },
                ),
            }
        }
    } else if s[0] == 1 {
        if s.len() < FRAGMENT_HEADER_BYTES || !(s[3] < u16_at(s, 4) <= MAX_FRAGMENTS) {
            None
        } else {
            Some(
                PacketView::Fragment {
                    sequence: u16_at(s, 1),
                    fragment_id: s[3],
                    fragment_count: u16_at(s, 4),
                    payload: s.skip(FRAGMENT_HEADER_BYTES as int),
                },
            )
        }
    } else if s[0] == 2 {
        if s.len() != 3 {
            None
        } else {
            match reason_of_code(s[1], s[2]) {
                None => None,
                Some(reason) => Some(PacketView::Disconnect { reason }),
            }
        }
    } else {
        None
    }
}

/// What one more frame adds to a row of frames.
pub proof fn lemma_frames_push(fs: Seq<FrameView>, f: FrameView)
    ensures
        frames_size(fs.push(f)) == frames_size(fs) + f.size(),
        frames_wire(fs.push(f)) == frames_wire(fs) + frame_wire(f),
        frames_wf(fs) && f.wf() ==> frames_wf(fs.push(f)),
{
    assert(fs.push(f).drop_last() =~= fs);
}

/// Two rows of frames, one after the other.
pub proof fn lemma_frames_concat(a: Seq<FrameView>, b: Seq<FrameView>)
    ensures
        frames_size(a + b) == frames_size(a) + frames_size(b),
        frames_wire(a + b) == frames_wire(a) + frames_wire(b),
        frames_wf(a) && frames_wf(b) ==> frames_wf(a + b),
    decreases b.len(),
{
    if b.len() == 0 {
        assert(a + b =~= a);
        assert(frames_wire(a) + frames_wire(b) =~= frames_wire(a));
    } else {
        lemma_frames_concat(a, b.drop_last());
        assert((a + b).drop_last() =~= a + b.drop_last());
        assert((a + b).last() == b.last());
        assert(frames_wire(a + b) =~= frames_wire(a) + frames_wire(b));
        if frames_wf(a) && frames_wf(b) {
            assert forall|i: int| 0 <= i < (a + b).len() implies (#[trigger] (a + b)[i]).wf() by {
                if i < a.len() {
                    assert((a + b)[i] == a[i]);
                } else {
                    assert((a + b)[i] == b[i - a.len()]);
                }
            }
        } else if frames_wf(a) {
        }
    }
}

/// The bytes of a row of frames are as many as their sizes say.
pub proof fn lemma_frames_wire_len(fs: Seq<FrameView>)
    ensures
        frames_wire(fs).len() == frames_size(fs),
    decreases fs.len(),
{
    if fs.len() > 0 {
        lemma_frames_wire_len(fs.drop_last());
    }
}

proof fn lemma_first_frame_of_wire(f: FrameView, tail: Seq<u8>)
    requires
        f.wf(),
    ensures
        first_frame(frame_wire(f) + tail) == Some(f),
        (frame_wire(f) + tail).skip(FRAME_HEADER_BYTES + f.payload.len()) == tail,
        frame_wire(f).len() == FRAME_HEADER_BYTES + f.payload.len(),
{
    let w = frame_wire(f);
    let s = w + tail;
    let n = f.payload.len() as int;
    assert(w.len() == 14 + n);
    assert(s[0] == f.channel_id);
    assert(s[1] == kind_byte(f.kind));
    assert(s[2] == u16_bytes(f.id)[0] && s[3] == u16_bytes(f.id)[1]);
    assert(s[4] == u32_bytes(f.slice_index)[0] && s[5] == u32_bytes(f.slice_index)[1] && s[6]
        == u32_bytes(f.slice_index)[2] && s[7] == u32_bytes(f.slice_index)[3]);
    assert(s[8] == u32_bytes(f.slice_count)[0] && s[9] == u32_bytes(f.slice_count)[1] && s[10]
        == u32_bytes(f.slice_count)[2] && s[11] == u32_bytes(f.slice_count)[3]);
    assert(s[12] == u16_bytes(n as u16)[0] && s[13] == u16_bytes(n as u16)[1]);
    assert(u16_at(s, 2) == f.id);
    assert(u32_at(s, 4) == f.slice_index);
    assert(u32_at(s, 8) == f.slice_count);
    assert(u16_at(s, 12) == n);
    assert(s.subrange(14, 14 + n) =~= f.payload);
    assert(s.skip(14 + n) =~= tail);
}

proof fn lemma_parse_one_more(f: FrameView, tail: Seq<u8>)
    requires
        f.wf(),
    ensures
        parse_frames(frame_wire(f) + tail) == prepend(seq![f], parse_frames(tail)),
{
    lemma_first_frame_of_wire(f, tail);
    let mid = frame_wire(f) + tail;
    assert(mid.len() > 0);
    assert(first_frame(mid) == Some(f));
    assert(mid.skip(FRAME_HEADER_BYTES + f.payload.len()) == tail);
}

proof fn lemma_frames_wire_split(fs: Seq<FrameView>, tail: Seq<u8>)
    requires
        fs.len() > 0,
    ensures
        frames_wire(fs) + tail == frames_wire(fs.drop_last()) + (frame_wire(fs.last()) + tail),
{
    let a = frames_wire(fs.drop_last());
    let b = frame_wire(fs.last());
    assert(frames_wire(fs) == a + b);
    assert((a + b) + tail =~= a + (b + tail));
}

proof fn lemma_prepend_twice(init: Seq<FrameView>, f: FrameView, rest: Option<Seq<FrameView>>)
    ensures
        prepend(init, prepend(seq![f], rest)) == prepend(init.push(f), rest),
{
    if rest is Some {
        assert(init + (seq![f] + rest.unwrap()) =~= init.push(f) + rest.unwrap());
    }
}

proof fn lemma_frames_wf_init(fs: Seq<FrameView>)
    requires
        fs.len() > 0,
        frames_wf(fs),
    ensures
        frames_wf(fs.drop_last()),
        fs.last().wf(),
        fs.drop_last().push(fs.last()) == fs,
{
    let init = fs.drop_last();
    assert forall|i: int| 0 <= i < init.len() implies (#[trigger] init[i]).wf() by {
        assert(init[i] == fs[i]);
    }
    assert(init.push(fs.last()) =~= fs);
}

/// Frames are read back from their bytes, whatever frames follow.
proof fn lemma_parse_frames_wire(fs: Seq<FrameView>, tail: Seq<u8>)
    requires
        frames_wf(fs),
    ensures
        parse_frames(frames_wire(fs) + tail) == prepend(fs, parse_frames(tail)),
    decreases fs.len(),
{
    if fs.len() == 0 {
        assert(frames_wire(fs) + tail =~= tail);
        if parse_frames(tail) is Some {
            assert(fs + parse_frames(tail).unwrap() =~= parse_frames(tail).unwrap());
        }
    } else {
        let f = fs.last();
        let init = fs.drop_last();
        let mid = frame_wire(f) + tail;
        lemma_frames_wf_init(fs);
        lemma_frames_wire_split(fs, tail);
        lemma_parse_one_more(f, tail);
        lemma_parse_frames_wire(init, mid);
        lemma_prepend_twice(init, f, parse_frames(tail));
    }
}

proof fn lemma_u16_parts(x: u16)
    ensures
        u16_bytes(x).len() == 2,
        u16_bytes(x)[0] + 256 * u16_bytes(x)[1] == x,
{
}

proof fn lemma_u32_parts(x: u32)
    ensures
        u32_bytes(x).len() == 4,
        u32_bytes(x)[0] + 256 * u32_bytes(x)[1] + 65536 * u32_bytes(x)[2] + 16777216 * u32_bytes(
            x,
        )[3] == x,
{
}

proof fn lemma_normal_round_trip(
    sequence: u16,
    ack: Option<u16>,
    ack_bits: u32,
    frames: Seq<FrameView>,
)
    requires
        frames_wf(frames),
    ensures
        parse_packet(packet_wire(PacketView::Normal { sequence, ack, ack_bits, frames })) == Some(
            PacketView::Normal { sequence, ack, ack_bits, frames },
        ),
{
    let s = packet_wire(PacketView::Normal { sequence, ack, ack_bits, frames });
    let a = u16_bytes(sequence);
    let b = u32_bytes(ack_word(ack));
    let c = u32_bytes(ack_bits);
    let body = frames_wire(frames);
    lemma_u16_parts(sequence);
    lemma_u32_parts(ack_word(ack));
    lemma_u32_parts(ack_bits);
    assert(s == seq![0u8] + a + b + c + body);
    assert(s.len() == 11 + body.len());
    assert(s[0] == 0u8);
    assert(s[1] == a[0] && s[2] == a[1]);
    assert(s[3] == b[0] && s[4] == b[1] && s[5] == b[2] && s[6] == b[3]);
    assert(s[7] == c[0] && s[8] == c[1] && s[9] == c[2] && s[10] == c[3]);
    assert(u16_at(s, 1) == sequence);
    assert(u32_at(s, 3) == ack_word(ack));
    assert(ack_of_word(ack_word(ack)) == Some(ack));
    assert(u32_at(s, 7) == ack_bits);
    assert(s.skip(11) =~= body + Seq::<u8>::empty());
    assert(parse_frames(s.skip(11)) == Some(frames)) by {
        lemma_parse_frames_wire(frames, Seq::empty());
        assert(frames + Seq::<FrameView>::empty() =~= frames);
    }
}

proof fn lemma_fragment_round_trip(
    sequence: u16,
    fragment_id: u8,
    fragment_count: u16,
    payload: Seq<u8>,
)
    requires
        fragment_id < fragment_count <= MAX_FRAGMENTS,
    ensures
        parse_packet(
            packet_wire(PacketView::Fragment { sequence, fragment_id, fragment_count, payload }),
        ) == Some(PacketView::Fragment { sequence, fragment_id, fragment_count, payload }),
{
    let s = packet_wire(PacketView::Fragment { sequence, fragment_id, fragment_count, payload });
    let a = u16_bytes(sequence);
    let b = u16_bytes(fragment_count);
    let head = seq![1u8, a[0], a[1], fragment_id, b[0], b[1]];
    assert(seq![1u8] + a + seq![fragment_id] + b =~= head);
    assert(s == head + payload);
    assert(forall|i: int| 0 <= i < 6 ==> s[i] == head[i]);
    assert(u16_at(s, 1) == sequence);
    assert(u16_at(s, 4) == fragment_count);
    assert(s.skip(6) =~= payload);
}

/// Every packet that the format can carry is read back from its bytes.
pub proof fn lemma_packet_round_trip(p: PacketView)
    requires
        p.wf(),
    ensures
        parse_packet(packet_wire(p)) == Some(p),
{
    match p {
        PacketView::Normal { sequence, ack, ack_bits, frames } => {
            lemma_normal_round_trip(sequence, ack, ack_bits, frames);
        },
        PacketView::Fragment { sequence, fragment_id, fragment_count, payload } => {
            lemma_fragment_round_trip(sequence, fragment_id, fragment_count, payload);
        },
        PacketView::Disconnect { reason } => {
            lemma_reason_round_trip(reason);
        },
    }
}

impl Frame {
    /// Bytes of the frame on the wire.
    pub fn size(&self) -> (n: usize)
        requires
            self@.wf(),
        ensures
            n == self@.size(),
    {
        FRAME_HEADER_BYTES + self.payload.len()
    }

    /// Appends the bytes of the frame.
    pub fn encode(&self, out: &mut Vec<u8>)
        requires
            self@.wf(),
        ensures
            final(out)@ == old(out)@ + frame_wire(self@),
    {
        out.push(self.channel_id);
        let kind: u8 = match self.kind {
            FrameKind::Reliable => 0,
            FrameKind::Unreliable => 1,
            FrameKind::Slice => 2,
        };
        out.push(kind);
        push_u16(out, self.id);
        push_u32(out, self.slice_index);
        push_u32(out, self.slice_count);
        push_u16(out, self.payload.len() as u16);
        push_bytes(out, self.payload.as_slice());
        assert(out@ =~= old(out)@ + frame_wire(self@));
    }
}

impl Packet {
    /// The bytes of the packet.
    pub fn encode(&self) -> (bytes: Vec<u8>)
        requires
            self@.wf(),
        ensures
            bytes@ == packet_wire(self@),
    {
        let mut out: Vec<u8> = Vec::new();
        match self {
            Packet::Normal { sequence, ack, ack_bits, frames } => {
                out.push(0);
                push_u16(&mut out, *sequence);
                let word: u32 = match ack {
                    Some(a) => *a as u32,
                    None => NO_ACK,
                };
                push_u32(&mut out, word);
                push_u32(&mut out, *ack_bits);
                let ghost head = out@;
                let ghost views = frame_views(frames@);
                let mut i: usize = 0;
                while i < frames.len()
                    invariant
                        i <= frames@.len(),
                        views == frame_views(frames@),
                        frames_wf(views),
                        out@ == head + frames_wire(views.subrange(0, i as int)),
                    decreases frames@.len() - i,
                {
                    proof {
                        assert(views[i as int].wf());
                        assert(views[i as int] == frames@[i as int]@);
                        lemma_frames_push(views.subrange(0, i as int), views[i as int]);
                        assert(views.subrange(0, i as int).push(views[i as int]) =~= views.subrange(
                            0,
                            i + 1,
                        ));
                    }
                    frames[i].encode(&mut out);
                    i = i + 1;
                    assert(out@ =~= head + frames_wire(views.subrange(0, i as int)));
                }
                assert(views.subrange(0, i as int) =~= views);
                assert(out@ =~= packet_wire(self@));
            },
            Packet::Fragment { sequence, fragment_id, fragment_count, payload } => {
                out.push(1);
                push_u16(&mut out, *sequence);
                out.push(*fragment_id);
                push_u16(&mut out, *fragment_count);
                push_bytes(&mut out, payload.as_slice());
                assert(out@ =~= packet_wire(self@));
            },
            Packet::Disconnect { reason } => {
                let code = reason.code();
                out.push(2);
                out.push(code.0);
                out.push(code.1);
                assert(out@ =~= packet_wire(self@));
            },
        }
        out
    }

    /// Reads a packet from `bytes`, or `None` if they do not stand for one.
    pub fn decode(bytes: &[u8]) -> (packet: Option<Packet>)
        ensures
            match packet {
                Some(p) => parse_packet(bytes@) == Some(p@) && p@.wf(),
                None => parse_packet(bytes@) is None,
            },
    {
        let len = bytes.len();
        if len == 0 {
            return None;
        }
        let tag = bytes[0];
        if tag == 0 {
            if len < PACKET_HEADER_BYTES {
                return None;
            }
            let sequence = read_u16(bytes, 1);
            let word = read_u32(bytes, 3);
            let ack_bits = read_u32(bytes, 7);
            let ack: Option<u16> = if word == NO_ACK {
                None
            } else if word <= 0xFFFF {
                Some(word as u16)
            } else {
                return None;
            };
            let ghost body = bytes@.skip(PACKET_HEADER_BYTES as int);
            let mut frames: Vec<Frame> = Vec::new();
            let mut at: usize = PACKET_HEADER_BYTES;
            while at < len
                invariant
                    PACKET_HEADER_BYTES <= at <= len,
                    len == bytes@.len(),
                    bytes@[0] == 0,
                    ack_of_word(u32_at(bytes@, 3)) == Some(ack),
                    body == bytes@.skip(PACKET_HEADER_BYTES as int),
                    parse_frames(body) == prepend(
                        frame_views(frames@),
                        parse_frames(bytes@.skip(at as int)),
                    ),
                    frames_wf(frame_views(frames@)),
                decreases len - at,
            {
                let ghost rest = bytes@.skip(at as int);
                assert(rest.len() == len - at);
                if len - at < FRAME_HEADER_BYTES {
                    assert(first_frame(rest) is None);
                    return None;
                }
                assert(rest[0] == bytes@[at as int] && rest[1] == bytes@[at + 1]);
                assert(u16_at(rest, 2) == u16_at(bytes@, at + 2));
                assert(u32_at(rest, 4) == u32_at(bytes@, at + 4));
                assert(u32_at(rest, 8) == u32_at(bytes@, at + 8));
                assert(u16_at(rest, 12) == u16_at(bytes@, at + 12));
                let channel_id = bytes[at];
                let kind_tag = bytes[at + 1];
                let kind = if kind_tag == 0 {
                    FrameKind::Reliable
                } else if kind_tag == 1 {
                    FrameKind::Unreliable
                } else if kind_tag == 2 {
                    FrameKind::Slice
                } else {
                    assert(first_frame(rest) is None);
                    return None;
                };
                let id = read_u16(bytes, at + 2);
                let slice_index = read_u32(bytes, at + 4);
                let slice_count = read_u32(bytes, at + 8);
                let n = read_u16(bytes, at + 12) as usize;
                if len - at - FRAME_HEADER_BYTES < n {
                    assert(first_frame(rest) is None);
                    return None;
                }
                let start = at + FRAME_HEADER_BYTES;
                let payload = copy_range(bytes, start, start + n);
                let frame = Frame { channel_id, kind, id, slice_index, slice_count, payload };
                proof {
                    assert(rest.subrange(14, 14 + n) =~= bytes@.subrange(
                        start as int,
                        start + n,
                    ));
                    assert(first_frame(rest) == Some(frame@));
                    assert(rest.skip(14 + n) =~= bytes@.skip(start + n));
                    let next = parse_frames(bytes@.skip(start + n));
                    assert(parse_frames(rest) == prepend(seq![frame@], next));
                    assert(frame_views(frames@.push(frame)) =~= frame_views(frames@).push(
                        frame@,
                    ));
                    if next is Some {
                        assert(frame_views(frames@) + (seq![frame@] + next.unwrap())
                            =~= frame_views(frames@).push(frame@) + next.unwrap());
                    }
                }
                frames.push(frame);
                at = start + n;
            }
            proof {
                assert(bytes@.skip(at as int).len() == 0);
                assert(frame_views(frames@) + Seq::<FrameView>::empty() =~= frame_views(frames@));
            }
            Some(Packet::Normal { sequence, ack, ack_bits, frames })
        } else if tag == 1 {
            if len < FRAGMENT_HEADER_BYTES {
                return None;
            }
            let sequence = read_u16(bytes, 1);
            let fragment_id = bytes[3];
            let fragment_count = read_u16(bytes, 4);
            if fragment_count > MAX_FRAGMENTS || fragment_id as u16 >= fragment_count {
                return None;
            }
            let payload = copy_range(bytes, FRAGMENT_HEADER_BYTES, len);
            assert(bytes@.subrange(FRAGMENT_HEADER_BYTES as int, len as int) =~= bytes@.skip(
                FRAGMENT_HEADER_BYTES as int,
            ));
            Some(Packet::Fragment { sequence, fragment_id, fragment_count, payload })
        } else if tag == 2 {
            if len != 3 {
                return None;
            }
            match DisconnectionReason::from_code(bytes[1], bytes[2]) {
                None => None,
                Some(reason) => Some(Packet::Disconnect { reason }),
            }
        } else {
            None
        }
    }
}

/// The bytes that tell the peer why the connection ends.
pub fn serialize_disconnect_packet(reason: DisconnectionReason) -> (bytes: Vec<u8>)
    ensures
        bytes@ == packet_wire(PacketView::Disconnect { reason }),
        parse_packet(bytes@) == Some(PacketView::Disconnect { reason }),
{
    proof {
        lemma_packet_round_trip(PacketView::Disconnect { reason });
    }
    let packet = Packet::Disconnect { reason };
    packet.encode()
}

} // verus!
