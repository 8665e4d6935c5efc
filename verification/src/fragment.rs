//! Fragmentation below the channels: a packet too large for one datagram
//! travels in pieces, and the receiver puts the pieces together again.
use crate::block::{
    all_arrived, all_present, count_slices, empty_places, join, joined, lemma_slice_bounds,
    slice_of,
};
use crate::packet::{copy_range, packet_wire, Packet, PacketView, MAX_FRAGMENTS};
use crate::reliable::slot_views;
use vstd::prelude::*;

verus! {

/// Piece `i` of the packet `sequence`, whose bytes are `bytes`.
pub open spec fn fragment_of(bytes: Seq<u8>, sequence: u16, fragment_size: int, i: int) -> PacketView {
    PacketView::Fragment {
        sequence,
        fragment_id: i as u8,
        fragment_count: count_slices(bytes.len() as int, fragment_size) as u16,
        payload: slice_of(bytes, fragment_size, i),
    }
}

/// Cuts the bytes of the packet `sequence` into pieces of `fragment_size`
/// bytes, and returns one datagram for each piece.
pub fn split(bytes: &Vec<u8>, sequence: u16, fragment_size: usize) -> (datagrams: Vec<Vec<u8>>)
    requires
        0 < fragment_size,
        count_slices(bytes@.len() as int, fragment_size as int) <= MAX_FRAGMENTS,
    ensures
        datagrams@.len() == count_slices(bytes@.len() as int, fragment_size as int),
        forall|i: int|
            0 <= i < datagrams@.len() ==> (#[trigger] datagrams@[i])@ == packet_wire(
                fragment_of(bytes@, sequence, fragment_size as int, i),
            ),
{
    let len = bytes.len();
    let ghost size = fragment_size as int;
    proof {
        lemma_slice_bounds(len as int, size, 0);
    }
    let n: usize = if len == 0 {
        1
    } else {
        (len - 1) / fragment_size + 1
    };
    let mut datagrams: Vec<Vec<u8>> = Vec::new();
    let mut start: usize = 0;
    let mut i: usize = 0;
    while i < n
        invariant
            i <= n,
            n == count_slices(len as int, size),
            n <= MAX_FRAGMENTS,
            len == bytes@.len(),
            size == fragment_size,
            0 < fragment_size,
            i < n ==> start == i * size,
            datagrams@.len() == i,
            forall|j: int|
                0 <= j < i ==> (#[trigger] datagrams@[j])@ == packet_wire(
                    fragment_of(bytes@, sequence, size, j),
                ),
        decreases n - i,
    {
        proof {
            lemma_slice_bounds(len as int, size, i as int);
        }
        let end: usize = if len - start >= fragment_size {
            start + fragment_size
        } else {
            len
        };
        let packet = Packet::Fragment {
            sequence,
            fragment_id: i as u8,
            fragment_count: n as u16,
            payload: copy_range(bytes.as_slice(), start, end),
        };
        assert(packet@ == fragment_of(bytes@, sequence, size, i as int));
        datagrams.push(packet.encode());
        proof {
            if i + 1 < n {
                lemma_slice_bounds(len as int, size, i + 1);
            }
        }
        if i + 1 < n {
            start = start + fragment_size;
        }
        i = i + 1;
    }
    datagrams
}

/// A packet of which some pieces have arrived.
pub struct Partial {
    pub sequence: u16,
    pub pieces: Vec<Option<Vec<u8>>>,
}

/// A [`Partial`] as a mathematical value.
pub struct PartialView {
    pub sequence: u16,
    pub pieces: Seq<Option<Seq<u8>>>,
}

impl View for Partial {
    type V = PartialView;

    open spec fn view(&self) -> PartialView {
        PartialView { sequence: self.sequence, pieces: slot_views(self.pieces@) }
    }
}

/// The packets of `entries`, each by its view.
pub open spec fn partial_views(entries: Seq<Partial>) -> Seq<PartialView> {
    Seq::new(entries.len(), |i: int| entries[i]@)
}

/// Index of the first of `entries` that gathers the packet `sequence`, or
/// their number if none does.
pub open spec fn position(entries: Seq<PartialView>, sequence: u16) -> int
    decreases entries.len(),
{
    if entries.len() == 0 {
        0
    } else if entries[0].sequence == sequence {
        0
    } else {
        1 + position(entries.skip(1), sequence)
    }
}

proof fn lemma_position(entries: Seq<PartialView>, sequence: u16, k: int)
    requires
        0 <= k <= entries.len(),
        forall|j: int| 0 <= j < k ==> entries[j].sequence != sequence,
        k < entries.len() ==> entries[k].sequence == sequence,
    ensures
        position(entries, sequence) == k,
    decreases entries.len(),
{
    if entries.len() > 0 && k > 0 {
        let rest = entries.skip(1);
        assert forall|j: int| 0 <= j < k - 1 implies rest[j].sequence != sequence by {
            assert(rest[j] == entries[j + 1]);
        }
        lemma_position(rest, sequence, k - 1);
    }
}

/// The packets that are being put together, least recently touched first.
pub struct ReassemblyModel {
    /// Most packets that are put together at a time.
    pub capacity: usize,
    pub entries: Seq<PartialView>,
}

impl ReassemblyModel {
    pub open spec fn fresh(capacity: usize) -> ReassemblyModel {
        ReassemblyModel { capacity, entries: Seq::empty() }
    }

    pub open spec fn wf(self) -> bool {
        self.entries.len() <= self.capacity
    }

    /// Whether the piece says of its packet another number of pieces than
    /// the pieces before it.
    pub open spec fn mismatched(self, sequence: u16, count: u16) -> bool {
        let k = position(self.entries, sequence);
        k < self.entries.len() && self.entries[k].pieces.len() != count
    }

    /// The pieces of the packet `sequence` once the piece `id` arrived.
    pub open spec fn gathered(self, sequence: u16, id: u8, count: u16, payload: Seq<u8>) -> Seq<
        Option<Seq<u8>>,
    > {
        let k = position(self.entries, sequence);
        let before = if k < self.entries.len() {
            self.entries[k].pieces
        } else {
            Seq::new(count as nat, |i: int| None)
        };
        if before[id as int] is None {
            before.update(id as int, Some(payload))
        } else {
            before
        }
    }

    /// The bytes of the packet `sequence`, if the piece `id` is the last
    /// that was missing.
    pub open spec fn whole(self, sequence: u16, id: u8, count: u16, payload: Seq<u8>) -> Option<
        Seq<u8>,
    > {
        let pieces = self.gathered(sequence, id, count, payload);
        if !self.mismatched(sequence, count) && all_present(pieces) {
            Some(joined(pieces, pieces.len() as int))
        } else {
            None
        }
    }

    /// The other packets that are being put together.
    pub open spec fn others(self, sequence: u16) -> Seq<PartialView> {
        let k = position(self.entries, sequence);
        if k < self.entries.len() {
            self.entries.remove(k)
        } else {
            self.entries
        }
    }

    /// The buffer after the piece arrived. A piece that contradicts the
    /// pieces before it is dropped. A packet that is complete leaves the
    /// buffer. A packet that is not becomes the most recently touched, and
    /// where the buffer is full the least recently touched packet gives way.
    pub open spec fn accept(self, sequence: u16, id: u8, count: u16, payload: Seq<u8>) -> ReassemblyModel {
        if self.mismatched(sequence, count) {
            self
        } else {
            let pieces = self.gathered(sequence, id, count, payload);
            let others = self.others(sequence);
            if all_present(pieces) || self.capacity == 0 {
                ReassemblyModel { entries: others, ..self }
            } else {
                let room = if others.len() >= self.capacity {
                    others.skip(1)
                } else {
                    others
                };
                ReassemblyModel { entries: room.push(PartialView { sequence, pieces }), ..self }
            }
        }
    }
}

/// The buffer in which fragmented packets are put together.
pub struct Reassembly {
    capacity: usize,
    entries: Vec<Partial>,
}

impl View for Reassembly {
    type V = ReassemblyModel;

    closed spec fn view(&self) -> ReassemblyModel {
        ReassemblyModel { capacity: self.capacity, entries: partial_views(self.entries@) }
    }
}

impl Reassembly {
    pub open spec fn wf(&self) -> bool {
        self@.wf()
    }

    pub fn new(capacity: usize) -> (buffer: Self)
        ensures
            buffer.wf(),
            buffer@ == ReassemblyModel::fresh(capacity),
    {
        let buffer = Reassembly { capacity, entries: Vec::new() };
        assert(buffer@.entries =~= Seq::empty());
        buffer
    }

    /// Takes in piece `fragment_id` of the `fragment_count` pieces of the
    /// packet `sequence`, and returns the packet's bytes if it is complete.
    pub fn accept(
        &mut self,
        sequence: u16,
        fragment_id: u8,
        fragment_count: u16,
        payload: Vec<u8>,
    ) -> (whole: Option<Vec<u8>>)
        requires
            old(self).wf(),
            fragment_id < fragment_count <= MAX_FRAGMENTS,
        ensures
            final(self).wf(),
            final(self)@ == old(self)@.accept(sequence, fragment_id, fragment_count, payload@),
            match whole {
                Some(bytes) => old(self)@.whole(sequence, fragment_id, fragment_count, payload@)
                    == Some(bytes@),
                None => old(self)@.whole(sequence, fragment_id, fragment_count, payload@) is None,
            },
    {
        let ghost model = self@;
        let ghost views = partial_views(self.entries@);
        let n = self.entries.len();
        let mut k: usize = 0;
        while k < n && self.entries[k].sequence != sequence
            invariant
                k <= n,
                n == self.entries@.len(),
                self.entries@ == old(self).entries@,
                views == partial_views(self.entries@),
                forall|j: int| 0 <= j < k ==> views[j].sequence != sequence,
            decreases n - k,
        {
            assert(views[k as int] == self.entries@[k as int]@);
            k = k + 1;
        }
        proof {
            if k < n {
                assert(views[k as int] == self.entries@[k as int]@);
            }
            lemma_position(views, sequence, k as int);
        }
        let mut partial = if k < n {
            if self.entries[k].pieces.len() != fragment_count as usize {
                return None;
            }
            let found = self.entries.remove(k);
            assert(partial_views(self.entries@) =~= views.remove(k as int));
            found
        } else {
            Partial { sequence, pieces: empty_places(fragment_count as usize) }
        };
        assert(partial_views(self.entries@) == model.others(sequence));
        let index = fragment_id as usize;
        if partial.pieces[index].is_none() {
            let ghost before = partial.pieces@;
            partial.pieces.set(index, Some(payload));
            assert(slot_views(partial.pieces@) =~= slot_views(before).update(
                index as int,
                Some(payload@),
            ));
        }
        assert(slot_views(partial.pieces@) == model.gathered(
            sequence,
            fragment_id,
            fragment_count,
            payload@,
        ));
        assert(partial.sequence == sequence);
        if all_arrived(&partial.pieces) {
            return Some(join(&partial.pieces));
        }
        if self.capacity == 0 {
            return None;
        }
        if self.entries.len() >= self.capacity {
            let ghost others = partial_views(self.entries@);
            let _ = self.entries.remove(0);
            assert(partial_views(self.entries@) =~= others.skip(1));
        }
        let ghost room = partial_views(self.entries@);
        self.entries.push(partial);
        assert(partial_views(self.entries@) =~= room.push(
            PartialView {
                sequence,
                pieces: model.gathered(sequence, fragment_id, fragment_count, payload@),
            },
        ));
        None
    }
}

/// The pieces of a packet, put together, are the packet.
pub proof fn lemma_fragments_join(bytes: Seq<u8>, fragment_size: int)
    requires
        0 < fragment_size,
    ensures
        ({
            let n = count_slices(bytes.len() as int, fragment_size);
            let pieces = Seq::new(n as nat, |i: int| Some(slice_of(bytes, fragment_size, i)));
            joined(pieces, n) == bytes
        }),
{
    let n = count_slices(bytes.len() as int, fragment_size);
    lemma_slice_bounds(bytes.len() as int, fragment_size, 0);
    let pieces = Seq::new(n as nat, |i: int| Some(slice_of(bytes, fragment_size, i)));
    crate::block::lemma_slices_join(bytes, fragment_size, pieces);
}

} // verus!
