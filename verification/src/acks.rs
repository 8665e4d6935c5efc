//! The bookkeeping of acknowledgements: which packets arrived, which were
//! sent, and which of those the peer has confirmed.
use crate::channel::FrameKey;
use crate::network_info::UNIT;
use crate::sequence::{seq_back, seq_newer, seq_offset, sequence_before, sequence_newer, sequence_offset};
use vstd::prelude::*;

verus! {

/// Number of packets before the newest that one packet acknowledges.
pub const ACK_BITS: u32 = 32;

/// Whether bit `i` of `bits` is set.
pub open spec fn bit_is_set(bits: u32, i: u32) -> bool {
    (bits >> i) & 1u32 == 1u32
}

/// Whether bit `i` of `bits` is set.
pub fn test_bit(bits: u32, i: u32) -> (set: bool)
    requires
        i < 32,
    ensures
        set == bit_is_set(bits, i),
{
    (bits >> i) & 1u32 == 1u32
}

/// The packets that arrived: a ring in which the sequence `s` has the place
/// `s % capacity`, and the newest sequence seen.
pub struct ReceivedModel {
    pub slots: Seq<Option<u16>>,
    pub newest: Option<u16>,
}

impl ReceivedModel {
    pub open spec fn fresh(capacity: nat) -> ReceivedModel {
        ReceivedModel { slots: Seq::new(capacity, |i: int| None), newest: None }
    }

    /// Whether the ring still knows that `sequence` arrived.
    pub open spec fn holds(self, sequence: u16) -> bool {
        self.slots.len() > 0 && self.slots[sequence as int % self.slots.len() as int] == Some(
            sequence,
        )
    }

    /// The ring after `sequence` arrived.
    pub open spec fn marked(self, sequence: u16) -> ReceivedModel {
        ReceivedModel {
            slots: if self.slots.len() > 0 {
                self.slots.update(sequence as int % self.slots.len() as int, Some(sequence))
            } else {
                self.slots
            },
            newest: match self.newest {
                None => Some(sequence),
                Some(n) => if seq_newer(sequence, n) {
                    Some(sequence)
                } else {
                    Some(n)
                },
            },
        }
    }

    /// Whether the packet `i + 1` before the newest arrived: what bit `i` of
    /// the acknowledgement says.
    pub open spec fn acknowledges(self, i: u32) -> bool {
        self.newest is Some && self.holds(seq_back(self.newest.unwrap(), 1 + i))
    }
}

/// The packets that arrived on one connection.
pub struct ReceivedPackets {
    slots: Vec<Option<u16>>,
    newest: Option<u16>,
}

impl View for ReceivedPackets {
    type V = ReceivedModel;

    closed spec fn view(&self) -> ReceivedModel {
        ReceivedModel { slots: self.slots@, newest: self.newest }
    }
}

impl ReceivedPackets {
    pub fn new(capacity: usize) -> (received: Self)
        ensures
            received@ == ReceivedModel::fresh(capacity as nat),
    {
        let mut slots: Vec<Option<u16>> = Vec::new();
        let mut i: usize = 0;
        while i < capacity
            invariant
                i <= capacity,
                slots@.len() == i,
                forall|j: int| 0 <= j < i ==> slots@[j] is None,
            decreases capacity - i,
        {
            slots.push(None);
            i = i + 1;
        }
        assert(slots@ =~= Seq::new(capacity as nat, |i: int| None));
        ReceivedPackets { slots, newest: None }
    }

    /// The newest sequence that arrived, if any did.
    pub fn newest(&self) -> (newest: Option<u16>)
        ensures
            newest == self@.newest,
    {
        self.newest
    }

    /// Whether the ring still knows that `sequence` arrived.
    pub fn holds(&self, sequence: u16) -> (held: bool)
        ensures
            held == self@.holds(sequence),
    {
        let n = self.slots.len();
        if n == 0 {
            return false;
        }
        match self.slots[sequence as usize % n] {
            Some(s) => s == sequence,
            None => false,
        }
    }

    /// Notes that `sequence` arrived.
    pub fn mark(&mut self, sequence: u16)
        ensures
            final(self)@ == old(self)@.marked(sequence),
    {
        let n = self.slots.len();
        if n > 0 {
            self.slots.set(sequence as usize % n, Some(sequence));
        }
        self.newest = match self.newest {
            None => Some(sequence),
            Some(newest) => if sequence_newer(sequence, newest) {
                Some(sequence)
            } else {
                Some(newest)
            },
        };
    }

    /// The bits to send with the newest sequence: bit `i` is set if the
    /// packet `i + 1` before it arrived.
    pub fn ack_bits(&self) -> (bits: u32)
        ensures
            forall|i: u32| i < 32 ==> bit_is_set(bits, i) == self@.acknowledges(i),
    {
        let newest = match self.newest {
            None => {
                assert(forall|i: u32| i < 32 ==> !bit_is_set(0u32, i)) by {
                    assert(forall|i: u32| i < 32 ==> (0u32 >> i) & 1u32 != 1u32) by (bit_vector);
                }
                return 0;
            },
            Some(newest) => newest,
        };
        let mut bits: u32 = 0;
        let mut i: u32 = 0;
        assert(forall|j: u32| j < 32 ==> !bit_is_set(0u32, j)) by {
            assert(forall|j: u32| j < 32 ==> (0u32 >> j) & 1u32 != 1u32) by (bit_vector);
        }
        while i < 32
            invariant
                i <= 32,
                self@.newest == Some(newest),
                forall|j: u32| j < i ==> bit_is_set(bits, j) == self@.acknowledges(j),
                forall|j: u32| i <= j < 32 ==> !bit_is_set(bits, j),
            decreases 32 - i,
        {
            let sequence = sequence_before(newest, (i + 1) as u16);
            let held = self.holds(sequence);
            assert(self@.acknowledges(i) == held);
            if held {
                let next = bits | (1u32 << i);
                assert forall|j: u32| j < 32 implies bit_is_set(next, j) == (bit_is_set(bits, j)
                    || j == i) by {
                    assert(((next >> j) & 1u32 == 1u32) == (((bits >> j) & 1u32 == 1u32) || j
                        == i)) by (bit_vector)
                        requires
                            i < 32,
                            j < 32,
                            next == bits | (1u32 << i),
                    ;
                }
                bits = next;
            }
            i = i + 1;
        }
        bits
    }
}

/// What is remembered of a packet that was sent.
#[derive(Debug)]
pub struct SentPacket {
    pub sequence: u16,
    /// When it was sent.
    pub time: u64,
    /// Whether the peer has confirmed it.
    pub acked: bool,
    /// The frames that it carried.
    pub keys: Vec<FrameKey>,
}

/// A [`SentPacket`] as a mathematical value.
pub struct SentPacketView {
    pub sequence: u16,
    pub time: u64,
    pub acked: bool,
    pub keys: Seq<FrameKey>,
}

impl View for SentPacket {
    type V = SentPacketView;

    open spec fn view(&self) -> SentPacketView {
        SentPacketView {
            sequence: self.sequence,
            time: self.time,
            acked: self.acked,
            keys: self.keys@,
        }
    }
}

/// The places of `slots`, each by its view.
pub open spec fn sent_views(slots: Seq<Option<SentPacket>>) -> Seq<Option<SentPacketView>> {
    Seq::new(
        slots.len(),
        |i: int|
            match slots[i] {
                Some(p) => Some(p@),
                None => None,
            },
    )
}

/// The packets that were sent: a ring in which the sequence `s` has the
/// place `s % capacity`.
pub struct SentModel {
    pub slots: Seq<Option<SentPacketView>>,
}

impl SentModel {
    pub open spec fn fresh(capacity: nat) -> SentModel {
        SentModel { slots: Seq::new(capacity, |i: int| None) }
    }

    /// The place of `sequence` in the ring.
    pub open spec fn place(self, sequence: u16) -> int {
        sequence as int % self.slots.len() as int
    }

    /// Whether the packet `sequence` is remembered and not yet confirmed.
    pub open spec fn pending(self, sequence: u16) -> bool {
        &&& self.slots.len() > 0
        &&& self.slots[self.place(sequence)] matches Some(p)
        &&& p.sequence == sequence
        &&& !p.acked
    }

    /// The ring after the packet `sequence` was sent at `time` with the
    /// frames `keys`.
    pub open spec fn recorded(self, sequence: u16, time: u64, keys: Seq<FrameKey>) -> SentModel {
        if self.slots.len() > 0 {
            SentModel {
                slots: self.slots.update(
                    self.place(sequence),
                    Some(SentPacketView { sequence, time, acked: false, keys }),
                ),
            }
        } else {
            self
        }
    }

    /// The ring after the peer confirmed the packet `sequence`.
    pub open spec fn confirmed(self, sequence: u16) -> SentModel {
        if self.pending(sequence) {
            SentModel {
                slots: self.slots.update(
                    self.place(sequence),
                    Some(SentPacketView { acked: true, ..self.slots[self.place(sequence)].unwrap() }),
                ),
            }
        } else {
            self
        }
    }

    /// Whether the packet at place `i` counts as lost once `ack` is the
    /// newest sequence that the peer confirmed: it is unconfirmed and more
    /// than 32 packets older, so no later acknowledgement can name it.
    pub open spec fn is_lost(self, ack: u16, i: int) -> bool {
        &&& self.slots[i] matches Some(p)
        &&& !p.acked
        &&& ACK_BITS < seq_offset(p.sequence, ack) < 32768
    }

    /// Number of lost packets among the first `n` places.
    pub open spec fn lost(self, ack: u16, n: int) -> nat
        decreases n,
    {
        if n <= 0 {
            0
        } else {
            self.lost(ack, n - 1) + if self.is_lost(ack, n - 1) {
                1nat
            } else {
                0nat
            }
        }
    }

    /// Number of remembered packets among the first `n` places.
    pub open spec fn stored(self, n: int) -> nat
        decreases n,
    {
        if n <= 0 {
            0
        } else {
            self.stored(n - 1) + if self.slots[n - 1] is Some {
                1nat
            } else {
                0nat
            }
        }
    }

    /// The fraction of the remembered packets that are lost, in millionths.
    pub open spec fn loss(self, ack: u16) -> nat {
        let stored = self.stored(self.slots.len() as int);
        if stored == 0 {
            0
        } else {
            self.lost(ack, self.slots.len() as int) * UNIT as nat / stored
        }
    }

    /// No more packets are lost than are remembered, and no more are remembered
    /// than there are places.
    pub proof fn lemma_lost_bounds(self, ack: u16, n: int)
        requires
            0 <= n <= self.slots.len(),
        ensures
            self.lost(ack, n) <= self.stored(n) <= n,
        decreases n,
    {
        if n > 0 {
            self.lemma_lost_bounds(ack, n - 1);
        }
    }

    /// The loss is a fraction: at most one.
    pub proof fn lemma_loss_is_fraction(self, ack: u16)
        ensures
            self.loss(ack) <= UNIT,
    {
        let n = self.slots.len() as int;
        self.lemma_lost_bounds(ack, n);
        let lost = self.lost(ack, n) as int;
        let stored = self.stored(n) as int;
        if stored > 0 {
            assert(lost * 1_000_000 / stored <= 1_000_000) by (nonlinear_arith)
                requires
                    0 <= lost <= stored,
                    0 < stored,
            ;
        }
    }
}

/// The packets that were sent on one connection.
pub struct SentPackets {
    slots: Vec<Option<SentPacket>>,
}

impl View for SentPackets {
    type V = SentModel;

    closed spec fn view(&self) -> SentModel {
        SentModel { slots: sent_views(self.slots@) }
    }
}

fn copy_keys(keys: &Vec<FrameKey>) -> (copy: Vec<FrameKey>)
    ensures
        copy@ == keys@,
{
    let mut copy: Vec<FrameKey> = Vec::new();
    let mut i: usize = 0;
    while i < keys.len()
        invariant
            i <= keys@.len(),
            copy@ == keys@.subrange(0, i as int),
        decreases keys@.len() - i,
    {
        copy.push(keys[i]);
        i = i + 1;
        assert(copy@ =~= keys@.subrange(0, i as int));
    }
    assert(keys@.subrange(0, i as int) =~= keys@);
    copy
}

impl SentPackets {
    pub fn new(capacity: usize) -> (sent: Self)
        ensures
            sent@ == SentModel::fresh(capacity as nat),
    {
        let mut slots: Vec<Option<SentPacket>> = Vec::new();
        let mut i: usize = 0;
        while i < capacity
            invariant
                i <= capacity,
                slots@.len() == i,
                forall|j: int| 0 <= j < i ==> slots@[j] is None,
            decreases capacity - i,
        {
            slots.push(None);
            i = i + 1;
        }
        let sent = SentPackets { slots };
        assert(sent@.slots =~= SentModel::fresh(capacity as nat).slots);
        sent
    }

    /// Remembers that the packet `sequence` was sent at `time` with the
    /// frames `keys`. It takes the place of an older packet.
    pub fn record(&mut self, sequence: u16, time: u64, keys: Vec<FrameKey>)
        ensures
            final(self)@ == old(self)@.recorded(sequence, time, keys@),
    {
        let n = self.slots.len();
        if n > 0 {
            let ghost before = self.slots@;
            self.slots.set(sequence as usize % n, Some(SentPacket { sequence, time, acked: false, keys }));
            assert(sent_views(self.slots@) =~= sent_views(before).update(
                sequence as int % n as int,
                Some(SentPacketView { sequence, time, acked: false, keys: keys@ }),
            ));
        }
    }

    /// Notes that the peer confirmed the packet `sequence`. The first
    /// confirmation of a remembered packet returns when it was sent and
    /// which frames it carried.
    pub fn confirm(&mut self, sequence: u16) -> (found: Option<(u64, Vec<FrameKey>)>)
        ensures
            final(self)@ == old(self)@.confirmed(sequence),
            match found {
                Some((time, keys)) => {
                    &&& old(self)@.pending(sequence)
                    &&& time == old(self)@.slots[old(self)@.place(sequence)].unwrap().time
                    &&& keys@ == old(self)@.slots[old(self)@.place(sequence)].unwrap().keys
                },
                None => !old(self)@.pending(sequence),
            },
    {
        let n = self.slots.len();
        if n == 0 {
            return None;
        }
        let place = sequence as usize % n;
        assert(sent_views(self.slots@)[place as int] == match self.slots@[place as int] {
            Some(p) => Some(p@),
            None => None,
        });
        let (time, keys) = match &self.slots[place] {
            Some(p) => {
                if p.sequence != sequence || p.acked {
                    return None;
                }
                (p.time, copy_keys(&p.keys))
            },
            None => {
                return None;
            },
        };
        let ghost before = self.slots@;
        let copy = copy_keys(&keys);
        self.slots.set(place, Some(SentPacket { sequence, time, acked: true, keys: copy }));
        assert(sent_views(self.slots@) =~= sent_views(before).update(
            place as int,
            Some(SentPacketView { acked: true, ..sent_views(before)[place as int].unwrap() }),
        ));
        Some((time, keys))
    }

    /// The fraction of the remembered packets that are lost, in millionths,
    /// once `ack` is the newest sequence that the peer confirmed.
    pub fn loss(&self, ack: u16) -> (fraction: u64)
        ensures
            fraction == self@.loss(ack),
            fraction <= UNIT,
    {
        let n = self.slots.len();
        let mut lost: usize = 0;
        let mut stored: usize = 0;
        let mut i: usize = 0;
        while i < n
            invariant
                i <= n,
                n == self.slots@.len(),
                lost == self@.lost(ack, i as int),
                stored == self@.stored(i as int),
                lost <= stored <= i,
            decreases n - i,
        {
            assert(sent_views(self.slots@)[i as int] == match self.slots@[i as int] {
                Some(p) => Some(p@),
                None => None,
            });
            match &self.slots[i] {
                Some(p) => {
                    stored = stored + 1;
                    let age = sequence_offset(p.sequence, ack);
                    if !p.acked && age as u32 > ACK_BITS && age < 32768 {
                        lost = lost + 1;
                    }
                },
                None => {},
            }
            i = i + 1;
        }
        proof {
            self@.lemma_loss_is_fraction(ack);
        }
        if stored == 0 {
            0
        } else {
            assert(lost * 1_000_000 <= stored * 1_000_000) by (nonlinear_arith)
                requires
                    lost <= stored,
            ;
            ((lost as u128 * 1_000_000) / (stored as u128)) as u64
        }
    }
}

} // verus!
