//! The reassembly engine: a capacity-bounded cache of partial messages keyed by
//! (source, destination), and the rule that turns packets into verified
//! messages.
use crate::integrity::{blake2s_digest, blake2s_of, same_digest};
use crate::proto::{MessageCompressionMode, MessageSegment, Packet, PacketModel, PublicKey, SegmentModel};
use vstd::prelude::*;

verus! {

/// The number of positions a message can have: an index is one byte.
pub const SEGMENT_SLOTS: usize = 256;

/// A message reassembled from its segments, as its sender declared it.
#[derive(Debug)]
pub struct EncodedMessage {
    pub claimed_source: PublicKey,
    pub claimed_destination: PublicKey,
    pub compression_mode: Option<MessageCompressionMode>,
    pub message: Vec<u8>,
}

/// The segments received so far for one (source, destination) pair, one slot
/// per index.
#[derive(Debug)]
pub struct PendingMessage {
    pub source: PublicKey,
    pub destination: PublicKey,
    pub slots: Vec<Option<Vec<u8>>>,
}

pub struct PendingModel {
    pub source: Seq<u8>,
    pub destination: Seq<u8>,
    pub slots: Seq<Option<Seq<u8>>>,
}

pub open spec fn slot_view(o: Option<Vec<u8>>) -> Option<Seq<u8>> {
    match o {
        Some(v) => Some(v@),
        None => None,
    }
}

impl View for PendingMessage {
    type V = PendingModel;

    open spec fn view(&self) -> PendingModel {
        PendingModel {
            source: self.source.0@,
            destination: self.destination.0@,
            slots: self.slots@.map_values(|o: Option<Vec<u8>>| slot_view(o)),
        }
    }
}

/// The partial messages, least recently touched first, and the most that may
/// be kept.
pub struct TrackerModel {
    pub entries: Seq<PendingModel>,
    pub capacity: nat,
}

/// The shared reassembly state: at most `capacity` partial messages, in the
/// order in which they were last touched.
#[derive(Debug)]
pub struct PreAssembledMessageTracker {
    entries: Vec<PendingMessage>,
    capacity: usize,
}

impl View for PreAssembledMessageTracker {
    type V = TrackerModel;

    closed spec fn view(&self) -> TrackerModel {
        TrackerModel {
            entries: self.entries@.map_values(|e: PendingMessage| e@),
            capacity: self.capacity as nat,
        }
    }
}

/// What handling one packet did.
#[derive(Debug)]
pub enum ReassemblyOutcome {
    /// A segment was stored at a free index.
    Stored,
    /// A segment replaced one already stored at its index.
    Duplicate,
    /// An end marker completed a message whose count and digest agree.
    Delivered(EncodedMessage),
    /// An end marker came for a pair with no segments; it was dropped.
    Orphan,
    /// An end marker counted another number of segments than were stored;
    /// the message was dropped.
    CountMismatch,
    /// The stored segments do not match the end marker's digest; the message
    /// was dropped.
    HashMismatch,
}

pub enum OutcomeModel {
    Stored,
    Duplicate,
    Delivered {
        source: Seq<u8>,
        destination: Seq<u8>,
        compression_mode: Option<MessageCompressionMode>,
        message: Seq<u8>,
    },
    Orphan,
    CountMismatch,
    HashMismatch,
}

impl View for ReassemblyOutcome {
    type V = OutcomeModel;

    open spec fn view(&self) -> OutcomeModel {
        match self {
            ReassemblyOutcome::Stored => OutcomeModel::Stored,
            ReassemblyOutcome::Duplicate => OutcomeModel::Duplicate,
            ReassemblyOutcome::Delivered(m) => OutcomeModel::Delivered {
                source: m.claimed_source.0@,
                destination: m.claimed_destination.0@,
                compression_mode: m.compression_mode,
                message: m.message@,
            },
            ReassemblyOutcome::Orphan => OutcomeModel::Orphan,
            ReassemblyOutcome::CountMismatch => OutcomeModel::CountMismatch,
            ReassemblyOutcome::HashMismatch => OutcomeModel::HashMismatch,
        }
    }
}

pub open spec fn has_key(e: PendingModel, s: Seq<u8>, d: Seq<u8>) -> bool {
    e.source == s && e.destination == d
}

/// The position of the pair's entry, or -1.
pub open spec fn find_entry(es: Seq<PendingModel>, s: Seq<u8>, d: Seq<u8>) -> int
    decreases es.len(),
{
    if es.len() == 0 {
        -1
    } else if has_key(es.last(), s, d) {
        es.len() - 1
    } else {
        find_entry(es.drop_last(), s, d)
    }
}

/// No two entries hold the same pair.
pub open spec fn keys_unique(es: Seq<PendingModel>) -> bool {
    forall|i: int, j: int|
        0 <= i < es.len() && 0 <= j < es.len() && #[trigger] has_key(
            es[i],
            es[j].source,
            es[j].destination,
        ) ==> i == j
}

pub open spec fn slots_full(es: Seq<PendingModel>) -> bool {
    forall|i: int| 0 <= i < es.len() ==> #[trigger] es[i].slots.len() == 256
}

/// A well-formed cache: within its capacity, which is at least one, a slot
/// for every index in each entry, and one entry per pair.
pub open spec fn tracker_wf(t: TrackerModel) -> bool {
    &&& 1 <= t.capacity
    &&& t.entries.len() <= t.capacity
    &&& slots_full(t.entries)
    &&& keys_unique(t.entries)
}

pub open spec fn empty_entry(s: Seq<u8>, d: Seq<u8>) -> PendingModel {
    PendingModel { source: s, destination: d, slots: Seq::new(256, |i: int| None) }
}

pub open spec fn with_slot(e: PendingModel, index: u8, data: Seq<u8>) -> PendingModel {
    PendingModel { slots: e.slots.update(index as int, Some(data)), ..e }
}

/// The cache after a segment: the pair's entry takes the data at the index
/// (replacing what was there) and becomes the most recently touched; a new
/// pair gets a fresh entry, and when the cache is full the least recently
/// touched entry is evicted to make room.
pub open spec fn after_segment(t: TrackerModel, s: Seq<u8>, d: Seq<u8>, index: u8, data: Seq<u8>) -> TrackerModel {
    let i = find_entry(t.entries, s, d);
    if i >= 0 {
        TrackerModel { entries: t.entries.remove(i).push(with_slot(t.entries[i], index, data)), ..t }
    } else if t.entries.len() < t.capacity {
        TrackerModel { entries: t.entries.push(with_slot(empty_entry(s, d), index, data)), ..t }
    } else {
        TrackerModel {
            entries: t.entries.remove(0).push(
                with_slot(empty_entry(s, d), index, data),
            ),
            ..t
        }
    }
}

pub open spec fn segment_outcome(t: TrackerModel, s: Seq<u8>, d: Seq<u8>, index: u8) -> OutcomeModel {
    let i = find_entry(t.entries, s, d);
    if i >= 0 && t.entries[i].slots[index as int] is Some {
        OutcomeModel::Duplicate
    } else {
        OutcomeModel::Stored
    }
}

/// How many indexes hold a segment.
pub open spec fn slot_count(slots: Seq<Option<Seq<u8>>>) -> nat
    decreases slots.len(),
{
    if slots.len() == 0 {
        0
    } else {
        slot_count(slots.drop_last()) + if slots.last() is Some {
            1nat
        } else {
            0nat
        }
    }
}

/// The stored segments concatenated in index order.
pub open spec fn joined(slots: Seq<Option<Seq<u8>>>) -> Seq<u8>
    decreases slots.len(),
{
    if slots.len() == 0 {
        Seq::empty()
    } else {
        joined(slots.drop_last()) + match slots.last() {
            Some(b) => b,
            None => Seq::empty(),
        }
    }
}

/// The cache after an end marker: the pair's entry, if any, is taken out.
pub open spec fn after_end(t: TrackerModel, s: Seq<u8>, d: Seq<u8>) -> TrackerModel {
    let i = find_entry(t.entries, s, d);
    if i >= 0 {
        TrackerModel { entries: t.entries.remove(i), ..t }
    } else {
        t
    }
}

/// What an end marker yields: nothing for a pair with no entry, nothing when
/// the count or the digest disagrees, and otherwise the concatenated bytes.
pub open spec fn end_outcome(
    t: TrackerModel,
    s: Seq<u8>,
    d: Seq<u8>,
    mode: Option<MessageCompressionMode>,
    total: u8,
    hash: Seq<u8>,
) -> OutcomeModel {
    let i = find_entry(t.entries, s, d);
    if i < 0 {
        OutcomeModel::Orphan
    } else if slot_count(t.entries[i].slots) != total as nat {
        OutcomeModel::CountMismatch
    } else if blake2s_of(joined(t.entries[i].slots)) != hash {
        OutcomeModel::HashMismatch
    } else {
        OutcomeModel::Delivered {
            source: s,
            destination: d,
            compression_mode: mode,
            message: joined(t.entries[i].slots),
        }
    }
}

/// The cache and the outcome after one packet.
pub open spec fn step(t: TrackerModel, p: PacketModel) -> (TrackerModel, OutcomeModel) {
    match p.message {
        SegmentModel::Message { index, data } => (
            after_segment(t, p.source, p.destination, index, data),
            segment_outcome(t, p.source, p.destination, index),
        ),
        SegmentModel::EndMessage { compression_mode, total_indexes, hash } => (
            after_end(t, p.source, p.destination),
            end_outcome(t, p.source, p.destination, compression_mode, total_indexes, hash),
        ),
    }
}

pub proof fn lemma_find_entry(es: Seq<PendingModel>, s: Seq<u8>, d: Seq<u8>)
    ensures
        -1 <= find_entry(es, s, d) < es.len(),
        find_entry(es, s, d) >= 0 ==> has_key(es[find_entry(es, s, d)], s, d),
        find_entry(es, s, d) < 0 ==> forall|i: int| 0 <= i < es.len() ==> !has_key(#[trigger] es[i], s, d),
    decreases es.len(),
{
    if es.len() > 0 {
        lemma_find_entry(es.drop_last(), s, d);
        if !has_key(es.last(), s, d) {
            assert forall|i: int| 0 <= i < es.len() - 1 implies es[i] == es.drop_last()[i] by {}
        }
    }
}

} // verus!

verus! {

pub proof fn lemma_push_keeps_unique(es: Seq<PendingModel>, e: PendingModel)
    requires
        keys_unique(es),
        forall|i: int| 0 <= i < es.len() ==> !has_key(#[trigger] es[i], e.source, e.destination),
    ensures
        keys_unique(es.push(e)),
{
    let n = es.push(e);
    assert forall|i: int, j: int|
        0 <= i < n.len() && 0 <= j < n.len() && #[trigger] has_key(
            n[i],
            n[j].source,
            n[j].destination,
        ) implies i == j by {
        if i < es.len() && j < es.len() {
            assert(has_key(es[i], es[j].source, es[j].destination));
        } else if i < es.len() {
            assert(n[j] == e);
        } else if j < es.len() {
            assert(has_key(es[j], e.source, e.destination));
        }
    }
}

pub proof fn lemma_remove_keeps_unique(es: Seq<PendingModel>, k: int)
    requires
        keys_unique(es),
        0 <= k < es.len(),
    ensures
        keys_unique(es.remove(k)),
        forall|a: int|
            0 <= a < es.len() - 1 ==> !has_key(#[trigger] es.remove(k)[a], es[k].source, es[k].destination),
        forall|a: int|
            0 <= a < es.len() - 1 ==> #[trigger] es.remove(k)[a] == es[if a < k {
                a
            } else {
                a + 1
            }],
{
    let n = es.remove(k);
    assert forall|a: int| 0 <= a < es.len() - 1 implies #[trigger] n[a] == es[if a < k {
        a
    } else {
        a + 1
    }] by {}
    assert forall|i: int, j: int|
        0 <= i < n.len() && 0 <= j < n.len() && #[trigger] has_key(
            n[i],
            n[j].source,
            n[j].destination,
        ) implies i == j by {
        let ii = if i < k {
            i
        } else {
            i + 1
        };
        let jj = if j < k {
            j
        } else {
            j + 1
        };
        assert(has_key(es[ii], es[jj].source, es[jj].destination));
    }
    assert forall|a: int| 0 <= a < es.len() - 1 implies !has_key(
        #[trigger] n[a],
        es[k].source,
        es[k].destination,
    ) by {
        let aa = if a < k {
            a
        } else {
            a + 1
        };
        if has_key(n[a], es[k].source, es[k].destination) {
            assert(has_key(es[aa], es[k].source, es[k].destination));
        }
    }
}

pub open spec fn slots_view(v: Seq<Option<Vec<u8>>>) -> Seq<Option<Seq<u8>>> {
    v.map_values(|o: Option<Vec<u8>>| slot_view(o))
}

fn fresh_entry(source: PublicKey, destination: PublicKey, index: u8, data: Vec<u8>) -> (r: PendingMessage)
    ensures
        r@ == with_slot(empty_entry(source.0@, destination.0@), index, data@),
        r.slots@.len() == 256,
{
    let mut slots: Vec<Option<Vec<u8>>> = Vec::with_capacity(SEGMENT_SLOTS);
    let mut k: usize = 0;
    while k < SEGMENT_SLOTS
        invariant
            k <= 256,
            slots@.len() == k,
            forall|j: int| 0 <= j < k ==> slots@[j] is None,
        decreases 256 - k,
    {
        slots.push(None);
        k = k + 1;
    }
    let ghost d = data@;
    slots.set(index as usize, Some(data));
    let r = PendingMessage { source, destination, slots };
    assert(r@.slots =~= Seq::new(256, |i: int| None::<Seq<u8>>).update(index as int, Some(d)));
    r
}

fn count_slots(slots: &Vec<Option<Vec<u8>>>) -> (r: usize)
    ensures
        r as nat == slot_count(slots_view(slots@)),
{
    let ghost v = slots_view(slots@);
    let mut c: usize = 0;
    let mut k: usize = 0;
    while k < slots.len()
        invariant
            k <= slots@.len(),
            v == slots_view(slots@),
            c as nat == slot_count(v.subrange(0, k as int)),
            c <= k,
        decreases slots@.len() - k,
    {
        assert(v.subrange(0, k + 1).drop_last() =~= v.subrange(0, k as int));
        if slots[k].is_some() {
            c = c + 1;
        }
        k = k + 1;
    }
    assert(v.subrange(0, k as int) =~= v);
    c
}

fn join_slots(slots: &Vec<Option<Vec<u8>>>) -> (r: Vec<u8>)
    ensures
        r@ == joined(slots_view(slots@)),
{
    let ghost v = slots_view(slots@);
    let mut out: Vec<u8> = Vec::new();
    let mut k: usize = 0;
    while k < slots.len()
        invariant
            k <= slots@.len(),
            v == slots_view(slots@),
            out@ == joined(v.subrange(0, k as int)),
        decreases slots@.len() - k,
    {
        assert(v.subrange(0, k + 1).drop_last() =~= v.subrange(0, k as int));
        match &slots[k] {
            Some(b) => {
                crate::codec::push_all(&mut out, b.as_slice());
            },
            None => {
                assert(out@ =~= out@ + Seq::<u8>::empty());
            },
        }
        k = k + 1;
    }
    assert(v.subrange(0, k as int) =~= v);
    out
}

/// The last step of reassembly, given the digest of the concatenated
/// segments: the message is delivered when the digest is the one its end
/// marker carries, and dropped otherwise.
pub fn conclude_message(
    source: PublicKey,
    destination: PublicKey,
    compression_mode: Option<MessageCompressionMode>,
    message: Vec<u8>,
    digest: &[u8; 32],
    hash: &[u8; 32],
) -> (r: ReassemblyOutcome)
    ensures
        digest@ == hash@ ==> r@ == (OutcomeModel::Delivered {
            source: source.0@,
            destination: destination.0@,
            compression_mode,
            message: message@,
        }),
        digest@ != hash@ ==> r@ == OutcomeModel::HashMismatch,
{
    if same_digest(digest, hash) {
        ReassemblyOutcome::Delivered(
            EncodedMessage {
                claimed_source: source,
                claimed_destination: destination,
                compression_mode,
                message,
            },
        )
    } else {
        ReassemblyOutcome::HashMismatch
    }
}

impl PreAssembledMessageTracker {
    /// An empty cache that keeps at most `capacity` partial messages.
    pub fn with_capacity(capacity: usize) -> (r: PreAssembledMessageTracker)
        requires
            capacity >= 1,
        ensures
            r@.entries.len() == 0,
            r@.capacity == capacity,
            tracker_wf(r@),
    {
        let r = PreAssembledMessageTracker { entries: Vec::new(), capacity };
        assert(r@.entries =~= Seq::<PendingModel>::empty());
        r
    }

    /// The number of partial messages held.
    pub fn len(&self) -> (r: usize)
        ensures
            r == self@.entries.len(),
    {
        self.entries.len()
    }

    /// The most partial messages the cache keeps.
    pub fn capacity(&self) -> (r: usize)
        ensures
            r == self@.capacity,
    {
        self.capacity
    }

    fn find(&self, s: &PublicKey, d: &PublicKey) -> (r: Option<usize>)
        ensures
            match r {
                Some(i) => find_entry(self@.entries, s.0@, d.0@) == i as int,
                None => find_entry(self@.entries, s.0@, d.0@) == -1,
            },
    {
        let ghost es = self@.entries;
        let mut j = self.entries.len();
        assert(es.subrange(0, j as int) =~= es);
        while j > 0
            invariant
                j <= self.entries@.len(),
                es == self@.entries,
                find_entry(es, s.0@, d.0@) == find_entry(es.subrange(0, j as int), s.0@, d.0@),
            decreases j,
        {
            let e = &self.entries[j - 1];
            let ghost sub = es.subrange(0, j as int);
            assert(sub.last() == es[j - 1]);
            assert(sub.drop_last() =~= es.subrange(0, j - 1));
            if e.source.same_as(s) && e.destination.same_as(d) {
                return Some(j - 1);
            }
            j = j - 1;
        }
        None
    }

    /// Stores a segment for its pair (see `after_segment`).
    pub fn insert_segment(&mut self, source: PublicKey, destination: PublicKey, index: u8, data: Vec<u8>) -> (r: ReassemblyOutcome)
        requires
            tracker_wf(old(self)@),
        ensures
            tracker_wf(final(self)@),
            final(self)@ == after_segment(old(self)@, source.0@, destination.0@, index, data@),
            r@ == segment_outcome(old(self)@, source.0@, destination.0@, index),
    {
        let ghost t = self@;
        let ghost s = source.0@;
        let ghost d = destination.0@;
        let ghost dv = data@;
        proof {
            lemma_find_entry(t.entries, s, d);
        }
        match self.find(&source, &destination) {
            Some(i) => {
                let mut e = self.entries.remove(i);
                let ghost ev = e@;
                assert(ev == t.entries[i as int]);
                assert(ev.slots.len() == e.slots@.len());
                let dup = e.slots[index as usize].is_some();
                e.slots.set(index as usize, Some(data));
                assert(e@ == with_slot(ev, index, dv)) by {
                    assert(e@.slots =~= ev.slots.update(index as int, Some(dv)));
                }
                self.entries.push(e);
                proof {
                    lemma_remove_keeps_unique(t.entries, i as int);
                    let base = t.entries.remove(i as int);
                    assert(self@.entries =~= base.push(with_slot(ev, index, dv)));
                    lemma_push_keeps_unique(base, with_slot(ev, index, dv));
                }
                if dup {
                    ReassemblyOutcome::Duplicate
                } else {
                    ReassemblyOutcome::Stored
                }
            },
            None => {
                let fresh = fresh_entry(source, destination, index, data);
                let ghost fv = fresh@;
                if self.entries.len() >= self.capacity {
                    self.entries.remove(0);
                    proof {
                        lemma_remove_keeps_unique(t.entries, 0);
                    }
                }
                let ghost base = self@.entries;
                proof {
                    if t.entries.len() >= t.capacity {
                        assert(base =~= t.entries.remove(0));
                    } else {
                        assert(base =~= t.entries);
                    }
                    assert forall|a: int| 0 <= a < base.len() implies !has_key(#[trigger] base[a], s, d) by {
                        if t.entries.len() >= t.capacity {
                            assert(base[a] == t.entries[a + 1]);
                        }
                    }
                    lemma_push_keeps_unique(base, fv);
                }
                self.entries.push(fresh);
                assert(self@.entries =~= base.push(fv));
                ReassemblyOutcome::Stored
            },
        }
    }

    /// Handles an end marker for its pair (see `after_end` and `end_outcome`).
    pub fn finish_message(
        &mut self,
        source: PublicKey,
        destination: PublicKey,
        compression_mode: Option<MessageCompressionMode>,
        total_indexes: u8,
        hash: [u8; 32],
    ) -> (r: ReassemblyOutcome)
        requires
            tracker_wf(old(self)@),
        ensures
            tracker_wf(final(self)@),
            final(self)@ == after_end(old(self)@, source.0@, destination.0@),
            r@ == end_outcome(old(self)@, source.0@, destination.0@, compression_mode, total_indexes, hash@),
    {
        let ghost t = self@;
        proof {
            lemma_find_entry(t.entries, source.0@, destination.0@);
        }
        match self.find(&source, &destination) {
            None => ReassemblyOutcome::Orphan,
            Some(i) => {
                let e = self.entries.remove(i);
                proof {
                    lemma_remove_keeps_unique(t.entries, i as int);
                    assert(self@.entries =~= t.entries.remove(i as int));
                    assert(slots_view(e.slots@) =~= t.entries[i as int].slots);
                }
                let count = count_slots(&e.slots);
                if count != total_indexes as usize {
                    ReassemblyOutcome::CountMismatch
                } else {
                    let payload = join_slots(&e.slots);
                    let digest = blake2s_digest(payload.as_slice());
                    conclude_message(source, destination, compression_mode, payload, &digest, &hash)
                }
            },
        }
    }

    /// Handles one received packet: a segment is stored, an end marker
    /// completes or drops its message.
    pub fn handle_packet(&mut self, packet: Packet) -> (r: ReassemblyOutcome)
        requires
            tracker_wf(old(self)@),
        ensures
            tracker_wf(final(self)@),
            (final(self)@, r@) == step(old(self)@, packet@),
    {
        match packet.message {
            MessageSegment::Message { index, data } => {
                self.insert_segment(packet.source, packet.destination, index, data.0)
            },
            MessageSegment::EndMessage { compression_mode, total_indexes, hash } => {
                self.finish_message(packet.source, packet.destination, compression_mode, total_indexes, hash)
            },
        }
    }
}

} // verus!

verus! {

/// Storing the same segment twice leaves the cache exactly as storing it once
/// does, so whatever is reassembled later is the same.
pub proof fn lemma_duplicate_segment_idempotent(
    t: TrackerModel,
    s: Seq<u8>,
    d: Seq<u8>,
    index: u8,
    data: Seq<u8>,
)
    requires
        tracker_wf(t),
    ensures
        after_segment(after_segment(t, s, d, index, data), s, d, index, data) == after_segment(
            t,
            s,
            d,
            index,
            data,
        ),
{
    let t1 = after_segment(t, s, d, index, data);
    let n = t1.entries.len() as int;
    lemma_find_entry(t.entries, s, d);
    let i = find_entry(t.entries, s, d);
    if i >= 0 {
        assert(t.entries[i].slots.len() == 256);
    }
    assert(has_key(t1.entries[n - 1], s, d));
    assert(find_entry(t1.entries, s, d) == n - 1);
    let last = t1.entries[n - 1];
    assert(with_slot(last, index, data).slots =~= last.slots);
    assert(t1.entries.remove(n - 1).push(with_slot(last, index, data)) =~= t1.entries);
}

/// A segment that repeats what its pair's entry already holds at its index,
/// whatever came between the two copies, leaves the pair's stored segments
/// and the number of entries as they were, so the pair's end marker yields
/// the same outcome with or without the repeat.
pub proof fn lemma_repeated_segment_changes_nothing(
    t: TrackerModel,
    s: Seq<u8>,
    d: Seq<u8>,
    index: u8,
    data: Seq<u8>,
    mode: Option<MessageCompressionMode>,
    total: u8,
    hash: Seq<u8>,
)
    requires
        tracker_wf(t),
        find_entry(t.entries, s, d) >= 0,
        t.entries[find_entry(t.entries, s, d)].slots[index as int] == Some(data),
    ensures
        after_segment(t, s, d, index, data).entries.len() == t.entries.len(),
        ({
            let a = after_segment(t, s, d, index, data);
            a.entries[find_entry(a.entries, s, d)].slots == t.entries[find_entry(t.entries, s, d)].slots
        }),
        end_outcome(after_segment(t, s, d, index, data), s, d, mode, total, hash) == end_outcome(
            t,
            s,
            d,
            mode,
            total,
            hash,
        ),
{
    let f = find_entry(t.entries, s, d);
    lemma_find_entry(t.entries, s, d);
    assert(t.entries[f].slots.len() == 256);
    let a = after_segment(t, s, d, index, data);
    let n = a.entries.len() as int;
    assert(has_key(a.entries[n - 1], s, d));
    assert(find_entry(a.entries, s, d) == n - 1);
    assert(with_slot(t.entries[f], index, data).slots =~= t.entries[f].slots);
}

/// An end marker that counts more segments than were stored drops the
/// message at once: nothing is delivered and the pair's entry is gone.
pub proof fn lemma_short_count_discards(
    t: TrackerModel,
    s: Seq<u8>,
    d: Seq<u8>,
    mode: Option<MessageCompressionMode>,
    total: u8,
    hash: Seq<u8>,
)
    requires
        tracker_wf(t),
        find_entry(t.entries, s, d) >= 0,
        slot_count(t.entries[find_entry(t.entries, s, d)].slots) < total,
    ensures
        end_outcome(t, s, d, mode, total, hash) == OutcomeModel::CountMismatch,
        find_entry(after_end(t, s, d).entries, s, d) == -1,
        after_end(t, s, d).entries.len() == t.entries.len() - 1,
{
    let i = find_entry(t.entries, s, d);
    lemma_find_entry(t.entries, s, d);
    lemma_remove_keeps_unique(t.entries, i);
    lemma_find_entry(t.entries.remove(i), s, d);
}

/// An end marker for a pair with no stored segments is dropped and changes
/// nothing.
pub proof fn lemma_orphan_end_marker(
    t: TrackerModel,
    s: Seq<u8>,
    d: Seq<u8>,
    mode: Option<MessageCompressionMode>,
    total: u8,
    hash: Seq<u8>,
)
    requires
        find_entry(t.entries, s, d) < 0,
    ensures
        end_outcome(t, s, d, mode, total, hash) == OutcomeModel::Orphan,
        after_end(t, s, d) == t,
{
}

/// The cache never holds more entries than its capacity; a segment of a new
/// pair that arrives when it is full evicts the least recently touched entry.
pub proof fn lemma_capacity_bound(t: TrackerModel, s: Seq<u8>, d: Seq<u8>, index: u8, data: Seq<u8>)
    requires
        tracker_wf(t),
    ensures
        after_segment(t, s, d, index, data).entries.len() <= t.capacity,
        after_segment(t, s, d, index, data).capacity == t.capacity,
        find_entry(t.entries, s, d) < 0 && t.entries.len() == t.capacity ==> {
            &&& after_segment(t, s, d, index, data).entries.len() == t.capacity
            &&& find_entry(
                after_segment(t, s, d, index, data).entries,
                t.entries[0].source,
                t.entries[0].destination,
            ) == -1
            &&& forall|a: int|
                1 <= a < t.entries.len() ==> #[trigger] after_segment(
                    t,
                    s,
                    d,
                    index,
                    data,
                ).entries[a - 1] == t.entries[a]
        },
{
    lemma_find_entry(t.entries, s, d);
    if find_entry(t.entries, s, d) < 0 && t.entries.len() == t.capacity {
        let after = after_segment(t, s, d, index, data);
        let k0 = t.entries[0];
        lemma_remove_keeps_unique(t.entries, 0);
        assert(!has_key(t.entries[0], s, d));
        assert forall|a: int| 0 <= a < after.entries.len() implies !has_key(
            #[trigger] after.entries[a],
            k0.source,
            k0.destination,
        ) by {
            if a < after.entries.len() - 1 {
                assert(after.entries[a] == t.entries.remove(0)[a]);
            }
        }
        lemma_find_entry(after.entries, k0.source, k0.destination);
        if find_entry(after.entries, k0.source, k0.destination) >= 0 {
            let f = find_entry(after.entries, k0.source, k0.destination);
            assert(has_key(after.entries[f], k0.source, k0.destination));
        }
    }
}

} // verus!

verus! {

/// With one entry per pair, the entry that holds a pair's key is the one found.
pub proof fn lemma_find_is_unique(es: Seq<PendingModel>, m: int, s: Seq<u8>, d: Seq<u8>)
    requires
        keys_unique(es),
        0 <= m < es.len(),
        has_key(es[m], s, d),
    ensures
        find_entry(es, s, d) == m,
{
    lemma_find_entry(es, s, d);
    let f = find_entry(es, s, d);
    if f != m {
        assert(has_key(es[f], es[m].source, es[m].destination));
    }
}

/// Storing a segment keeps the cache well formed.
pub proof fn lemma_after_segment_wf(t: TrackerModel, s: Seq<u8>, d: Seq<u8>, index: u8, data: Seq<u8>)
    requires
        tracker_wf(t),
    ensures
        tracker_wf(after_segment(t, s, d, index, data)),
{
    lemma_find_entry(t.entries, s, d);
    let i = find_entry(t.entries, s, d);
    let a = after_segment(t, s, d, index, data).entries;
    if i >= 0 {
        lemma_remove_keeps_unique(t.entries, i);
        let x = with_slot(t.entries[i], index, data);
        assert(t.entries[i].slots.len() == 256);
        lemma_push_keeps_unique(t.entries.remove(i), x);
        assert forall|k: int| 0 <= k < a.len() implies #[trigger] a[k].slots.len() == 256 by {
            if k < a.len() - 1 {
                assert(a[k] == t.entries.remove(i)[k]);
            }
        }
    } else if t.entries.len() < t.capacity {
        let x = with_slot(empty_entry(s, d), index, data);
        lemma_push_keeps_unique(t.entries, x);
        assert forall|k: int| 0 <= k < a.len() implies #[trigger] a[k].slots.len() == 256 by {
            if k < a.len() - 1 {
                assert(a[k] == t.entries[k]);
            }
        }
    } else {
        let x = with_slot(empty_entry(s, d), index, data);
        lemma_remove_keeps_unique(t.entries, 0);
        let base = t.entries.remove(0);
        assert forall|k: int| 0 <= k < base.len() implies !has_key(#[trigger] base[k], s, d) by {
            assert(base[k] == t.entries[k + 1]);
        }
        lemma_push_keeps_unique(base, x);
        assert forall|k: int| 0 <= k < a.len() implies #[trigger] a[k].slots.len() == 256 by {
            if k < a.len() - 1 {
                assert(a[k] == t.entries[k + 1]);
            }
        }
    }
}

/// Handling an end marker keeps the cache well formed.
pub proof fn lemma_after_end_wf(t: TrackerModel, s: Seq<u8>, d: Seq<u8>)
    requires
        tracker_wf(t),
    ensures
        tracker_wf(after_end(t, s, d)),
{
    lemma_find_entry(t.entries, s, d);
    let i = find_entry(t.entries, s, d);
    if i >= 0 {
        lemma_remove_keeps_unique(t.entries, i);
        let a = t.entries.remove(i);
        assert forall|k: int| 0 <= k < a.len() implies #[trigger] a[k].slots.len() == 256 by {
            assert(a[k] == t.entries[if k < i {
                k
            } else {
                k + 1
            }]);
        }
    }
}

/// Any packet keeps the cache well formed.
pub proof fn lemma_step_wf(t: TrackerModel, p: PacketModel)
    requires
        tracker_wf(t),
    ensures
        tracker_wf(step(t, p).0),
{
    match p.message {
        SegmentModel::Message { index, data } => lemma_after_segment_wf(
            t,
            p.source,
            p.destination,
            index,
            data,
        ),
        SegmentModel::EndMessage { .. } => lemma_after_end_wf(t, p.source, p.destination),
    }
}

/// Packets of other pairs, interleaved in any way, leave a pair's stored
/// segments alone: while the pair's entry is not evicted, it holds the same
/// segments after such a packet as before it.
pub proof fn lemma_other_pair_keeps_entry(t: TrackerModel, s: Seq<u8>, d: Seq<u8>, p: PacketModel)
    requires
        tracker_wf(t),
        !(p.source == s && p.destination == d),
        find_entry(t.entries, s, d) >= 0,
        find_entry(step(t, p).0.entries, s, d) >= 0,
    ensures
        step(t, p).0.entries[find_entry(step(t, p).0.entries, s, d)].slots == t.entries[find_entry(
            t.entries,
            s,
            d,
        )].slots,
{
    let a = step(t, p).0.entries;
    let j = find_entry(a, s, d);
    lemma_find_entry(a, s, d);
    lemma_find_entry(t.entries, p.source, p.destination);
    let i = find_entry(t.entries, p.source, p.destination);
    // the entry found afterwards is one that was there before
    let m: int = match p.message {
        SegmentModel::Message { .. } => if i >= 0 {
            assert(j < a.len() - 1);
            lemma_remove_keeps_unique(t.entries, i);
            if j < i {
                j
            } else {
                j + 1
            }
        } else if t.entries.len() < t.capacity {
            assert(j < a.len() - 1);
            j
        } else {
            assert(j < a.len() - 1);
            j + 1
        },
        SegmentModel::EndMessage { .. } => if i >= 0 {
            lemma_remove_keeps_unique(t.entries, i);
            if j < i {
                j
            } else {
                j + 1
            }
        } else {
            j
        },
    };
    assert(a[j] == t.entries[m]);
    lemma_find_is_unique(t.entries, m, s, d);
}

} // verus!
