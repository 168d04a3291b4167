//! What the encode pipeline and the reassembly engine do together.
use crate::integrity::blake2s_of;
use crate::proto::{MessageCompressionMode, PacketModel, MAX_MESSAGE_SEGMENT_SIZE};
use crate::proto::SegmentModel;
use crate::reassembly::{
    after_segment, empty_entry, end_outcome, find_entry, has_key, joined, lemma_find_entry,
    lemma_find_is_unique, lemma_other_pair_keeps_entry, lemma_remove_keeps_unique, lemma_step_wf,
    slot_count, step, tracker_wf, with_slot, OutcomeModel, TrackerModel,
};
use crate::segment::{chunk, chunk_count, segment_packets, MAX_SEGMENTS};
use vstd::prelude::*;

verus! {

/// The cache after handling the packets `pk[order[0]]`, `pk[order[1]]`, ...
pub open spec fn deliver_in_order(t: TrackerModel, pk: Seq<PacketModel>, order: Seq<int>) -> TrackerModel
    decreases order.len(),
{
    if order.len() == 0 {
        t
    } else {
        step(deliver_in_order(t, pk, order.drop_last()), pk[order.last()]).0
    }
}

/// The slots of a payload's entry once the chunks at the indexes in `o` came.
pub open spec fn slots_for(payload: Seq<u8>, o: Seq<int>) -> Seq<Option<Seq<u8>>> {
    Seq::new(256, |i: int| if o.contains(i) { Some(chunk(payload, i)) } else { None })
}

proof fn lemma_contains_push(o: Seq<int>, i: int)
    requires
        o.len() >= 1,
    ensures
        o.contains(i) <==> (o.drop_last().contains(i) || o.last() == i),
{
    if o.contains(i) {
        let k = choose|k: int| 0 <= k < o.len() && o[k] == i;
        if k < o.len() - 1 {
            assert(o.drop_last()[k] == i);
        }
    }
    if o.drop_last().contains(i) {
        let k = choose|k: int| 0 <= k < o.drop_last().len() && o.drop_last()[k] == i;
        assert(o[k] == i);
    }
    if o.last() == i {
        assert(o[o.len() - 1] == i);
    }
}

proof fn lemma_deliver_prefix(
    t: TrackerModel,
    s: Seq<u8>,
    d: Seq<u8>,
    payload: Seq<u8>,
    mode: Option<MessageCompressionMode>,
    order: Seq<int>,
)
    requires
        find_entry(t.entries, s, d) < 0,
        payload.len() <= MAX_SEGMENTS * MAX_MESSAGE_SEGMENT_SIZE,
        order.len() >= 1,
        forall|j: int| 0 <= j < order.len() ==> 0 <= #[trigger] order[j] < chunk_count(payload.len()),
    ensures
        ({
            let e = deliver_in_order(
                t,
                segment_packets(s, d, payload, mode, blake2s_of(payload)),
                order,
            ).entries;
            &&& e.len() >= 1
            &&& has_key(e.last(), s, d)
            &&& e.last().slots == slots_for(payload, order)
        }),
    decreases order.len(),
{
    crate::segment::lemma_chunk_count_bound(payload.len());
    let pk = segment_packets(s, d, payload, mode, blake2s_of(payload));
    let j = order.last();
    assert(0 <= j < chunk_count(payload.len()));
    assert(pk[j] == PacketModel {
        source: s,
        destination: d,
        message: crate::proto::SegmentModel::Message { index: j as u8, data: chunk(payload, j) },
    });
    let prev = deliver_in_order(t, pk, order.drop_last());
    if order.len() == 1 {
        assert(order.drop_last().len() == 0);
        let after = after_segment(prev, s, d, j as u8, chunk(payload, j));
        assert(after.entries.last() == with_slot(empty_entry(s, d), j as u8, chunk(payload, j)));
        assert forall|i: int| 0 <= i < 256 implies after.entries.last().slots[i] == slots_for(
            payload,
            order,
        )[i] by {
            lemma_contains_push(order, i);
        }
        assert(after.entries.last().slots =~= slots_for(payload, order));
    } else {
        lemma_deliver_prefix(t, s, d, payload, mode, order.drop_last());
        let pe = prev.entries;
        assert(find_entry(pe, s, d) == pe.len() - 1);
        let after = after_segment(prev, s, d, j as u8, chunk(payload, j));
        assert(after.entries.last() == with_slot(pe.last(), j as u8, chunk(payload, j)));
        assert forall|i: int| 0 <= i < 256 implies after.entries.last().slots[i] == slots_for(
            payload,
            order,
        )[i] by {
            lemma_contains_push(order, i);
        }
        assert(after.entries.last().slots =~= slots_for(payload, order));
    }
}

proof fn lemma_full_slots(payload: Seq<u8>, o: Seq<int>, m: int)
    requires
        payload.len() <= MAX_SEGMENTS * MAX_MESSAGE_SEGMENT_SIZE,
        forall|j: int| 0 <= j < o.len() ==> 0 <= #[trigger] o[j] < chunk_count(payload.len()),
        forall|i: int| 0 <= i < chunk_count(payload.len()) ==> o.contains(i),
        0 <= m <= 256,
    ensures
        slot_count(slots_for(payload, o).subrange(0, m)) == if m < chunk_count(payload.len()) {
            m
        } else {
            chunk_count(payload.len()) as int
        },
        joined(slots_for(payload, o).subrange(0, m)) == payload.subrange(
            0,
            if m * MAX_MESSAGE_SEGMENT_SIZE < payload.len() {
                m * MAX_MESSAGE_SEGMENT_SIZE
            } else {
                payload.len() as int
            },
        ),
    decreases m,
{
    let n = chunk_count(payload.len()) as int;
    let l = MAX_MESSAGE_SEGMENT_SIZE as int;
    let sl = slots_for(payload, o);
    crate::segment::lemma_chunk_count_bound(payload.len());
    if m == 0 {
        assert(payload.subrange(0, 0) =~= Seq::<u8>::empty());
    } else {
        lemma_full_slots(payload, o, m - 1);
        let pre = sl.subrange(0, m);
        assert(pre.drop_last() =~= sl.subrange(0, m - 1));
        let i = m - 1;
        if i < n {
            assert(o.contains(i));
            assert(pre.last() == Some(chunk(payload, i)));
            assert(i * l <= payload.len()) by (nonlinear_arith)
                requires
                    i < n,
                    payload.len() > 0 ==> (n - 1) * l < payload.len(),
                    payload.len() == 0 ==> n == 1,
                    0 <= i,
                    l > 0,
            ;
            assert((i + 1) * l == i * l + l) by (nonlinear_arith);
            assert(payload.subrange(0, i * l) + chunk(payload, i) =~= payload.subrange(
                0,
                if m * l < payload.len() {
                    m * l
                } else {
                    payload.len() as int
                },
            ));
        } else {
            if o.contains(i) {
                let k = choose|k: int| 0 <= k < o.len() && o[k] == i;
                assert(0 <= o[k] < n);
            }
            assert(pre.last() is None);
            assert(payload.len() <= i * l) by (nonlinear_arith)
                requires
                    i >= n,
                    payload.len() <= n * l,
                    l > 0,
            ;
            assert((i + 1) * l == i * l + l) by (nonlinear_arith);
            assert(joined(pre) =~= joined(sl.subrange(0, m - 1)));
        }
    }
}

/// Integrity of delivery: the packets that the pipeline makes of a payload,
/// handled in any order (each segment at least once, repeats allowed) by a
/// cache that holds nothing for the pair, and then the end marker, deliver
/// exactly that payload, with its pair and compression mode.
pub proof fn lemma_segments_reassemble(
    t: TrackerModel,
    s: Seq<u8>,
    d: Seq<u8>,
    payload: Seq<u8>,
    mode: Option<MessageCompressionMode>,
    order: Seq<int>,
)
    requires
        find_entry(t.entries, s, d) < 0,
        payload.len() <= MAX_SEGMENTS * MAX_MESSAGE_SEGMENT_SIZE,
        forall|j: int| 0 <= j < order.len() ==> 0 <= #[trigger] order[j] < chunk_count(payload.len()),
        forall|i: int| 0 <= i < chunk_count(payload.len()) ==> order.contains(i),
    ensures
        ({
            let pk = segment_packets(s, d, payload, mode, blake2s_of(payload));
            step(deliver_in_order(t, pk, order), pk[chunk_count(payload.len()) as int]).1
                == OutcomeModel::Delivered {
                source: s,
                destination: d,
                compression_mode: mode,
                message: payload,
            }
        }),
{
    let pk = segment_packets(s, d, payload, mode, blake2s_of(payload));
    let n = chunk_count(payload.len()) as int;
    crate::segment::lemma_chunk_count_bound(payload.len());
    assert(order.contains(0));
    lemma_deliver_prefix(t, s, d, payload, mode, order);
    let t2 = deliver_in_order(t, pk, order);
    assert(find_entry(t2.entries, s, d) == t2.entries.len() - 1);
    let sl = slots_for(payload, order);
    lemma_full_slots(payload, order, 256);
    assert(sl.subrange(0, 256) =~= sl);
    assert(256 * MAX_MESSAGE_SEGMENT_SIZE >= payload.len());
    assert(payload.subrange(0, payload.len() as int) =~= payload);
}

} // verus!

verus! {

/// The cache after handling the packets in order.
pub open spec fn handle_all(t: TrackerModel, ps: Seq<PacketModel>) -> TrackerModel
    decreases ps.len(),
{
    if ps.len() == 0 {
        t
    } else {
        step(handle_all(t, ps.drop_last()), ps.last()).0
    }
}

/// Byte strings concatenated in order.
pub open spec fn concat_all(xs: Seq<Seq<u8>>) -> Seq<u8>
    decreases xs.len(),
{
    if xs.len() == 0 {
        Seq::empty()
    } else {
        concat_all(xs.drop_last()) + xs.last()
    }
}

pub open spec fn is_pair(p: PacketModel, s: Seq<u8>, d: Seq<u8>) -> bool {
    p.source == s && p.destination == d
}

/// The index of a data segment, or -1 for an end marker.
pub open spec fn segment_index(p: PacketModel) -> int {
    match p.message {
        SegmentModel::Message { index, .. } => index as int,
        SegmentModel::EndMessage { .. } => -1,
    }
}

pub open spec fn segment_data(p: PacketModel) -> Seq<u8> {
    match p.message {
        SegmentModel::Message { data, .. } => data,
        SegmentModel::EndMessage { .. } => Seq::empty(),
    }
}

pub open spec fn pair_seen(ps: Seq<PacketModel>, s: Seq<u8>, d: Seq<u8>) -> bool {
    exists|k: int| 0 <= k < ps.len() && #[trigger] is_pair(ps[k], s, d)
}

pub open spec fn index_seen(ps: Seq<PacketModel>, s: Seq<u8>, d: Seq<u8>, i: int) -> bool {
    exists|k: int| 0 <= k < ps.len() && #[trigger] is_pair(ps[k], s, d) && segment_index(ps[k]) == i
}

/// The slots of the pair's entry once the packets came: chunk `i` at every
/// index `i` that some packet of the pair carried.
pub open spec fn collected(ps: Seq<PacketModel>, s: Seq<u8>, d: Seq<u8>, xs: Seq<Seq<u8>>) -> Seq<
    Option<Seq<u8>>,
> {
    Seq::new(256, |i: int| if index_seen(ps, s, d, i) { Some(xs[i]) } else { None })
}

/// The packets of the pair are data segments of the message `xs`.
pub open spec fn pair_packets_ok(ps: Seq<PacketModel>, s: Seq<u8>, d: Seq<u8>, xs: Seq<Seq<u8>>) -> bool {
    forall|k: int|
        0 <= k < ps.len() && #[trigger] is_pair(ps[k], s, d) ==> ps[k].message is Message && 0
            <= segment_index(ps[k]) < xs.len() && segment_data(ps[k]) == xs[segment_index(ps[k])]
}

/// Once the pair has an entry, it is never evicted.
pub open spec fn never_evicted(t: TrackerModel, ps: Seq<PacketModel>, s: Seq<u8>, d: Seq<u8>) -> bool {
    forall|k: int|
        0 <= k <= ps.len() && pair_seen(#[trigger] ps.take(k), s, d) ==> find_entry(
            handle_all(t, ps.take(k)).entries,
            s,
            d,
        ) >= 0
}

proof fn lemma_entry_origin(t: TrackerModel, s: Seq<u8>, d: Seq<u8>, p: PacketModel, j: int) -> (m: int)
    requires
        tracker_wf(t),
        !is_pair(p, s, d),
        0 <= j < step(t, p).0.entries.len(),
        has_key(step(t, p).0.entries[j], s, d),
    ensures
        0 <= m < t.entries.len(),
        step(t, p).0.entries[j] == t.entries[m],
{
    let a = step(t, p).0.entries;
    lemma_find_entry(t.entries, p.source, p.destination);
    let i = find_entry(t.entries, p.source, p.destination);
    match p.message {
        SegmentModel::Message { .. } => if i >= 0 {
            assert(j < a.len() - 1);
            lemma_remove_keeps_unique(t.entries, i);
            if j < i {
                j
            } else {
                j + 1
            }
        } else if t.entries.len() < t.capacity {
            assert(j < a.len() - 1);
            j
        } else {
            assert(j < a.len() - 1);
            j + 1
        },
        SegmentModel::EndMessage { .. } => if i >= 0 {
            lemma_remove_keeps_unique(t.entries, i);
            if j < i {
                j
            } else {
                j + 1
            }
        } else {
            j
        },
    }
}

proof fn lemma_handle_all(t: TrackerModel, s: Seq<u8>, d: Seq<u8>, xs: Seq<Seq<u8>>, ps: Seq<PacketModel>)
    requires
        tracker_wf(t),
        find_entry(t.entries, s, d) < 0,
        xs.len() <= 256,
        pair_packets_ok(ps, s, d, xs),
        never_evicted(t, ps, s, d),
    ensures
        tracker_wf(handle_all(t, ps)),
        pair_seen(ps, s, d) ==> find_entry(handle_all(t, ps).entries, s, d) >= 0 && handle_all(
            t,
            ps,
        ).entries[find_entry(handle_all(t, ps).entries, s, d)].slots == collected(ps, s, d, xs),
        !pair_seen(ps, s, d) ==> find_entry(handle_all(t, ps).entries, s, d) < 0,
    decreases ps.len(),
{
    if ps.len() > 0 {
        let q = ps.drop_last();
        let p = ps.last();
        assert forall|k: int| 0 <= k <= q.len() implies #[trigger] q.take(k) == ps.take(k) by {
            assert(q.take(k) =~= ps.take(k));
        }
        assert(ps.take(ps.len() as int) =~= ps);
        lemma_handle_all(t, s, d, xs, q);
        let a = handle_all(t, q);
        let b = handle_all(t, ps);
        lemma_step_wf(a, p);
        assert(pair_seen(ps, s, d) == (pair_seen(q, s, d) || is_pair(p, s, d))) by {
            if pair_seen(ps, s, d) && !is_pair(p, s, d) {
                let k = choose|k: int| 0 <= k < ps.len() && #[trigger] is_pair(ps[k], s, d);
                assert(is_pair(q[k], s, d));
            }
            if pair_seen(q, s, d) {
                let k = choose|k: int| 0 <= k < q.len() && #[trigger] is_pair(q[k], s, d);
                assert(is_pair(ps[k], s, d));
            }
            assert(is_pair(ps[ps.len() - 1], s, d) == is_pair(p, s, d));
        }
        assert forall|i: int| #[trigger] index_seen(ps, s, d, i) == (index_seen(q, s, d, i) || (is_pair(
            p,
            s,
            d,
        ) && segment_index(p) == i)) by {
            if index_seen(ps, s, d, i) {
                let k = choose|k: int|
                    0 <= k < ps.len() && #[trigger] is_pair(ps[k], s, d) && segment_index(ps[k]) == i;
                if k < q.len() {
                    assert(is_pair(q[k], s, d));
                }
            }
            if index_seen(q, s, d, i) {
                let k = choose|k: int|
                    0 <= k < q.len() && #[trigger] is_pair(q[k], s, d) && segment_index(q[k]) == i;
                assert(is_pair(ps[k], s, d));
            }
            assert(is_pair(ps[ps.len() - 1], s, d) == is_pair(p, s, d));
        }
        if is_pair(p, s, d) {
            assert(is_pair(ps[ps.len() - 1], s, d));
            let i = segment_index(p);
            let x = segment_data(p);
            assert(0 <= i < xs.len() && x == xs[i]);
            assert(b == step(a, p).0);
            assert(p.message == SegmentModel::Message { index: i as u8, data: x });
            assert(b == after_segment(a, s, d, i as u8, x));
            lemma_find_entry(a.entries, s, d);
            let n = b.entries.len() as int;
            assert(has_key(b.entries[n - 1], s, d));
            assert(find_entry(b.entries, s, d) == n - 1);
            if pair_seen(q, s, d) {
                assert(b.entries[n - 1] == with_slot(a.entries[find_entry(a.entries, s, d)], i as u8, x));
            } else {
                assert(b.entries[n - 1] == with_slot(empty_entry(s, d), i as u8, x));
                assert forall|j: int| 0 <= j < 256 implies !index_seen(q, s, d, j) by {
                    if index_seen(q, s, d, j) {
                        let k = choose|k: int|
                            0 <= k < q.len() && #[trigger] is_pair(q[k], s, d) && segment_index(q[k]) == j;
                    }
                }
            }
            assert(b.entries[n - 1].slots =~= collected(ps, s, d, xs));
        } else {
            if pair_seen(q, s, d) {
                lemma_other_pair_keeps_entry(a, s, d, p);
                assert(collected(ps, s, d, xs) =~= collected(q, s, d, xs));
            } else {
                lemma_find_entry(b.entries, s, d);
                let j = find_entry(b.entries, s, d);
                if j >= 0 {
                    let m = lemma_entry_origin(a, s, d, p, j);
                    lemma_find_entry(a.entries, s, d);
                    assert(has_key(a.entries[m], s, d));
                }
            }
        }
    }
}

proof fn lemma_collected_slots(xs: Seq<Seq<u8>>, sl: Seq<Option<Seq<u8>>>, m: int)
    requires
        1 <= xs.len() <= 255,
        sl.len() == 256,
        forall|i: int| 0 <= i < 256 ==> #[trigger] sl[i] == if i < xs.len() {
            Some(xs[i])
        } else {
            None
        },
        0 <= m <= 256,
    ensures
        slot_count(sl.subrange(0, m)) == if m < xs.len() {
            m
        } else {
            xs.len() as int
        },
        joined(sl.subrange(0, m)) == concat_all(xs.take(if m < xs.len() {
            m
        } else {
            xs.len() as int
        })),
    decreases m,
{
    if m == 0 {
        assert(xs.take(0) =~= Seq::<Seq<u8>>::empty());
    } else {
        lemma_collected_slots(xs, sl, m - 1);
        let pre = sl.subrange(0, m);
        assert(pre.drop_last() =~= sl.subrange(0, m - 1));
        assert(pre.last() == sl[m - 1]);
        if m - 1 < xs.len() {
            assert(xs.take(m).drop_last() =~= xs.take(m - 1));
        } else {
            assert(joined(pre) =~= joined(sl.subrange(0, m - 1)));
        }
    }
}

/// Integrity of reassembly as the receiver sees it: chunks `xs` of a message
/// for a pair that has no entry, delivered in any order and any number of
/// times, with packets of other pairs interleaved, deliver exactly the
/// concatenation of the chunks in index order when the end marker with their
/// count and digest comes, as long as the pair's entry is not evicted.
pub proof fn lemma_interleaved_reassembly(
    t: TrackerModel,
    s: Seq<u8>,
    d: Seq<u8>,
    xs: Seq<Seq<u8>>,
    mode: Option<MessageCompressionMode>,
    ps: Seq<PacketModel>,
)
    requires
        tracker_wf(t),
        find_entry(t.entries, s, d) < 0,
        1 <= xs.len() <= 255,
        pair_packets_ok(ps, s, d, xs),
        forall|i: int| 0 <= i < xs.len() ==> #[trigger] index_seen(ps, s, d, i),
        never_evicted(t, ps, s, d),
    ensures
        end_outcome(handle_all(t, ps), s, d, mode, xs.len() as u8, blake2s_of(concat_all(xs)))
            == (OutcomeModel::Delivered {
            source: s,
            destination: d,
            compression_mode: mode,
            message: concat_all(xs),
        }),
{
    lemma_handle_all(t, s, d, xs, ps);
    assert(index_seen(ps, s, d, 0));
    let k0 = choose|k: int| 0 <= k < ps.len() && #[trigger] is_pair(ps[k], s, d) && segment_index(ps[k]) == 0;
    assert(pair_seen(ps, s, d));
    let sl = collected(ps, s, d, xs);
    assert forall|i: int| 0 <= i < 256 implies #[trigger] sl[i] == if i < xs.len() {
        Some(xs[i])
    } else {
        None
    } by {
        if index_seen(ps, s, d, i) {
            let k = choose|k: int| 0 <= k < ps.len() && #[trigger] is_pair(ps[k], s, d) && segment_index(ps[k]) == i;
        }
    }
    lemma_collected_slots(xs, sl, 256);
    assert(sl.subrange(0, 256) =~= sl);
    assert(xs.take(xs.len() as int) =~= xs);
}

} // verus!
