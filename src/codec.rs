//! The binary wire format of packets: big-endian, variable-length integers,
//! self-delimiting, with no length prefix or magic bytes.
use crate::error::RouteWeaverError;
use crate::proto::{
    packet_wf, LimitedVec, MessageCompressionMode, MessageSegment, Packet, PacketModel, PublicKey,
    SegmentModel, MAX_MESSAGE_SEGMENT_SIZE, MAX_SERIALIZED_PACKET_SIZE,
};
use vstd::prelude::*;

verus! {

/// What reading a value from the front of a byte string gives: the value and
/// the position after it, a wish for more bytes, or a malformed input.
pub enum Step<T> {
    Done(T, int),
    More,
    Bad,
}

/// The big-endian number held in `n` bytes from position `i`.
pub open spec fn be_value(s: Seq<u8>, i: int, n: nat) -> int
    decreases n,
{
    if n == 0 {
        0
    } else {
        be_value(s, i, (n - 1) as nat) * 256 + s[i + n - 1] as int
    }
}

pub open spec fn pow256(n: nat) -> int
    decreases n,
{
    if n == 0 {
        1
    } else {
        256 * pow256((n - 1) as nat)
    }
}

/// The number of bytes that follow a variable-length integer's first byte.
pub open spec fn varint_tail(tag: u8) -> nat {
    if tag <= 250 {
        0
    } else if tag == 251 {
        2
    } else if tag == 252 {
        4
    } else if tag == 253 {
        8
    } else {
        16
    }
}

/// Reads a variable-length integer at `i`, for an integer of `width` bytes: a
/// first byte up to 250 is the value; 251, 252 and 253 announce a big-endian
/// value of 2, 4 and 8 bytes; a wider form than `width` is malformed.
pub open spec fn read_varint(s: Seq<u8>, i: int, width: nat) -> Step<int> {
    if s.len() <= i {
        Step::More
    } else {
        let tag = s[i];
        if tag <= 250 {
            Step::Done(tag as int, i + 1)
        } else if tag > 253 || varint_tail(tag) > width {
            Step::Bad
        } else if s.len() < i + 1 + varint_tail(tag) {
            Step::More
        } else {
            Step::Done(be_value(s, i + 1, varint_tail(tag)), i + 1 + varint_tail(tag))
        }
    }
}

/// Reads the optional compression mode at `i`.
pub open spec fn read_mode(s: Seq<u8>, i: int) -> Step<Option<MessageCompressionMode>> {
    if s.len() <= i {
        Step::More
    } else if s[i] == 0 {
        Step::Done(None, i + 1)
    } else if s[i] == 1 {
        match read_varint(s, i + 1, 4) {
            Step::Done(v, k) => if v == 0 {
                Step::Done(Some(MessageCompressionMode::Lz4), k)
            } else if v == 1 {
                Step::Done(Some(MessageCompressionMode::Zlib), k)
            } else {
                Step::Bad
            },
            Step::More => Step::More,
            Step::Bad => Step::Bad,
        }
    } else {
        Step::Bad
    }
}

/// Reads the body of a data segment at `j`: its index, length and bytes.
pub open spec fn read_data_segment(s: Seq<u8>, j: int) -> Step<SegmentModel> {
    if s.len() <= j {
        Step::More
    } else {
        match read_varint(s, j + 1, 8) {
            Step::Done(len, k) => if len > MAX_MESSAGE_SEGMENT_SIZE {
                Step::Bad
            } else if s.len() < k + len {
                Step::More
            } else {
                Step::Done(SegmentModel::Message { index: s[j], data: s.subrange(k, k + len) }, k + len)
            },
            Step::More => Step::More,
            Step::Bad => Step::Bad,
        }
    }
}

/// Reads the body of an end marker at `j`: mode, count (never zero) and digest.
pub open spec fn read_end_segment(s: Seq<u8>, j: int) -> Step<SegmentModel> {
    match read_mode(s, j) {
        Step::Done(mode, k) => if s.len() <= k {
            Step::More
        } else if s[k] == 0 {
            Step::Bad
        } else if s.len() < k + 33 {
            Step::More
        } else {
            Step::Done(
                SegmentModel::EndMessage {
                    compression_mode: mode,
                    total_indexes: s[k],
                    hash: s.subrange(k + 1, k + 33),
                },
                k + 33,
            )
        },
        Step::More => Step::More,
        Step::Bad => Step::Bad,
    }
}

/// Reads a segment at `i`: its variant, then its body.
pub open spec fn read_segment(s: Seq<u8>, i: int) -> Step<SegmentModel> {
    match read_varint(s, i, 4) {
        Step::Done(v, j) => if v == 0 {
            read_data_segment(s, j)
        } else if v == 1 {
            read_end_segment(s, j)
        } else {
            Step::Bad
        },
        Step::More => Step::More,
        Step::Bad => Step::Bad,
    }
}

/// Reads one packet from the front of `s`: two keys, then a segment.
pub open spec fn parse_packet(s: Seq<u8>) -> Step<PacketModel> {
    if s.len() < 64 {
        Step::More
    } else {
        match read_segment(s, 64) {
            Step::Done(m, n) => Step::Done(
                PacketModel { source: s.subrange(0, 32), destination: s.subrange(32, 64), message: m },
                n,
            ),
            Step::More => Step::More,
            Step::Bad => Step::Bad,
        }
    }
}

/// The shortest variable-length form of a value below 65536.
pub open spec fn varint_bytes(v: int) -> Seq<u8> {
    if v <= 250 {
        seq![v as u8]
    } else {
        seq![251u8, (v / 256) as u8, (v % 256) as u8]
    }
}

pub open spec fn mode_bytes(m: Option<MessageCompressionMode>) -> Seq<u8> {
    match m {
        None => seq![0u8],
        Some(MessageCompressionMode::Lz4) => seq![1u8, 0u8],
        Some(MessageCompressionMode::Zlib) => seq![1u8, 1u8],
    }
}

pub open spec fn segment_bytes(m: SegmentModel) -> Seq<u8> {
    match m {
        SegmentModel::Message { index, data } => seq![0u8, index] + varint_bytes(data.len() as int)
            + data,
        SegmentModel::EndMessage { compression_mode, total_indexes, hash } => seq![1u8] + mode_bytes(
            compression_mode,
        ) + seq![total_indexes] + hash,
    }
}

/// The encoding of a packet.
pub open spec fn packet_bytes(p: PacketModel) -> Seq<u8> {
    p.source + p.destination + segment_bytes(p.message)
}

pub proof fn lemma_be_value_bound(s: Seq<u8>, i: int, n: nat)
    ensures
        0 <= be_value(s, i, n) < pow256(n),
    decreases n,
{
    if n > 0 {
        lemma_be_value_bound(s, i, (n - 1) as nat);
        let a = be_value(s, i, (n - 1) as nat);
        let b = s[i + n - 1] as int;
        let p = pow256((n - 1) as nat);
        assert(0 <= a * 256 + b < 256 * p) by (nonlinear_arith)
            requires
                0 <= a < p,
                0 <= b < 256,
        ;
    }
}

pub proof fn lemma_pow256_mono(a: nat, b: nat)
    requires
        a <= b,
    ensures
        1 <= pow256(a) <= pow256(b),
    decreases b,
{
    if b > 0 {
        if a < b {
            lemma_pow256_mono(a, (b - 1) as nat);
        } else {
            lemma_pow256_mono(0, (b - 1) as nat);
        }
    }
}

/// A value encoded by `varint_bytes` reads back, whatever follows it.
pub proof fn lemma_read_varint(s: Seq<u8>, i: int, v: int, width: nat)
    requires
        0 <= v < 65536,
        width >= 2,
        0 <= i,
        s.len() >= i + varint_bytes(v).len(),
        s.subrange(i, i + varint_bytes(v).len()) == varint_bytes(v),
    ensures
        read_varint(s, i, width) == Step::Done(v, i + varint_bytes(v).len()),
{
    let e = varint_bytes(v);
    assert(s[i] == s.subrange(i, i + e.len())[0]);
    if v > 250 {
        assert(s[i + 1] == s.subrange(i, i + e.len())[1]);
        assert(s[i + 2] == s.subrange(i, i + e.len())[2]);
        reveal_with_fuel(be_value, 3);
        assert(be_value(s, i + 1, 2) == s[i + 1] as int * 256 + s[i + 2] as int);
    }
}

pub proof fn lemma_varint_len(v: int)
    requires
        0 <= v < 65536,
    ensures
        varint_bytes(v).len() == if v <= 250 {
            1int
        } else {
            3int
        },
{
}

/// Decoding the encoding of a well-formed packet gives the packet back and
/// consumes exactly its bytes, whatever bytes follow.
pub proof fn lemma_packet_round_trip(p: PacketModel, rest: Seq<u8>)
    requires
        packet_wf(p),
    ensures
        parse_packet(packet_bytes(p) + rest) == Step::Done(p, packet_bytes(p).len() as int),
{
    let s = packet_bytes(p) + rest;
    let e = packet_bytes(p);
    assert(s.subrange(0, 32) =~= p.source);
    assert(s.subrange(32, 64) =~= p.destination);
    let m = segment_bytes(p.message);
    assert(forall|k: int| 0 <= k < m.len() ==> s[64 + k] == m[k]);
    match p.message {
        SegmentModel::Message { index, data } => {
            let l = data.len() as int;
            assert(s.subrange(64, 65) =~= varint_bytes(0));
            lemma_read_varint(s, 64, 0, 4);
            let vb = varint_bytes(l);
            let vl = vb.len() as int;
            lemma_varint_len(l);
            assert(s.subrange(66, 66 + vl) =~= vb) by {
                assert forall|k: int| 0 <= k < vl implies s.subrange(66, 66 + vl)[k]
                    == vb[k] by {
                    assert(s[66 + k] == m[2 + k]);
                }
            }
            lemma_read_varint(s, 66, l, 8);
            let k = 66 + vl;
            assert(s.subrange(k, k + l) =~= data) by {
                assert forall|t: int| 0 <= t < l implies s.subrange(k, k + l)[t] == data[t] by {
                    assert(s[k + t] == m[2 + vl + t]);
                }
            }
            assert(e.len() == k + l);
        },
        SegmentModel::EndMessage { compression_mode, total_indexes, hash } => {
            assert(s.subrange(64, 65) =~= varint_bytes(1));
            lemma_read_varint(s, 64, 1, 4);
            let mb = mode_bytes(compression_mode);
            assert(s[65] == m[1]);
            if compression_mode is Some {
                assert(s[66] == m[2]);
                assert(s.subrange(66, 67) =~= varint_bytes(mb[1] as int));
                lemma_read_varint(s, 66, mb[1] as int, 4);
            }
            let ml = mb.len() as int;
            let k = 65 + ml;
            assert(s[k] == m[1 + ml]);
            assert(s.subrange(k + 1, k + 33) =~= hash) by {
                assert forall|t: int| 0 <= t < 32 implies s.subrange(k + 1, k + 33)[t] == hash[t] by {
                    assert(s[k + 1 + t] == m[2 + ml + t]);
                }
            }
            assert(e.len() == k + 33);
        },
    }
}

proof fn lemma_read_varint_span(s: Seq<u8>, i: int, width: nat)
    requires
        width <= 8,
    ensures
        read_varint(s, i, width) matches Step::Done(v, k) ==> i < k <= i + 1 + width && 0 <= v,
{
    if read_varint(s, i, width) is Done && s[i] > 250 {
        lemma_be_value_bound(s, i + 1, varint_tail(s[i]));
    }
}

/// A decoded packet never spans more than `MAX_SERIALIZED_PACKET_SIZE`
/// bytes, whatever the input: the decoder's allocation is bounded.
pub proof fn lemma_decoded_size_bounded(s: Seq<u8>)
    ensures
        parse_packet(s) matches Step::Done(p, n) ==> 64 < n <= MAX_SERIALIZED_PACKET_SIZE,
{
    lemma_read_varint_span(s, 64, 4);
    if let Step::Done(v, j) = read_varint(s, 64, 4) {
        lemma_read_varint_span(s, j + 1, 8);
        lemma_read_varint_span(s, j + 1, 4);
    }
}

} // verus!

verus! {

/// What an exec reader gives back: a value and the position after it, a wish
/// for more bytes, or a malformed input.
enum Reading<T> {
    Done(T, usize),
    More,
    Bad,
}

fn read_varint_at(buf: &[u8], i: usize, width: usize) -> (r: Reading<u64>)
    requires
        i <= buf@.len(),
        width <= 8,
    ensures
        r matches Reading::Done(v, k) ==> read_varint(buf@, i as int, width as nat) == Step::Done(
            v as int,
            k as int,
        ),
        r is More ==> read_varint(buf@, i as int, width as nat) is More,
        r is Bad ==> read_varint(buf@, i as int, width as nat) is Bad,
{
    if i >= buf.len() {
        return Reading::More;
    }
    let tag = buf[i];
    if tag <= 250 {
        return Reading::Done(tag as u64, i + 1);
    }
    if tag > 253 {
        return Reading::Bad;
    }
    let n: usize = if tag == 251 {
        2
    } else if tag == 252 {
        4
    } else {
        8
    };
    assert(n == varint_tail(tag));
    if n > width {
        return Reading::Bad;
    }
    if buf.len() - (i + 1) < n {
        return Reading::More;
    }
    let mut v: u64 = 0;
    let mut k: usize = 0;
    let blen = buf.len();
    proof {
        reveal_with_fuel(pow256, 8);
        assert(pow256(7) == 72057594037927936);
    }
    while k < n
        invariant
            k <= n,
            n <= 8,
            i + 1 + n <= buf@.len(),
            blen == buf@.len(),
            v as int == be_value(buf@, i + 1, k as nat),
            pow256(7) == 72057594037927936,
        decreases n - k,
    {
        proof {
            lemma_be_value_bound(buf@, i + 1, k as nat);
            lemma_pow256_mono(k as nat, 7);
        }
        v = v * 256 + buf[i + 1 + k] as u64;
        k = k + 1;
    }
    Reading::Done(v, i + 1 + n)
}

pub(crate) fn copy_bytes(buf: &[u8], from: usize, len: usize) -> (r: Vec<u8>)
    requires
        from + len <= buf@.len(),
    ensures
        r@ == buf@.subrange(from as int, from + len),
{
    let mut out: Vec<u8> = Vec::with_capacity(len);
    let mut k: usize = 0;
    let blen = buf.len();
    while k < len
        invariant
            k <= len,
            blen == buf@.len(),
            from + len <= buf@.len(),
            out@ == buf@.subrange(from as int, from + k),
        decreases len - k,
    {
        out.push(buf[from + k]);
        k = k + 1;
        assert(out@ =~= buf@.subrange(from as int, from + k));
    }
    out
}

fn copy_array(buf: &[u8], from: usize) -> (r: [u8; 32])
    requires
        from + 32 <= buf@.len(),
    ensures
        r@ == buf@.subrange(from as int, from + 32),
{
    let mut out = [0u8; 32];
    let mut k: usize = 0;
    let blen = buf.len();
    while k < 32
        invariant
            k <= 32,
            blen == buf@.len(),
            from + 32 <= buf@.len(),
            out@.len() == 32,
            forall|j: int| 0 <= j < k ==> out@[j] == buf@[from + j],
        decreases 32 - k,
    {
        out[k] = buf[from + k];
        k = k + 1;
    }
    assert(out@ =~= buf@.subrange(from as int, from + 32));
    out
}

fn read_mode_at(buf: &[u8], i: usize) -> (r: Reading<Option<MessageCompressionMode>>)
    requires
        i <= buf@.len(),
    ensures
        r matches Reading::Done(m, k) ==> read_mode(buf@, i as int) == Step::Done(m, k as int),
        r is More ==> read_mode(buf@, i as int) is More,
        r is Bad ==> read_mode(buf@, i as int) is Bad,
{
    if i >= buf.len() {
        Reading::More
    } else if buf[i] == 0 {
        Reading::Done(None, i + 1)
    } else if buf[i] == 1 {
        match read_varint_at(buf, i + 1, 4) {
            Reading::Done(v, k) => if v == 0 {
                Reading::Done(Some(MessageCompressionMode::Lz4), k)
            } else if v == 1 {
                Reading::Done(Some(MessageCompressionMode::Zlib), k)
            } else {
                Reading::Bad
            },
            Reading::More => Reading::More,
            Reading::Bad => Reading::Bad,
        }
    } else {
        Reading::Bad
    }
}

fn read_segment_at(buf: &[u8], i: usize) -> (r: Reading<MessageSegment>)
    requires
        i <= buf@.len(),
    ensures
        r matches Reading::Done(m, k) ==> read_segment(buf@, i as int) == Step::Done(m@, k as int),
        r is More ==> read_segment(buf@, i as int) is More,
        r is Bad ==> read_segment(buf@, i as int) is Bad,
{
    let s = Ghost(buf@);
    match read_varint_at(buf, i, 4) {
        Reading::Done(v, j) => {
            assert(j <= buf@.len());
            if v == 0 {
                if j >= buf.len() {
                    return Reading::More;
                }
                let index = buf[j];
                match read_varint_at(buf, j + 1, 8) {
                    Reading::Done(len, k) => {
                        if len > MAX_MESSAGE_SEGMENT_SIZE as u64 {
                            Reading::Bad
                        } else if ((buf.len() - k) as u64) < len {
                            Reading::More
                        } else {
                            let data = copy_bytes(buf, k, len as usize);
                            let m = MessageSegment::Message { index, data: LimitedVec(data) };
                            Reading::Done(m, k + len as usize)
                        }
                    },
                    Reading::More => Reading::More,
                    Reading::Bad => Reading::Bad,
                }
            } else if v == 1 {
                match read_mode_at(buf, j) {
                    Reading::Done(mode, k) => {
                        if k >= buf.len() {
                            Reading::More
                        } else if buf[k] == 0 {
                            Reading::Bad
                        } else if buf.len() - k < 33 {
                            Reading::More
                        } else {
                            let hash = copy_array(buf, k + 1);
                            let m = MessageSegment::EndMessage {
                                compression_mode: mode,
                                total_indexes: buf[k],
                                hash,
                            };
                            Reading::Done(m, k + 33)
                        }
                    },
                    Reading::More => Reading::More,
                    Reading::Bad => Reading::Bad,
                }
            } else {
                Reading::Bad
            }
        },
        Reading::More => Reading::More,
        Reading::Bad => Reading::Bad,
    }
}

/// Decodes one packet from the front of `buf`. `Ok(Some((p, n)))` gives the
/// packet and the number of bytes it took; `Ok(None)` says that `buf` ends
/// before the packet does; an error says that no packet starts here.
pub fn decode_packet(buf: &[u8]) -> (r: Result<Option<(Packet, usize)>, RouteWeaverError>)
    ensures
        match parse_packet(buf@) {
            Step::Done(p, n) => r matches Ok(Some((q, k))) && q@ == p && k == n,
            Step::More => r matches Ok(None),
            Step::Bad => r == Err::<Option<(Packet, usize)>, RouteWeaverError>(
                RouteWeaverError::PacketDecoding,
            ),
        },
{
    if buf.len() < 64 {
        return Ok(None);
    }
    match read_segment_at(buf, 64) {
        Reading::Done(message, n) => {
            let source = PublicKey(copy_array(buf, 0));
            let destination = PublicKey(copy_array(buf, 32));
            Ok(Some((Packet { source, destination, message }, n)))
        },
        Reading::More => Ok(None),
        Reading::Bad => Err(RouteWeaverError::PacketDecoding),
    }
}

pub(crate) fn push_all(dst: &mut Vec<u8>, src: &[u8])
    ensures
        final(dst)@ == old(dst)@ + src@,
{
    let mut k: usize = 0;
    while k < src.len()
        invariant
            k <= src@.len(),
            dst@ == old(dst)@ + src@.subrange(0, k as int),
        decreases src@.len() - k,
    {
        dst.push(src[k]);
        k = k + 1;
        assert(dst@ =~= old(dst)@ + src@.subrange(0, k as int));
    }
    assert(src@.subrange(0, src@.len() as int) =~= src@);
}

fn push_varint(dst: &mut Vec<u8>, v: usize)
    requires
        v < 65536,
    ensures
        final(dst)@ == old(dst)@ + varint_bytes(v as int),
{
    if v <= 250 {
        dst.push(v as u8);
        assert(final(dst)@ =~= old(dst)@ + varint_bytes(v as int));
    } else {
        dst.push(251);
        dst.push((v / 256) as u8);
        dst.push((v % 256) as u8);
        assert(final(dst)@ =~= old(dst)@ + varint_bytes(v as int));
    }
}

/// Appends the encoding of a packet to `dst`; a segment over the size limit
/// or an end marker that counts no segment is refused, and `dst` is left as
/// it was.
pub fn encode_packet_into(p: &Packet, dst: &mut Vec<u8>) -> (r: Result<(), RouteWeaverError>)
    ensures
        r is Ok <==> packet_wf(p@),
        r is Ok ==> final(dst)@ == old(dst)@ + packet_bytes(p@),
        r is Err ==> final(dst)@ == old(dst)@ && r == Err::<(), RouteWeaverError>(
            RouteWeaverError::PacketEncoding,
        ),
{
    match &p.message {
        MessageSegment::Message { index, data } => {
            if data.0.len() > MAX_MESSAGE_SEGMENT_SIZE {
                return Err(RouteWeaverError::PacketEncoding);
            }
        },
        MessageSegment::EndMessage { total_indexes, .. } => {
            if *total_indexes == 0 {
                return Err(RouteWeaverError::PacketEncoding);
            }
        },
    }
    let ghost start = dst@;
    push_all(dst, p.source.0.as_slice());
    push_all(dst, p.destination.0.as_slice());
    match &p.message {
        MessageSegment::Message { index, data } => {
            dst.push(0);
            dst.push(*index);
            push_varint(dst, data.0.len());
            push_all(dst, data.0.as_slice());
        },
        MessageSegment::EndMessage { compression_mode, total_indexes, hash } => {
            dst.push(1);
            match compression_mode {
                None => {
                    dst.push(0);
                },
                Some(MessageCompressionMode::Lz4) => {
                    dst.push(1);
                    dst.push(0);
                },
                Some(MessageCompressionMode::Zlib) => {
                    dst.push(1);
                    dst.push(1);
                },
            }
            dst.push(*total_indexes);
            push_all(dst, hash.as_slice());
        },
    }
    assert(dst@ =~= start + packet_bytes(p@));
    Ok(())
}

/// The encoding of a packet, or an error for a packet the format cannot carry.
pub fn encode_packet(p: &Packet) -> (r: Result<Vec<u8>, RouteWeaverError>)
    ensures
        r is Ok <==> packet_wf(p@),
        r matches Ok(v) ==> v@ == packet_bytes(p@),
        r is Err ==> r == Err::<Vec<u8>, RouteWeaverError>(RouteWeaverError::PacketEncoding),
{
    let mut v: Vec<u8> = Vec::new();
    match encode_packet_into(p, &mut v) {
        Ok(()) => {
            assert(v@ =~= packet_bytes(p@));
            Ok(v)
        },
        Err(e) => Err(e),
    }
}

} // verus!

verus! {

/// Frames packets on a byte stream: decodes from the front of a buffer and
/// appends encodings to one.
#[derive(Debug, Default)]
pub struct PacketEncoderDecoder;

impl PacketEncoderDecoder {
    /// Takes one packet from the front of `src`, consuming exactly its bytes.
    /// Where `src` ends before the packet does, nothing is consumed and `None`
    /// asks for more input; a malformed packet is an error and consumes
    /// nothing.
    pub fn decode(&mut self, src: &mut Vec<u8>) -> (r: Result<Option<Packet>, RouteWeaverError>)
        ensures
            match parse_packet(old(src)@) {
                Step::Done(p, n) => r matches Ok(Some(q)) && q@ == p && final(src)@ == old(
                    src,
                )@.subrange(n, old(src)@.len() as int),
                Step::More => r matches Ok(None) && final(src)@ == old(src)@,
                Step::Bad => r == Err::<Option<Packet>, RouteWeaverError>(
                    RouteWeaverError::PacketDecoding,
                ) && final(src)@ == old(src)@,
            },
    {
        if src.len() == 0 {
            return Ok(None);
        }
        match decode_packet(src.as_slice()) {
            Ok(Some((packet, n))) => {
                let rest = src.split_off(n);
                *src = rest;
                Ok(Some(packet))
            },
            Ok(None) => Ok(None),
            Err(e) => Err(e),
        }
    }

    /// Appends the encoding of `item` to `dst`.
    pub fn encode(&mut self, item: Packet, dst: &mut Vec<u8>) -> (r: Result<(), RouteWeaverError>)
        ensures
            r is Ok <==> packet_wf(item@),
            r is Ok ==> final(dst)@ == old(dst)@ + packet_bytes(item@),
            r is Err ==> final(dst)@ == old(dst)@ && r == Err::<(), RouteWeaverError>(
                RouteWeaverError::PacketEncoding,
            ),
    {
        encode_packet_into(&item, dst)
    }
}

} // verus!
