//! The encode pipeline: an encoded application message becomes a sequence of
//! packets (compress, split, hash, terminate), and a reassembled payload is
//! decompressed back.
use crate::codec::copy_bytes;
use crate::error::RouteWeaverError;
use crate::integrity::{blake2s_digest, blake2s_of};
use crate::proto::{
    LimitedVec, MessageCompressionMode, MessageSegment, Packet, PacketModel, PublicKey, SegmentModel,
    MAX_MESSAGE_SEGMENT_SIZE,
};
use vstd::prelude::*;

verus! {

/// The most segments one message can have: the end marker counts them in a
/// nonzero byte.
pub const MAX_SEGMENTS: usize = 255;

/// The zlib compression level used for outgoing messages.
pub const ZLIB_LEVEL: u8 = 10;

/// LZ4 block compression with the uncompressed size prepended.
pub uninterp spec fn lz4_packed_of(data: Seq<u8>) -> Seq<u8>;

/// Zlib-wrapped deflate at a level.
pub uninterp spec fn zlib_packed_of(data: Seq<u8>, level: u8) -> Seq<u8>;

/// What undoing LZ4 block compression with a prepended size gives, if the
/// input is valid.
pub uninterp spec fn lz4_unpacked_of(data: Seq<u8>) -> Option<Seq<u8>>;

/// What inflating zlib-wrapped deflate data gives, if the input is valid and
/// inflates to at most `limit` bytes.
pub uninterp spec fn zlib_unpacked_of(data: Seq<u8>, limit: usize) -> Option<Seq<u8>>;

/// The largest message, once decompressed, that a peer may make us hold.
pub const MAX_MESSAGE_SIZE: usize = 64512;

/// Relies on lz4_flex's `compress_prepend_size`: a deterministic function of
/// the input bytes.
#[verifier::external_body]
fn lz4_compress(data: &[u8]) -> (r: Vec<u8>)
    ensures
        r@ == lz4_packed_of(data@),
{
    lz4_flex::compress_prepend_size(data)
}

/// Relies on miniz_oxide's `deflate::compress_to_vec_zlib`: a deterministic
/// function of the input bytes and the level.
#[verifier::external_body]
fn zlib_compress(data: &[u8], level: u8) -> (r: Vec<u8>)
    ensures
        r@ == zlib_packed_of(data@, level),
{
    miniz_oxide::deflate::compress_to_vec_zlib(data, level)
}

pub open spec fn opt_bytes(o: Option<Vec<u8>>) -> Option<Seq<u8>> {
    match o {
        Some(v) => Some(v@),
        None => None,
    }
}

/// Relies on lz4_flex's `decompress_size_prepended`: its result depends on the
/// input bytes alone; an error becomes `None`.
#[verifier::external_body]
fn lz4_decompress(data: &[u8]) -> (r: Option<Vec<u8>>)
    ensures
        opt_bytes(r) == lz4_unpacked_of(data@),
{
    lz4_flex::decompress_size_prepended(data).ok()
}

/// Relies on miniz_oxide's `inflate::decompress_to_vec_zlib_with_limit`: its
/// result depends on the input bytes and the limit alone; an error, such as
/// output beyond the limit, becomes `None`.
#[verifier::external_body]
fn zlib_decompress(data: &[u8], limit: usize) -> (r: Option<Vec<u8>>)
    ensures
        opt_bytes(r) == zlib_unpacked_of(data@, limit),
{
    miniz_oxide::inflate::decompress_to_vec_zlib_with_limit(data, limit).ok()
}

/// The size that LZ4 data with a prepended size announces: its first four
/// bytes, little-endian.
pub open spec fn lz4_declared_size(b: Seq<u8>) -> int {
    b[0] as int + 256 * b[1] as int + 65536 * b[2] as int + 16777216 * b[3] as int
}

/// The bytes that go on the wire for a message under a compression mode.
pub open spec fn compressed_of(mode: Option<MessageCompressionMode>, m: Seq<u8>) -> Seq<u8> {
    match mode {
        None => m,
        Some(MessageCompressionMode::Lz4) => lz4_packed_of(m),
        Some(MessageCompressionMode::Zlib) => zlib_packed_of(m, ZLIB_LEVEL),
    }
}

/// The message that reassembled bytes stand for under a compression mode; a
/// message that would decompress to more than `MAX_MESSAGE_SIZE` bytes is
/// refused before anything is allocated for it.
pub open spec fn decompressed_of(mode: Option<MessageCompressionMode>, b: Seq<u8>) -> Option<Seq<u8>> {
    match mode {
        None => Some(b),
        Some(MessageCompressionMode::Lz4) => if b.len() >= 4 && lz4_declared_size(b)
            > MAX_MESSAGE_SIZE {
            None
        } else {
            lz4_unpacked_of(b)
        },
        Some(MessageCompressionMode::Zlib) => zlib_unpacked_of(b, MAX_MESSAGE_SIZE),
    }
}

/// How many segments a payload of `len` bytes takes: one per started
/// segment-sized chunk, and one (empty) for an empty payload.
pub open spec fn chunk_count(len: nat) -> nat {
    if len == 0 {
        1
    } else {
        ((len + MAX_MESSAGE_SEGMENT_SIZE - 1) / (MAX_MESSAGE_SEGMENT_SIZE as int)) as nat
    }
}

/// The `j`-th chunk of a payload.
pub open spec fn chunk(payload: Seq<u8>, j: int) -> Seq<u8> {
    let start = j * MAX_MESSAGE_SEGMENT_SIZE;
    let end = if start + MAX_MESSAGE_SEGMENT_SIZE <= payload.len() {
        start + MAX_MESSAGE_SEGMENT_SIZE
    } else {
        payload.len() as int
    };
    payload.subrange(start, end)
}

/// The packets of a payload: its chunks at indexes 0, 1, ... and then the end
/// marker with the chunk count, the mode and the digest.
pub open spec fn segment_packets(
    s: Seq<u8>,
    d: Seq<u8>,
    payload: Seq<u8>,
    mode: Option<MessageCompressionMode>,
    digest: Seq<u8>,
) -> Seq<PacketModel> {
    let n = chunk_count(payload.len());
    Seq::new(
        n + 1,
        |j: int|
            if j < n {
                PacketModel {
                    source: s,
                    destination: d,
                    message: SegmentModel::Message { index: j as u8, data: chunk(payload, j) },
                }
            } else {
                PacketModel {
                    source: s,
                    destination: d,
                    message: SegmentModel::EndMessage {
                        compression_mode: mode,
                        total_indexes: n as u8,
                        hash: digest,
                    },
                }
            },
    )
}

pub open spec fn packets_view(v: Seq<Packet>) -> Seq<PacketModel> {
    v.map_values(|p: Packet| p@)
}

pub proof fn lemma_chunk_count_bound(len: nat)
    ensures
        len <= MAX_SEGMENTS * MAX_MESSAGE_SEGMENT_SIZE <==> chunk_count(len) <= MAX_SEGMENTS,
        chunk_count(len) >= 1,
        len > 0 ==> (chunk_count(len) - 1) * MAX_MESSAGE_SEGMENT_SIZE < len,
        len <= chunk_count(len) * MAX_MESSAGE_SEGMENT_SIZE,
{
    let l = MAX_MESSAGE_SEGMENT_SIZE as int;
    if len > 0 {
        let q = (len + l - 1) / l;
        assert(q * l <= len + l - 1 < q * l + l) by (nonlinear_arith)
            requires
                q == (len + l - 1) / l,
                l > 0,
        ;
        assert(len <= 255 * l <==> q <= 255) by (nonlinear_arith)
            requires
                q * l <= len + l - 1 < q * l + l,
                l > 0,
                len > 0,
        ;
        assert((q - 1) * l < len) by (nonlinear_arith)
            requires
                q * l <= len + l - 1,
        ;
    }
}

/// Splits a payload into its packets (see `segment_packets`), given its
/// digest; a payload of more than `MAX_SEGMENTS` chunks is refused.
pub fn segment_payload(
    source: PublicKey,
    destination: PublicKey,
    payload: &[u8],
    compression_mode: Option<MessageCompressionMode>,
    digest: [u8; 32],
) -> (r: Result<Vec<Packet>, RouteWeaverError>)
    ensures
        r is Ok <==> payload@.len() <= MAX_SEGMENTS * MAX_MESSAGE_SEGMENT_SIZE,
        r matches Ok(v) ==> packets_view(v@) == segment_packets(
            source.0@,
            destination.0@,
            payload@,
            compression_mode,
            digest@,
        ),
        r is Err ==> r == Err::<Vec<Packet>, RouteWeaverError>(RouteWeaverError::PacketEncoding),
{
    let len = payload.len();
    proof {
        lemma_chunk_count_bound(len as nat);
    }
    if len > MAX_SEGMENTS * MAX_MESSAGE_SEGMENT_SIZE {
        return Err(RouteWeaverError::PacketEncoding);
    }
    let n: usize = if len == 0 {
        1
    } else {
        (len + MAX_MESSAGE_SEGMENT_SIZE - 1) / MAX_MESSAGE_SEGMENT_SIZE
    };
    let ghost want = segment_packets(source.0@, destination.0@, payload@, compression_mode, digest@);
    let mut out: Vec<Packet> = Vec::new();
    let mut j: usize = 0;
    while j < n
        invariant
            n == chunk_count(len as nat),
            1 <= n <= MAX_SEGMENTS,
            len == payload@.len(),
            j <= n,
            len <= n * MAX_MESSAGE_SEGMENT_SIZE,
            len > 0 ==> (n - 1) * MAX_MESSAGE_SEGMENT_SIZE < len,
            want == segment_packets(source.0@, destination.0@, payload@, compression_mode, digest@),
            out@.len() == j,
            forall|k: int| 0 <= k < j ==> #[trigger] out@[k]@ == want[k],
        decreases n - j,
    {
        let start = j * MAX_MESSAGE_SEGMENT_SIZE;
        let end = if start + MAX_MESSAGE_SEGMENT_SIZE <= len {
            start + MAX_MESSAGE_SEGMENT_SIZE
        } else {
            len
        };
        proof {
            assert(start <= len) by (nonlinear_arith)
                requires
                    start == j * MAX_MESSAGE_SEGMENT_SIZE,
                    j < n,
                    len > 0 ==> (n - 1) * MAX_MESSAGE_SEGMENT_SIZE < len,
                    len == 0 ==> n == 1,
            ;
        }
        let data = copy_bytes(payload, start, end - start);
        let p = Packet {
            source,
            destination,
            message: MessageSegment::Message { index: j as u8, data: LimitedVec(data) },
        };
        assert(p@ == want[j as int]);
        out.push(p);
        j = j + 1;
    }
    let end = Packet {
        source,
        destination,
        message: MessageSegment::EndMessage {
            compression_mode,
            total_indexes: n as u8,
            hash: digest,
        },
    };
    out.push(end);
    assert(packets_view(out@) =~= want) by {
        assert forall|k: int| 0 <= k < want.len() implies #[trigger] packets_view(out@)[k] == want[k] by {
            if k < n {
                assert(out@[k]@ == want[k]);
            }
        }
    }
    Ok(out)
}

/// Turns an encoded application message into its packets: compresses it under
/// the mode, splits the result and ends with a marker that carries the digest
/// of the bytes sent.
pub fn encode_message(
    source: PublicKey,
    destination: PublicKey,
    message: &[u8],
    compression_mode: Option<MessageCompressionMode>,
) -> (r: Result<Vec<Packet>, RouteWeaverError>)
    ensures
        r is Ok <==> compressed_of(compression_mode, message@).len() <= MAX_SEGMENTS
            * MAX_MESSAGE_SEGMENT_SIZE,
        r matches Ok(v) ==> packets_view(v@) == segment_packets(
            source.0@,
            destination.0@,
            compressed_of(compression_mode, message@),
            compression_mode,
            blake2s_of(compressed_of(compression_mode, message@)),
        ),
        r is Err ==> r == Err::<Vec<Packet>, RouteWeaverError>(RouteWeaverError::PacketEncoding),
{
    let payload: Vec<u8> = match compression_mode {
        None => copy_bytes(message, 0, message.len()),
        Some(MessageCompressionMode::Lz4) => lz4_compress(message),
        Some(MessageCompressionMode::Zlib) => zlib_compress(message, ZLIB_LEVEL),
    };
    assert(message@.subrange(0, message@.len() as int) =~= message@);
    let digest = blake2s_digest(payload.as_slice());
    segment_payload(source, destination, payload.as_slice(), compression_mode, digest)
}

/// The message that a reassembled payload stands for, undoing the mode it was
/// sent under; `None` where the bytes do not decompress or would exceed
/// `MAX_MESSAGE_SIZE`.
pub fn decompress_message(compression_mode: Option<MessageCompressionMode>, data: &[u8]) -> (r: Option<Vec<u8>>)
    ensures
        opt_bytes(r) == decompressed_of(compression_mode, data@),
{
    match compression_mode {
        None => {
            let v = copy_bytes(data, 0, data.len());
            assert(data@.subrange(0, data@.len() as int) =~= data@);
            Some(v)
        },
        Some(MessageCompressionMode::Lz4) => {
            if data.len() >= 4 {
                let declared: u64 = data[0] as u64 + 256 * data[1] as u64 + 65536 * data[2] as u64
                    + 16777216 * data[3] as u64;
                if declared > MAX_MESSAGE_SIZE as u64 {
                    return None;
                }
            }
            lz4_decompress(data)
        },
        Some(MessageCompressionMode::Zlib) => zlib_decompress(data, MAX_MESSAGE_SIZE),
    }
}

} // verus!

verus! {

/// Above this entropy, in thousandths of a bit per byte, a message is sent
/// uncompressed: its bytes are too varied for compression to pay.
pub const COMPRESSION_ENTROPY_LIMIT_MILLIBITS: u32 = 500;

/// The compression policy, given the Shannon entropy of a message in
/// thousandths of a bit per byte: redundant data is compressed with LZ4,
/// varied data is sent as it is.
pub fn compression_for_entropy(entropy_millibits: u32) -> (r: Option<MessageCompressionMode>)
    ensures
        r == if entropy_millibits > COMPRESSION_ENTROPY_LIMIT_MILLIBITS {
            None::<MessageCompressionMode>
        } else {
            Some(MessageCompressionMode::Lz4)
        },
{
    if entropy_millibits > COMPRESSION_ENTROPY_LIMIT_MILLIBITS {
        None
    } else {
        Some(MessageCompressionMode::Lz4)
    }
}

} // verus!
