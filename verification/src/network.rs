//! Message framing for RAFT RPC over a byte stream: each message is a
//! 4-byte big-endian length followed by that many payload bytes.

use vstd::prelude::*;

verus! {

/// Largest payload accepted from a peer
pub const MAX_MESSAGE_SIZE: usize = 1048576;

/// The number that four bytes give, the first the most significant.
pub open spec fn be_u32(b0: u8, b1: u8, b2: u8, b3: u8) -> nat {
    ((b0 as nat * 256 + b1 as nat) * 256 + b2 as nat) * 256 + b3 as nat
}

/// The four bytes of `n`, the most significant first.
pub open spec fn be_bytes(n: u32) -> Seq<u8> {
    seq![(n / 16777216) as u8, ((n / 65536) % 256) as u8, ((n / 256) % 256) as u8, (n % 256) as u8]
}

/// The length that a frame declares: its first four bytes, big-endian.
pub open spec fn declared_len(b: Seq<u8>) -> nat {
    be_u32(b[0], b[1], b[2], b[3])
}

/// The frame of `payload`: its length, cut to 32 bits, then the payload.
pub open spec fn frame_of(payload: Seq<u8>) -> Seq<u8> {
    be_bytes((payload.len() % 4294967296) as u32) + payload
}

/// Why a buffer does not hold a whole frame.
#[derive(Debug, PartialEq, Eq, Structural)]
pub enum FrameError {
    /// Fewer than four bytes
    TooShort,
    /// The payload is not all there
    Incomplete,
}

/// What the start of a receive buffer holds.
#[derive(Debug, PartialEq, Eq, Structural)]
pub enum FrameStep {
    /// Not a whole frame yet; wait for more bytes
    NeedMore,
    /// A frame declares this payload length, above the largest accepted
    TooLarge(u64),
    /// A whole frame whose payload has this length
    Ready(usize),
}

proof fn lemma_be_roundtrip(n: u32)
    ensures
        be_u32(be_bytes(n)[0], be_bytes(n)[1], be_bytes(n)[2], be_bytes(n)[3]) == n,
{
    let b = be_bytes(n);
    assert(b[0] as nat == n / 16777216);
    assert(b[1] as nat == (n / 65536) % 256);
    assert(b[2] as nat == (n / 256) % 256);
    assert(b[3] as nat == n % 256);
    assert(be_u32(b[0], b[1], b[2], b[3]) == n) by (nonlinear_arith)
        requires
            b[0] as nat == n / 16777216,
            b[1] as nat == (n / 65536) % 256,
            b[2] as nat == (n / 256) % 256,
            b[3] as nat == n % 256,
            n < 4294967296,
    {
    }
}

/// The length that the first four bytes of `b` declare.
fn read_len(b: &[u8]) -> (r: u32)
    requires
        b@.len() >= 4,
    ensures
        r as nat == declared_len(b@),
{
    let v: u64 = ((b[0] as u64 * 256 + b[1] as u64) * 256 + b[2] as u64) * 256 + b[3] as u64;
    assert(v < 4294967296) by (nonlinear_arith)
        requires
            v == ((b[0] as u64 * 256 + b[1] as u64) * 256 + b[2] as u64) * 256 + b[3] as u64,
            b[0] < 256,
            b[1] < 256,
            b[2] < 256,
            b[3] < 256,
    ;
    v as u32
}

/// Frame `payload` for transmission: its length, cut to 32 bits, big-endian, then the payload
pub fn encode_frame(payload: &[u8]) -> (r: Vec<u8>)
    ensures
        r@ == frame_of(payload@),
{
    let n: u32 = ((payload.len() as u64) % 4294967296u64) as u32;
    let mut out: Vec<u8> = Vec::new();
    out.push((n / 16777216) as u8);
    out.push(((n / 65536) % 256) as u8);
    out.push(((n / 256) % 256) as u8);
    out.push((n % 256) as u8);
    let mut i: usize = 0;
    while i < payload.len()
        invariant
            i <= payload@.len(),
            out@ == be_bytes(n) + payload@.take(i as int),
        decreases payload@.len() - i,
    {
        out.push(payload[i]);
        i = i + 1;
        assert(out@ =~= be_bytes(n) + payload@.take(i as int));
    }
    assert(payload@.take(i as int) =~= payload@);
    out
}

/// Decode one frame from bytes: the payload of the frame at the start of `data`
pub fn decode_frame(data: &[u8]) -> (r: Result<Vec<u8>, FrameError>)
    ensures
        data@.len() < 4 ==> r == Err::<Vec<u8>, FrameError>(FrameError::TooShort),
        data@.len() >= 4 && data@.len() < 4 + declared_len(data@) ==> r == Err::<Vec<u8>, FrameError>(
            FrameError::Incomplete,
        ),
        data@.len() >= 4 + declared_len(data@) ==> (r matches Ok(p) && p@ == data@.subrange(
            4,
            4 + declared_len(data@) as int,
        )),
{
    if data.len() < 4 {
        return Err(FrameError::TooShort);
    }
    let len = read_len(data) as u64;
    if (data.len() as u64) < 4 + len {
        return Err(FrameError::Incomplete);
    }
    let end: usize = (4 + len) as usize;
    let mut out: Vec<u8> = Vec::new();
    let mut i: usize = 4;
    while i < end
        invariant
            4 <= i <= end,
            end <= data@.len(),
            out@ == data@.subrange(4, i as int),
        decreases end - i,
    {
        out.push(data[i]);
        i = i + 1;
        assert(out@ =~= data@.subrange(4, i as int));
    }
    Ok(out)
}

/// What the start of a receive buffer holds: a whole frame, a frame
/// declaring more than the largest payload accepted, or too few bytes yet
pub fn next_frame(buf: &[u8]) -> (r: FrameStep)
    ensures
        buf@.len() < 4 ==> r == FrameStep::NeedMore,
        buf@.len() >= 4 && declared_len(buf@) > MAX_MESSAGE_SIZE ==> r == FrameStep::TooLarge(
            declared_len(buf@) as u64,
        ),
        buf@.len() >= 4 && declared_len(buf@) <= MAX_MESSAGE_SIZE && buf@.len() < 4 + declared_len(buf@)
            ==> r == FrameStep::NeedMore,
        buf@.len() >= 4 && declared_len(buf@) <= MAX_MESSAGE_SIZE && buf@.len() >= 4 + declared_len(buf@)
            ==> r == FrameStep::Ready(declared_len(buf@) as usize),
{
    if buf.len() < 4 {
        return FrameStep::NeedMore;
    }
    let len = read_len(buf);
    if len as u64 > MAX_MESSAGE_SIZE as u64 {
        return FrameStep::TooLarge(len as u64);
    }
    let len_usize: usize = len as usize;
    if buf.len() < 4 + len_usize {
        return FrameStep::NeedMore;
    }
    FrameStep::Ready(len_usize)
}

/// A framed payload decodes back to itself, when its length fits in 32 bits.
pub proof fn law_frame_roundtrip(payload: Seq<u8>)
    requires
        payload.len() < 4294967296,
    ensures
        declared_len(frame_of(payload)) == payload.len(),
        frame_of(payload).subrange(4, 4 + payload.len() as int) == payload,
        frame_of(payload).len() == 4 + payload.len(),
{
    let n = (payload.len() % 4294967296) as u32;
    lemma_be_roundtrip(n);
    let f = frame_of(payload);
    assert(f[0] == be_bytes(n)[0]);
    assert(f[1] == be_bytes(n)[1]);
    assert(f[2] == be_bytes(n)[2]);
    assert(f[3] == be_bytes(n)[3]);
    assert(f.subrange(4, 4 + payload.len() as int) =~= payload);
}

} // verus!
