//! Length-delimited framing of serialized messages: a 4-byte little-endian length
//! followed by the payload.

use vstd::prelude::*;

use crate::encoding::{le_bytes, push_all, push_le};

verus! {

/// Largest payload a frame may carry (4 MiB), to avoid allocation bombs.
pub const MAX_MESSAGE_LEN: usize = 4 * 1024 * 1024;

/// Framing errors.
#[derive(Clone, Copy, Debug, PartialEq, Eq, Structural)]
pub enum CodecError {
    /// The payload to send is longer than `MAX_MESSAGE_LEN`.
    MessageTooLarge,
    /// A received frame announces a payload longer than `MAX_MESSAGE_LEN`.
    LengthExceedsLimit,
}

/// The frame that carries `payload`.
pub open spec fn frame_of(payload: Seq<u8>) -> Seq<u8> {
    le_bytes(payload.len(), 4) + payload
}

/// The payload length announced by the first four bytes of `buf`.
pub open spec fn announced_len(buf: Seq<u8>) -> int {
    buf[0] + 256 * buf[1] + 65536 * buf[2] + 16777216 * buf[3]
}

/// What reading one frame from the front of `buf` yields: nothing yet while the
/// length or the payload is incomplete, an error when the announced length is over
/// the limit, else the payload and the number of bytes the frame occupies.
pub open spec fn frame_decoding(buf: Seq<u8>) -> Result<Option<(Seq<u8>, int)>, CodecError> {
    if buf.len() < 4 {
        Ok(None)
    } else if announced_len(buf) > MAX_MESSAGE_LEN {
        Err(CodecError::LengthExceedsLimit)
    } else if buf.len() < 4 + announced_len(buf) {
        Ok(None)
    } else {
        Ok(Some((buf.subrange(4, 4 + announced_len(buf)), 4 + announced_len(buf))))
    }
}

/// Frame a payload: 4-byte little-endian length, then the payload.
pub fn encode_frame(payload: &[u8]) -> (r: Result<Vec<u8>, CodecError>)
    ensures
        payload@.len() > MAX_MESSAGE_LEN <==> r is Err,
        r matches Err(e) ==> e == CodecError::MessageTooLarge,
        r matches Ok(v) ==> v@ == frame_of(payload@),
{
    if payload.len() > MAX_MESSAGE_LEN {
        return Err(CodecError::MessageTooLarge);
    }
    let mut out: Vec<u8> = Vec::new();
    push_le(&mut out, payload.len() as u64, 4);
    push_all(&mut out, payload);
    Ok(out)
}

/// Read one frame from the front of `buf`: the payload and the number of bytes
/// consumed, or `None` while the frame is incomplete.
pub fn decode_frame(buf: &[u8]) -> (r: Result<Option<(Vec<u8>, usize)>, CodecError>)
    ensures
        match r {
            Ok(Some((payload, consumed))) => frame_decoding(buf@) == Ok::<Option<(Seq<u8>, int)>, CodecError>(Some((payload@, consumed as int))),
            Ok(None) => frame_decoding(buf@) == Ok::<Option<(Seq<u8>, int)>, CodecError>(None),
            Err(e) => frame_decoding(buf@) == Err::<Option<(Seq<u8>, int)>, CodecError>(e),
        },
{
    if buf.len() < 4 {
        return Ok(None);
    }
    let len: usize = buf[0] as usize + 256 * (buf[1] as usize) + 65536 * (buf[2] as usize) + 16777216 * (buf[3] as usize);
    if len > MAX_MESSAGE_LEN {
        return Err(CodecError::LengthExceedsLimit);
    }
    if buf.len() < 4 + len {
        return Ok(None);
    }
    let mut payload: Vec<u8> = Vec::new();
    let mut i: usize = 4;
    while i < 4 + len
        invariant
            4 <= i <= 4 + len,
            len <= MAX_MESSAGE_LEN,
            4 + len <= buf@.len(),
            payload@ == buf@.subrange(4, i as int),
        decreases 4 + len - i,
    {
        payload.push(buf[i]);
        i = i + 1;
        assert(payload@ =~= buf@.subrange(4, i as int));
    }
    Ok(Some((payload, 4 + len)))
}

/// The four little-endian bytes of a length below 2^32 announce that length.
proof fn lemma_le_bytes_len(x: nat)
    requires
        x < 0x1_0000_0000,
    ensures
        le_bytes(x, 4).len() == 4,
        announced_len(le_bytes(x, 4)) == x,
{
    let y = x / 256;
    let z = y / 256;
    let t = z / 256;
    vstd::arithmetic::div_mod::lemma_fundamental_div_mod(x as int, 256);
    vstd::arithmetic::div_mod::lemma_fundamental_div_mod(y as int, 256);
    vstd::arithmetic::div_mod::lemma_fundamental_div_mod(z as int, 256);
    assert(t < 256);
    assert(le_bytes(t / 256, 0) =~= Seq::<u8>::empty());
    let s = le_bytes(x, 4);
    assert(le_bytes(x, 4) == seq![(x % 256) as u8] + le_bytes(y, 3));
    assert(le_bytes(y, 3) == seq![(y % 256) as u8] + le_bytes(z, 2));
    assert(le_bytes(z, 2) == seq![(z % 256) as u8] + le_bytes(t, 1));
    assert(le_bytes(t, 1) == seq![(t % 256) as u8] + le_bytes(t / 256, 0));
    assert(s =~= seq![(x % 256) as u8, (y % 256) as u8, (z % 256) as u8, (t % 256) as u8]);
}

/// Reading a frame back gives the payload it carries and its size, whatever follows it.
pub proof fn lemma_frame_roundtrip(payload: Seq<u8>, rest: Seq<u8>)
    requires
        payload.len() <= MAX_MESSAGE_LEN,
    ensures
        frame_decoding(frame_of(payload) + rest) == Ok::<Option<(Seq<u8>, int)>, CodecError>(Some((payload, 4 + payload.len() as int))),
{
    lemma_le_bytes_len(payload.len());
    let buf = frame_of(payload) + rest;
    assert(announced_len(buf) == announced_len(le_bytes(payload.len(), 4)));
    assert(buf.subrange(4, 4 + payload.len() as int) =~= payload);
}

} // verus!
