//! Frame codec: symmetric encode/decode between a raw byte stream and
//! discrete payload buffers.
//!
//! One frame on the wire is: a 2-byte synchronization marker `0xFF 0xFF`, a
//! 2-byte big-endian length `L` counting the payload bytes only, 2 reserved
//! bytes (written as zero, discarded on read), then exactly `L` payload
//! bytes.  Bytes that do not begin with the marker are not skipped: the
//! decoder simply waits for more input.

use vstd::prelude::*;

verus! {

/// Largest payload the gateway accepts in one frame (64 KiB).
pub const MAX_FRAME_SIZE: usize = 64 * 1024;

/// Largest length the 16-bit length field can carry.
pub const MAX_LEN_FIELD: usize = 0xffff;

/// A framing error.  Framing errors are fatal to the connection they occur
/// on: the stream position can no longer be trusted.
#[derive(Debug)]
pub enum FrameError {
    /// A declared or requested payload length exceeds the codec's cap.
    Oversize { len: usize, max: usize },
}

/// The bytes of one whole frame around the given payload: marker,
/// big-endian length, two zero reserved bytes, then the payload itself.
pub open spec fn spec_frame(payload: Seq<u8>) -> Seq<u8>
    recommends
        payload.len() <= MAX_LEN_FIELD,
{
    seq![
        0xffu8,
        0xffu8,
        (payload.len() / 256) as u8,
        (payload.len() % 256) as u8,
        0u8,
        0u8,
    ] + payload
}

/// The buffer holds the synchronization marker and the length field.
pub open spec fn header_ready(b: Seq<u8>) -> bool {
    b.len() >= 4 && b[0] == 0xff && b[1] == 0xff
}

/// The payload length declared by the buffer's length field.
pub open spec fn declared_len(b: Seq<u8>) -> int
    recommends
        b.len() >= 4,
{
    b[2] * 256 + b[3]
}

/// The buffer begins with one complete frame.
pub open spec fn frame_ready(b: Seq<u8>) -> bool {
    header_ready(b) && b.len() >= 6 + declared_len(b)
}

/// The payload of the complete frame at the head of the buffer.
pub open spec fn frame_payload(b: Seq<u8>) -> Seq<u8>
    recommends
        frame_ready(b),
{
    b.subrange(6, 6 + declared_len(b))
}

/// What remains in the buffer after the frame at its head is consumed.
pub open spec fn frame_rest(b: Seq<u8>) -> Seq<u8>
    recommends
        frame_ready(b),
{
    b.subrange(6 + declared_len(b), b.len() as int)
}

/// Frame codec with a configurable payload cap: reads the 2-byte marker,
/// then the 2-byte big-endian length, skips the reserved bytes, and hands
/// out the payload.
pub struct TwoByteLenSkipReserved {
    max_frame: usize,
}

impl TwoByteLenSkipReserved {
    /// The payload cap this codec was built with.
    pub closed spec fn limit(&self) -> int {
        self.max_frame as int
    }

    /// The cap the encoder actually enforces: the configured cap, bounded
    /// by what the 16-bit length field can express.
    pub open spec fn encode_cap(&self) -> int {
        if self.limit() <= MAX_LEN_FIELD { self.limit() } else { MAX_LEN_FIELD as int }
    }

    pub fn new(max_frame: usize) -> (c: Self)
        ensures
            c.limit() == max_frame,
    {
        TwoByteLenSkipReserved { max_frame }
    }

    /// Decode one frame from the front of an accumulating buffer.
    ///
    /// Returns `Ok(None)` (and leaves the buffer untouched) until a whole
    /// frame has arrived; returns `Ok(Some(payload))` and consumes exactly
    /// the frame's bytes once it has; fails without consuming anything if
    /// the declared length exceeds the cap.
    pub fn decode(&self, src: &mut Vec<u8>) -> (r: Result<Option<Vec<u8>>, FrameError>)
        ensures
            ({
                let b = old(src)@;
                if header_ready(b) && declared_len(b) > self.limit() {
                    &&& r matches Err(FrameError::Oversize { len, max })
                        && len == declared_len(b) && max == self.limit()
                    &&& final(src)@ == b
                } else if frame_ready(b) {
                    &&& r matches Ok(Some(p)) && p@ == frame_payload(b)
                    &&& final(src)@ == frame_rest(b)
                } else {
                    &&& r matches Ok(None)
                    &&& final(src)@ == b
                }
            }),
    {
        let ghost b = src@;
        if src.len() < 4 {
            return Ok(None);
        }
        if src[0] != 0xff || src[1] != 0xff {
            return Ok(None);
        }
        let len: usize = (src[2] as usize) * 256 + (src[3] as usize);
        if len > self.max_frame {
            return Err(FrameError::Oversize { len, max: self.max_frame });
        }
        let total: usize = 6 + len;
        if src.len() < total {
            return Ok(None);
        }
        let mut payload: Vec<u8> = Vec::new();
        let mut i: usize = 6;
        while i < total
            invariant
                6 <= i <= total,
                total == 6 + declared_len(b),
                frame_ready(b),
                src@ == b,
                payload@ == b.subrange(6, i as int),
            decreases total - i,
        {
            payload.push(src[i]);
            assert(payload@ =~= b.subrange(6, i + 1));
            i += 1;
        }
        let mut rest: Vec<u8> = Vec::new();
        let mut j: usize = total;
        while j < src.len()
            invariant
                total <= j <= src@.len(),
                total == 6 + declared_len(b),
                frame_ready(b),
                src@ == b,
                rest@ == b.subrange(total as int, j as int),
            decreases src@.len() - j,
        {
            rest.push(src[j]);
            assert(rest@ =~= b.subrange(total as int, j + 1));
            j += 1;
        }
        assert(payload@ =~= frame_payload(b));
        assert(rest@ =~= frame_rest(b));
        *src = rest;
        Ok(Some(payload))
    }

    /// Encode one payload as a frame appended to `dst`.
    ///
    /// Fails, appending nothing, if the payload is longer than the cap or
    /// than the length field can express.
    pub fn encode(&self, item: &Vec<u8>, dst: &mut Vec<u8>) -> (r: Result<(), FrameError>)
        ensures
            ({
                let cap = self.encode_cap();
                if item@.len() <= cap {
                    &&& r is Ok
                    &&& final(dst)@ == old(dst)@ + spec_frame(item@)
                } else {
                    &&& r matches Err(FrameError::Oversize { len, max })
                        && len == item@.len() && max == cap
                    &&& final(dst)@ == old(dst)@
                }
            }),
    {
        let cap: usize = if self.max_frame <= MAX_LEN_FIELD { self.max_frame } else { MAX_LEN_FIELD };
        if item.len() > cap {
            return Err(FrameError::Oversize { len: item.len(), max: cap });
        }
        let len = item.len();
        dst.push(0xff);
        dst.push(0xff);
        dst.push((len / 256) as u8);
        dst.push((len % 256) as u8);
        dst.push(0);
        dst.push(0);
        let mut i: usize = 0;
        while i < item.len()
            invariant
                0 <= i <= item@.len(),
                item@.len() <= MAX_LEN_FIELD,
                dst@ == old(dst)@ + spec_frame(item@).take(6 + i),
            decreases item@.len() - i,
        {
            assert(spec_frame(item@)[6 + i] == item@[i as int]);
            dst.push(item[i]);
            assert(dst@ =~= old(dst)@ + spec_frame(item@).take(6 + i + 1));
            i += 1;
        }
        assert(spec_frame(item@).take(6 + item@.len() as int) =~= spec_frame(item@));
        Ok(())
    }
}

/// Frame round-trip: a frame built around a payload that fits the cap
/// decodes back to exactly that payload and consumes exactly the frame's
/// bytes, whatever follows it in the buffer.
pub proof fn lemma_frame_round_trip(payload: Seq<u8>, tail: Seq<u8>, max: int)
    requires
        payload.len() <= MAX_LEN_FIELD,
        payload.len() <= max,
    ensures
        ({
            let b = spec_frame(payload) + tail;
            &&& header_ready(b)
            &&& declared_len(b) == payload.len()
            &&& !(declared_len(b) > max)
            &&& frame_ready(b)
            &&& frame_payload(b) == payload
            &&& frame_rest(b) == tail
        }),
{
    let b = spec_frame(payload) + tail;
    let l = payload.len() as int;
    assert(0 <= l / 256 < 256 && 0 <= l % 256 < 256) by (nonlinear_arith)
        requires 0 <= l <= 0xffff;
    assert(b[2] == l / 256 && b[3] == l % 256);
    assert((l / 256) * 256 + l % 256 == l) by (nonlinear_arith);
    assert(declared_len(b) == payload.len());
    assert(frame_payload(b) =~= payload);
    assert(frame_rest(b) =~= tail);
}

/// Partial delivery: no strict prefix of a frame is ever decoded as a
/// payload, nor mistaken for an oversize frame, however it is cut.
pub proof fn lemma_frame_needs_all_bytes(payload: Seq<u8>, max: int, n: int)
    requires
        payload.len() <= MAX_LEN_FIELD,
        payload.len() <= max,
        0 <= n < spec_frame(payload).len(),
    ensures
        ({
            let b = spec_frame(payload).subrange(0, n);
            &&& !frame_ready(b)
            &&& !(header_ready(b) && declared_len(b) > max)
        }),
{
    let f = spec_frame(payload);
    let b = f.subrange(0, n);
    if n >= 4 {
        let l = payload.len() as int;
        assert(0 <= l / 256 < 256 && 0 <= l % 256 < 256) by (nonlinear_arith)
            requires 0 <= l <= 0xffff;
        assert((l / 256) * 256 + l % 256 == l) by (nonlinear_arith);
        assert(declared_len(b) == payload.len());
        assert(b.len() < 6 + declared_len(b));
    }
}

} // verus!
