//! Length-prefixed framing of the stdio channel.
//!
//! Each frame is a 4-byte little-endian length followed by exactly that
//! many bytes of JSON. A declared length of zero or above the fixed
//! ceiling is a protocol violation and is rejected before any of the body
//! is read or parsed.

use crate::config::MAX_FRAME_LEN;
use vstd::prelude::*;

verus! {

/// Little-endian 4-byte encoding of a length.
pub open spec fn le4(v: int) -> Seq<u8> {
    seq![
        (v % 256) as u8,
        ((v / 256) % 256) as u8,
        ((v / 65536) % 256) as u8,
        ((v / 16777216) % 256) as u8,
    ]
}

/// The value of a 4-byte little-endian length field.
pub open spec fn le_val(b: Seq<u8>) -> int {
    b[0] + 256 * (b[1] + 256 * (b[2] + 256 * (b[3] as int)))
}

/// A declared frame length is acceptable when it is neither zero nor
/// above the ceiling.
pub open spec fn frame_len_ok(v: int) -> bool {
    1 <= v <= MAX_FRAME_LEN
}

/// The length field round-trips for any value a frame can declare.
pub proof fn lemma_le4_val(v: int)
    requires
        0 <= v < 0x1_0000_0000,
    ensures
        le_val(le4(v)) == v,
{
    assert(le_val(le4(v)) == v) by (nonlinear_arith)
        requires
            0 <= v < 0x1_0000_0000,
    ;
}

/// Encode a length as its 4-byte little-endian field.
pub fn frame_len_bytes(len: u32) -> (r: Vec<u8>)
    ensures
        r@ == le4(len as int),
{
    let mut v: Vec<u8> = Vec::new();
    v.push((len % 256) as u8);
    v.push(((len / 256) % 256) as u8);
    v.push(((len / 65536) % 256) as u8);
    v.push(((len / 16777216) % 256) as u8);
    proof {
        assert(v@ =~= le4(len as int));
    }
    v
}

/// The declared length carried by a 4-byte length field.
pub fn parse_frame_len(b: &[u8]) -> (r: u32)
    requires
        b@.len() == 4,
    ensures
        r as int == le_val(b@),
{
    (b[0] as u32) + 256 * (b[1] as u32) + 65536 * (b[2] as u32) + 16777216 * (b[3] as u32)
}

/// Why a frame was refused.
#[derive(Debug, PartialEq, Eq)]
pub enum FrameError {
    /// The declared length is zero or exceeds the ceiling.
    BadLength,
    /// A frame body longer than the length field can carry.
    Oversize,
}

impl FrameError {
    /// A short description of the violation.
    pub fn message(&self) -> (r: &'static str)
        ensures
            self is BadLength ==> r@ == "invalid native messaging frame length"@,
            self is Oversize ==> r@ == "native messaging frame body too long"@,
    {
        match self {
            FrameError::BadLength => "invalid native messaging frame length",
            FrameError::Oversize => "native messaging frame body too long",
        }
    }
}

/// Validate a frame's 4-byte length field, before any of the body
/// exists: accepted exactly when the declared length is at least one
/// byte and at most the ceiling.
pub fn read_frame_len(b: &[u8]) -> (r: Result<u32, FrameError>)
    requires
        b@.len() == 4,
    ensures
        r matches Ok(l) ==> l as int == le_val(b@) && frame_len_ok(le_val(b@)),
        r is Err ==> !frame_len_ok(le_val(b@)),
        frame_len_ok(le_val(b@)) <==> r is Ok,
{
    let len = parse_frame_len(b);
    if len == 0 || len > 65536 {
        Err(FrameError::BadLength)
    } else {
        Ok(len)
    }
}

/// Frame a JSON body: its little-endian length, then the body itself.
/// Fails only on a body too long for the 4-byte length field.
pub fn encode_frame(body: &Vec<u8>) -> (r: Result<Vec<u8>, FrameError>)
    ensures
        r matches Ok(f) ==> f@ == le4(body@.len() as int) + body@,
        r is Ok <==> body@.len() < 0x1_0000_0000,
{
    if body.len() as u64 >= 0x1_0000_0000u64 {
        return Err(FrameError::Oversize);
    }
    let mut out = frame_len_bytes(body.len() as u32);
    let mut i: usize = 0;
    while i < body.len()
        invariant
            i <= body@.len(),
            out@ == le4(body@.len() as int) + body@.take(i as int),
        decreases body@.len() - i,
    {
        out.push(body[i]);
        proof {
            assert(body@.take(i as int).push(body@[i as int]) =~= body@.take(i + 1 as int));
            assert(out@ =~= le4(body@.len() as int) + body@.take(i + 1 as int));
        }
        i = i + 1;
    }
    proof {
        assert(body@.take(body@.len() as int) =~= body@);
    }
    Ok(out)
}

} // verus!
