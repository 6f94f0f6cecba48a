//! Length-prefixed framing.
//!
//! Both directions of the wire protocol use the same framing: an 8-byte
//! little-endian unsigned length prefix followed by exactly that many
//! bytes of textual payload.  Client-to-server frames are capped at
//! `MAX_COMMAND_FRAME_LEN` payload bytes; server-to-client frames carry
//! detections and have no enforced cap.

use vstd::prelude::*;

verus! {

/// Number of bytes in the length prefix.
pub const LENGTH_PREFIX_LEN: usize = 8;

/// Largest payload length accepted on a client-to-server frame.  A frame
/// declaring more is a fatal protocol violation for that connection.
pub const MAX_COMMAND_FRAME_LEN: u64 = 2000;

/// The eight little-endian bytes of a 64-bit value.
pub open spec fn u64_le_bytes(v: u64) -> Seq<u8> {
    seq![
        (v & 0xff) as u8,
        ((v >> 8) & 0xff) as u8,
        ((v >> 16) & 0xff) as u8,
        ((v >> 24) & 0xff) as u8,
        ((v >> 32) & 0xff) as u8,
        ((v >> 40) & 0xff) as u8,
        ((v >> 48) & 0xff) as u8,
        ((v >> 56) & 0xff) as u8,
    ]
}

/// The 64-bit value read from eight little-endian bytes.
pub open spec fn u64_from_le(s: Seq<u8>) -> u64
    recommends
        s.len() == LENGTH_PREFIX_LEN,
{
    (s[0] as u64) | (s[1] as u64) << 8 | (s[2] as u64) << 16 | (s[3] as u64) << 24 | (
    s[4] as u64) << 32 | (s[5] as u64) << 40 | (s[6] as u64) << 48 | (s[7] as u64) << 56
}

/// Reading back the little-endian bytes of a value yields the value.
pub proof fn lemma_u64_le_round_trip(v: u64)
    ensures
        u64_from_le(u64_le_bytes(v)) == v,
{
    assert((v & 0xff) | ((v >> 8) & 0xff) << 8 | ((v >> 16) & 0xff) << 16 | ((v >> 24) & 0xff)
        << 24 | ((v >> 32) & 0xff) << 32 | ((v >> 40) & 0xff) << 40 | ((v >> 48) & 0xff) << 48 | ((
    v >> 56) & 0xff) << 56 == v) by (bit_vector);
    assert(forall|x: u64| x & 0xff < 256 ==> ((x & 0xff) as u8) as u64 == x & 0xff);
    assert(forall|x: u64| #[trigger] (x & 0xff) < 256) by (bit_vector);
}

/// Write a value as eight little-endian bytes.
pub fn encode_u64_le(v: u64) -> (r: Vec<u8>)
    ensures
        r@ == u64_le_bytes(v),
{
    let mut out: Vec<u8> = Vec::new();
    out.push((v & 0xff) as u8);
    out.push(((v >> 8) & 0xff) as u8);
    out.push(((v >> 16) & 0xff) as u8);
    out.push(((v >> 24) & 0xff) as u8);
    out.push(((v >> 32) & 0xff) as u8);
    out.push(((v >> 40) & 0xff) as u8);
    out.push(((v >> 48) & 0xff) as u8);
    out.push(((v >> 56) & 0xff) as u8);
    proof {
        assert(forall|x: u64| #[trigger] (x & 0xff) < 256) by (bit_vector);
        assert(out@ =~= u64_le_bytes(v));
    }
    out
}

/// Read a value from eight little-endian bytes.
pub fn decode_u64_le(b: &[u8]) -> (r: u64)
    requires
        b@.len() == LENGTH_PREFIX_LEN,
    ensures
        r == u64_from_le(b@),
{
    (b[0] as u64) | (b[1] as u64) << 8 | (b[2] as u64) << 16 | (b[3] as u64) << 24 | (b[4] as u64)
        << 32 | (b[5] as u64) << 40 | (b[6] as u64) << 48 | (b[7] as u64) << 56
}

/// The framed form of a payload: its length as a little-endian prefix,
/// then the payload bytes themselves.
pub open spec fn spec_frame(payload: Seq<u8>) -> Seq<u8>
    recommends
        payload.len() <= u64::MAX,
{
    u64_le_bytes(payload.len() as u64) + payload
}

/// Frame a payload for the wire.
pub fn encode_frame(payload: &Vec<u8>) -> (r: Vec<u8>)
    requires
        payload@.len() <= u64::MAX,
    ensures
        r@ == spec_frame(payload@),
        r@.len() == payload@.len() + LENGTH_PREFIX_LEN,
{
    let mut out = encode_u64_le(payload.len() as u64);
    let mut i: usize = 0;
    while i < payload.len()
        invariant
            i <= payload@.len(),
            out@ == u64_le_bytes(payload@.len() as u64) + payload@.take(i as int),
        decreases payload@.len() - i,
    {
        out.push(payload[i]);
        proof {
            assert(payload@.take(i + 1) =~= payload@.take(i as int).push(payload@[i as int]));
        }
        i = i + 1;
    }
    proof {
        assert(payload@.take(payload@.len() as int) =~= payload@);
    }
    out
}

/// An owned copy of a byte vector.
pub fn copy_bytes(v: &Vec<u8>) -> (r: Vec<u8>)
    ensures
        r@ == v@,
{
    let mut out: Vec<u8> = Vec::new();
    let mut i: usize = 0;
    while i < v.len()
        invariant
            i <= v@.len(),
            out@ == v@.take(i as int),
        decreases v@.len() - i,
    {
        out.push(v[i]);
        proof {
            assert(v@.take(i + 1) =~= v@.take(i as int).push(v@[i as int]));
        }
        i = i + 1;
    }
    proof {
        assert(v@.take(v@.len() as int) =~= v@);
    }
    out
}

} // verus!
