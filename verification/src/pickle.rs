//! The length-framed ("pickle") binary layout of the archive's header.
//!
//! An archive starts with two pickles. The first holds a single unsigned
//! 32-bit integer: the encoded byte length of the second pickle. The second
//! holds a single string field: the header text. A pickle is a 4-byte
//! little-endian payload size followed by the payload; a string field inside
//! a payload is a 4-byte length, the bytes, and zero padding up to a 4-byte
//! boundary. The body of the archive follows immediately after.

use vstd::prelude::*;
use vstd::bytes::*;
use crate::error::ArchiveError;
use crate::util::copy_range;

verus! {

/// Zero padding needed to bring a payload of `n` bytes to a 4-byte boundary.
pub open spec fn pad4(n: nat) -> nat {
    ((4 - (n % 4)) % 4) as nat
}

pub open spec fn zeros(k: nat) -> Seq<u8> {
    Seq::<u8>::new(k, |i: int| 0u8)
}

/// The payload of the header pickle: string length, bytes, zero padding.
pub open spec fn str_payload(s: Seq<u8>) -> Seq<u8> {
    spec_u32_to_le_bytes(s.len() as u32) + s + zeros(pad4(s.len()))
}

/// The header pickle: its payload size, then the payload.
pub open spec fn pickle_of_string(s: Seq<u8>) -> Seq<u8> {
    spec_u32_to_le_bytes(str_payload(s).len() as u32) + str_payload(s)
}

/// Both leading pickles: the framing that precedes the body.
pub open spec fn header_prefix(json: Seq<u8>) -> Seq<u8> {
    spec_u32_to_le_bytes(4u32) + spec_u32_to_le_bytes(pickle_of_string(json).len() as u32)
        + pickle_of_string(json)
}

/// The header text is small enough for every length field to fit in 32 bits.
pub open spec fn frames_ok(json_len: nat) -> bool {
    json_len + 11 <= u32::MAX
}

pub proof fn lemma_header_prefix_len(json: Seq<u8>)
    ensures
        header_prefix(json).len() == 16 + json.len() + pad4(json.len()),
        pickle_of_string(json).len() == 8 + json.len() + pad4(json.len()),
        str_payload(json).len() == 4 + json.len() + pad4(json.len()),
{
    lemma_auto_spec_u32_to_from_le_bytes();
}

/// Decoded framing: the header text and the byte position where the body
/// starts. `None` when the framing is not the canonical layout above.
pub open spec fn parse_header_frames(a: Seq<u8>) -> Option<(Seq<u8>, nat)> {
    if a.len() < 16 {
        None
    } else {
        let word0 = spec_u32_from_le_bytes(a.subrange(0, 4));
        let pickle_len = spec_u32_from_le_bytes(a.subrange(4, 8));
        let payload_len = spec_u32_from_le_bytes(a.subrange(8, 12));
        let json_len = spec_u32_from_le_bytes(a.subrange(12, 16));
        if word0 != 4 {
            None
        } else if pickle_len != payload_len + 4 {
            None
        } else if payload_len != 4 + json_len + pad4(json_len as nat) {
            None
        } else if 8 + pickle_len > a.len() {
            None
        } else if a.subrange(16 + json_len, 8 + pickle_len) != zeros(pad4(json_len as nat)) {
            None
        } else {
            Some((a.subrange(16, 16 + json_len), (8 + pickle_len) as nat))
        }
    }
}

/// Framing round trip: what `header_prefix` writes, `parse_header_frames`
/// reads back, whatever body follows.
pub proof fn lemma_header_frames_roundtrip(json: Seq<u8>, body: Seq<u8>)
    requires
        frames_ok(json.len()),
    ensures
        parse_header_frames(header_prefix(json) + body) == Some(
            (json, header_prefix(json).len() as nat),
        ),
{
    lemma_auto_spec_u32_to_from_le_bytes();
    let a = header_prefix(json) + body;
    let pl = pickle_of_string(json).len();
    lemma_header_prefix_len(json);
    assert(a.subrange(0, 4) =~= spec_u32_to_le_bytes(4u32));
    assert(a.subrange(4, 8) =~= spec_u32_to_le_bytes(pl as u32));
    assert(a.subrange(8, 12) =~= spec_u32_to_le_bytes(str_payload(json).len() as u32));
    assert(a.subrange(12, 16) =~= spec_u32_to_le_bytes(json.len() as u32));
    assert(a.subrange(16, 16 + json.len() as int) =~= json);
    assert(a.subrange(16 + json.len() as int, 8 + pl as int) =~= zeros(pad4(json.len())));
}

/// Framing exactness: whenever decoding succeeds, the bytes up to the body
/// start are exactly the canonical framing of the decoded text.
pub proof fn lemma_header_frames_exact(a: Seq<u8>)
    ensures
        parse_header_frames(a) matches Some((json, body_start)) ==> {
            &&& a.subrange(0, body_start as int) == header_prefix(json)
            &&& frames_ok(json.len())
            &&& body_start <= a.len()
            &&& body_start == header_prefix(json).len()
        },
{
    lemma_auto_spec_u32_to_from_le_bytes();
    match parse_header_frames(a) {
        None => {},
        Some((json, body_start)) => {
            let pickle_len = spec_u32_from_le_bytes(a.subrange(4, 8));
            let payload_len = spec_u32_from_le_bytes(a.subrange(8, 12));
            let json_len = spec_u32_from_le_bytes(a.subrange(12, 16));
            assert(json =~= a.subrange(16, 16 + json_len));
            assert(json.len() == json_len);
            lemma_header_prefix_len(json);
            assert(a.subrange(0, body_start as int) =~= header_prefix(json)) by {
                assert(spec_u32_to_le_bytes(spec_u32_from_le_bytes(a.subrange(0, 4)))
                    =~= a.subrange(0, 4));
                assert(spec_u32_to_le_bytes(spec_u32_from_le_bytes(a.subrange(4, 8)))
                    =~= a.subrange(4, 8));
                assert(spec_u32_to_le_bytes(spec_u32_from_le_bytes(a.subrange(8, 12)))
                    =~= a.subrange(8, 12));
                assert(spec_u32_to_le_bytes(spec_u32_from_le_bytes(a.subrange(12, 16)))
                    =~= a.subrange(12, 16));
                assert(a.subrange(16 + json_len, 8 + pickle_len) == zeros(
                    pad4(json_len as nat),
                ));
            }
        },
    }
}

/// Builds the two leading pickles around the header text.
pub fn build_header_prefix(json: &Vec<u8>) -> (r: Result<Vec<u8>, ArchiveError>)
    ensures
        match r {
            Ok(v) => frames_ok(json@.len()) && v@ == header_prefix(json@),
            Err(e) => !frames_ok(json@.len()) && e == ArchiveError::Format,
        },
{
    if json.len() > (u32::MAX - 11) as usize {
        return Err(ArchiveError::Format);
    }
    let pad: usize = (4 - (json.len() % 4)) % 4;
    assert(pad == pad4(json@.len()));
    let payload_len: u32 = (4 + json.len() + pad) as u32;
    let pickle_len: u32 = payload_len + 4;
    let mut v: Vec<u8> = Vec::new();
    let mut w0 = u32_to_le_bytes(4u32);
    v.append(&mut w0);
    let mut w1 = u32_to_le_bytes(pickle_len);
    v.append(&mut w1);
    let mut w2 = u32_to_le_bytes(payload_len);
    v.append(&mut w2);
    let mut w3 = u32_to_le_bytes(json.len() as u32);
    v.append(&mut w3);
    let mut i: usize = 0;
    let ghost before = v@;
    while i < json.len()
        invariant
            i <= json@.len(),
            v@ == before + json@.subrange(0, i as int),
        decreases json@.len() - i,
    {
        v.push(json[i]);
        assert(v@ =~= before + json@.subrange(0, i + 1));
        i += 1;
    }
    assert(json@.subrange(0, json@.len() as int) =~= json@);
    let mut k: usize = 0;
    let ghost before2 = v@;
    while k < pad
        invariant
            k <= pad,
            v@ == before2 + zeros(k as nat),
        decreases pad - k,
    {
        v.push(0u8);
        assert(v@ =~= before2 + zeros((k + 1) as nat));
        k += 1;
    }
    proof {
        assert(str_payload(json@) =~= spec_u32_to_le_bytes(json@.len() as u32) + json@ + zeros(
            pad as nat,
        ));
        assert(v@ =~= header_prefix(json@));
    }
    Ok(v)
}

/// Reads the little-endian 32-bit integer at `pos`.
pub fn read_u32_at(data: &Vec<u8>, pos: usize) -> (r: u32)
    requires
        pos + 4 <= data@.len(),
    ensures
        r == spec_u32_from_le_bytes(data@.subrange(pos as int, pos + 4)),
{
    let n = data.len();
    assert(n == data@.len());
    let mut w: Vec<u8> = Vec::new();
    w.push(data[pos]);
    w.push(data[pos + 1]);
    w.push(data[pos + 2]);
    w.push(data[pos + 3]);
    assert(w@ =~= data@.subrange(pos as int, pos + 4));
    u32_from_le_bytes(w.as_slice())
}

/// Are the bytes of `data[start..end]` all zero?
pub fn all_zero(data: &Vec<u8>, start: usize, end: usize) -> (r: bool)
    requires
        start <= end <= data@.len(),
    ensures
        r == (data@.subrange(start as int, end as int) == zeros((end - start) as nat)),
{
    let mut k: usize = start;
    while k < end
        invariant
            start <= k <= end <= data@.len(),
            forall|j: int| start <= j < k ==> data@[j] == 0u8,
        decreases end - k,
    {
        if data[k] != 0 {
            proof {
                let z = zeros((end - start) as nat);
                assert(data@.subrange(start as int, end as int)[k - start] == data@[k as int]);
                assert(z[k - start] == 0u8);
            }
            return false;
        }
        k += 1;
    }
    assert(data@.subrange(start as int, end as int) =~= zeros((end - start) as nat));
    true
}

/// Decodes the two leading pickles; returns the header text and the byte
/// position where the body starts. Fails exactly when the framing is not
/// canonical.
pub fn read_header_frames(a: &Vec<u8>) -> (r: Result<(Vec<u8>, usize), ArchiveError>)
    ensures
        match r {
            Ok((json, body_start)) => parse_header_frames(a@) == Some(
                (json@, body_start as nat),
            ),
            Err(e) => parse_header_frames(a@) is None && e == ArchiveError::Format,
        },
{
    if a.len() < 16 {
        return Err(ArchiveError::Format);
    }
    let word0 = read_u32_at(a, 0);
    let pickle_len = read_u32_at(a, 4);
    let payload_len = read_u32_at(a, 8);
    let json_len = read_u32_at(a, 12);
    if word0 != 4 {
        return Err(ArchiveError::Format);
    }
    if pickle_len as u64 != payload_len as u64 + 4 {
        return Err(ArchiveError::Format);
    }
    let pad: u64 = (4 - (json_len as u64 % 4)) % 4;
    assert(pad == pad4(json_len as nat));
    if payload_len as u64 != 4 + json_len as u64 + pad {
        return Err(ArchiveError::Format);
    }
    if 8u64 + pickle_len as u64 > a.len() as u64 {
        assert(8 + pickle_len > a@.len());
        return Err(ArchiveError::Format);
    }
    let json_end: usize = 16 + json_len as usize;
    let body_start: usize = 8 + pickle_len as usize;
    assert(body_start - json_end == pad4(json_len as nat));
    if !all_zero(a, json_end, body_start) {
        assert(zeros((body_start - json_end) as nat) == zeros(pad4(json_len as nat)));
        return Err(ArchiveError::Format);
    }
    assert(a@.subrange(json_end as int, body_start as int) == zeros(pad4(json_len as nat)));
    let json = copy_range(a, 16, json_end);
    Ok((json, body_start))
}

} // verus!
