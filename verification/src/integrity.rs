//! Whole-file and block-level content digests (SHA-256), and their
//! verification. Digests are carried as lowercase hex text, one whole-file
//! digest plus one digest per `block_size` chunk (the final chunk may be
//! shorter; an empty input has no chunks).

use vstd::prelude::*;
use sha2::Digest;
use crate::error::ArchiveError;
use crate::node::{GIntegrity, Integrity};
use crate::numtext::{hex_of, hex_bytes};
use crate::util::bytes_eq;

verus! {

/// The SHA-256 digest of a byte string: a function of the bytes alone.
pub uninterp spec fn sha256_of(data: Seq<u8>) -> Seq<u8>;

/// Relies on sha2's `Sha256` (via the `Digest` trait): the digest depends on
/// the input bytes alone and is 32 bytes long.
#[verifier::external_body]
fn sha256(data: &Vec<u8>) -> (r: Vec<u8>)
    ensures
        r@ == sha256_of(data@),
        r@.len() == 32,
{
    sha2::Sha256::digest(data.as_slice()).as_slice().to_vec()
}

/// The hex block digests of `data` chunked at `bs` bytes.
pub open spec fn block_hashes(data: Seq<u8>, bs: nat) -> Seq<Seq<u8>>
    decreases data.len(),
    when bs > 0
{
    if data.len() == 0 {
        Seq::<Seq<u8>>::empty()
    } else if data.len() <= bs {
        seq![hex_of(sha256_of(data))]
    } else {
        seq![hex_of(sha256_of(data.take(bs as int)))] + block_hashes(data.skip(bs as int), bs)
    }
}

/// The full integrity record of `data` at block size `bs`.
pub open spec fn integrity_of(data: Seq<u8>, bs: nat) -> GIntegrity {
    GIntegrity {
        hash: hex_of(sha256_of(data)),
        block_size: bs,
        blocks: block_hashes(data, bs),
    }
}

/// A record verifies against `data` exactly when it is the record that
/// `digest` would produce at its block size.
pub open spec fn verify_ok(data: Seq<u8>, it: GIntegrity) -> bool {
    &&& it.block_size > 0
    &&& it.hash == hex_of(sha256_of(data))
    &&& it.blocks == block_hashes(data, it.block_size)
}

fn digest_blocks(data: &Vec<u8>, pos: usize, bs: usize) -> (r: Vec<Vec<u8>>)
    requires
        bs > 0,
        pos <= data@.len(),
    ensures
        r.deep_view() == block_hashes(data@.skip(pos as int), bs as nat),
    decreases data@.len() - pos,
{
    let n = data.len();
    let ghost rest = data@.skip(pos as int);
    if pos == n {
        let r: Vec<Vec<u8>> = Vec::new();
        assert(rest =~= Seq::<u8>::empty());
        assert(r.deep_view() =~= block_hashes(rest, bs as nat));
        r
    } else if n - pos <= bs {
        let chunk = crate::util::copy_range(data, pos, n);
        let h = hex_bytes(&sha256(&chunk));
        let ghost hv = h@;
        let mut r: Vec<Vec<u8>> = Vec::new();
        r.push(h);
        proof {
            assert(chunk@ =~= rest);
            assert(0 < rest.len() <= bs);
            assert(block_hashes(rest, bs as nat) == seq![hex_of(sha256_of(rest))]);
            assert(r@ =~= seq![r@[0]]);
            assert(r.deep_view().len() == 1);
            assert(r.deep_view()[0] == r@[0]@);
            assert(r@[0]@ == hv);
            assert(r.deep_view() =~~= block_hashes(rest, bs as nat));
        }
        r
    } else {
        let chunk = crate::util::copy_range(data, pos, pos + bs);
        let h = hex_bytes(&sha256(&chunk));
        let ghost hv = h@;
        let mut r = digest_blocks(data, pos + bs, bs);
        let ghost tail_dv = r.deep_view();
        r.insert(0, h);
        proof {
            assert(chunk@ =~= rest.take(bs as int));
            assert(data@.skip(pos + bs) =~= rest.skip(bs as int));
            assert(rest.len() > bs);
            assert(r@[0]@ == hv);
            assert(forall|j: int|
                0 <= j < tail_dv.len() ==> r@[j + 1]@ == #[trigger] tail_dv[j]);
            assert(block_hashes(rest, bs as nat) == seq![hex_of(sha256_of(rest.take(bs as int)))]
                + block_hashes(rest.skip(bs as int), bs as nat));
            assert(r.deep_view() =~~= block_hashes(rest, bs as nat));
        }
        r
    }
}

/// Computes the integrity record of `data`: a whole-file digest and one
/// digest per `block_size` chunk, in hex.
pub fn digest(data: &Vec<u8>, block_size: u32) -> (r: Integrity)
    requires
        block_size > 0,
    ensures
        r@ == integrity_of(data@, block_size as nat),
{
    let whole = hex_bytes(&sha256(data));
    let blocks = digest_blocks(data, 0, block_size as usize);
    proof {
        assert(data@.skip(0) =~= data@);
    }
    Integrity { hash: whole, block_size, blocks }
}

fn vecvec_eq(a: &Vec<Vec<u8>>, b: &Vec<Vec<u8>>) -> (r: bool)
    ensures
        r == (a.deep_view() == b.deep_view()),
{
    let ghost av = a.deep_view();
    let ghost bv = b.deep_view();
    proof {
        assert(av.len() == a@.len());
        assert(bv.len() == b@.len());
    }
    if a.len() != b.len() {
        assert(av.len() != bv.len());
        return false;
    }
    let n = a.len();
    let mut i: usize = 0;
    while i < n
        invariant
            av == a.deep_view(),
            bv == b.deep_view(),
            n == a@.len() == b@.len(),
            av.len() == bv.len() == n,
            i <= n,
            forall|j: int| 0 <= j < i ==> av[j] == bv[j],
        decreases n - i,
    {
        if !bytes_eq(&a[i], &b[i]) {
            assert(av[i as int] == a@[i as int]@);
            assert(bv[i as int] == b@[i as int]@);
            return false;
        }
        assert(av[i as int] == a@[i as int]@);
        assert(bv[i as int] == b@[i as int]@);
        i += 1;
    }
    assert(av =~= bv);
    true
}

/// Re-computes both digest kinds over `data` and compares them with the
/// record, block by block in order; true exactly when everything matches.
pub fn verify_streaming(data: &Vec<u8>, it: &Integrity) -> (r: bool)
    ensures
        r == verify_ok(data@, it@),
{
    if it.block_size == 0 {
        return false;
    }
    let whole = hex_bytes(&sha256(data));
    if !bytes_eq(&it.hash, &whole) {
        return false;
    }
    let blocks = digest_blocks(data, 0, it.block_size as usize);
    proof {
        assert(data@.skip(0) =~= data@);
    }
    vecvec_eq(&it.blocks, &blocks)
}

} // verus!
