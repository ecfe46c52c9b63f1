//! The in-memory model of the archive header: a tree of files, directories
//! and symbolic links, together with the mathematical (ghost) mirror that
//! all contracts are stated over.

use vstd::prelude::*;
use crate::numtext::{pow10, is_hex_char};

verus! {

broadcast use
    vstd::seq::axiom_seq_index_decreases,
    vstd::seq::axiom_seq_subrange_decreases,
    vstd::std_specs::vec::axiom_vec_index_decreases,
    vstd::std_specs::vec::axiom_vec_decreases_to_view;

/// Ghost model of a per-file integrity record: the hex text of the whole
/// file digest, the block size, and the hex text of each block digest.
pub struct GIntegrity {
    pub hash: Seq<u8>,
    pub block_size: nat,
    pub blocks: Seq<Seq<u8>>,
}

/// Ghost model of a header node.
pub enum GNode {
    File {
        size: nat,
        offset: nat,
        executable: bool,
        unpacked: bool,
        integrity: Option<GIntegrity>,
    },
    Directory { entries: Seq<(Seq<u8>, GNode)> },
    Link { target: Seq<u8> },
}

/// Per-file integrity record: whole-file digest, block size, block digests,
/// all digests as lowercase hex text. The algorithm is fixed to SHA-256.
#[derive(Debug, Clone, PartialEq, Eq)]
pub struct Integrity {
    pub hash: Vec<u8>,
    pub block_size: u32,
    pub blocks: Vec<Vec<u8>>,
}

/// A header node. A file's `offset` is its byte position inside the body;
/// it is meaningful only when `unpacked` is false.
#[derive(Debug, PartialEq, Eq)]
pub enum Node {
    File {
        size: u64,
        offset: u64,
        executable: bool,
        unpacked: bool,
        integrity: Option<Integrity>,
    },
    Directory { entries: Vec<(Vec<u8>, Node)> },
    Link { target: Vec<u8> },
}

impl View for Integrity {
    type V = GIntegrity;

    open spec fn view(&self) -> GIntegrity {
        GIntegrity {
            hash: self.hash@,
            block_size: self.block_size as nat,
            blocks: self.blocks.deep_view(),
        }
    }
}

/// The ghost mirror of one directory entry.
pub open spec fn entry_view(p: (Vec<u8>, Node)) -> (Seq<u8>, GNode)
    decreases p,
{
    (p.0@, node_view(p.1))
}

/// The ghost mirror of an entry vector.
pub open spec fn entries_view(es: Seq<(Vec<u8>, Node)>) -> Seq<(Seq<u8>, GNode)>
    decreases es,
{
    if es.len() == 0 {
        Seq::<(Seq<u8>, GNode)>::empty()
    } else {
        entries_view(es.drop_last()).push(entry_view(es.last()))
    }
}

pub proof fn lemma_entries_view_len(es: Seq<(Vec<u8>, Node)>)
    ensures
        entries_view(es).len() == es.len(),
        forall|i: int| 0 <= i < es.len() ==> #[trigger] entries_view(es)[i] == entry_view(es[i]),
    decreases es.len(),
{
    if es.len() > 0 {
        lemma_entries_view_len(es.drop_last());
    }
}

/// The ghost mirror of a node.
pub open spec fn node_view(n: Node) -> GNode
    decreases n,
{
    match n {
        Node::File { size, offset, executable, unpacked, integrity } => GNode::File {
            size: size as nat,
            offset: offset as nat,
            executable,
            unpacked,
            integrity: match integrity {
                Option::Some(it) => Option::Some(it@),
                Option::None => Option::None,
            },
        },
        Node::Directory { entries } => GNode::Directory { entries: entries_view(entries@) },
        Node::Link { target } => GNode::Link { target: target@ },
    }
}

impl View for Node {
    type V = GNode;

    open spec fn view(&self) -> GNode {
        node_view(*self)
    }
}

/// Decimal text in the header is capped at nineteen digits, so every value
/// round-trips through a `u64`.
pub open spec fn dec_limit() -> nat {
    pow10(19)
}

/// A directory entry name: non-empty, no control bytes, no separator.
pub open spec fn wf_name(s: Seq<u8>) -> bool {
    &&& s.len() > 0
    &&& forall|i: int| 0 <= i < s.len() ==> #[trigger] s[i] >= 32
    &&& forall|i: int| 0 <= i < s.len() ==> #[trigger] s[i] != 47
}

/// A link target: printable bytes (separators allowed).
pub open spec fn wf_target(s: Seq<u8>) -> bool {
    forall|i: int| 0 <= i < s.len() ==> #[trigger] s[i] >= 32
}

pub open spec fn all_hex(s: Seq<u8>) -> bool {
    forall|i: int| 0 <= i < s.len() ==> is_hex_char(#[trigger] s[i])
}

pub open spec fn wf_gintegrity(it: GIntegrity) -> bool {
    &&& 0 < it.block_size <= u32::MAX
    &&& all_hex(it.hash)
    &&& forall|i: int| 0 <= i < it.blocks.len() ==> all_hex(#[trigger] it.blocks[i])
}

/// Well-formed header node: names and targets printable, numbers inside the
/// decimal cap, integrity records well formed.
pub open spec fn wf_gnode(n: GNode) -> bool
    decreases n,
{
    match n {
        GNode::File { size, offset, executable, unpacked, integrity } => {
            &&& size < dec_limit()
            &&& offset < dec_limit()
            &&& match integrity {
                Option::Some(it) => wf_gintegrity(it),
                Option::None => true,
            }
        },
        GNode::Directory { entries } => {
            &&& forall|i: int|
                0 <= i < entries.len() ==> wf_name(#[trigger] entries[i].0)
            &&& forall|i: int|
                0 <= i < entries.len() ==> wf_gnode(#[trigger] entries[i].1)
        },
        GNode::Link { target } => wf_target(target),
    }
}

/// Byte-wise (lexicographic) strict order on names.
pub open spec fn bytes_lt(a: Seq<u8>, b: Seq<u8>) -> bool
    decreases a.len(),
{
    if b.len() == 0 {
        false
    } else if a.len() == 0 {
        true
    } else if a[0] < b[0] {
        true
    } else if a[0] > b[0] {
        false
    } else {
        bytes_lt(a.drop_first(), b.drop_first())
    }
}

/// Compares byte strings from position `i` on.
fn bytes_lt_from(a: &Vec<u8>, b: &Vec<u8>, i: usize) -> (r: bool)
    requires
        i <= a@.len(),
        i <= b@.len(),
    ensures
        r == bytes_lt(a@.skip(i as int), b@.skip(i as int)),
    decreases a@.len() - i,
{
    proof {
        if i < b@.len() {
            assert(b@.skip(i as int)[0] == b@[i as int]);
        }
        if i < a@.len() {
            assert(a@.skip(i as int)[0] == a@[i as int]);
        }
    }
    if i >= b.len() {
        false
    } else if i >= a.len() {
        true
    } else if a[i] < b[i] {
        true
    } else if a[i] > b[i] {
        false
    } else {
        let r = bytes_lt_from(a, b, i + 1);
        proof {
            assert(a@.skip(i as int).drop_first() =~= a@.skip(i + 1));
            assert(b@.skip(i as int).drop_first() =~= b@.skip(i + 1));
        }
        r
    }
}

/// Byte-wise strict comparison of two names.
pub fn name_lt(a: &Vec<u8>, b: &Vec<u8>) -> (r: bool)
    ensures
        r == bytes_lt(a@, b@),
{
    let r = bytes_lt_from(a, b, 0);
    proof {
        assert(a@.skip(0) =~= a@);
        assert(b@.skip(0) =~= b@);
    }
    r
}

} // verus!
