//! Serialization of a header tree to its canonical JSON-shaped text.
//!
//! The writer is deterministic: a given tree has exactly one text. Strings
//! escape only the quote and backslash bytes; names and targets are required
//! to be free of control bytes. Numbers are canonical decimal runs.

use vstd::prelude::*;
use crate::node::{GNode, GIntegrity, Node, Integrity, entries_view, entry_view,
    lemma_entries_view_len};
use crate::numtext::{dec_digits, u64_to_dec};

verus! {

broadcast use
    vstd::seq::axiom_seq_index_decreases,
    vstd::seq::axiom_seq_subrange_decreases,
    vstd::std_specs::vec::axiom_vec_index_decreases,
    vstd::std_specs::vec::axiom_vec_decreases_to_view;

// Fixed fragments of the header text, as byte sequences.
pub open spec fn lit_size() -> Seq<u8> {
    seq![123u8, 34, 115, 105, 122, 101, 34, 58]  // {"size":
}

pub open spec fn lit_offset() -> Seq<u8> {
    seq![44u8, 34, 111, 102, 102, 115, 101, 116, 34, 58, 34]  // ,"offset":"
}

pub open spec fn lit_executable() -> Seq<u8> {
    seq![34u8, 44, 34, 101, 120, 101, 99, 117, 116, 97, 98, 108, 101, 34, 58]  // ","executable":
}

pub open spec fn lit_unpacked() -> Seq<u8> {
    seq![44u8, 34, 117, 110, 112, 97, 99, 107, 101, 100, 34, 58]  // ,"unpacked":
}

pub open spec fn lit_integrity() -> Seq<u8> {
    seq![44u8, 34, 105, 110, 116, 101, 103, 114, 105, 116, 121, 34, 58]  // ,"integrity":
}

pub open spec fn lit_files() -> Seq<u8> {
    seq![123u8, 34, 102, 105, 108, 101, 115, 34, 58]  // {"files":
}

pub open spec fn lit_link() -> Seq<u8> {
    seq![123u8, 34, 108, 105, 110, 107, 34, 58]  // {"link":
}

pub open spec fn lit_alg_hash() -> Seq<u8> {
    // {"algorithm":"SHA256","hash":
    seq![123u8, 34, 97, 108, 103, 111, 114, 105, 116, 104, 109, 34, 58, 34, 83, 72, 65, 50, 53,
        54, 34, 44, 34, 104, 97, 115, 104, 34, 58]
}

pub open spec fn lit_block_size() -> Seq<u8> {
    seq![44u8, 34, 98, 108, 111, 99, 107, 83, 105, 122, 101, 34, 58]  // ,"blockSize":
}

pub open spec fn lit_blocks() -> Seq<u8> {
    seq![44u8, 34, 98, 108, 111, 99, 107, 115, 34, 58, 91]  // ,"blocks":[
}

pub open spec fn json_bool(b: bool) -> Seq<u8> {
    if b {
        seq![116u8, 114, 117, 101]  // true
    } else {
        seq![102u8, 97, 108, 115, 101]  // false
    }
}

/// A byte inside a string literal: quote and backslash are escaped.
pub open spec fn esc_byte(b: u8) -> Seq<u8> {
    if b == 34 || b == 92 {
        seq![92u8, b]
    } else {
        seq![b]
    }
}

/// A string body with quote and backslash escaped.
pub open spec fn esc(s: Seq<u8>) -> Seq<u8>
    decreases s.len(),
{
    if s.len() == 0 {
        Seq::<u8>::empty()
    } else {
        esc_byte(s[0]) + esc(s.drop_first())
    }
}

/// A quoted, escaped string literal.
pub open spec fn quoted(s: Seq<u8>) -> Seq<u8> {
    seq![34u8] + esc(s) + seq![34u8]
}

pub proof fn lemma_esc_snoc(s: Seq<u8>, b: u8)
    ensures
        esc(s.push(b)) == esc(s) + esc_byte(b),
    decreases s.len(),
{
    if s.len() == 0 {
        assert(s.push(b) =~= seq![b]);
        assert(s.push(b)[0] == b);
        assert(s.push(b).drop_first() =~= Seq::<u8>::empty());
        assert(esc(Seq::<u8>::empty()) == Seq::<u8>::empty());
        assert(esc(s) == Seq::<u8>::empty());
        assert(esc(s.push(b)) == esc_byte(b) + esc(Seq::<u8>::empty()));
        assert(esc(s.push(b)) =~= esc(s) + esc_byte(b));
    } else {
        assert(s.push(b).drop_first() =~= s.drop_first().push(b));
        lemma_esc_snoc(s.drop_first(), b);
        assert(s.push(b)[0] == s[0]);
        assert(esc(s.push(b)) =~= esc(s) + esc_byte(b));
    }
}

/// The comma-separated quoted block-digest list (no brackets).
pub open spec fn json_hex_list(hs: Seq<Seq<u8>>) -> Seq<u8>
    decreases hs.len(),
{
    if hs.len() == 0 {
        Seq::<u8>::empty()
    } else if hs.len() == 1 {
        quoted(hs[0])
    } else {
        quoted(hs[0]) + seq![44u8] + json_hex_list(hs.drop_first())
    }
}

/// The text of an integrity record.
pub open spec fn json_of_integrity(it: GIntegrity) -> Seq<u8> {
    lit_alg_hash() + quoted(it.hash) + lit_block_size() + dec_digits(it.block_size)
        + lit_blocks() + json_hex_list(it.blocks) + seq![93u8, 125]
}

/// The text of one node.
pub open spec fn json_of_node(n: GNode) -> Seq<u8>
    decreases n,
{
    match n {
        GNode::File { size, offset, executable, unpacked, integrity } => {
            lit_size() + dec_digits(size) + lit_offset() + dec_digits(offset) + lit_executable()
                + json_bool(executable) + lit_unpacked() + json_bool(unpacked) + (match integrity {
                Option::None => seq![125u8],
                Option::Some(it) => lit_integrity() + json_of_integrity(it) + seq![125u8],
            })
        },
        GNode::Directory { entries } => {
            lit_files() + seq![123u8] + json_of_entry_list(entries) + seq![125u8]
        },
        GNode::Link { target } => lit_link() + quoted(target) + seq![125u8],
    }
}

/// The text of one directory entry (name, colon, node).
pub open spec fn json_of_entry(e: (Seq<u8>, GNode)) -> Seq<u8>
    decreases e,
{
    quoted(e.0) + seq![58u8] + json_of_node(e.1)
}

/// The text of an entry list including the closing brace of its object.
pub open spec fn json_of_entry_list(es: Seq<(Seq<u8>, GNode)>) -> Seq<u8>
    decreases es,
{
    if es.len() == 0 {
        seq![125u8]
    } else if es.len() == 1 {
        json_of_entry(es[0]) + seq![125u8]
    } else {
        json_of_entry(es[0]) + seq![44u8] + json_of_entry_list(es.drop_first())
    }
}

fn push_lit_size(out: &mut Vec<u8>)
    ensures
        final(out)@ == old(out)@ + lit_size(),
{
    out.push(123);
    out.push(34);
    out.push(115);
    out.push(105);
    out.push(122);
    out.push(101);
    out.push(34);
    out.push(58);
    assert(out@ =~= old(out)@ + lit_size());
}

fn push_lit_offset(out: &mut Vec<u8>)
    ensures
        final(out)@ == old(out)@ + lit_offset(),
{
    out.push(44);
    out.push(34);
    out.push(111);
    out.push(102);
    out.push(102);
    out.push(115);
    out.push(101);
    out.push(116);
    out.push(34);
    out.push(58);
    out.push(34);
    assert(out@ =~= old(out)@ + lit_offset());
}

fn push_lit_executable(out: &mut Vec<u8>)
    ensures
        final(out)@ == old(out)@ + lit_executable(),
{
    out.push(34);
    out.push(44);
    out.push(34);
    out.push(101);
    out.push(120);
    out.push(101);
    out.push(99);
    out.push(117);
    out.push(116);
    out.push(97);
    out.push(98);
    out.push(108);
    out.push(101);
    out.push(34);
    out.push(58);
    assert(out@ =~= old(out)@ + lit_executable());
}

fn push_lit_unpacked(out: &mut Vec<u8>)
    ensures
        final(out)@ == old(out)@ + lit_unpacked(),
{
    out.push(44);
    out.push(34);
    out.push(117);
    out.push(110);
    out.push(112);
    out.push(97);
    out.push(99);
    out.push(107);
    out.push(101);
    out.push(100);
    out.push(34);
    out.push(58);
    assert(out@ =~= old(out)@ + lit_unpacked());
}

fn push_lit_integrity(out: &mut Vec<u8>)
    ensures
        final(out)@ == old(out)@ + lit_integrity(),
{
    out.push(44);
    out.push(34);
    out.push(105);
    out.push(110);
    out.push(116);
    out.push(101);
    out.push(103);
    out.push(114);
    out.push(105);
    out.push(116);
    out.push(121);
    out.push(34);
    out.push(58);
    assert(out@ =~= old(out)@ + lit_integrity());
}

fn push_lit_files(out: &mut Vec<u8>)
    ensures
        final(out)@ == old(out)@ + lit_files(),
{
    out.push(123);
    out.push(34);
    out.push(102);
    out.push(105);
    out.push(108);
    out.push(101);
    out.push(115);
    out.push(34);
    out.push(58);
    assert(out@ =~= old(out)@ + lit_files());
}

fn push_lit_link(out: &mut Vec<u8>)
    ensures
        final(out)@ == old(out)@ + lit_link(),
{
    out.push(123);
    out.push(34);
    out.push(108);
    out.push(105);
    out.push(110);
    out.push(107);
    out.push(34);
    out.push(58);
    assert(out@ =~= old(out)@ + lit_link());
}

fn push_lit_alg_hash(out: &mut Vec<u8>)
    ensures
        final(out)@ == old(out)@ + lit_alg_hash(),
{
    out.push(123);
    out.push(34);
    out.push(97);
    out.push(108);
    out.push(103);
    out.push(111);
    out.push(114);
    out.push(105);
    out.push(116);
    out.push(104);
    out.push(109);
    out.push(34);
    out.push(58);
    out.push(34);
    out.push(83);
    out.push(72);
    out.push(65);
    out.push(50);
    out.push(53);
    out.push(54);
    out.push(34);
    out.push(44);
    out.push(34);
    out.push(104);
    out.push(97);
    out.push(115);
    out.push(104);
    out.push(34);
    out.push(58);
    assert(out@ =~= old(out)@ + lit_alg_hash());
}

fn push_lit_block_size(out: &mut Vec<u8>)
    ensures
        final(out)@ == old(out)@ + lit_block_size(),
{
    out.push(44);
    out.push(34);
    out.push(98);
    out.push(108);
    out.push(111);
    out.push(99);
    out.push(107);
    out.push(83);
    out.push(105);
    out.push(122);
    out.push(101);
    out.push(34);
    out.push(58);
    assert(out@ =~= old(out)@ + lit_block_size());
}

fn push_lit_blocks(out: &mut Vec<u8>)
    ensures
        final(out)@ == old(out)@ + lit_blocks(),
{
    out.push(44);
    out.push(34);
    out.push(98);
    out.push(108);
    out.push(111);
    out.push(99);
    out.push(107);
    out.push(115);
    out.push(34);
    out.push(58);
    out.push(91);
    assert(out@ =~= old(out)@ + lit_blocks());
}

fn push_bool(out: &mut Vec<u8>, b: bool)
    ensures
        final(out)@ == old(out)@ + json_bool(b),
{
    if b {
        out.push(116);
        out.push(114);
        out.push(117);
        out.push(101);
    } else {
        out.push(102);
        out.push(97);
        out.push(108);
        out.push(115);
        out.push(101);
    }
    assert(out@ =~= old(out)@ + json_bool(b));
}

/// Appends the quoted, escaped form of `s`.
fn push_quoted(out: &mut Vec<u8>, s: &Vec<u8>)
    ensures
        final(out)@ == old(out)@ + quoted(s@),
{
    out.push(34);
    let ghost start = out@;
    let mut i: usize = 0;
    while i < s.len()
        invariant
            i <= s@.len(),
            out@ == start + esc(s@.subrange(0, i as int)),
        decreases s@.len() - i,
    {
        let b = s[i];
        if b == 34 || b == 92 {
            out.push(92);
        }
        out.push(b);
        proof {
            lemma_esc_snoc(s@.subrange(0, i as int), s@[i as int]);
            assert(s@.subrange(0, i as int).push(s@[i as int]) =~= s@.subrange(0, i + 1));
            assert(out@ =~= start + esc(s@.subrange(0, i + 1)));
        }
        i += 1;
    }
    assert(s@.subrange(0, s@.len() as int) =~= s@);
    out.push(34);
    assert(out@ =~= old(out)@ + quoted(s@));
}

/// Appends the comma-separated quoted digest list starting at index `i`.
fn push_hex_list(out: &mut Vec<u8>, hs: &Vec<Vec<u8>>, i: usize)
    requires
        i <= hs@.len(),
    ensures
        final(out)@ == old(out)@ + json_hex_list(hs.deep_view().skip(i as int)),
    decreases hs@.len() - i,
{
    let ghost dv = hs.deep_view();
    proof {
        assert(dv.len() == hs@.len());
    }
    if i == hs.len() {
        assert(dv.skip(i as int) =~= Seq::<Seq<u8>>::empty());
    } else {
        proof {
            assert(dv.skip(i as int)[0] == dv[i as int]);
            assert(dv[i as int] == hs@[i as int]@);
        }
        push_quoted(out, &hs[i]);
        if i + 1 == hs.len() {
            assert(dv.skip(i as int).len() == 1);
        } else {
            out.push(44);
            push_hex_list(out, hs, i + 1);
            proof {
                assert(dv.skip(i as int).drop_first() =~= dv.skip(i + 1));
                assert(dv.skip(i as int).len() > 1);
            }
        }
    }
}

/// Appends the text of an integrity record.
fn push_integrity(out: &mut Vec<u8>, it: &Integrity)
    ensures
        final(out)@ == old(out)@ + json_of_integrity(it@),
{
    push_lit_alg_hash(out);
    push_quoted(out, &it.hash);
    push_lit_block_size(out);
    let mut d = u64_to_dec(it.block_size as u64);
    out.append(&mut d);
    push_lit_blocks(out);
    push_hex_list(out, &it.blocks, 0);
    proof {
        assert(it.blocks.deep_view().skip(0) =~= it.blocks.deep_view());
    }
    out.push(93);
    out.push(125);
    assert(out@ =~= old(out)@ + json_of_integrity(it@));
}

/// Appends the text of a node.
#[verifier::rlimit(100)]
fn push_node(out: &mut Vec<u8>, n: &Node)
    ensures
        final(out)@ == old(out)@ + json_of_node(n@),
    decreases n, 0int,
{
    match n {
        Node::File { size, offset, executable, unpacked, integrity } => {
            push_lit_size(out);
            let mut d = u64_to_dec(*size);
            out.append(&mut d);
            push_lit_offset(out);
            let mut d2 = u64_to_dec(*offset);
            out.append(&mut d2);
            push_lit_executable(out);
            push_bool(out, *executable);
            push_lit_unpacked(out);
            push_bool(out, *unpacked);
            match integrity {
                Option::None => {
                    out.push(125);
                },
                Option::Some(it) => {
                    push_lit_integrity(out);
                    push_integrity(out, it);
                    out.push(125);
                },
            }
            assert(out@ =~= old(out)@ + json_of_node(n@));
        },
        Node::Directory { entries } => {
            push_lit_files(out);
            out.push(123);
            push_entry_list(out, entries, 0);
            proof {
                lemma_entries_view_len(entries@);
                assert(entries_view(entries@).skip(0) =~= entries_view(entries@));
            }
            out.push(125);
            assert(out@ =~= old(out)@ + json_of_node(n@));
        },
        Node::Link { target } => {
            push_lit_link(out);
            push_quoted(out, target);
            out.push(125);
            assert(out@ =~= old(out)@ + json_of_node(n@));
        },
    }
}

/// Appends the text of the entries from index `i` on, and the closing brace.
fn push_entry_list(out: &mut Vec<u8>, es: &Vec<(Vec<u8>, Node)>, i: usize)
    requires
        i <= es@.len(),
    ensures
        final(out)@ == old(out)@ + json_of_entry_list(entries_view(es@).skip(i as int)),
    decreases es, es@.len() - i,
{
    let ghost ev = entries_view(es@);
    proof {
        lemma_entries_view_len(es@);
    }
    if i == es.len() {
        out.push(125);
        assert(ev.skip(i as int) =~= Seq::<(Seq<u8>, GNode)>::empty());
        assert(out@ =~= old(out)@ + json_of_entry_list(ev.skip(i as int)));
    } else {
        proof {
            assert(ev.skip(i as int)[0] == ev[i as int]);
            assert(ev[i as int] == entry_view(es@[i as int]));
        }
        let pair = &es[i];
        push_quoted(out, &pair.0);
        out.push(58);
        push_node(out, &pair.1);
        proof {
            assert(pair.0@ == es@[i as int].0@);
            assert(pair.1@ == entry_view(es@[i as int]).1);
            assert(json_of_entry(ev[i as int]) == quoted(pair.0@) + seq![58u8] + json_of_node(
                pair.1@,
            ));
        }
        if i + 1 == es.len() {
            out.push(125);
            assert(ev.skip(i as int).len() == 1);
            assert(json_of_entry_list(ev.skip(i as int)) == json_of_entry(ev.skip(i as int)[0])
                + seq![125u8]);
            assert(out@ =~= old(out)@ + json_of_entry_list(ev.skip(i as int)));
        } else {
            out.push(44);
            push_entry_list(out, es, i + 1);
            proof {
                assert(ev.skip(i as int).drop_first() =~= ev.skip(i + 1));
                assert(ev.skip(i as int).len() > 1);
                assert(json_of_entry_list(ev.skip(i as int)) == json_of_entry(
                    ev.skip(i as int)[0],
                ) + seq![44u8] + json_of_entry_list(ev.skip(i as int).drop_first()));
                assert(out@ =~= old(out)@ + json_of_entry_list(ev.skip(i as int)));
            }
        }
    }
}

pub(crate) fn lit_size_vec() -> (r: Vec<u8>)
    ensures
        r@ == lit_size(),
{
    let mut v: Vec<u8> = Vec::new();
    push_lit_size(&mut v);
    assert(v@ =~= lit_size());
    v
}

pub(crate) fn lit_offset_vec() -> (r: Vec<u8>)
    ensures
        r@ == lit_offset(),
{
    let mut v: Vec<u8> = Vec::new();
    push_lit_offset(&mut v);
    assert(v@ =~= lit_offset());
    v
}

pub(crate) fn lit_executable_vec() -> (r: Vec<u8>)
    ensures
        r@ == lit_executable(),
{
    let mut v: Vec<u8> = Vec::new();
    push_lit_executable(&mut v);
    assert(v@ =~= lit_executable());
    v
}

pub(crate) fn lit_unpacked_vec() -> (r: Vec<u8>)
    ensures
        r@ == lit_unpacked(),
{
    let mut v: Vec<u8> = Vec::new();
    push_lit_unpacked(&mut v);
    assert(v@ =~= lit_unpacked());
    v
}

pub(crate) fn lit_integrity_vec() -> (r: Vec<u8>)
    ensures
        r@ == lit_integrity(),
{
    let mut v: Vec<u8> = Vec::new();
    push_lit_integrity(&mut v);
    assert(v@ =~= lit_integrity());
    v
}

pub(crate) fn lit_files_vec() -> (r: Vec<u8>)
    ensures
        r@ == lit_files(),
{
    let mut v: Vec<u8> = Vec::new();
    push_lit_files(&mut v);
    assert(v@ =~= lit_files());
    v
}

pub(crate) fn lit_link_vec() -> (r: Vec<u8>)
    ensures
        r@ == lit_link(),
{
    let mut v: Vec<u8> = Vec::new();
    push_lit_link(&mut v);
    assert(v@ =~= lit_link());
    v
}

pub(crate) fn lit_alg_hash_vec() -> (r: Vec<u8>)
    ensures
        r@ == lit_alg_hash(),
{
    let mut v: Vec<u8> = Vec::new();
    push_lit_alg_hash(&mut v);
    assert(v@ =~= lit_alg_hash());
    v
}

pub(crate) fn lit_block_size_vec() -> (r: Vec<u8>)
    ensures
        r@ == lit_block_size(),
{
    let mut v: Vec<u8> = Vec::new();
    push_lit_block_size(&mut v);
    assert(v@ =~= lit_block_size());
    v
}

pub(crate) fn lit_blocks_vec() -> (r: Vec<u8>)
    ensures
        r@ == lit_blocks(),
{
    let mut v: Vec<u8> = Vec::new();
    push_lit_blocks(&mut v);
    assert(v@ =~= lit_blocks());
    v
}

pub(crate) fn bool_vec(b: bool) -> (r: Vec<u8>)
    ensures
        r@ == json_bool(b),
{
    let mut v: Vec<u8> = Vec::new();
    push_bool(&mut v, b);
    assert(v@ =~= json_bool(b));
    v
}

/// The canonical header text of a tree.
pub fn node_json(n: &Node) -> (r: Vec<u8>)
    ensures
        r@ == json_of_node(n@),
{
    let mut out: Vec<u8> = Vec::new();
    push_node(&mut out, n);
    out
}

} // verus!
