//! Inversion lemmas: the parser recovers exactly what the writer emitted,
//! whatever bytes follow. Proved here for the building blocks of the header
//! text — decimal runs, booleans, string literals, digest lists, whole
//! integrity records, and the flag-and-tail part of a file object — to go
//! with the framing inversion in the pickle layer.

use vstd::prelude::*;
use crate::jsonparse::{p_bool, p_dec, p_strbody, p_string, p_hex_items, p_hex_list,
    p_integrity, p_file_mid, p_file_tail, p_node, p_entry_list, p_entry_items};
use crate::jsontext::{esc, esc_byte, quoted, json_bool, json_hex_list, json_of_integrity,
    lit_alg_hash, lit_block_size, lit_blocks, lit_executable, lit_unpacked, lit_integrity,
    lit_size, lit_offset, lit_files, lit_link, json_of_node, json_of_entry,
    json_of_entry_list};
use crate::node::{GIntegrity, GNode, wf_gintegrity, wf_gnode, wf_name};
use crate::numtext::{dec_digits, dec_value, is_digit, pow10, lemma_dec_digits_shape,
    lemma_dec_digits_len, lemma_dec_value_of_digits, lemma_digit_run_of_digits,
    lemma_pow10_19};
use crate::util::{starts_with, suffix_from};

verus! {

/// A decimal run the writer produced parses back to its value, whatever
/// non-digit material follows.
pub proof fn lemma_dec_roundtrip(n: nat, rest: Seq<u8>)
    requires
        n < pow10(19),
        rest.len() > 0,
        !is_digit(rest[0]),
    ensures
        p_dec(dec_digits(n) + rest) == Option::Some(((n as u64), dec_digits(n).len())),
{
    let ds = dec_digits(n);
    let s = ds + rest;
    lemma_dec_digits_shape(n);
    lemma_dec_digits_len(n, 19);
    lemma_digit_run_of_digits(ds, rest);
    lemma_dec_value_of_digits(n);
    lemma_pow10_19();
    assert(s[0] == ds[0]);
    assert(s.subrange(0, ds.len() as int) == ds);
    if n == 0 {
        assert(ds.len() == 1);
    } else {
        assert(s[0] != 48);
    }
    assert(dec_value(s.subrange(0, ds.len() as int)) == n);
}

/// A boolean literal parses back, whatever follows.
pub proof fn lemma_bool_roundtrip(b: bool, rest: Seq<u8>)
    ensures
        p_bool(json_bool(b) + rest) == Option::Some((b, json_bool(b).len())),
{
    let s = json_bool(b) + rest;
    assert(starts_with(s, json_bool(b))) by {
        assert(s.subrange(0, json_bool(b).len() as int) =~= json_bool(b));
    }
    if !b {
        assert(!starts_with(s, json_bool(true))) by {
            if starts_with(s, json_bool(true)) {
                assert(s.subrange(0, 4)[0] == s[0]);
                assert(s[0] == 102);
            }
        }
    }
}

/// An escaped string body followed by its closing quote parses back to the
/// unescaped bytes, whatever follows the quote.
pub proof fn lemma_strbody_roundtrip(t: Seq<u8>, rest: Seq<u8>)
    requires
        forall|i: int| 0 <= i < t.len() ==> #[trigger] t[i] >= 32,
    ensures
        p_strbody(esc(t) + seq![34u8] + rest) == Option::Some((t, (esc(t).len() + 1) as nat)),
    decreases t.len(),
{
    let s = esc(t) + seq![34u8] + rest;
    if t.len() == 0 {
        assert(esc(t) == Seq::<u8>::empty());
        assert(s[0] == 34);
        assert(p_strbody(s) == Option::Some((Seq::<u8>::empty(), 1nat)));
        assert(t =~= Seq::<u8>::empty());
    } else {
        let tdf = t.drop_first();
        assert(forall|i: int| 0 <= i < tdf.len() ==> #[trigger] tdf[i] == t[i + 1]);
        lemma_strbody_roundtrip(tdf, rest);
        let s2 = esc(tdf) + seq![34u8] + rest;
        assert(esc(t) == esc_byte(t[0]) + esc(tdf));
        if t[0] == 34 || t[0] == 92 {
            assert(esc_byte(t[0]) == seq![92u8, t[0]]);
            assert(s[0] == 92);
            assert(s[1] == t[0]);
            assert(s.len() >= 2);
            assert(s.skip(2) =~= s2);
            assert(p_strbody(s) == Option::Some(
                (seq![s[1]] + tdf, (2 + esc(tdf).len() + 1) as nat),
            ));
            assert(seq![s[1]] + tdf =~= t);
        } else {
            assert(esc_byte(t[0]) == seq![t[0]]);
            assert(s[0] == t[0]);
            assert(t[0] >= 32);
            assert(s[0] != 34 && s[0] != 92 && !(s[0] < 32));
            assert(s.skip(1) =~= s2);
            assert(p_strbody(s) == Option::Some(
                (seq![s[0]] + tdf, (1 + esc(tdf).len() + 1) as nat),
            ));
            assert(seq![s[0]] + tdf =~= t);
        }
    }
}

/// A quoted string literal the writer produced parses back to its bytes,
/// whatever follows.
pub proof fn lemma_string_roundtrip(t: Seq<u8>, rest: Seq<u8>)
    requires
        forall|i: int| 0 <= i < t.len() ==> #[trigger] t[i] >= 32,
    ensures
        p_string(quoted(t) + rest) == Option::Some((t, (esc(t).len() + 2) as nat)),
{
    let s = quoted(t) + rest;
    assert(s[0] == 34);
    lemma_strbody_roundtrip(t, rest);
    assert(s.skip(1) =~= esc(t) + seq![34u8] + rest);
}

/// A non-empty digest list parses back, with its closing bracket.
pub proof fn lemma_hex_items_roundtrip(hs: Seq<Seq<u8>>, rest: Seq<u8>)
    requires
        hs.len() >= 1,
        forall|i: int| #![trigger hs[i]]
            0 <= i < hs.len() ==> (forall|j: int|
                0 <= j < hs[i].len() ==> (#[trigger] hs[i][j]) >= 32),
    ensures
        p_hex_items(json_hex_list(hs) + seq![93u8] + rest) == Option::Some(
            (hs, (json_hex_list(hs).len() + 1) as nat),
        ),
    decreases hs.len(),
{
    let s = json_hex_list(hs) + seq![93u8] + rest;
    let h0 = hs[0];
    if hs.len() == 1 {
        assert(json_hex_list(hs) == quoted(h0));
        assert(s =~= quoted(h0) + (seq![93u8] + rest));
        lemma_string_roundtrip(h0, seq![93u8] + rest);
        let c = (esc(h0).len() + 2) as nat;
        assert(suffix_from(s, c) =~= seq![93u8] + rest);
        assert(suffix_from(s, c)[0] == 93);
        assert(s.len() > 0);
        assert(hs =~= seq![h0]);
    } else {
        let tail = hs.drop_first();
        assert(forall|i: int| 0 <= i < tail.len() ==> #[trigger] tail[i] == hs[i + 1]);
        assert(json_hex_list(hs) == quoted(h0) + seq![44u8] + json_hex_list(tail));
        let after = seq![44u8] + json_hex_list(tail) + seq![93u8] + rest;
        assert(s =~= quoted(h0) + after);
        lemma_string_roundtrip(h0, after);
        assert(p_string(s) == Option::Some((h0, (esc(h0).len() + 2) as nat)));
        let c = (esc(h0).len() + 2) as nat;
        assert(suffix_from(s, c) =~= after);
        assert(after[0] == 44);
        lemma_hex_items_roundtrip(tail, rest);
        assert(suffix_from(s, (c + 1) as nat) =~= json_hex_list(tail) + seq![93u8] + rest);
        assert(seq![h0] + tail =~= hs);
        assert(s.len() > 0);
    }
}

/// A digest list, possibly empty, parses back.
pub proof fn lemma_hex_list_roundtrip(hs: Seq<Seq<u8>>, rest: Seq<u8>)
    requires
        forall|i: int| #![trigger hs[i]]
            0 <= i < hs.len() ==> (forall|j: int|
                0 <= j < hs[i].len() ==> (#[trigger] hs[i][j]) >= 32),
    ensures
        p_hex_list(json_hex_list(hs) + seq![93u8] + rest) == Option::Some(
            (hs, (json_hex_list(hs).len() + 1) as nat),
        ),
{
    let s = json_hex_list(hs) + seq![93u8] + rest;
    if hs.len() == 0 {
        assert(s =~= seq![93u8] + rest);
        assert(s[0] == 93);
        assert(hs =~= Seq::<Seq<u8>>::empty());
    } else {
        assert(s[0] == 34) by {
            assert(json_hex_list(hs)[0] == quoted(hs[0])[0]);
        }
        lemma_hex_items_roundtrip(hs, rest);
    }
}

pub proof fn lemma_hex_is_printable(h: Seq<u8>)
    requires
        crate::node::all_hex(h),
    ensures
        forall|j: int| 0 <= j < h.len() ==> (#[trigger] h[j]) >= 32,
{
}

/// An integrity record the writer produced parses back, whatever follows.
#[verifier::rlimit(100)]
#[verifier::spinoff_prover]
pub proof fn lemma_integrity_roundtrip(it: GIntegrity, rest: Seq<u8>)
    requires
        wf_gintegrity(it),
    ensures
        p_integrity(json_of_integrity(it) + rest) == Option::Some(
            (it, json_of_integrity(it).len() as nat),
        ),
{
    let s = json_of_integrity(it) + rest;
    let tail1 = lit_block_size() + dec_digits(it.block_size) + lit_blocks() + json_hex_list(
        it.blocks,
    ) + seq![93u8, 125] + rest;
    assert(s =~= lit_alg_hash() + quoted(it.hash) + tail1);
    assert(starts_with(s, lit_alg_hash())) by {
        assert(s.subrange(0, 29) =~= lit_alg_hash());
    }
    let s1 = suffix_from(s, 29);
    assert(s1 =~= quoted(it.hash) + tail1);
    lemma_hex_is_printable(it.hash);
    lemma_string_roundtrip(it.hash, tail1);
    let c1 = (esc(it.hash).len() + 2) as nat;
    let s2 = suffix_from(s1, c1);
    assert(s2 =~= tail1);
    assert(starts_with(s2, lit_block_size())) by {
        assert(tail1.subrange(0, 13) =~= lit_block_size());
    }
    let s3 = suffix_from(s2, 13);
    let tail2 = lit_blocks() + json_hex_list(it.blocks) + seq![93u8, 125] + rest;
    assert(s3 =~= dec_digits(it.block_size) + tail2);
    assert(tail2[0] == 44 && !is_digit(tail2[0]));
    assert(it.block_size < pow10(19)) by {
        lemma_pow10_19();
    }
    lemma_dec_roundtrip(it.block_size, tail2);
    let c2 = dec_digits(it.block_size).len();
    let s4 = suffix_from(s3, c2);
    assert(s4 =~= tail2);
    assert(starts_with(s4, lit_blocks())) by {
        assert(tail2.subrange(0, 11) =~= lit_blocks());
    }
    let s5 = suffix_from(s4, 11);
    assert(s5 =~= json_hex_list(it.blocks) + seq![93u8] + (seq![125u8] + rest));
    assert(forall|i: int| #![trigger it.blocks[i]]
        0 <= i < it.blocks.len() ==> (forall|j: int|
            0 <= j < it.blocks[i].len() ==> (#[trigger] it.blocks[i][j]) >= 32)) by {
        assert forall|i: int| #![trigger it.blocks[i]] 0 <= i < it.blocks.len() implies (forall|
            j: int,
        |
            0 <= j < it.blocks[i].len() ==> (#[trigger] it.blocks[i][j]) >= 32) by {
            lemma_hex_is_printable(it.blocks[i]);
        }
    }
    lemma_hex_list_roundtrip(it.blocks, seq![125u8] + rest);
    let c3 = (json_hex_list(it.blocks).len() + 1) as nat;
    let s6 = suffix_from(s5, c3);
    assert(s6 =~= seq![125u8] + rest);
    assert(s6[0] == 125);
    assert((29 + c1 + 13 + c2 + 11 + c3 + 1) as nat == json_of_integrity(it).len());
    assert((it.block_size as u64) as nat == it.block_size);
    assert((it.block_size as u64) != 0 && (it.block_size as u64) <= u32::MAX as u64);
}


/// The fixed text a file node ends with, by its integrity record.
pub open spec fn file_tail_text(integrity: Option<GIntegrity>) -> Seq<u8> {
    match integrity {
        Option::None => seq![125u8],
        Option::Some(it) => lit_integrity() + json_of_integrity(it) + seq![125u8],
    }
}

/// The closing part of a file object parses back.
#[verifier::rlimit(100)]
#[verifier::spinoff_prover]
pub proof fn lemma_file_tail_roundtrip(
    whole: Seq<u8>,
    sizeu: u64,
    offu: u64,
    executable: bool,
    unpacked: bool,
    integrity: Option<GIntegrity>,
    rest: Seq<u8>,
    s8: Seq<u8>,
    used: nat,
)
    requires
        match integrity {
            Option::Some(it) => wf_gintegrity(it),
            Option::None => true,
        },
        s8 == file_tail_text(integrity) + rest,
    ensures
        p_file_tail(whole, s8, sizeu, offu, executable, unpacked, used) == Option::Some(
            (
                GNode::File {
                    size: sizeu as nat,
                    offset: offu as nat,
                    executable,
                    unpacked,
                    integrity,
                },
                (used + file_tail_text(integrity).len()) as nat,
            ),
        ),
{
    match integrity {
        Option::None => {
            assert(s8[0] == 125);
        },
        Option::Some(it) => {
            assert(s8[0] == 44);
            assert(starts_with(s8, lit_integrity())) by {
                assert(s8.subrange(0, 13) =~= lit_integrity());
            }
            let s9 = suffix_from(s8, 13);
            assert(s9 =~= json_of_integrity(it) + (seq![125u8] + rest));
            lemma_integrity_roundtrip(it, seq![125u8] + rest);
            let c5 = json_of_integrity(it).len() as nat;
            let s10 = suffix_from(s9, c5);
            assert(s10 =~= seq![125u8] + rest);
            assert(s10[0] == 125);
        },
    }
}

/// The flags and tail of a file object parse back.
#[verifier::rlimit(100)]
#[verifier::spinoff_prover]
pub proof fn lemma_file_mid_roundtrip(
    whole: Seq<u8>,
    sizeu: u64,
    offu: u64,
    executable: bool,
    unpacked: bool,
    integrity: Option<GIntegrity>,
    rest: Seq<u8>,
    s4: Seq<u8>,
    used: nat,
)
    requires
        match integrity {
            Option::Some(it) => wf_gintegrity(it),
            Option::None => true,
        },
        s4 == lit_executable() + json_bool(executable) + lit_unpacked() + json_bool(unpacked)
            + file_tail_text(integrity) + rest,
    ensures
        p_file_mid(whole, s4, sizeu, offu, used) == Option::Some(
            (
                GNode::File {
                    size: sizeu as nat,
                    offset: offu as nat,
                    executable,
                    unpacked,
                    integrity,
                },
                (used + 15 + json_bool(executable).len() + 12 + json_bool(unpacked).len()
                    + file_tail_text(integrity).len()) as nat,
            ),
        ),
{
    assert(starts_with(s4, lit_executable())) by {
        assert(s4.subrange(0, 15) =~= lit_executable());
    }
    let s5 = suffix_from(s4, 15);
    let t3 = lit_unpacked() + json_bool(unpacked) + file_tail_text(integrity) + rest;
    assert(s5 =~= json_bool(executable) + t3);
    lemma_bool_roundtrip(executable, t3);
    let c3 = json_bool(executable).len();
    let s6 = suffix_from(s5, c3);
    assert(s6 =~= t3);
    assert(starts_with(s6, lit_unpacked())) by {
        assert(t3.subrange(0, 12) =~= lit_unpacked());
    }
    let s7 = suffix_from(s6, 12);
    let t4 = file_tail_text(integrity) + rest;
    assert(s7 =~= json_bool(unpacked) + t4);
    lemma_bool_roundtrip(unpacked, t4);
    let c4 = json_bool(unpacked).len();
    let s8 = suffix_from(s7, c4);
    assert(s8 =~= t4);
    lemma_file_tail_roundtrip(
        whole,
        sizeu,
        offu,
        executable,
        unpacked,
        integrity,
        rest,
        s8,
        (used + 15 + c3 + 12 + c4) as nat,
    );
}


/// The text of a file node, rebracketed for step-by-step parsing.
#[verifier::rlimit(100)]
#[verifier::spinoff_prover]
pub proof fn lemma_file_decompose(n: GNode, rest: Seq<u8>)
    requires
        n is File,
    ensures
        ({
            match n {
                GNode::File { size, offset, executable, unpacked, integrity } => {
                    &&& json_of_node(n) + rest == lit_size() + (dec_digits(size) + (lit_offset()
                        + (dec_digits(offset) + (lit_executable() + json_bool(executable)
                        + lit_unpacked() + json_bool(unpacked) + file_tail_text(integrity)
                        + rest))))
                    &&& json_of_node(n).len() == 8 + dec_digits(size).len() + 11 + dec_digits(
                        offset,
                    ).len() + 15 + json_bool(executable).len() + 12 + json_bool(unpacked).len()
                        + file_tail_text(integrity).len()
                },
                _ => true,
            }
        }),
{
    match n {
        GNode::File { size, offset, executable, unpacked, integrity } => {
            let la = lit_size();
            let lb = dec_digits(size);
            let lc = lit_offset();
            let ld = dec_digits(offset);
            let le = lit_executable();
            let lf = json_bool(executable);
            let lg = lit_unpacked();
            let lh = json_bool(unpacked);
            let li = file_tail_text(integrity);
            assert(json_of_node(n) == la + lb + lc + ld + le + lf + lg + lh + li);
            let lu = la + lb + lc + ld;
            let lv = le + lf + lg + lh + li;
            assert(json_of_node(n) == lu + lv) by {
                crate::util::lemma_add_assoc(lu, le, lf);
                crate::util::lemma_add_assoc(lu, le + lf, lg);
                crate::util::lemma_add_assoc(lu, le + lf + lg, lh);
                crate::util::lemma_add_assoc(lu, le + lf + lg + lh, li);
            }
            let r4 = le + lf + lg + lh + li + rest;
            crate::util::lemma_add_assoc(lu, lv, rest);
            assert(json_of_node(n) + rest == lu + r4);
            crate::util::lemma_add_assoc(la + lb + lc, ld, r4);
            crate::util::lemma_add_assoc(la + lb, lc, ld + r4);
            crate::util::lemma_add_assoc(la, lb, lc + (ld + r4));
            assert(json_of_node(n) + rest == la + (lb + (lc + (ld + r4))));
        },
        _ => {},
    }
}

/// A file node the writer produced parses back, whatever follows.
#[verifier::rlimit(100)]
#[verifier::spinoff_prover]
pub proof fn lemma_file_roundtrip(n: GNode, rest: Seq<u8>)
    requires
        n is File,
        wf_gnode(n),
    ensures
        p_node(json_of_node(n) + rest) == Option::Some((n, json_of_node(n).len())),
{
    match n {
        GNode::File { size, offset, executable, unpacked, integrity } => {
            let s = json_of_node(n) + rest;
            let r4 = lit_executable() + json_bool(executable) + lit_unpacked() + json_bool(
                unpacked,
            ) + file_tail_text(integrity) + rest;
            let r3 = dec_digits(offset) + r4;
            let r2 = lit_offset() + r3;
            let r1 = dec_digits(size) + r2;
            lemma_file_decompose(n, rest);
            assert(s == lit_size() + r1);
            lemma_pow10_19();
            assert(r4[0] == 34) by {
                assert(r4[0] == lit_executable()[0]);
            }
            lemma_file_steps(s, size, offset, r1, r2, r3, r4);
            lemma_file_assemble(
                s,
                (size as u64),
                (offset as u64),
                executable,
                unpacked,
                integrity,
                rest,
                r1,
                r2,
                r3,
                r4,
                dec_digits(size).len(),
                dec_digits(offset).len(),
            );
            assert((size as u64) as nat == size);
            assert((offset as u64) as nat == offset);
        },
        _ => {},
    }
}

/// The step facts of parsing a file object's sizes.
#[verifier::rlimit(100)]
#[verifier::spinoff_prover]
pub proof fn lemma_file_steps(
    s: Seq<u8>,
    size: nat,
    offset: nat,
    r1: Seq<u8>,
    r2: Seq<u8>,
    r3: Seq<u8>,
    r4: Seq<u8>,
)
    requires
        size < pow10(19),
        offset < pow10(19),
        r3 == dec_digits(offset) + r4,
        r2 == lit_offset() + r3,
        r1 == dec_digits(size) + r2,
        s == lit_size() + r1,
        r4.len() > 0,
        r4[0] == 34,
    ensures
        starts_with(s, lit_size()),
        suffix_from(s, 8) == r1,
        p_dec(r1) == Option::Some(((size as u64), dec_digits(size).len())),
        suffix_from(r1, dec_digits(size).len()) == r2,
        starts_with(r2, lit_offset()),
        suffix_from(r2, 11) == r3,
        p_dec(r3) == Option::Some(((offset as u64), dec_digits(offset).len())),
        suffix_from(r3, dec_digits(offset).len()) == r4,
{
    assert(starts_with(s, lit_size())) by {
        assert(s.subrange(0, 8) =~= lit_size());
    }
    crate::util::lemma_suffix_concat(lit_size(), r1);
    assert(r2[0] == 44 && !is_digit(r2[0])) by {
        assert(r2[0] == lit_offset()[0]);
    }
    lemma_dec_roundtrip(size, r2);
    crate::util::lemma_suffix_concat(dec_digits(size), r2);
    assert(starts_with(r2, lit_offset())) by {
        assert(r2.subrange(0, 11) =~= lit_offset());
    }
    crate::util::lemma_suffix_concat(lit_offset(), r3);
    assert(!is_digit(r4[0]));
    lemma_dec_roundtrip(offset, r4);
    crate::util::lemma_suffix_concat(dec_digits(offset), r4);
}

/// Assembles the parse of a file object from its step facts.
#[verifier::rlimit(100)]
#[verifier::spinoff_prover]
pub proof fn lemma_file_assemble(
    s: Seq<u8>,
    sizeu: u64,
    offu: u64,
    executable: bool,
    unpacked: bool,
    integrity: Option<GIntegrity>,
    rest: Seq<u8>,
    r1: Seq<u8>,
    r2: Seq<u8>,
    r3: Seq<u8>,
    r4: Seq<u8>,
    c1: nat,
    c2: nat,
)
    requires
        match integrity {
            Option::Some(it) => wf_gintegrity(it),
            Option::None => true,
        },
        starts_with(s, lit_size()),
        suffix_from(s, 8) == r1,
        p_dec(r1) == Option::Some((sizeu, c1)),
        suffix_from(r1, c1) == r2,
        starts_with(r2, lit_offset()),
        suffix_from(r2, 11) == r3,
        p_dec(r3) == Option::Some((offu, c2)),
        suffix_from(r3, c2) == r4,
        r4 == lit_executable() + json_bool(executable) + lit_unpacked() + json_bool(unpacked)
            + file_tail_text(integrity) + rest,
    ensures
        p_node(s) == Option::Some(
            (
                GNode::File {
                    size: sizeu as nat,
                    offset: offu as nat,
                    executable,
                    unpacked,
                    integrity,
                },
                (8 + c1 + 11 + c2 + 15 + json_bool(executable).len() + 12 + json_bool(
                    unpacked,
                ).len() + file_tail_text(integrity).len()) as nat,
            ),
        ),
{
    lemma_file_mid_roundtrip(
        s,
        sizeu,
        offu,
        executable,
        unpacked,
        integrity,
        rest,
        r4,
        (8 + c1 + 11 + c2) as nat,
    );
}

/// Bridge between the directory arm of `wf_gnode` and its entry list.
pub proof fn lemma_wf_gnode_dir(entries: Seq<(Seq<u8>, GNode)>)
    requires
        wf_gnode(GNode::Directory { entries }),
    ensures
        forall|j: int| #![trigger entries[j]]
            0 <= j < entries.len() ==> wf_name(entries[j].0) && wf_gnode(entries[j].1),
{
    let d = GNode::Directory { entries };
    assert forall|j: int| #![trigger entries[j]]
        0 <= j < entries.len() implies wf_name(entries[j].0) && wf_gnode(entries[j].1) by {
        match d {
            GNode::Directory { entries: e2 } => {
                assert(e2 == entries);
                assert(e2[j] == entries[j]);
                assert(wf_name(e2[j].0));
                assert(wf_gnode(e2[j].1));
            },
            _ => {},
        }
    }
}

/// Every node the writer produced parses back, whatever follows.
#[verifier::rlimit(100)]
#[verifier::spinoff_prover]
pub proof fn lemma_node_roundtrip(n: GNode, rest: Seq<u8>)
    requires
        wf_gnode(n),
    ensures
        p_node(json_of_node(n) + rest) == Option::Some((n, json_of_node(n).len())),
    decreases n, 1int,
{
    let s = json_of_node(n) + rest;
    match n {
        GNode::File { size, offset, executable, unpacked, integrity } => {
            lemma_file_roundtrip(n, rest);
        },
        GNode::Directory { entries } => {
            let la = lit_files();
            let lb = seq![123u8];
            let lc = json_of_entry_list(entries);
            let ld = seq![125u8];
            assert(json_of_node(n) == la + lb + lc + ld);
            let r1 = lc + (ld + rest);
            assert(s == (la + lb) + r1) by {
                crate::util::lemma_add_assoc(la + lb + lc, ld, rest);
                crate::util::lemma_add_assoc(la + lb, lc, ld + rest);
            }
            assert(s[0] == 123 && s[1] == 34 && s[2] == 102);
            assert(!starts_with(s, lit_size())) by {
                if starts_with(s, lit_size()) {
                    assert(s.subrange(0, 8)[2] == s[2]);
                }
            }
            assert(starts_with(s, la)) by {
                assert(s.subrange(0, 9) =~= la);
            }
            assert(suffix_from(s, 9).len() > 0 && suffix_from(s, 9)[0] == 123) by {
                assert(s[9] == (la + lb)[9]);
            }
            crate::util::lemma_suffix_concat(la + lb, r1);
            assert(suffix_from(s, 10) == r1);
            lemma_wf_gnode_dir(entries);
            lemma_entry_list_roundtrip(entries, ld + rest);
            let c = lc.len();
            crate::util::lemma_suffix_concat(lc, ld + rest);
            assert(suffix_from(r1, c) == ld + rest);
            assert((ld + rest)[0] == 125);
        },
        GNode::Link { target } => {
            let la = lit_link();
            let lb = quoted(target);
            let lc = seq![125u8];
            assert(json_of_node(n) == la + lb + lc);
            let r1 = lb + (lc + rest);
            assert(s == la + r1) by {
                crate::util::lemma_add_assoc(la + lb, lc, rest);
                crate::util::lemma_add_assoc(la, lb, lc + rest);
            }
            assert(s[0] == 123 && s[1] == 34 && s[2] == 108);
            assert(!starts_with(s, lit_size())) by {
                if starts_with(s, lit_size()) {
                    assert(s.subrange(0, 8)[2] == s[2]);
                }
            }
            assert(!starts_with(s, lit_files())) by {
                if starts_with(s, lit_files()) {
                    assert(s.subrange(0, 9)[2] == s[2]);
                }
            }
            assert(starts_with(s, la)) by {
                assert(s.subrange(0, 8) =~= la);
            }
            crate::util::lemma_suffix_concat(la, r1);
            assert(suffix_from(s, 8) == r1);
            lemma_string_roundtrip(target, lc + rest);
            let c = (esc(target).len() + 2) as nat;
            crate::util::lemma_suffix_concat(lb, lc + rest);
            assert(suffix_from(r1, c) == lc + rest);
            assert((lc + rest)[0] == 125);
        },
    }
}

/// A directory's entry list (with its closing brace) parses back.
#[verifier::rlimit(100)]
#[verifier::spinoff_prover]
pub proof fn lemma_entry_list_roundtrip(es: Seq<(Seq<u8>, GNode)>, rest: Seq<u8>)
    requires
        forall|j: int| #![trigger es[j]]
            0 <= j < es.len() ==> wf_name(es[j].0) && wf_gnode(es[j].1),
    ensures
        p_entry_list(json_of_entry_list(es) + rest) == Option::Some(
            (es, json_of_entry_list(es).len() as nat),
        ),
    decreases es, 3int,
{
    let s = json_of_entry_list(es) + rest;
    if es.len() == 0 {
        assert(s[0] == 125);
        assert(es =~= Seq::<(Seq<u8>, GNode)>::empty());
    } else {
        lemma_entry_items_roundtrip(es, rest);
        assert(s[0] == 34) by {
            assert(json_of_entry_list(es)[0] == quoted(es[0].0)[0]);
        }
        assert(s[0] != 125);
    }
}

/// A non-empty entry list (with its closing brace) parses back.
#[verifier::rlimit(100)]
#[verifier::spinoff_prover]
pub proof fn lemma_entry_items_roundtrip(es: Seq<(Seq<u8>, GNode)>, rest: Seq<u8>)
    requires
        es.len() >= 1,
        forall|j: int| #![trigger es[j]]
            0 <= j < es.len() ==> wf_name(es[j].0) && wf_gnode(es[j].1),
    ensures
        p_entry_items(json_of_entry_list(es) + rest) == Option::Some(
            (es, json_of_entry_list(es).len() as nat),
        ),
    decreases es, 2int,
{
    let s = json_of_entry_list(es) + rest;
    let name = es[0].0;
    let child = es[0].1;
    assert(wf_name(name) && wf_gnode(child));
    let tail_t = if es.len() == 1 {
        seq![125u8]
    } else {
        seq![44u8] + json_of_entry_list(es.drop_first())
    };
    assert(json_of_entry_list(es) == json_of_entry(es[0]) + tail_t);
    assert(json_of_entry(es[0]) == quoted(name) + seq![58u8] + json_of_node(child));
    let la = quoted(name);
    let lb = seq![58u8];
    let lc = json_of_node(child);
    let rest2 = tail_t + rest;
    assert(s == la + (lb + (lc + rest2))) by {
        crate::util::lemma_add_assoc(la + lb + lc, tail_t, rest);
        crate::util::lemma_add_assoc(la + lb, lc, rest2);
        crate::util::lemma_add_assoc(la, lb, lc + rest2);
    }
    lemma_string_roundtrip(name, lb + (lc + rest2));
    let c1 = (esc(name).len() + 2) as nat;
    assert(s.len() > 0);
    crate::util::lemma_suffix_concat(la, lb + (lc + rest2));
    assert(suffix_from(s, c1) == lb + (lc + rest2));
    assert((lb + (lc + rest2))[0] == 58);
    assert(s == (la + lb) + (lc + rest2)) by {
        crate::util::lemma_add_assoc(la, lb, lc + rest2);
    }
    crate::util::lemma_suffix_concat(la + lb, lc + rest2);
    assert(suffix_from(s, (c1 + 1) as nat) == lc + rest2);
    lemma_node_roundtrip(child, rest2);
    let c2 = lc.len() as nat;
    assert(s == ((la + lb) + lc) + rest2) by {
        crate::util::lemma_add_assoc(la + lb, lc, rest2);
    }
    crate::util::lemma_suffix_concat((la + lb) + lc, rest2);
    assert(suffix_from(s, (c1 + 1 + c2) as nat) == rest2);
    if es.len() == 1 {
        assert(rest2[0] == 125);
        assert(seq![(name, child)] =~= es);
    } else {
        assert(rest2[0] == 44) by {
            assert(tail_t[0] == 44);
        }
        let tail_es = es.drop_first();
        assert(forall|j: int| #![trigger tail_es[j]]
            0 <= j < tail_es.len() ==> tail_es[j] == es[j + 1]);
        lemma_entry_items_roundtrip(tail_es, rest);
        assert(s == (((la + lb) + lc) + seq![44u8]) + (json_of_entry_list(tail_es) + rest)) by {
            crate::util::lemma_add_assoc((la + lb) + lc, seq![44u8], json_of_entry_list(
                tail_es,
            ) + rest);
            crate::util::lemma_add_assoc(seq![44u8], json_of_entry_list(tail_es), rest);
            assert(tail_t + rest =~= seq![44u8] + (json_of_entry_list(tail_es) + rest));
        }
        crate::util::lemma_suffix_concat(((la + lb) + lc) + seq![44u8], json_of_entry_list(
            tail_es,
        ) + rest);
        assert(suffix_from(s, (c1 + 1 + c2 + 1) as nat) == json_of_entry_list(tail_es) + rest);
        assert(seq![(name, child)] + tail_es =~= es);
    }
}

/// Bridge into the directory arm of `wf_gnode`.
pub proof fn lemma_wf_gnode_dir_intro(entries: Seq<(Seq<u8>, GNode)>)
    requires
        forall|j: int| #![trigger entries[j]]
            0 <= j < entries.len() ==> wf_name(entries[j].0) && wf_gnode(entries[j].1),
    ensures
        wf_gnode(GNode::Directory { entries }),
{
    let d = GNode::Directory { entries };
    match d {
        GNode::Directory { entries: e2 } => {
            assert(e2 == entries);
            assert forall|j: int| #![trigger e2[j]]
                0 <= j < e2.len() implies wf_name(e2[j].0) && wf_gnode(e2[j].1) by {
                assert(entries[j] == e2[j]);
            }
            assert(wf_gnode(d));
        },
        _ => {},
    }
}

/// Every block digest is hex text.
pub proof fn lemma_block_hashes_hex(data: Seq<u8>, bs: nat)
    requires
        bs > 0,
    ensures
        forall|i: int|
            0 <= i < crate::integrity::block_hashes(data, bs).len() ==> crate::node::all_hex(
                #[trigger] crate::integrity::block_hashes(data, bs)[i],
            ),
    decreases data.len(),
{
    let hs = crate::integrity::block_hashes(data, bs);
    if data.len() == 0 {
    } else if data.len() <= bs {
        crate::numtext::lemma_hex_of_shape(crate::integrity::sha256_of(data));
    } else {
        crate::numtext::lemma_hex_of_shape(
            crate::integrity::sha256_of(data.take(bs as int)),
        );
        lemma_block_hashes_hex(data.skip(bs as int), bs);
        assert forall|i: int| 0 <= i < hs.len() implies crate::node::all_hex(
            #[trigger] hs[i],
        ) by {
            if i > 0 {
                assert(hs[i] == crate::integrity::block_hashes(data.skip(bs as int), bs)[i
                    - 1]);
            }
        }
    }
}

/// A crawled subtree's header node is well formed whenever the byte counter
/// stays under the decimal cap.
pub proof fn lemma_crawl_wf(
    fs: crate::crawl::GFsEntry,
    path: Seq<u8>,
    off: nat,
    unpack: bool,
    rule: Option<Seq<u8>>,
    integ: bool,
    bs: nat,
)
    requires
        crate::crawl::wf_gfs(fs),
        integ ==> 0 < bs <= u32::MAX,
    ensures
        ({
            let co = crate::crawl::crawl_fs(fs, path, off, unpack, rule, integ, bs);
            co.end < crate::node::dec_limit() && off <= co.end ==> wf_gnode(co.node)
        }),
    decreases fs, 1int,
{
    let co = crate::crawl::crawl_fs(fs, path, off, unpack, rule, integ, bs);
    match fs {
        crate::crawl::GFsEntry::File { data, executable } => {
            if integ {
                crate::numtext::lemma_hex_of_shape(crate::integrity::sha256_of(data));
                lemma_block_hashes_hex(data, bs);
                assert(wf_gintegrity(crate::integrity::integrity_of(data, bs)));
            }
        },
        crate::crawl::GFsEntry::Dir { entries } => {
            crate::crawl::lemma_wf_dir(entries);
            lemma_crawl_list_wf(entries, path, off, unpack, rule, integ, bs);
            let cl = crate::crawl::crawl_list(entries, path, off, unpack, rule, integ, bs);
            if cl.3 < crate::node::dec_limit() && off <= cl.3 {
                lemma_wf_gnode_dir_intro(cl.0);
            }
        },
        crate::crawl::GFsEntry::Link { target } => {},
    }
}

pub proof fn lemma_crawl_list_wf(
    es: Seq<(Seq<u8>, crate::crawl::GFsEntry)>,
    dir_path: Seq<u8>,
    off: nat,
    unpack: bool,
    rule: Option<Seq<u8>>,
    integ: bool,
    bs: nat,
)
    requires
        crate::crawl::wf_entries_from(es, 0),
        integ ==> 0 < bs <= u32::MAX,
    ensures
        ({
            let cl = crate::crawl::crawl_list(es, dir_path, off, unpack, rule, integ, bs);
            cl.3 < crate::node::dec_limit() ==> forall|j: int| #![trigger cl.0[j]]
                0 <= j < cl.0.len() ==> wf_name(cl.0[j].0) && wf_gnode(cl.0[j].1)
        }),
    decreases es, 0int,
{
    let cl = crate::crawl::crawl_list(es, dir_path, off, unpack, rule, integ, bs);
    if es.len() > 0 {
        let name = es[0].0;
        let cu = unpack || ((es[0].1 is Dir) && crate::crawl::rule_matches(rule, name));
        let cp = crate::crawl::child_path(dir_path, name);
        let c = crate::crawl::crawl_fs(es[0].1, cp, off, cu, rule, integ, bs);
        let r = crate::crawl::crawl_list(es.drop_first(), dir_path, c.end, unpack, rule, integ,
            bs);
        assert(wf_name(es[0].0) && crate::crawl::wf_gfs(es[0].1));
        crate::crawl::lemma_crawl_end_monotone(es[0].1, cp, off, cu, rule, integ, bs);
        crate::crawl::lemma_crawl_list_end_monotone(
            es.drop_first(),
            dir_path,
            c.end,
            unpack,
            rule,
            integ,
            bs,
        );
        lemma_crawl_wf(es[0].1, cp, off, cu, rule, integ, bs);
        assert(crate::crawl::wf_entries_from(es.drop_first(), 0)) by {
            assert forall|j: int| #![trigger es.drop_first()[j]]
                0 <= j < es.drop_first().len() implies {
                &&& wf_name(es.drop_first()[j].0)
                &&& crate::crawl::wf_gfs(es.drop_first()[j].1)
                &&& (j + 1 < es.drop_first().len() ==> crate::node::bytes_lt(
                    es.drop_first()[j].0,
                    es.drop_first()[j + 1].0,
                ))
            } by {
                assert(es.drop_first()[j] == es[j + 1]);
                if j + 1 < es.drop_first().len() {
                    assert(es.drop_first()[j + 1] == es[j + 2]);
                }
            }
        }
        lemma_crawl_list_wf(es.drop_first(), dir_path, c.end, unpack, rule, integ, bs);
        if cl.3 < crate::node::dec_limit() {
            assert forall|j: int| #![trigger cl.0[j]]
                0 <= j < cl.0.len() implies wf_name(cl.0[j].0) && wf_gnode(cl.0[j].1) by {
                if j == 0 {
                    assert(cl.0[0] == (name, c.node));
                } else {
                    assert(cl.0[j] == r.0[j - 1]);
                }
            }
        }
    }
}

} // verus!
