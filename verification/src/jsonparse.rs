//! Parsing of the header text back into a tree. The parser accepts exactly
//! the canonical text the writer produces: whatever it accepts, re-writing
//! the parsed tree reproduces the consumed bytes, and whatever the writer
//! produced it accepts. Anything else is a format error.

use vstd::prelude::*;
use crate::node::{GNode, GIntegrity, Node, Integrity, entries_view, entry_view,
    lemma_entries_view_len};
use crate::numtext::{is_digit, digit_run_len, dec_value, pow10, all_digits,
    lemma_dec_value_bound, lemma_pow10_19, lemma_pow10_mono, lemma_digit_run_char};
use crate::jsontext::{lit_size, lit_offset, lit_executable, lit_unpacked, lit_integrity,
    lit_files, lit_link, lit_alg_hash, lit_block_size, lit_blocks, json_bool};
use crate::util::{starts_with, suffix_from, matches_at, lemma_suffix_of_suffix};

verus! {

broadcast use
    vstd::seq::axiom_seq_index_decreases,
    vstd::seq::axiom_seq_subrange_decreases,
    vstd::std_specs::vec::axiom_vec_index_decreases,
    vstd::std_specs::vec::axiom_vec_decreases_to_view;

pub open spec fn p_bool(s: Seq<u8>) -> Option<(bool, nat)> {
    if starts_with(s, json_bool(true)) {
        Option::Some((true, 4nat))
    } else if starts_with(s, json_bool(false)) {
        Option::Some((false, 5nat))
    } else {
        Option::None
    }
}

/// A decimal run: at least one digit, at most nineteen, no leading zero.
pub open spec fn p_dec(s: Seq<u8>) -> Option<(u64, nat)> {
    let k = digit_run_len(s);
    if 1 <= k <= 19 && (k == 1 || s[0] != 48) {
        Option::Some(((dec_value(s.subrange(0, k as int)) as u64), k))
    } else {
        Option::None
    }
}

/// A string body up to and including the closing quote; only the two
/// escapes the writer emits are understood, control bytes are refused.
pub open spec fn p_strbody(s: Seq<u8>) -> Option<(Seq<u8>, nat)>
    decreases s.len(),
{
    if s.len() == 0 {
        Option::None
    } else if s[0] == 34 {
        Option::Some((Seq::<u8>::empty(), 1nat))
    } else if s[0] == 92 {
        if s.len() >= 2 && (s[1] == 34 || s[1] == 92) {
            match p_strbody(s.skip(2)) {
                Option::Some((t, c)) => Option::Some((seq![s[1]] + t, (2 + c) as nat)),
                Option::None => Option::None,
            }
        } else {
            Option::None
        }
    } else if s[0] < 32 {
        Option::None
    } else {
        match p_strbody(s.skip(1)) {
            Option::Some((t, c)) => Option::Some((seq![s[0]] + t, (1 + c) as nat)),
            Option::None => Option::None,
        }
    }
}

/// A quoted string literal.
pub open spec fn p_string(s: Seq<u8>) -> Option<(Seq<u8>, nat)> {
    if s.len() >= 1 && s[0] == 34 {
        match p_strbody(s.skip(1)) {
            Option::Some((t, c)) => Option::Some((t, (1 + c) as nat)),
            Option::None => Option::None,
        }
    } else {
        Option::None
    }
}

/// One or more quoted digests separated by commas, then the closing
/// bracket.
pub open spec fn p_hex_items(s: Seq<u8>) -> Option<(Seq<Seq<u8>>, nat)>
    decreases s.len(),
{
    if s.len() == 0 {
        Option::None
    } else {
        match p_string(s) {
            Option::None => Option::None,
            Option::Some((h, c)) => {
                let s2 = suffix_from(s, c);
                if s2.len() >= 1 && s2[0] == 44 {
                    match p_hex_items(suffix_from(s, (c + 1) as nat)) {
                        Option::Some((hs, c2)) => Option::Some(
                            (seq![h] + hs, (c + 1 + c2) as nat),
                        ),
                        Option::None => Option::None,
                    }
                } else if s2.len() >= 1 && s2[0] == 93 {
                    Option::Some((seq![h], (c + 1) as nat))
                } else {
                    Option::None
                }
            },
        }
    }
}

/// A digest list including its closing bracket.
pub open spec fn p_hex_list(s: Seq<u8>) -> Option<(Seq<Seq<u8>>, nat)> {
    if s.len() == 0 {
        Option::None
    } else if s[0] == 93 {
        Option::Some((Seq::<Seq<u8>>::empty(), 1nat))
    } else {
        p_hex_items(s)
    }
}

/// An integrity object, from its opening brace to its closing brace.
pub open spec fn p_integrity(s: Seq<u8>) -> Option<(GIntegrity, nat)> {
    if !starts_with(s, lit_alg_hash()) {
        Option::None
    } else {
        let s1 = suffix_from(s, 29);
        match p_string(s1) {
            Option::None => Option::None,
            Option::Some((hash, c1)) => {
                let s2 = suffix_from(s1, c1);
                if !starts_with(s2, lit_block_size()) {
                    Option::None
                } else {
                    let s3 = suffix_from(s2, 13);
                    match p_dec(s3) {
                        Option::None => Option::None,
                        Option::Some((bsv, c2)) => {
                            if bsv == 0 || bsv > u32::MAX as u64 {
                                Option::None
                            } else {
                                let s4 = suffix_from(s3, c2);
                                if !starts_with(s4, lit_blocks()) {
                                    Option::None
                                } else {
                                    let s5 = suffix_from(s4, 11);
                                    match p_hex_list(s5) {
                                        Option::None => Option::None,
                                        Option::Some((blocks, c3)) => {
                                            let s6 = suffix_from(s5, c3);
                                            if s6.len() >= 1 && s6[0] == 125 {
                                                Option::Some(
                                                    (
                                                        GIntegrity {
                                                            hash,
                                                            block_size: bsv as nat,
                                                            blocks,
                                                        },
                                                        (29 + c1 + 13 + c2 + 11 + c3 + 1) as nat,
                                                    ),
                                                )
                                            } else {
                                                Option::None
                                            }
                                        },
                                    }
                                }
                            }
                        },
                    }
                }
            },
        }
    }
}

/// What follows a file's offset: the executable and unpacked flags, then
/// the tail.
pub open spec fn p_file_mid(
    whole: Seq<u8>,
    s4: Seq<u8>,
    size: u64,
    off: u64,
    used: nat,
) -> Option<(GNode, nat)> {
    if !starts_with(s4, lit_executable()) {
        Option::None
    } else {
        let s5 = suffix_from(s4, 15);
        match p_bool(s5) {
            Option::None => Option::None,
            Option::Some((ex, c3)) => {
                let s6 = suffix_from(s5, c3);
                if !starts_with(s6, lit_unpacked()) {
                    Option::None
                } else {
                    let s7 = suffix_from(s6, 12);
                    match p_bool(s7) {
                        Option::None => Option::None,
                        Option::Some((up, c4)) => {
                            let s8 = suffix_from(s7, c4);
                            p_file_tail(whole, s8, size, off, ex, up,
                                (used + 15 + c3 + 12 + c4) as nat)
                        },
                    }
                }
            },
        }
    }
}

/// A node object.
pub open spec fn p_node(s: Seq<u8>) -> Option<(GNode, nat)>
    decreases s.len(), 2int,
{
    if starts_with(s, lit_size()) {
        let s1 = suffix_from(s, 8);
        match p_dec(s1) {
            Option::None => Option::None,
            Option::Some((size, c1)) => {
                let s2 = suffix_from(s1, c1);
                if !starts_with(s2, lit_offset()) {
                    Option::None
                } else {
                    let s3 = suffix_from(s2, 11);
                    match p_dec(s3) {
                        Option::None => Option::None,
                        Option::Some((off, c2)) => {
                            let s4 = suffix_from(s3, c2);
                            p_file_mid(s, s4, size, off, (8 + c1 + 11 + c2) as nat)
                        },
                    }
                }
            },
        }
    } else if starts_with(s, lit_files()) {
        let s1 = suffix_from(s, 9);
        if s1.len() == 0 || s1[0] != 123 {
            Option::None
        } else {
            let s2 = suffix_from(s, 10);
            match p_entry_list(s2) {
                Option::None => Option::None,
                Option::Some((es, c)) => {
                    let s3 = suffix_from(s2, c);
                    if s3.len() >= 1 && s3[0] == 125 {
                        Option::Some((GNode::Directory { entries: es }, (10 + c + 1) as nat))
                    } else {
                        Option::None
                    }
                },
            }
        }
    } else if starts_with(s, lit_link()) {
        let s1 = suffix_from(s, 8);
        match p_string(s1) {
            Option::None => Option::None,
            Option::Some((t, c)) => {
                let s2 = suffix_from(s1, c);
                if s2.len() >= 1 && s2[0] == 125 {
                    Option::Some((GNode::Link { target: t }, (8 + c + 1) as nat))
                } else {
                    Option::None
                }
            },
        }
    } else {
        Option::None
    }
}

/// What follows a file's `unpacked` flag: either the closing brace, or the
/// integrity member and then the closing brace.
pub open spec fn p_file_tail(
    whole: Seq<u8>,
    s8: Seq<u8>,
    size: u64,
    off: u64,
    ex: bool,
    up: bool,
    used: nat,
) -> Option<(GNode, nat)> {
    if s8.len() >= 1 && s8[0] == 125 {
        Option::Some(
            (
                GNode::File {
                    size: size as nat,
                    offset: off as nat,
                    executable: ex,
                    unpacked: up,
                    integrity: Option::None,
                },
                (used + 1) as nat,
            ),
        )
    } else if starts_with(s8, lit_integrity()) {
        let s9 = suffix_from(s8, 13);
        match p_integrity(s9) {
            Option::None => Option::None,
            Option::Some((it, c5)) => {
                let s10 = suffix_from(s9, c5);
                if s10.len() >= 1 && s10[0] == 125 {
                    Option::Some(
                        (
                            GNode::File {
                                size: size as nat,
                                offset: off as nat,
                                executable: ex,
                                unpacked: up,
                                integrity: Option::Some(it),
                            },
                            (used + 13 + c5 + 1) as nat,
                        ),
                    )
                } else {
                    Option::None
                }
            },
        }
    } else {
        Option::None
    }
}

/// One or more `"name":node` entries separated by commas, then the closing
/// brace.
pub open spec fn p_entry_items(s: Seq<u8>) -> Option<(Seq<(Seq<u8>, GNode)>, nat)>
    decreases s.len(), 0int,
{
    if s.len() == 0 {
        Option::None
    } else {
        match p_string(s) {
            Option::None => Option::None,
            Option::Some((name, c1)) => {
                let s2 = suffix_from(s, c1);
                if s2.len() == 0 || s2[0] != 58 {
                    Option::None
                } else {
                    match p_node(suffix_from(s, (c1 + 1) as nat)) {
                        Option::None => Option::None,
                        Option::Some((child, c2)) => {
                            let s3 = suffix_from(s, (c1 + 1 + c2) as nat);
                            if s3.len() >= 1 && s3[0] == 44 {
                                match p_entry_items(suffix_from(s, (c1 + 1 + c2 + 1) as nat)) {
                                    Option::None => Option::None,
                                    Option::Some((rest, c3)) => Option::Some(
                                        (
                                            seq![(name, child)] + rest,
                                            (c1 + 1 + c2 + 1 + c3) as nat,
                                        ),
                                    ),
                                }
                            } else if s3.len() >= 1 && s3[0] == 125 {
                                Option::Some((seq![(name, child)], (c1 + 1 + c2 + 1) as nat))
                            } else {
                                Option::None
                            }
                        },
                    }
                }
            },
        }
    }
}

/// A directory's entry object body including its closing brace.
pub open spec fn p_entry_list(s: Seq<u8>) -> Option<(Seq<(Seq<u8>, GNode)>, nat)>
    decreases s.len(), 1int,
{
    if s.len() == 0 {
        Option::None
    } else if s[0] == 125 {
        Option::Some((Seq::<(Seq<u8>, GNode)>::empty(), 1nat))
    } else {
        p_entry_items(s)
    }
}

fn parse_bool(data: &Vec<u8>, pos: usize) -> (r: Option<(bool, usize)>)
    requires
        pos <= data@.len(),
    ensures
        ({
            let s = suffix_from(data@, pos as nat);
            match r {
                Option::Some((v, np)) => pos < np <= data@.len() && p_bool(s) == Option::Some(
                    (v, (np - pos) as nat),
                ),
                Option::None => p_bool(s) is None,
            }
        }),
{
    let n = data.len();
    let tv = crate::jsontext::bool_vec(true);
    if matches_at(data, pos, &tv) {
        proof {
            assert(suffix_from(data@, pos as nat).len() == n - pos);
            assert(pos + 4 <= n);
        }
        return Option::Some((true, pos + 4));
    }
    let fv = crate::jsontext::bool_vec(false);
    if matches_at(data, pos, &fv) {
        proof {
            assert(suffix_from(data@, pos as nat).len() == n - pos);
            assert(pos + 5 <= n);
        }
        return Option::Some((false, pos + 5));
    }
    Option::None
}

fn parse_dec(data: &Vec<u8>, pos: usize) -> (r: Option<(u64, usize)>)
    requires
        pos <= data@.len(),
    ensures
        ({
            let s = suffix_from(data@, pos as nat);
            match r {
                Option::Some((v, np)) => pos < np <= data@.len() && p_dec(s) == Option::Some(
                    (v, (np - pos) as nat),
                ),
                Option::None => p_dec(s) is None,
            }
        }),
{
    let ghost s = suffix_from(data@, pos as nat);
    let n = data.len();
    let mut j: usize = pos;
    while j < n && 48 <= data[j] && data[j] <= 57
        invariant
            pos <= j <= n,
            n == data@.len(),
            forall|m: int| pos <= m < j ==> is_digit(#[trigger] data@[m]),
        decreases n - j,
    {
        j += 1;
    }
    proof {
        assert(forall|m: int| 0 <= m < j - pos ==> #[trigger] s[m] == data@[pos + m]);
        if j < n {
            assert(s[j - pos] == data@[j as int]);
        }
        lemma_digit_run_char(s, (j - pos) as nat);
    }
    let k = j - pos;
    if k < 1 || k > 19 {
        return Option::None;
    }
    if k > 1 && data[pos] == 48 {
        assert(s[0] == data@[pos as int]);
        return Option::None;
    }
    assert(s[0] == data@[pos as int]);
    let ghost run = s.subrange(0, k as int);
    proof {
        assert(forall|m: int| 0 <= m < k ==> #[trigger] run[m] == s[m]);
        assert(all_digits(run));
    }
    let mut acc: u64 = 0;
    let mut m: usize = pos;
    while m < j
        invariant
            pos <= m <= j <= n,
            n == data@.len(),
            j - pos <= 19,
            s == suffix_from(data@, pos as nat),
            forall|q: int| pos <= q < j ==> is_digit(#[trigger] data@[q]),
            acc == dec_value(data@.subrange(pos as int, m as int)),
            acc < pow10((m - pos) as nat),
        decreases j - m,
    {
        proof {
            lemma_pow10_mono((m - pos) as nat, 18);
            lemma_pow10_19();
            assert(pow10(18) * 10 == pow10(19));
        }
        let d = data[m] - 48;
        acc = acc * 10 + d as u64;
        proof {
            let pre = data@.subrange(pos as int, m as int);
            let cur = data@.subrange(pos as int, m + 1);
            assert(cur.drop_last() =~= pre);
            assert(cur.last() == data@[m as int]);
            assert(dec_value(cur) == dec_value(pre) * 10 + (data@[m as int] - 48));
            assert(forall|q: int| 0 <= q < cur.len() ==> #[trigger] cur[q] == data@[pos + q]);
            assert(all_digits(cur));
            lemma_dec_value_bound(cur);
        }
        m += 1;
    }
    proof {
        assert(run =~= data@.subrange(pos as int, j as int));
        lemma_dec_value_bound(run);
        lemma_pow10_19();
        assert(p_dec(s) == Option::Some(((dec_value(run) as u64), (k as nat))));
    }
    Option::Some((acc, j))
}

fn parse_strbody(data: &Vec<u8>, pos: usize) -> (r: Option<(Vec<u8>, usize)>)
    requires
        pos <= data@.len(),
    ensures
        ({
            let s = suffix_from(data@, pos as nat);
            match r {
                Option::Some((v, np)) => pos < np <= data@.len() && p_strbody(s) == Option::Some(
                    (v@, (np - pos) as nat),
                ),
                Option::None => p_strbody(s) is None,
            }
        }),
    decreases data@.len() - pos,
{
    let ghost s = suffix_from(data@, pos as nat);
    let n = data.len();
    if pos == n {
        return Option::None;
    }
    proof {
        assert(s[0] == data@[pos as int]);
    }
    let b = data[pos];
    if b == 34 {
        return Option::Some((Vec::new(), pos + 1));
    }
    if b == 92 {
        if pos + 1 < n && (data[pos + 1] == 34 || data[pos + 1] == 92) {
            proof {
                assert(s[1] == data@[pos + 1]);
                assert(s.skip(2) =~= suffix_from(data@, (pos + 2) as nat));
            }
            match parse_strbody(data, pos + 2) {
                Option::Some((mut t, np)) => {
                    let e = data[pos + 1];
                    t.insert(0, e);
                    proof {
                        assert(t@ =~= seq![s[1]] + t@.drop_first());
                    }
                    return Option::Some((t, np));
                },
                Option::None => {
                    return Option::None;
                },
            }
        } else {
            proof {
                if pos + 1 < n {
                    assert(s[1] == data@[pos + 1]);
                }
                assert(s.len() >= 2 ==> !(s[1] == 34 || s[1] == 92));
            }
            return Option::None;
        }
    }
    if b < 32 {
        return Option::None;
    }
    proof {
        assert(s.skip(1) =~= suffix_from(data@, (pos + 1) as nat));
    }
    match parse_strbody(data, pos + 1) {
        Option::Some((mut t, np)) => {
            t.insert(0, b);
            proof {
                assert(t@ =~= seq![s[0]] + t@.drop_first());
            }
            Option::Some((t, np))
        },
        Option::None => Option::None,
    }
}

fn parse_string(data: &Vec<u8>, pos: usize) -> (r: Option<(Vec<u8>, usize)>)
    requires
        pos <= data@.len(),
    ensures
        ({
            let s = suffix_from(data@, pos as nat);
            match r {
                Option::Some((v, np)) => pos < np <= data@.len() && p_string(s) == Option::Some(
                    (v@, (np - pos) as nat),
                ),
                Option::None => p_string(s) is None,
            }
        }),
{
    let ghost s = suffix_from(data@, pos as nat);
    if pos == data.len() {
        return Option::None;
    }
    proof {
        assert(s[0] == data@[pos as int]);
    }
    if data[pos] != 34 {
        return Option::None;
    }
    proof {
        assert(s.skip(1) =~= suffix_from(data@, (pos + 1) as nat));
    }
    match parse_strbody(data, pos + 1) {
        Option::Some((t, np)) => Option::Some((t, np)),
        Option::None => Option::None,
    }
}

fn parse_hex_items(data: &Vec<u8>, pos: usize) -> (r: Option<(Vec<Vec<u8>>, usize)>)
    requires
        pos <= data@.len(),
    ensures
        ({
            let s = suffix_from(data@, pos as nat);
            match r {
                Option::Some((v, np)) => pos < np <= data@.len() && p_hex_items(s)
                    == Option::Some((v.deep_view(), (np - pos) as nat)),
                Option::None => p_hex_items(s) is None,
            }
        }),
    decreases data@.len() - pos,
{
    let ghost s = suffix_from(data@, pos as nat);
    if pos == data.len() {
        return Option::None;
    }
    match parse_string(data, pos) {
        Option::None => Option::None,
        Option::Some((h, np1)) => {
            let ghost c = (np1 - pos) as nat;
            proof {
                assert(suffix_from(s, c) =~= suffix_from(data@, np1 as nat));
            }
            if np1 < data.len() && data[np1] == 44 {
                proof {
                    assert(suffix_from(s, c)[0] == data@[np1 as int]);
                    assert(suffix_from(s, (c + 1) as nat) =~= suffix_from(
                        data@,
                        (np1 + 1) as nat,
                    ));
                }
                match parse_hex_items(data, np1 + 1) {
                    Option::None => Option::None,
                    Option::Some((mut hs, np2)) => {
                        let ghost tail_dv = hs.deep_view();
                        hs.insert(0, h);
                        proof {
                            assert(hs.deep_view() =~~= seq![hs@[0]@] + tail_dv);
                            assert(hs@[0]@ == h@);
                        }
                        Option::Some((hs, np2))
                    },
                }
            } else if np1 < data.len() && data[np1] == 93 {
                proof {
                    assert(suffix_from(s, c)[0] == data@[np1 as int]);
                }
                let mut hs: Vec<Vec<u8>> = Vec::new();
                hs.push(h);
                proof {
                    assert(hs.deep_view() =~~= seq![h@]);
                }
                Option::Some((hs, np1 + 1))
            } else {
                proof {
                    if np1 < data.len() {
                        assert(suffix_from(s, c)[0] == data@[np1 as int]);
                    } else {
                        assert(suffix_from(s, c).len() == 0);
                    }
                }
                Option::None
            }
        },
    }
}

fn parse_hex_list(data: &Vec<u8>, pos: usize) -> (r: Option<(Vec<Vec<u8>>, usize)>)
    requires
        pos <= data@.len(),
    ensures
        ({
            let s = suffix_from(data@, pos as nat);
            match r {
                Option::Some((v, np)) => pos < np <= data@.len() && p_hex_list(s)
                    == Option::Some((v.deep_view(), (np - pos) as nat)),
                Option::None => p_hex_list(s) is None,
            }
        }),
{
    let ghost s = suffix_from(data@, pos as nat);
    if pos == data.len() {
        return Option::None;
    }
    proof {
        assert(s[0] == data@[pos as int]);
    }
    if data[pos] == 93 {
        let hs: Vec<Vec<u8>> = Vec::new();
        proof {
            assert(hs.deep_view() =~~= Seq::<Seq<u8>>::empty());
        }
        return Option::Some((hs, pos + 1));
    }
    parse_hex_items(data, pos)
}

#[verifier::rlimit(100)]
fn parse_integrity(data: &Vec<u8>, pos: usize) -> (r: Option<(Integrity, usize)>)
    requires
        pos <= data@.len(),
    ensures
        ({
            let s = suffix_from(data@, pos as nat);
            match r {
                Option::Some((v, np)) => pos < np <= data@.len() && p_integrity(s)
                    == Option::Some((v@, (np - pos) as nat)),
                Option::None => p_integrity(s) is None,
            }
        }),
{
    let ghost s = suffix_from(data@, pos as nat);
    let n = data.len();
    let lit = crate::jsontext::lit_alg_hash_vec();
    if !matches_at(data, pos, &lit) {
        return Option::None;
    }
    proof {
        assert(s.len() == n - pos);
        assert(pos + 29 <= n);
        assert(suffix_from(s, 29) =~= suffix_from(data@, (pos + 29) as nat));
    }
    match parse_string(data, pos + 29) {
        Option::None => Option::None,
        Option::Some((hash, np1)) => {
            proof {
                assert(suffix_from(suffix_from(s, 29), (np1 - pos - 29) as nat)
                    =~= suffix_from(data@, np1 as nat));
            }
            let lbs = crate::jsontext::lit_block_size_vec();
            if !matches_at(data, np1, &lbs) {
                return Option::None;
            }
            proof {
                assert(suffix_from(data@, np1 as nat).len() == n - np1);
                assert(np1 + 13 <= n);
                assert(suffix_from(suffix_from(data@, np1 as nat), 13) =~= suffix_from(
                    data@,
                    (np1 + 13) as nat,
                ));
            }
            match parse_dec(data, np1 + 13) {
                Option::None => Option::None,
                Option::Some((bsv, np2)) => {
                    if bsv == 0 || bsv > 0xffff_ffffu64 {
                        return Option::None;
                    }
                    proof {
                        assert(suffix_from(suffix_from(data@, (np1 + 13) as nat), (np2 - np1
                            - 13) as nat) =~= suffix_from(data@, np2 as nat));
                    }
                    let lbl = crate::jsontext::lit_blocks_vec();
                    if !matches_at(data, np2, &lbl) {
                        return Option::None;
                    }
                    proof {
                        assert(suffix_from(data@, np2 as nat).len() == n - np2);
                        assert(np2 + 11 <= n);
                        assert(suffix_from(suffix_from(data@, np2 as nat), 11) =~= suffix_from(
                            data@,
                            (np2 + 11) as nat,
                        ));
                    }
                    match parse_hex_list(data, np2 + 11) {
                        Option::None => Option::None,
                        Option::Some((blocks, np3)) => {
                            proof {
                                assert(suffix_from(suffix_from(data@, (np2 + 11) as nat), (np3
                                    - np2 - 11) as nat) =~= suffix_from(data@, np3 as nat));
                            }
                            if np3 < data.len() && data[np3] == 125 {
                                proof {
                                    assert(suffix_from(data@, np3 as nat)[0]
                                        == data@[np3 as int]);
                                }
                                Option::Some(
                                    (
                                        Integrity { hash, block_size: bsv as u32, blocks },
                                        np3 + 1,
                                    ),
                                )
                            } else {
                                proof {
                                    if np3 < data.len() {
                                        assert(suffix_from(data@, np3 as nat)[0]
                                            == data@[np3 as int]);
                                    } else {
                                        assert(suffix_from(data@, np3 as nat).len() == 0);
                                    }
                                }
                                Option::None
                            }
                        },
                    }
                },
            }
        },
    }
}

#[verifier::rlimit(100)]
fn parse_file_tail(
    data: &Vec<u8>,
    start: usize,
    np4: usize,
    size: u64,
    off: u64,
    ex: bool,
    up: bool,
) -> (r: Option<(Node, usize)>)
    requires
        start <= np4 <= data@.len(),
    ensures
        ({
            let s = suffix_from(data@, start as nat);
            let s8 = suffix_from(data@, np4 as nat);
            let used = (np4 - start) as nat;
            match r {
                Option::Some((nd, np)) => start < np <= data@.len() && p_file_tail(
                    s,
                    s8,
                    size,
                    off,
                    ex,
                    up,
                    used,
                ) == Option::Some((nd@, (np - start) as nat)),
                Option::None => p_file_tail(s, s8, size, off, ex, up, used) is None,
            }
        }),
{
    let n = data.len();
    let ghost s8 = suffix_from(data@, np4 as nat);
    if np4 < n && data[np4] == 125 {
        proof {
            assert(s8[0] == data@[np4 as int]);
        }
        return Option::Some(
            (
                Node::File {
                    size,
                    offset: off,
                    executable: ex,
                    unpacked: up,
                    integrity: Option::None,
                },
                np4 + 1,
            ),
        );
    }
    proof {
        if np4 < n {
            assert(s8[0] == data@[np4 as int]);
        } else {
            assert(s8.len() == 0);
        }
    }
    let li = crate::jsontext::lit_integrity_vec();
    if !matches_at(data, np4, &li) {
        return Option::None;
    }
    proof {
        assert(s8.len() == n - np4);
        assert(np4 + 13 <= n);
        assert(suffix_from(s8, 13) =~= suffix_from(data@, (np4 + 13) as nat));
    }
    match parse_integrity(data, np4 + 13) {
        Option::None => Option::None,
        Option::Some((it, np5)) => {
            proof {
                assert(suffix_from(suffix_from(data@, (np4 + 13) as nat), (np5 - np4
                    - 13) as nat) =~= suffix_from(data@, np5 as nat));
            }
            if np5 < n && data[np5] == 125 {
                proof {
                    assert(suffix_from(data@, np5 as nat)[0] == data@[np5 as int]);
                }
                Option::Some(
                    (
                        Node::File {
                            size,
                            offset: off,
                            executable: ex,
                            unpacked: up,
                            integrity: Option::Some(it),
                        },
                        np5 + 1,
                    ),
                )
            } else {
                proof {
                    if np5 < n {
                        assert(suffix_from(data@, np5 as nat)[0] == data@[np5 as int]);
                    } else {
                        assert(suffix_from(data@, np5 as nat).len() == 0);
                    }
                }
                Option::None
            }
        },
    }
}

#[verifier::rlimit(100)]
fn parse_file_mid(data: &Vec<u8>, start: usize, np2: usize, size: u64, off: u64) -> (r: Option<
    (Node, usize),
>)
    requires
        start <= np2 <= data@.len(),
    ensures
        ({
            let s = suffix_from(data@, start as nat);
            let s4 = suffix_from(data@, np2 as nat);
            let used = (np2 - start) as nat;
            match r {
                Option::Some((nd, np)) => start < np <= data@.len() && p_file_mid(
                    s,
                    s4,
                    size,
                    off,
                    used,
                ) == Option::Some((nd@, (np - start) as nat)),
                Option::None => p_file_mid(s, s4, size, off, used) is None,
            }
        }),
{
    let n = data.len();
    let le = crate::jsontext::lit_executable_vec();
    if !matches_at(data, np2, &le) {
        return Option::None;
    }
    proof {
        assert(suffix_from(data@, np2 as nat).len() == n - np2);
        assert(np2 + 15 <= n);
        assert(suffix_from(suffix_from(data@, np2 as nat), 15) =~= suffix_from(
            data@,
            (np2 + 15) as nat,
        ));
    }
    match parse_bool(data, np2 + 15) {
        Option::None => Option::None,
        Option::Some((ex, np3)) => {
            proof {
                assert(suffix_from(suffix_from(data@, (np2 + 15) as nat), (np3 - np2
                    - 15) as nat) =~= suffix_from(data@, np3 as nat));
            }
            let lu = crate::jsontext::lit_unpacked_vec();
            if !matches_at(data, np3, &lu) {
                return Option::None;
            }
            proof {
                assert(suffix_from(data@, np3 as nat).len() == n - np3);
                assert(np3 + 12 <= n);
                assert(suffix_from(suffix_from(data@, np3 as nat), 12) =~= suffix_from(
                    data@,
                    (np3 + 12) as nat,
                ));
            }
            match parse_bool(data, np3 + 12) {
                Option::None => Option::None,
                Option::Some((up, np4)) => {
                    proof {
                        assert(suffix_from(suffix_from(data@, (np3 + 12) as nat), (np4 - np3
                            - 12) as nat) =~= suffix_from(data@, np4 as nat));
                    }
                    parse_file_tail(data, start, np4, size, off, ex, up)
                },
            }
        },
    }
}

#[verifier::rlimit(100)]
fn parse_file_node(data: &Vec<u8>, pos: usize) -> (r: Option<(Node, usize)>)
    requires
        pos <= data@.len(),
        starts_with(suffix_from(data@, pos as nat), lit_size()),
    ensures
        ({
            let s = suffix_from(data@, pos as nat);
            match r {
                Option::Some((nd, np)) => pos < np <= data@.len() && p_node(s) == Option::Some(
                    (nd@, (np - pos) as nat),
                ),
                Option::None => p_node(s) is None,
            }
        }),
{
    let ghost s = suffix_from(data@, pos as nat);
    let n = data.len();
    proof {
        assert(s.len() == n - pos);
        assert(pos + 8 <= n);
        assert(suffix_from(s, 8) =~= suffix_from(data@, (pos + 8) as nat));
    }
    match parse_dec(data, pos + 8) {
            Option::None => Option::None,
            Option::Some((size, np1)) => {
                proof {
                    assert(suffix_from(suffix_from(data@, (pos + 8) as nat), (np1 - pos
                        - 8) as nat) =~= suffix_from(data@, np1 as nat));
                }
                let lo = crate::jsontext::lit_offset_vec();
                if !matches_at(data, np1, &lo) {
                    return Option::None;
                }
                proof {
                    assert(suffix_from(data@, np1 as nat).len() == n - np1);
                    assert(np1 + 11 <= n);
                    assert(suffix_from(suffix_from(data@, np1 as nat), 11) =~= suffix_from(
                        data@,
                        (np1 + 11) as nat,
                    ));
                }
                match parse_dec(data, np1 + 11) {
                    Option::None => Option::None,
                    Option::Some((off, np2)) => {
                        proof {
                            assert(suffix_from(suffix_from(data@, (np1 + 11) as nat), (np2 - np1
                                - 11) as nat) =~= suffix_from(data@, np2 as nat));
                        }
                        parse_file_mid(data, pos, np2, size, off)
                    },
                }
            },
        }
}

#[verifier::rlimit(100)]
fn parse_dir_node(data: &Vec<u8>, pos: usize) -> (r: Option<(Node, usize)>)
    requires
        pos <= data@.len(),
        starts_with(suffix_from(data@, pos as nat), lit_files()),
        !starts_with(suffix_from(data@, pos as nat), lit_size()),
    ensures
        ({
            let s = suffix_from(data@, pos as nat);
            match r {
                Option::Some((nd, np)) => pos < np <= data@.len() && p_node(s) == Option::Some(
                    (nd@, (np - pos) as nat),
                ),
                Option::None => p_node(s) is None,
            }
        }),
    decreases data@.len() - pos, 2int,
{
    let ghost s = suffix_from(data@, pos as nat);
    let n = data.len();
    proof {
        assert(s.len() == n - pos);
        assert(pos + 9 <= n);
        assert(suffix_from(s, 9) =~= suffix_from(data@, (pos + 9) as nat));
    }
    if pos + 9 < n && data[pos + 9] == 123 {
        proof {
            assert(suffix_from(data@, (pos + 9) as nat)[0] == data@[pos + 9]);
            assert(suffix_from(s, 10) =~= suffix_from(data@, (pos + 10) as nat));
        }
        match parse_entry_list(data, pos + 10) {
            Option::None => Option::None,
            Option::Some((es, np)) => {
                proof {
                    assert(suffix_from(
                        suffix_from(data@, (pos + 10) as nat),
                        (np - pos - 10) as nat,
                    ) =~= suffix_from(data@, np as nat));
                }
                if np < n && data[np] == 125 {
                    proof {
                        assert(suffix_from(data@, np as nat)[0] == data@[np as int]);
                    }
                    Option::Some((Node::Directory { entries: es }, np + 1))
                } else {
                    proof {
                        if np < n {
                            assert(suffix_from(data@, np as nat)[0] == data@[np as int]);
                        } else {
                            assert(suffix_from(data@, np as nat).len() == 0);
                        }
                    }
                    Option::None
                }
            },
        }
    } else {
        proof {
            if pos + 9 < n {
                assert(suffix_from(data@, (pos + 9) as nat)[0] == data@[pos + 9]);
            } else {
                assert(suffix_from(data@, (pos + 9) as nat).len() == 0);
            }
        }
        Option::None
    }
}

/// Parses one node object starting at `pos`.
#[verifier::rlimit(100)]
pub fn parse_node(data: &Vec<u8>, pos: usize) -> (r: Option<(Node, usize)>)
    requires
        pos <= data@.len(),
    ensures
        ({
            let s = suffix_from(data@, pos as nat);
            match r {
                Option::Some((nd, np)) => pos < np <= data@.len() && p_node(s) == Option::Some(
                    (nd@, (np - pos) as nat),
                ),
                Option::None => p_node(s) is None,
            }
        }),
    decreases data@.len() - pos, 3int,
{
    let ghost s = suffix_from(data@, pos as nat);
    let n = data.len();
    let ls = crate::jsontext::lit_size_vec();
    if matches_at(data, pos, &ls) {
        parse_file_node(data, pos)
    } else {
        let lf = crate::jsontext::lit_files_vec();
        if matches_at(data, pos, &lf) {
            parse_dir_node(data, pos)
        } else {
            let ll = crate::jsontext::lit_link_vec();
            if matches_at(data, pos, &ll) {
                proof {
                    assert(s.len() == n - pos);
                    assert(pos + 8 <= n);
                    assert(suffix_from(s, 8) =~= suffix_from(data@, (pos + 8) as nat));
                }
                match parse_string(data, pos + 8) {
                    Option::None => Option::None,
                    Option::Some((t, np)) => {
                        proof {
                            assert(suffix_from(
                                suffix_from(data@, (pos + 8) as nat),
                                (np - pos - 8) as nat,
                            ) =~= suffix_from(data@, np as nat));
                        }
                        if np < n && data[np] == 125 {
                            proof {
                                assert(suffix_from(data@, np as nat)[0] == data@[np as int]);
                            }
                            Option::Some((Node::Link { target: t }, np + 1))
                        } else {
                            proof {
                                if np < n {
                                    assert(suffix_from(data@, np as nat)[0]
                                        == data@[np as int]);
                                } else {
                                    assert(suffix_from(data@, np as nat).len() == 0);
                                }
                            }
                            Option::None
                        }
                    },
                }
            } else {
                Option::None
            }
        }
    }
}

#[verifier::rlimit(100)]
fn parse_entry_items(data: &Vec<u8>, pos: usize) -> (r: Option<(Vec<(Vec<u8>, Node)>, usize)>)
    requires
        pos <= data@.len(),
    ensures
        ({
            let s = suffix_from(data@, pos as nat);
            match r {
                Option::Some((es, np)) => pos < np <= data@.len() && p_entry_items(s)
                    == Option::Some((entries_view(es@), (np - pos) as nat)),
                Option::None => p_entry_items(s) is None,
            }
        }),
    decreases data@.len() - pos, 0int,
{
    let ghost s = suffix_from(data@, pos as nat);
    let n = data.len();
    if pos == n {
        return Option::None;
    }
    match parse_string(data, pos) {
        Option::None => Option::None,
        Option::Some((name, np1)) => {
            proof {
                assert(suffix_from(s, (np1 - pos) as nat) =~= suffix_from(data@, np1 as nat));
            }
            if np1 < n && data[np1] == 58 {
                proof {
                    assert(suffix_from(data@, np1 as nat)[0] == data@[np1 as int]);
                    assert(suffix_from(s, (np1 + 1 - pos) as nat) =~= suffix_from(
                        data@,
                        (np1 + 1) as nat,
                    ));
                }
                match parse_node(data, np1 + 1) {
                    Option::None => Option::None,
                    Option::Some((child, np2)) => {
                        proof {
                            assert(suffix_from(s, (np2 - pos) as nat) =~= suffix_from(
                                data@,
                                np2 as nat,
                            ));
                        }
                        if np2 < n && data[np2] == 44 {
                            proof {
                                assert(suffix_from(data@, np2 as nat)[0] == data@[np2 as int]);
                                assert(suffix_from(s, (np2 + 1 - pos) as nat) =~= suffix_from(
                                    data@,
                                    (np2 + 1) as nat,
                                ));
                            }
                            match parse_entry_items(data, np2 + 1) {
                                Option::None => Option::None,
                                Option::Some((mut es, np3)) => {
                                    let ghost tail_ev = entries_view(es@);
                                    let ghost es_before = es@;
                                    es.insert(0, (name, child));
                                    proof {
                                        lemma_entries_view_len(es@);
                                        lemma_entries_view_len(es_before);
                                        assert(es@.drop_first() =~= es_before);
                                        assert forall|k: int|
                                            0 <= k < es@.len() implies #[trigger] entries_view(
                                            es@,
                                        )[k] == (seq![(name@, child@)] + tail_ev)[k] by {
                                            if k == 0 {
                                                assert(entries_view(es@)[0] == entry_view(
                                                    es@[0],
                                                ));
                                            } else {
                                                assert(es@[k] == es_before[k - 1]);
                                                assert(entries_view(es@)[k] == entry_view(
                                                    es_before[k - 1],
                                                ));
                                                assert(entries_view(es_before)[k - 1]
                                                    == entry_view(es_before[k - 1]));
                                            }
                                        }
                                        assert(entries_view(es@) =~= seq![(name@, child@)]
                                            + tail_ev);
                                    }
                                    Option::Some((es, np3))
                                },
                            }
                        } else if np2 < n && data[np2] == 125 {
                            proof {
                                assert(suffix_from(data@, np2 as nat)[0] == data@[np2 as int]);
                            }
                            let mut es: Vec<(Vec<u8>, Node)> = Vec::new();
                            es.push((name, child));
                            proof {
                                lemma_entries_view_len(es@);
                                assert(entries_view(es@) =~= seq![(name@, child@)]);
                            }
                            Option::Some((es, np2 + 1))
                        } else {
                            proof {
                                if np2 < n {
                                    assert(suffix_from(data@, np2 as nat)[0]
                                        == data@[np2 as int]);
                                } else {
                                    assert(suffix_from(data@, np2 as nat).len() == 0);
                                }
                            }
                            Option::None
                        }
                    },
                }
            } else {
                proof {
                    if np1 < n {
                        assert(suffix_from(data@, np1 as nat)[0] == data@[np1 as int]);
                    } else {
                        assert(suffix_from(data@, np1 as nat).len() == 0);
                    }
                }
                Option::None
            }
        },
    }
}

fn parse_entry_list(data: &Vec<u8>, pos: usize) -> (r: Option<(Vec<(Vec<u8>, Node)>, usize)>)
    requires
        pos <= data@.len(),
    ensures
        ({
            let s = suffix_from(data@, pos as nat);
            match r {
                Option::Some((es, np)) => pos < np <= data@.len() && p_entry_list(s)
                    == Option::Some((entries_view(es@), (np - pos) as nat)),
                Option::None => p_entry_list(s) is None,
            }
        }),
    decreases data@.len() - pos, 1int,
{
    let ghost s = suffix_from(data@, pos as nat);
    if pos == data.len() {
        return Option::None;
    }
    proof {
        assert(s[0] == data@[pos as int]);
    }
    if data[pos] == 125 {
        let es: Vec<(Vec<u8>, Node)> = Vec::new();
        proof {
            assert(entries_view(es@) =~= Seq::<(Seq<u8>, GNode)>::empty());
        }
        return Option::Some((es, pos + 1));
    }
    parse_entry_items(data, pos)
}

} // verus!
