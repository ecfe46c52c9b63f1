//! The crawler: turns a source tree (held in memory as plain values) into a
//! header tree, the ordered list of embedded file bodies with their assigned
//! offsets, and the list of files excluded from the body ("unpacked").
//!
//! Entries of a directory are required to be strictly name-sorted, the order
//! a deterministic walk of a real directory yields; offsets are assigned by
//! a running byte counter in exactly that order.

use vstd::prelude::*;
use crate::error::ArchiveError;
use crate::integrity::{integrity_of, digest};
use crate::node::{GNode, Node, GIntegrity, Integrity, wf_name, wf_target, bytes_lt, name_lt,
    dec_limit};
use crate::numtext::{pow10, lemma_pow10_19};
use crate::util::copy_range;

verus! {

broadcast use
    vstd::seq::axiom_seq_index_decreases,
    vstd::seq::axiom_seq_subrange_decreases,
    vstd::std_specs::vec::axiom_vec_index_decreases,
    vstd::std_specs::vec::axiom_vec_decreases_to_view;

/// Ghost model of a source-tree entry.
pub enum GFsEntry {
    File { data: Seq<u8>, executable: bool },
    Dir { entries: Seq<(Seq<u8>, GFsEntry)> },
    Link { target: Seq<u8> },
}

/// A source-tree entry, as the embedding application hands it over: file
/// bytes, directories with name-sorted entries, symbolic-link targets.
#[derive(Debug, PartialEq, Eq)]
pub enum FsEntry {
    File { data: Vec<u8>, executable: bool },
    Dir { entries: Vec<(Vec<u8>, FsEntry)> },
    Link { target: Vec<u8> },
}

pub open spec fn fs_entry_view(p: (Vec<u8>, FsEntry)) -> (Seq<u8>, GFsEntry)
    decreases p,
{
    (p.0@, fs_view(p.1))
}

pub open spec fn fs_entries_view(es: Seq<(Vec<u8>, FsEntry)>) -> Seq<(Seq<u8>, GFsEntry)>
    decreases es,
{
    if es.len() == 0 {
        Seq::<(Seq<u8>, GFsEntry)>::empty()
    } else {
        fs_entries_view(es.drop_last()).push(fs_entry_view(es.last()))
    }
}

pub open spec fn fs_view(fs: FsEntry) -> GFsEntry
    decreases fs,
{
    match fs {
        FsEntry::File { data, executable } => GFsEntry::File { data: data@, executable },
        FsEntry::Dir { entries } => GFsEntry::Dir { entries: fs_entries_view(entries@) },
        FsEntry::Link { target } => GFsEntry::Link { target: target@ },
    }
}

impl View for FsEntry {
    type V = GFsEntry;

    open spec fn view(&self) -> GFsEntry {
        fs_view(*self)
    }
}

pub proof fn lemma_fs_entries_view_len(es: Seq<(Vec<u8>, FsEntry)>)
    ensures
        fs_entries_view(es).len() == es.len(),
        forall|i: int|
            0 <= i < es.len() ==> #[trigger] fs_entries_view(es)[i] == fs_entry_view(es[i]),
    decreases es.len(),
{
    if es.len() > 0 {
        lemma_fs_entries_view_len(es.drop_last());
    }
}

/// A well-formed source tree: printable names in strict order, file sizes
/// below the decimal cap, printable link targets.
pub open spec fn wf_gfs(fs: GFsEntry) -> bool
    decreases fs,
{
    match fs {
        GFsEntry::File { data, executable } => data.len() < dec_limit(),
        GFsEntry::Dir { entries } => {
            forall|j: int| #![trigger entries[j]]
                0 <= j < entries.len() ==> {
                    &&& wf_name(entries[j].0)
                    &&& wf_gfs(entries[j].1)
                    &&& (j + 1 < entries.len() ==> bytes_lt(entries[j].0, entries[j + 1].0))
                }
        },
        GFsEntry::Link { target } => wf_target(target),
    }
}

/// One crawl result: the header node, the `(path, bytes, offset)` list of
/// embedded files in offset order, the `(path, bytes)` list of unpacked
/// files, and the byte counter after this subtree.
pub struct CrawlOut {
    pub node: GNode,
    pub packed: Seq<(Seq<u8>, Seq<u8>, nat)>,
    pub unpacked: Seq<(Seq<u8>, Seq<u8>)>,
    pub end: nat,
}

pub open spec fn rule_matches(rule: Option<Seq<u8>>, name: Seq<u8>) -> bool {
    match rule {
        Option::Some(r) => r == name,
        Option::None => false,
    }
}

pub open spec fn child_path(dir_path: Seq<u8>, name: Seq<u8>) -> Seq<u8> {
    if dir_path.len() == 0 {
        name
    } else {
        dir_path + seq![47u8] + name
    }
}

/// The crawl of one subtree rooted at `path`, with `off` the next body
/// offset and `unpack` set when an ancestor matched the unpack rule.
pub open spec fn crawl_fs(
    fs: GFsEntry,
    path: Seq<u8>,
    off: nat,
    unpack: bool,
    rule: Option<Seq<u8>>,
    integ: bool,
    bs: nat,
) -> CrawlOut
    decreases fs,
{
    match fs {
        GFsEntry::File { data, executable } => {
            let it = if integ {
                Option::Some(integrity_of(data, bs))
            } else {
                Option::<GIntegrity>::None
            };
            if unpack {
                CrawlOut {
                    node: GNode::File {
                        size: data.len(),
                        offset: 0,
                        executable,
                        unpacked: true,
                        integrity: it,
                    },
                    packed: Seq::empty(),
                    unpacked: seq![(path, data)],
                    end: off,
                }
            } else {
                CrawlOut {
                    node: GNode::File {
                        size: data.len(),
                        offset: off,
                        executable,
                        unpacked: false,
                        integrity: it,
                    },
                    packed: seq![(path, data, off)],
                    unpacked: Seq::empty(),
                    end: off + data.len(),
                }
            }
        },
        GFsEntry::Dir { entries } => {
            let r = crawl_list(entries, path, off, unpack, rule, integ, bs);
            CrawlOut {
                node: GNode::Directory { entries: r.0 },
                packed: r.1,
                unpacked: r.2,
                end: r.3,
            }
        },
        GFsEntry::Link { target } => CrawlOut {
            node: GNode::Link { target },
            packed: Seq::empty(),
            unpacked: Seq::empty(),
            end: off,
        },
    }
}

/// The crawl of a directory's entries, threading the byte counter left to
/// right.
pub open spec fn crawl_list(
    es: Seq<(Seq<u8>, GFsEntry)>,
    dir_path: Seq<u8>,
    off: nat,
    unpack: bool,
    rule: Option<Seq<u8>>,
    integ: bool,
    bs: nat,
) -> (Seq<(Seq<u8>, GNode)>, Seq<(Seq<u8>, Seq<u8>, nat)>, Seq<(Seq<u8>, Seq<u8>)>, nat)
    decreases es,
{
    if es.len() == 0 {
        (Seq::empty(), Seq::empty(), Seq::empty(), off)
    } else {
        let name = es[0].0;
        let cu = unpack || ((es[0].1 is Dir) && rule_matches(rule, name));
        let c = crawl_fs(es[0].1, child_path(dir_path, name), off, cu, rule, integ, bs);
        let r = crawl_list(es.drop_first(), dir_path, c.end, unpack, rule, integ, bs);
        (seq![(name, c.node)] + r.0, c.packed + r.1, c.unpacked + r.2, r.3)
    }
}

/// The byte counter never moves backwards.
pub proof fn lemma_crawl_end_monotone(
    fs: GFsEntry,
    path: Seq<u8>,
    off: nat,
    unpack: bool,
    rule: Option<Seq<u8>>,
    integ: bool,
    bs: nat,
)
    ensures
        crawl_fs(fs, path, off, unpack, rule, integ, bs).end >= off,
    decreases fs,
{
    match fs {
        GFsEntry::Dir { entries } => {
            lemma_crawl_list_end_monotone(entries, path, off, unpack, rule, integ, bs);
        },
        _ => {},
    }
}

/// The decimal cap as a machine value.
pub const DEC_LIMIT_U64: u64 = 10_000_000_000_000_000_000;

pub proof fn lemma_dec_limit_u64()
    ensures
        DEC_LIMIT_U64 as nat == dec_limit(),
{
    lemma_pow10_19();
}

/// Entries from index `i` on are well formed and strictly name-sorted.
pub open spec fn wf_entries_from(es: Seq<(Seq<u8>, GFsEntry)>, i: int) -> bool {
    forall|j: int| #![trigger es[j]]
        i <= j < es.len() ==> {
            &&& wf_name(es[j].0)
            &&& wf_gfs(es[j].1)
            &&& (j + 1 < es.len() ==> bytes_lt(es[j].0, es[j + 1].0))
        }
}

/// Bridge between the directory arm of `wf_gfs` and `wf_entries_from`.
pub proof fn lemma_wf_dir(entries: Seq<(Seq<u8>, GFsEntry)>)
    ensures
        wf_gfs(GFsEntry::Dir { entries }) == wf_entries_from(entries, 0),
{
    let d = GFsEntry::Dir { entries };
    if wf_gfs(d) {
        assert forall|j: int| #![trigger entries[j]]
            0 <= j < entries.len() implies {
            &&& wf_name(entries[j].0)
            &&& wf_gfs(entries[j].1)
            &&& (j + 1 < entries.len() ==> bytes_lt(entries[j].0, entries[j + 1].0))
        } by {
            match d {
                GFsEntry::Dir { entries: e2 } => {
                    assert(e2 == entries);
                    assert(e2[j] == entries[j]);
                    if j + 1 < entries.len() {
                        assert(e2[j + 1] == entries[j + 1]);
                    }
                },
                _ => {},
            }
        }
        assert(wf_entries_from(entries, 0));
    }
    if wf_entries_from(entries, 0) {
        match d {
            GFsEntry::Dir { entries: e2 } => {
                assert(e2 == entries);
                assert forall|j: int| #![trigger e2[j]]
                    0 <= j < e2.len() implies {
                    &&& wf_name(e2[j].0)
                    &&& wf_gfs(e2[j].1)
                    &&& (j + 1 < e2.len() ==> bytes_lt(e2[j].0, e2[j + 1].0))
                } by {
                    assert(entries[j] == e2[j]);
                    if j + 1 < e2.len() {
                        assert(entries[j + 1] == e2[j + 1]);
                    }
                }
                assert(wf_gfs(d));
            },
            _ => {},
        }
    }
}

fn check_name(s: &Vec<u8>) -> (r: bool)
    ensures
        r == wf_name(s@),
{
    if s.len() == 0 {
        return false;
    }
    let mut i: usize = 0;
    while i < s.len()
        invariant
            i <= s@.len(),
            forall|j: int| 0 <= j < i ==> #[trigger] s@[j] >= 32 && s@[j] != 47,
        decreases s@.len() - i,
    {
        if s[i] < 32 || s[i] == 47 {
            return false;
        }
        i += 1;
    }
    true
}

fn check_target(s: &Vec<u8>) -> (r: bool)
    ensures
        r == wf_target(s@),
{
    let mut i: usize = 0;
    while i < s.len()
        invariant
            i <= s@.len(),
            forall|j: int| 0 <= j < i ==> #[trigger] s@[j] >= 32,
        decreases s@.len() - i,
    {
        if s[i] < 32 {
            return false;
        }
        i += 1;
    }
    true
}

/// Validates a source tree against the crawler's well-formedness rules.
pub fn check_tree(fs: &FsEntry) -> (r: bool)
    ensures
        r == wf_gfs(fs@),
    decreases fs, 0int,
{
    match fs {
        FsEntry::File { data, executable } => {
            proof {
                lemma_dec_limit_u64();
            }
            (data.len() as u64) < DEC_LIMIT_U64
        },
        FsEntry::Dir { entries } => {
            let r = check_entries(entries, 0);
            proof {
                lemma_fs_entries_view_len(entries@);
                let ev = fs_entries_view(entries@);
                assert(fs@ == GFsEntry::Dir { entries: ev });
                lemma_wf_dir(ev);
            }
            r
        },
        FsEntry::Link { target } => check_target(target),
    }
}

fn check_entries(es: &Vec<(Vec<u8>, FsEntry)>, i: usize) -> (r: bool)
    requires
        i <= es@.len(),
    ensures
        r == wf_entries_from(fs_entries_view(es@), i as int),
    decreases es, es@.len() - i,
{
    let ghost ev = fs_entries_view(es@);
    proof {
        lemma_fs_entries_view_len(es@);
    }
    if i == es.len() {
        return true;
    }
    let pair = &es[i];
    proof {
        assert(ev[i as int] == fs_entry_view(es@[i as int]));
        assert(fs_entry_view(es@[i as int]).0 == es@[i as int].0@);
        assert(fs_entry_view(es@[i as int]).1 == fs_view(es@[i as int].1));
        assert(pair.0@ == ev[i as int].0);
        assert(pair.1@ == ev[i as int].1);
    }
    if !check_name(&pair.0) {
        proof {
            assert(!wf_name(ev[i as int].0));
            if wf_entries_from(ev, i as int) {
                assert(wf_name(ev[i as int].0));
            }
        }
        return false;
    }
    if !check_tree(&pair.1) {
        proof {
            assert(!wf_gfs(ev[i as int].1));
            if wf_entries_from(ev, i as int) {
                assert(wf_name(ev[i as int].0) && wf_gfs(ev[i as int].1));
            }
        }
        return false;
    }
    if i + 1 < es.len() {
        proof {
            assert(ev[i + 1] == fs_entry_view(es@[i + 1]));
        }
        if !name_lt(&pair.0, &es[i + 1].0) {
            proof {
                assert(!bytes_lt(ev[i as int].0, ev[i + 1].0));
                if wf_entries_from(ev, i as int) {
                    assert(wf_name(ev[i as int].0) && wf_gfs(ev[i as int].1) && (i + 1
                        < ev.len() ==> bytes_lt(ev[i as int].0, ev[i + 1].0)));
                }
            }
            return false;
        }
    }
    let rest = check_entries(es, i + 1);
    proof {
        if rest {
            assert forall|j: int|
                i <= j < ev.len() implies {
                &&& wf_name(#[trigger] ev[j].0)
                &&& wf_gfs(ev[j].1)
                &&& (j + 1 < ev.len() ==> bytes_lt(ev[j].0, ev[j + 1].0))
            } by {
                if j > i {
                    assert(wf_entries_from(ev, i + 1));
                    assert(i + 1 <= j < ev.len());
                    assert(wf_name(ev[j].0) && wf_gfs(ev[j].1) && (j + 1 < ev.len()
                        ==> bytes_lt(ev[j].0, ev[j + 1].0)));
                }
            }
            assert(wf_entries_from(ev, i as int));
        } else {
            if wf_entries_from(ev, i as int) {
                assert forall|j: int|
                    i + 1 <= j < ev.len() implies {
                    &&& wf_name(#[trigger] ev[j].0)
                    &&& wf_gfs(ev[j].1)
                    &&& (j + 1 < ev.len() ==> bytes_lt(ev[j].0, ev[j + 1].0))
                } by {
                    assert(i <= j < ev.len());
                    assert(wf_name(ev[j].0) && wf_gfs(ev[j].1) && (j + 1 < ev.len()
                        ==> bytes_lt(ev[j].0, ev[j + 1].0)));
                }
                assert(wf_entries_from(ev, i + 1));
            }
        }
    }
    rest
}

/// Ghost view of `(path, bytes, offset)` triples.
pub open spec fn triples_view(v: Seq<(Vec<u8>, Vec<u8>, u64)>) -> Seq<(Seq<u8>, Seq<u8>, nat)> {
    Seq::new(v.len(), |i: int| (v[i].0@, v[i].1@, v[i].2 as nat))
}

/// Ghost view of `(path, bytes)` pairs.
pub open spec fn pairs_view(v: Seq<(Vec<u8>, Vec<u8>)>) -> Seq<(Seq<u8>, Seq<u8>)> {
    Seq::new(v.len(), |i: int| (v[i].0@, v[i].1@))
}

pub open spec fn opt_view(o: Option<Vec<u8>>) -> Option<Seq<u8>> {
    match o {
        Option::Some(v) => Option::Some(v@),
        Option::None => Option::None,
    }
}

fn copy_bytes(v: &Vec<u8>) -> (r: Vec<u8>)
    ensures
        r@ == v@,
{
    let r = copy_range(v, 0, v.len());
    assert(v@.subrange(0, v@.len() as int) =~= v@);
    r
}

/// Walks one subtree, assigning offsets and collecting bodies; fails exactly
/// when the running byte counter would reach the decimal cap.
pub fn crawl_source(
    fs: &FsEntry,
    path: &Vec<u8>,
    off: u64,
    unpack: bool,
    rule: &Option<Vec<u8>>,
    integ: bool,
    bs: u32,
) -> (r: Result<(Node, Vec<(Vec<u8>, Vec<u8>, u64)>, Vec<(Vec<u8>, Vec<u8>)>, u64), ArchiveError>)
    requires
        integ ==> bs > 0,
        off < dec_limit(),
    ensures
        ({
            let co = crawl_fs(fs@, path@, off as nat, unpack, opt_view(*rule), integ, bs as nat);
            match r {
                Ok((node, packed, unpacked, end)) => {
                    &&& co.end < dec_limit()
                    &&& node@ == co.node
                    &&& triples_view(packed@) == co.packed
                    &&& pairs_view(unpacked@) == co.unpacked
                    &&& end == co.end
                },
                Err(e) => co.end >= dec_limit() && e == ArchiveError::Format,
            }
        }),
    decreases fs, 0int,
{
    proof {
        lemma_dec_limit_u64();
    }
    let ghost co = crawl_fs(fs@, path@, off as nat, unpack, opt_view(*rule), integ, bs as nat);
    match fs {
        FsEntry::File { data, executable } => {
            let it: Option<Integrity> = if integ {
                Option::Some(digest(data, bs))
            } else {
                Option::None
            };
            if unpack {
                let node = Node::File {
                    size: data.len() as u64,
                    offset: 0,
                    executable: *executable,
                    unpacked: true,
                    integrity: it,
                };
                let packed: Vec<(Vec<u8>, Vec<u8>, u64)> = Vec::new();
                let mut unpacked: Vec<(Vec<u8>, Vec<u8>)> = Vec::new();
                unpacked.push((copy_bytes(path), copy_bytes(data)));
                proof {
                    assert(triples_view(packed@) =~= co.packed);
                    assert(pairs_view(unpacked@) =~= co.unpacked);
                }
                Ok((node, packed, unpacked, off))
            } else {
                if off as u128 + data.len() as u128 >= DEC_LIMIT_U64 as u128 {
                    return Err(ArchiveError::Format);
                }
                let node = Node::File {
                    size: data.len() as u64,
                    offset: off,
                    executable: *executable,
                    unpacked: false,
                    integrity: it,
                };
                let mut packed: Vec<(Vec<u8>, Vec<u8>, u64)> = Vec::new();
                packed.push((copy_bytes(path), copy_bytes(data), off));
                let unpacked: Vec<(Vec<u8>, Vec<u8>)> = Vec::new();
                let end = off + data.len() as u64;
                proof {
                    assert(triples_view(packed@) =~= co.packed);
                    assert(pairs_view(unpacked@) =~= co.unpacked);
                }
                Ok((node, packed, unpacked, end))
            }
        },
        FsEntry::Dir { entries } => {
            proof {
                lemma_fs_entries_view_len(entries@);
                assert(fs_entries_view(entries@).skip(0) =~= fs_entries_view(entries@));
            }
            match crawl_entries(entries, 0, path, off, unpack, rule, integ, bs) {
                Ok((ns, packed, unpacked, end)) => {
                    let node = Node::Directory { entries: ns };
                    Ok((node, packed, unpacked, end))
                },
                Err(e) => Err(e),
            }
        },
        FsEntry::Link { target } => {
            let node = Node::Link { target: copy_bytes(target) };
            let packed: Vec<(Vec<u8>, Vec<u8>, u64)> = Vec::new();
            let unpacked: Vec<(Vec<u8>, Vec<u8>)> = Vec::new();
            proof {
                assert(triples_view(packed@) =~= co.packed);
                assert(pairs_view(unpacked@) =~= co.unpacked);
            }
            Ok((node, packed, unpacked, off))
        },
    }
}

#[verifier::rlimit(100)]
fn crawl_entries(
    es: &Vec<(Vec<u8>, FsEntry)>,
    i: usize,
    dir_path: &Vec<u8>,
    off: u64,
    unpack: bool,
    rule: &Option<Vec<u8>>,
    integ: bool,
    bs: u32,
) -> (r: Result<
    (Vec<(Vec<u8>, Node)>, Vec<(Vec<u8>, Vec<u8>, u64)>, Vec<(Vec<u8>, Vec<u8>)>, u64),
    ArchiveError,
>)
    requires
        i <= es@.len(),
        integ ==> bs > 0,
        off < dec_limit(),
    ensures
        ({
            let cl = crawl_list(
                fs_entries_view(es@).skip(i as int),
                dir_path@,
                off as nat,
                unpack,
                opt_view(*rule),
                integ,
                bs as nat,
            );
            match r {
                Ok((ns, packed, unpacked, end)) => {
                    &&& cl.3 < dec_limit()
                    &&& crate::node::entries_view(ns@) == cl.0
                    &&& triples_view(packed@) == cl.1
                    &&& pairs_view(unpacked@) == cl.2
                    &&& end == cl.3
                },
                Err(e) => cl.3 >= dec_limit() && e == ArchiveError::Format,
            }
        }),
    decreases es, es@.len() - i,
{
    proof {
        lemma_dec_limit_u64();
        lemma_fs_entries_view_len(es@);
    }
    let ghost ev = fs_entries_view(es@);
    let ghost sv = ev.skip(i as int);
    let ghost cl = crawl_list(
        sv,
        dir_path@,
        off as nat,
        unpack,
        opt_view(*rule),
        integ,
        bs as nat,
    );
    if i == es.len() {
        let ns: Vec<(Vec<u8>, Node)> = Vec::new();
        let packed: Vec<(Vec<u8>, Vec<u8>, u64)> = Vec::new();
        let unpacked: Vec<(Vec<u8>, Vec<u8>)> = Vec::new();
        proof {
            assert(sv =~= Seq::<(Seq<u8>, GFsEntry)>::empty());
            assert(crate::node::entries_view(ns@) =~= cl.0);
            assert(triples_view(packed@) =~= cl.1);
            assert(pairs_view(unpacked@) =~= cl.2);
        }
        return Ok((ns, packed, unpacked, off));
    }
    proof {
        assert(sv[0] == ev[i as int]);
        assert(ev[i as int] == fs_entry_view(es@[i as int]));
        assert(fs_entry_view(es@[i as int]).1 == fs_view(es@[i as int].1));
        assert(sv.drop_first() =~= ev.skip(i + 1));
    }
    let pair = &es[i];
    let name = &pair.0;
    let child = &pair.1;
    proof {
        assert(child@ == sv[0].1);
        assert(name@ == sv[0].0);
    }
    let cp: Vec<u8> = if dir_path.len() == 0 {
        copy_bytes(name)
    } else {
        let mut c = copy_bytes(dir_path);
        c.push(47);
        let mut nm = copy_bytes(name);
        c.append(&mut nm);
        proof {
            assert(c@ =~= child_path(dir_path@, name@));
        }
        c
    };
    let is_dir = match child {
        FsEntry::Dir { .. } => true,
        _ => false,
    };
    let matched = match rule {
        Option::Some(rv) => crate::util::bytes_eq(rv, name),
        Option::None => false,
    };
    let cu = unpack || (is_dir && matched);
    let ghost c_spec = crawl_fs(
        sv[0].1,
        child_path(dir_path@, name@),
        off as nat,
        cu,
        opt_view(*rule),
        integ,
        bs as nat,
    );
    match crawl_source(child, &cp, off, cu, rule, integ, bs) {
        Err(e) => {
            proof {
                lemma_crawl_list_end_monotone(
                    sv.drop_first(),
                    dir_path@,
                    c_spec.end,
                    unpack,
                    opt_view(*rule),
                    integ,
                    bs as nat,
                );
            }
            Err(e)
        },
        Ok((cn, mut c_packed, mut c_unpacked, c_end)) => {
            match crawl_entries(es, i + 1, dir_path, c_end, unpack, rule, integ, bs) {
                Err(e) => Err(e),
                Ok((mut ns, mut r_packed, mut r_unpacked, end)) => {
                    let ghost ns_before = ns@;
                    ns.insert(0, (copy_bytes(name), cn));
                    let ghost ns_after = ns@;
                    c_packed.append(&mut r_packed);
                    c_unpacked.append(&mut r_unpacked);
                    proof {
                        let rl = crawl_list(
                            sv.drop_first(),
                            dir_path@,
                            c_spec.end,
                            unpack,
                            opt_view(*rule),
                            integ,
                            bs as nat,
                        );
                        crate::node::lemma_entries_view_len(ns_after);
                        crate::node::lemma_entries_view_len(ns_before);
                        assert(ns_after.drop_first() =~= ns_before);
                        assert forall|k: int|
                            0 <= k < ns_after.len() implies #[trigger] crate::node::entries_view(
                            ns_after,
                        )[k] == cl.0[k] by {
                            if k == 0 {
                                assert(crate::node::entries_view(ns_after)[0]
                                    == crate::node::entry_view(ns_after[0]));
                                assert(cl.0[0] == (sv[0].0, c_spec.node));
                            } else {
                                assert(ns_after[k] == ns_before[k - 1]);
                                assert(crate::node::entries_view(ns_after)[k]
                                    == crate::node::entry_view(ns_before[k - 1]));
                                assert(crate::node::entries_view(ns_before)[k - 1]
                                    == crate::node::entry_view(ns_before[k - 1]));
                                assert(cl.0[k] == rl.0[k - 1]);
                            }
                        }
                        assert(crate::node::entries_view(ns_after) =~= cl.0);
                        assert(triples_view(c_packed@) =~= cl.1);
                        assert(pairs_view(c_unpacked@) =~= cl.2);
                    }
                    Ok((ns, c_packed, c_unpacked, end))
                },
            }
        },
    }
}

pub proof fn lemma_crawl_list_end_monotone(
    es: Seq<(Seq<u8>, GFsEntry)>,
    dir_path: Seq<u8>,
    off: nat,
    unpack: bool,
    rule: Option<Seq<u8>>,
    integ: bool,
    bs: nat,
)
    ensures
        crawl_list(es, dir_path, off, unpack, rule, integ, bs).3 >= off,
    decreases es,
{
    if es.len() > 0 {
        let name = es[0].0;
        let cu = unpack || ((es[0].1 is Dir) && rule_matches(rule, name));
        lemma_crawl_end_monotone(es[0].1, child_path(dir_path, name), off, cu, rule, integ, bs);
        let c = crawl_fs(es[0].1, child_path(dir_path, name), off, cu, rule, integ, bs);
        lemma_crawl_list_end_monotone(es.drop_first(), dir_path, c.end, unpack, rule, integ, bs);
    }
}

} // verus!
