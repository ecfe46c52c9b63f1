//! The library-wide laws: statements that relate several operations, proved
//! once and for all over the same spec functions the operations' own
//! contracts use.

use vstd::prelude::*;
use crate::crawl::{GFsEntry, crawl_fs, crawl_list, child_path, rule_matches};
use crate::extract::{extract_spec, list_spec, plan_node, plan_entries, paths_of_entries, GErr,
    GAction};
use crate::integrity::{integrity_of, verify_ok};
use crate::jsontext::json_of_node;
use crate::jsonparse::p_node;
use crate::node::GNode;
use crate::pack::{pack_crawl, pack_archive, pack_unpacked, pack_ok, body_of};
use crate::pickle::{header_prefix, lemma_header_frames_roundtrip, lemma_header_prefix_len};
use crate::roundtrip::{lemma_node_roundtrip, lemma_crawl_wf};

verus! {

broadcast use
    vstd::seq::axiom_seq_index_decreases,
    vstd::seq::axiom_seq_subrange_decreases;

/// Determinism: the packed archive is a function of the source tree and the
/// options alone — no timestamps, no traversal nondeterminism. Packing two
/// equal trees yields byte-identical archives and unpacked listings.
pub proof fn lemma_pack_deterministic(
    fs1: GFsEntry,
    fs2: GFsEntry,
    rule: Option<Seq<u8>>,
    integ: bool,
    bs: nat,
)
    requires
        fs1 == fs2,
    ensures
        pack_archive(fs1, rule, integ, bs) == pack_archive(fs2, rule, integ, bs),
        pack_unpacked(fs1, rule, integ, bs) == pack_unpacked(fs2, rule, integ, bs),
{
}

/// The total size of a packed-file list.
pub open spec fn sum_sizes(packed: Seq<(Seq<u8>, Seq<u8>, nat)>) -> nat
    decreases packed.len(),
{
    if packed.len() == 0 {
        0
    } else {
        sum_sizes(packed.drop_last()) + packed.last().1.len()
    }
}

pub proof fn lemma_sum_concat(a: Seq<(Seq<u8>, Seq<u8>, nat)>, b: Seq<(Seq<u8>, Seq<u8>, nat)>)
    ensures
        sum_sizes(a + b) == sum_sizes(a) + sum_sizes(b),
    decreases b.len(),
{
    if b.len() == 0 {
        assert(a + b =~= a);
    } else {
        assert((a + b).drop_last() =~= a + b.drop_last());
        lemma_sum_concat(a, b.drop_last());
    }
}

pub proof fn lemma_body_len(packed: Seq<(Seq<u8>, Seq<u8>, nat)>)
    ensures
        body_of(packed).len() == sum_sizes(packed),
    decreases packed.len(),
{
    if packed.len() > 0 {
        lemma_body_len(packed.drop_last());
    }
}

/// The crawl assigns offsets as a running sum of sizes, starting at `off`.
pub proof fn lemma_crawl_packed_layout(
    fs: GFsEntry,
    path: Seq<u8>,
    off: nat,
    unpack: bool,
    rule: Option<Seq<u8>>,
    integ: bool,
    bs: nat,
)
    ensures
        ({
            let co = crawl_fs(fs, path, off, unpack, rule, integ, bs);
            &&& forall|i: int|
                0 <= i < co.packed.len() ==> #[trigger] co.packed[i].2 == off + sum_sizes(
                    co.packed.take(i),
                )
            &&& co.end == off + sum_sizes(co.packed)
        }),
    decreases fs,
{
    let co = crawl_fs(fs, path, off, unpack, rule, integ, bs);
    match fs {
        GFsEntry::File { data, executable } => {
            if !unpack {
                assert(co.packed == seq![(path, data, off)]);
                assert(co.packed.take(0) =~= Seq::<(Seq<u8>, Seq<u8>, nat)>::empty());
                assert(co.packed.drop_last() =~= Seq::<(Seq<u8>, Seq<u8>, nat)>::empty());
                assert(sum_sizes(co.packed.take(0)) == 0);
                assert(co.packed[0].2 == off);
                assert(co.packed.last().1 == data);
                assert(sum_sizes(co.packed) == data.len());
            } else {
                assert(co.packed.len() == 0);
                assert(sum_sizes(co.packed) == 0);
            }
        },
        GFsEntry::Dir { entries } => {
            lemma_crawl_list_layout(entries, path, off, unpack, rule, integ, bs);
        },
        GFsEntry::Link { target } => {
            assert(co.packed.len() == 0);
            assert(sum_sizes(co.packed) == 0);
        },
    }
}

pub proof fn lemma_crawl_list_layout(
    es: Seq<(Seq<u8>, GFsEntry)>,
    dir_path: Seq<u8>,
    off: nat,
    unpack: bool,
    rule: Option<Seq<u8>>,
    integ: bool,
    bs: nat,
)
    ensures
        ({
            let cl = crawl_list(es, dir_path, off, unpack, rule, integ, bs);
            &&& forall|i: int|
                0 <= i < cl.1.len() ==> #[trigger] cl.1[i].2 == off + sum_sizes(cl.1.take(i))
            &&& cl.3 == off + sum_sizes(cl.1)
        }),
    decreases es,
{
    let cl = crawl_list(es, dir_path, off, unpack, rule, integ, bs);
    if es.len() == 0 {
        assert(sum_sizes(cl.1) == 0);
    } else {
        let name = es[0].0;
        let cu = unpack || ((es[0].1 is Dir) && rule_matches(rule, name));
        let c = crawl_fs(es[0].1, child_path(dir_path, name), off, cu, rule, integ, bs);
        let r = crawl_list(es.drop_first(), dir_path, c.end, unpack, rule, integ, bs);
        lemma_crawl_packed_layout(es[0].1, child_path(dir_path, name), off, cu, rule, integ, bs);
        lemma_crawl_list_layout(es.drop_first(), dir_path, c.end, unpack, rule, integ, bs);
        lemma_sum_concat(c.packed, r.1);
        assert(cl.1 == c.packed + r.1);
        assert forall|i: int| 0 <= i < cl.1.len() implies #[trigger] cl.1[i].2 == off + sum_sizes(
            cl.1.take(i),
        ) by {
            if i < c.packed.len() {
                assert(cl.1[i] == c.packed[i]);
                assert(cl.1.take(i) =~= c.packed.take(i));
            } else {
                let j = i - c.packed.len();
                assert(cl.1[i] == r.1[j]);
                assert(r.1[j].2 == c.end + sum_sizes(r.1.take(j)));
                assert(cl.1.take(i) =~= c.packed + r.1.take(j));
                lemma_sum_concat(c.packed, r.1.take(j));
            }
        }
    }
}

/// Offset coverage: in a packed archive the embedded files' ranges tile the
/// body exactly — each file's offset is the sum of the sizes before it, the
/// ranges are consecutive (hence pairwise disjoint and gapless), the last
/// range ends exactly at the body's end, and the body bytes of each range
/// are that file's bytes.
pub proof fn lemma_offset_coverage(fs: GFsEntry, rule: Option<Seq<u8>>, integ: bool, bs: nat)
    ensures
        ({
            let co = pack_crawl(fs, rule, integ, bs);
            let body = body_of(co.packed);
            &&& forall|i: int|
                0 <= i < co.packed.len() ==> #[trigger] co.packed[i].2 == sum_sizes(
                    co.packed.take(i),
                )
            &&& forall|i: int|
                0 <= i < co.packed.len() ==> #[trigger] co.packed[i].2 + co.packed[i].1.len()
                    <= body.len()
            &&& forall|i: int|
                0 <= i < co.packed.len() - 1 ==> #[trigger] co.packed[i].2
                    + co.packed[i].1.len() == co.packed[i + 1].2
            &&& body.len() == sum_sizes(co.packed)
            &&& forall|i: int|
                0 <= i < co.packed.len() ==> body.subrange(
                    co.packed[i].2 as int,
                    (co.packed[i].2 + co.packed[i].1.len()) as int,
                ) == #[trigger] co.packed[i].1
        }),
{
    let co = pack_crawl(fs, rule, integ, bs);
    let body = body_of(co.packed);
    lemma_crawl_packed_layout(fs, Seq::<u8>::empty(), 0, false, rule, integ, bs);
    lemma_body_len(co.packed);
    assert forall|i: int| 0 <= i < co.packed.len() implies #[trigger] co.packed[i].2
        + co.packed[i].1.len() <= body.len() by {
        assert(co.packed.take(i).push(co.packed[i]) =~= co.packed.take(i + 1));
        assert(co.packed.take(i + 1).drop_last() =~= co.packed.take(i));
        assert(sum_sizes(co.packed.take(i + 1)) == sum_sizes(co.packed.take(i))
            + co.packed[i].1.len());
        lemma_sum_prefix_le(co.packed, i + 1);
    }
    assert forall|i: int| 0 <= i < co.packed.len() - 1 implies #[trigger] co.packed[i].2
        + co.packed[i].1.len() == co.packed[i + 1].2 by {
        assert(co.packed.take(i + 1).drop_last() =~= co.packed.take(i));
        assert(co.packed.take(i + 1).last() == co.packed[i]);
    }
    assert forall|i: int| 0 <= i < co.packed.len() implies body.subrange(
        co.packed[i].2 as int,
        (co.packed[i].2 + co.packed[i].1.len()) as int,
    ) == #[trigger] co.packed[i].1 by {
        lemma_body_slice(co.packed, i);
    }
}

pub proof fn lemma_sum_prefix_le(packed: Seq<(Seq<u8>, Seq<u8>, nat)>, k: int)
    requires
        0 <= k <= packed.len(),
    ensures
        sum_sizes(packed.take(k)) <= sum_sizes(packed),
    decreases packed.len() - k,
{
    if k < packed.len() {
        assert(packed.take(k + 1).drop_last() =~= packed.take(k));
        lemma_sum_prefix_le(packed, k + 1);
    } else {
        assert(packed.take(k) =~= packed);
    }
}

/// The body bytes of the `i`-th packed file's range are its bytes.
pub proof fn lemma_body_slice(packed: Seq<(Seq<u8>, Seq<u8>, nat)>, i: int)
    requires
        0 <= i < packed.len(),
    ensures
        body_of(packed).subrange(
            sum_sizes(packed.take(i)) as int,
            (sum_sizes(packed.take(i)) + packed[i].1.len()) as int,
        ) == packed[i].1,
    decreases packed.len(),
{
    lemma_body_len(packed);
    if i == packed.len() - 1 {
        assert(packed.drop_last() =~= packed.take(i));
        lemma_body_len(packed.take(i));
        assert(body_of(packed) == body_of(packed.take(i)) + packed.last().1);
        assert(body_of(packed).subrange(
            sum_sizes(packed.take(i)) as int,
            (sum_sizes(packed.take(i)) + packed[i].1.len()) as int,
        ) =~= packed[i].1);
    } else {
        let pre = packed.drop_last();
        lemma_body_slice(pre, i);
        assert(pre.take(i) =~= packed.take(i));
        lemma_body_len(pre);
        lemma_sum_prefix_le(pre, i);
        assert(pre[i] == packed[i]);
        assert(sum_sizes(pre.take(i)) + pre[i].1.len() <= body_of(pre).len()) by {
            assert(pre.take(i + 1).drop_last() =~= pre.take(i));
            assert(sum_sizes(pre.take(i + 1)) == sum_sizes(pre.take(i)) + pre[i].1.len());
            lemma_sum_prefix_le(pre, i + 1);
        }
        assert(body_of(packed) == body_of(pre) + packed.last().1);
        assert(body_of(packed).subrange(
            sum_sizes(packed.take(i)) as int,
            (sum_sizes(packed.take(i)) + packed[i].1.len()) as int,
        ) =~= body_of(pre).subrange(
            sum_sizes(pre.take(i)) as int,
            (sum_sizes(pre.take(i)) + pre[i].1.len()) as int,
        ));
    }
}

/// The files of a subtree, as `(path, bytes)` in traversal order.
pub open spec fn files_of(fs: GFsEntry, path: Seq<u8>) -> Seq<(Seq<u8>, Seq<u8>)>
    decreases fs,
{
    match fs {
        GFsEntry::File { data, executable } => seq![(path, data)],
        GFsEntry::Dir { entries } => files_of_list(entries, path),
        GFsEntry::Link { target } => Seq::<(Seq<u8>, Seq<u8>)>::empty(),
    }
}

pub open spec fn files_of_list(es: Seq<(Seq<u8>, GFsEntry)>, dir_path: Seq<u8>) -> Seq<
    (Seq<u8>, Seq<u8>),
>
    decreases es,
{
    if es.len() == 0 {
        Seq::<(Seq<u8>, Seq<u8>)>::empty()
    } else {
        files_of(es[0].1, child_path(dir_path, es[0].0)) + files_of_list(
            es.drop_first(),
            dir_path,
        )
    }
}

/// Every file node of a subtree is marked unpacked.
pub open spec fn all_unpacked(n: GNode) -> bool
    decreases n,
{
    match n {
        GNode::File { size, offset, executable, unpacked, integrity } => unpacked,
        GNode::Directory { entries } => forall|j: int| #![trigger entries[j]]
            0 <= j < entries.len() ==> all_unpacked(entries[j].1),
        GNode::Link { target } => true,
    }
}

/// Unpacked passthrough: inside a subtree matched by the unpack rule, every
/// file is recorded with `unpacked` set, contributes nothing to the body
/// (the byte counter does not move), and its bytes appear verbatim, under
/// its relative path, in the unpacked output.
pub proof fn lemma_unpacked_passthrough(
    fs: GFsEntry,
    path: Seq<u8>,
    off: nat,
    rule: Option<Seq<u8>>,
    integ: bool,
    bs: nat,
)
    ensures
        ({
            let co = crawl_fs(fs, path, off, true, rule, integ, bs);
            &&& co.packed == Seq::<(Seq<u8>, Seq<u8>, nat)>::empty()
            &&& co.end == off
            &&& co.unpacked == files_of(fs, path)
            &&& all_unpacked(co.node)
        }),
    decreases fs,
{
    let co = crawl_fs(fs, path, off, true, rule, integ, bs);
    match fs {
        GFsEntry::File { data, executable } => {
            assert(co.unpacked =~= files_of(fs, path));
        },
        GFsEntry::Dir { entries } => {
            lemma_unpacked_list(entries, path, off, rule, integ, bs);
            let cl = crawl_list(entries, path, off, true, rule, integ, bs);
            match co.node {
                GNode::Directory { entries: ns } => {
                    assert(ns == cl.0);
                    assert forall|j: int| #![trigger ns[j]]
                        0 <= j < ns.len() implies all_unpacked(ns[j].1) by {
                        assert(ns[j] == cl.0[j]);
                    }
                    assert(all_unpacked(co.node));
                },
                _ => {},
            }
        },
        GFsEntry::Link { target } => {
            assert(co.unpacked =~= files_of(fs, path));
        },
    }
}

pub proof fn lemma_unpacked_list(
    es: Seq<(Seq<u8>, GFsEntry)>,
    dir_path: Seq<u8>,
    off: nat,
    rule: Option<Seq<u8>>,
    integ: bool,
    bs: nat,
)
    ensures
        ({
            let cl = crawl_list(es, dir_path, off, true, rule, integ, bs);
            &&& cl.1 == Seq::<(Seq<u8>, Seq<u8>, nat)>::empty()
            &&& cl.3 == off
            &&& cl.2 == files_of_list(es, dir_path)
            &&& forall|j: int| #![trigger cl.0[j]]
                0 <= j < cl.0.len() ==> all_unpacked(cl.0[j].1)
        }),
    decreases es,
{
    let cl = crawl_list(es, dir_path, off, true, rule, integ, bs);
    if es.len() == 0 {
        assert(cl.1 =~= Seq::<(Seq<u8>, Seq<u8>, nat)>::empty());
        assert(cl.2 =~= files_of_list(es, dir_path));
    } else {
        let name = es[0].0;
        let c = crawl_fs(es[0].1, child_path(dir_path, name), off, true, rule, integ, bs);
        lemma_unpacked_passthrough(es[0].1, child_path(dir_path, name), off, rule, integ, bs);
        lemma_unpacked_list(es.drop_first(), dir_path, c.end, rule, integ, bs);
        let r = crawl_list(es.drop_first(), dir_path, c.end, true, rule, integ, bs);
        assert(cl.1 =~= Seq::<(Seq<u8>, Seq<u8>, nat)>::empty());
        assert(cl.2 =~= files_of_list(es, dir_path));
        assert forall|j: int| 0 <= j < cl.0.len() implies all_unpacked(
            #[trigger] cl.0[j].1,
        ) by {
            if j == 0 {
                assert(cl.0[0] == (name, c.node));
            } else {
                assert(cl.0[j] == r.0[j - 1]);
            }
        }
    }
}

/// Header round trip: an archive the packer produced decodes back to
/// exactly the packed tree. The unpacker's plan is therefore drawn from
/// that tree against exactly the packed body, and the lister yields exactly
/// that tree's paths, parents before children.
pub proof fn lemma_pack_decode_roundtrip(
    fs: GFsEntry,
    rule: Option<Seq<u8>>,
    integ: bool,
    bs: nat,
    verify: bool,
)
    requires
        fs is Dir,
        pack_ok(fs, rule, integ, bs),
        integ ==> bs <= u32::MAX,
    ensures
        ({
            let co = pack_crawl(fs, rule, integ, bs);
            let body = body_of(co.packed);
            let a = pack_archive(fs, rule, integ, bs);
            match co.node {
                GNode::Directory { entries } => {
                    &&& extract_spec(a, verify) == plan_entries(
                        entries,
                        Seq::<u8>::empty(),
                        body,
                        verify,
                    )
                    &&& list_spec(a) == Result::<Seq<Seq<u8>>, GErr>::Ok(
                        paths_of_entries(entries, Seq::<u8>::empty()),
                    )
                },
                _ => false,
            }
        }),
{
    let co = pack_crawl(fs, rule, integ, bs);
    let body = body_of(co.packed);
    let a = pack_archive(fs, rule, integ, bs);
    let json = json_of_node(co.node);
    lemma_header_frames_roundtrip(json, body);
    lemma_header_prefix_len(json);
    crate::crawl::lemma_crawl_end_monotone(fs, Seq::<u8>::empty(), 0, false, rule, integ, bs);
    lemma_crawl_wf(fs, Seq::<u8>::empty(), 0, false, rule, integ, bs);
    lemma_node_roundtrip(co.node, Seq::<u8>::empty());
    assert(json + Seq::<u8>::empty() =~= json);
    assert(p_node(json) == Option::Some((co.node, json.len())));
    assert(a.subrange(header_prefix(json).len() as int, a.len() as int) =~= body);
    match co.node {
        GNode::Directory { entries } => {},
        _ => {
            assert(fs is Dir);
        },
    }
}

/// The actions that materialize a source subtree rooted at `path`: parents
/// before children, empty directories preserved, embedded files with their
/// bytes and executable bits, unpacked files by reference, links by their
/// stored targets (never followed).
pub open spec fn actions_of(
    fs: GFsEntry,
    path: Seq<u8>,
    unpack: bool,
    rule: Option<Seq<u8>>,
) -> Seq<GAction>
    decreases fs,
{
    match fs {
        GFsEntry::File { data, executable } => {
            if unpack {
                seq![GAction::UnpackedFile { path, executable }]
            } else {
                seq![GAction::FileData { path, data, executable }]
            }
        },
        GFsEntry::Dir { entries } => seq![GAction::Dir { path }] + actions_of_list(
            entries,
            path,
            unpack,
            rule,
        ),
        GFsEntry::Link { target } => seq![GAction::Symlink { path, target }],
    }
}

pub open spec fn actions_of_list(
    es: Seq<(Seq<u8>, GFsEntry)>,
    dir_path: Seq<u8>,
    unpack: bool,
    rule: Option<Seq<u8>>,
) -> Seq<GAction>
    decreases es,
{
    if es.len() == 0 {
        Seq::<GAction>::empty()
    } else {
        let name = es[0].0;
        let cu = unpack || ((es[0].1 is Dir) && rule_matches(rule, name));
        actions_of(es[0].1, child_path(dir_path, name), cu, rule) + actions_of_list(
            es.drop_first(),
            dir_path,
            unpack,
            rule,
        )
    }
}

/// Against a body that holds every packed file's bytes at its offset, the
/// extraction plan of a crawled subtree is exactly the source's actions.
#[verifier::rlimit(100)]
#[verifier::spinoff_prover]
pub proof fn lemma_plan_matches_source_node(
    fs: GFsEntry,
    path: Seq<u8>,
    off: nat,
    unpack: bool,
    rule: Option<Seq<u8>>,
    integ: bool,
    bs: nat,
    body: Seq<u8>,
    verify: bool,
)
    requires
        integ ==> bs > 0,
        ({
            let co = crawl_fs(fs, path, off, unpack, rule, integ, bs);
            forall|i: int| #![trigger co.packed[i]]
                0 <= i < co.packed.len() ==> co.packed[i].2 + co.packed[i].1.len() <= body.len()
                    && body.subrange(
                    co.packed[i].2 as int,
                    (co.packed[i].2 + co.packed[i].1.len()) as int,
                ) == co.packed[i].1
        }),
    ensures
        ({
            let co = crawl_fs(fs, path, off, unpack, rule, integ, bs);
            plan_node(path, co.node, body, verify) == Result::<Seq<GAction>, GErr>::Ok(
                actions_of(fs, path, unpack, rule),
            )
        }),
    decreases fs, 1int,
{
    let co = crawl_fs(fs, path, off, unpack, rule, integ, bs);
    match fs {
        GFsEntry::File { data, executable } => {
            if !unpack {
                assert(co.packed[0] == (path, data, off));
                assert(off + data.len() <= body.len());
                assert(body.subrange(off as int, (off + data.len()) as int) == data);
                if integ {
                    assert(verify_ok(data, integrity_of(data, bs)));
                }
            }
        },
        GFsEntry::Dir { entries } => {
            let cl = crawl_list(entries, path, off, unpack, rule, integ, bs);
            assert(co.packed == cl.1);
            assert forall|i: int| #![trigger cl.1[i]]
                0 <= i < cl.1.len() implies cl.1[i].2 + cl.1[i].1.len() <= body.len()
                && body.subrange(
                cl.1[i].2 as int,
                (cl.1[i].2 + cl.1[i].1.len()) as int,
            ) == cl.1[i].1 by {
                assert(co.packed[i] == cl.1[i]);
            }
            lemma_plan_matches_source_list(
                entries,
                path,
                off,
                unpack,
                rule,
                integ,
                bs,
                body,
                verify,
            );
        },
        GFsEntry::Link { target } => {},
    }
}

#[verifier::rlimit(100)]
#[verifier::spinoff_prover]
pub proof fn lemma_plan_matches_source_list(
    es: Seq<(Seq<u8>, GFsEntry)>,
    dir_path: Seq<u8>,
    off: nat,
    unpack: bool,
    rule: Option<Seq<u8>>,
    integ: bool,
    bs: nat,
    body: Seq<u8>,
    verify: bool,
)
    requires
        integ ==> bs > 0,
        ({
            let cl = crawl_list(es, dir_path, off, unpack, rule, integ, bs);
            forall|i: int| #![trigger cl.1[i]]
                0 <= i < cl.1.len() ==> cl.1[i].2 + cl.1[i].1.len() <= body.len()
                    && body.subrange(
                    cl.1[i].2 as int,
                    (cl.1[i].2 + cl.1[i].1.len()) as int,
                ) == cl.1[i].1
        }),
    ensures
        ({
            let cl = crawl_list(es, dir_path, off, unpack, rule, integ, bs);
            plan_entries(cl.0, dir_path, body, verify) == Result::<Seq<GAction>, GErr>::Ok(
                actions_of_list(es, dir_path, unpack, rule),
            )
        }),
    decreases es, 0int,
{
    let cl = crawl_list(es, dir_path, off, unpack, rule, integ, bs);
    if es.len() == 0 {
        assert(cl.0 =~= Seq::<(Seq<u8>, GNode)>::empty());
    } else {
        let name = es[0].0;
        let cu = unpack || ((es[0].1 is Dir) && rule_matches(rule, name));
        let cp = child_path(dir_path, name);
        let c = crawl_fs(es[0].1, cp, off, cu, rule, integ, bs);
        let r = crawl_list(es.drop_first(), dir_path, c.end, unpack, rule, integ, bs);
        assert(cl.0[0] == (name, c.node));
        assert(cl.0.drop_first() =~= r.0);
        assert(forall|i: int| #![trigger c.packed[i]]
            0 <= i < c.packed.len() ==> cl.1[i] == c.packed[i]);
        lemma_plan_matches_source_node(es[0].1, cp, off, cu, rule, integ, bs, body, verify);
        assert(forall|j: int| #![trigger r.1[j]]
            0 <= j < r.1.len() ==> cl.1[c.packed.len() + j] == r.1[j]);
        lemma_plan_matches_source_list(
            es.drop_first(),
            dir_path,
            c.end,
            unpack,
            rule,
            integ,
            bs,
            body,
            verify,
        );
        assert(plan_entries(cl.0, dir_path, body, verify) == Result::<Seq<GAction>, GErr>::Ok(
            actions_of(es[0].1, cp, cu, rule) + actions_of_list(
                es.drop_first(),
                dir_path,
                unpack,
                rule,
            ),
        ));
    }
}

/// Round trip: extracting an archive the packer produced yields exactly
/// the actions that materialize the source tree — identical relative
/// paths (parents before children, empty directories preserved), the exact
/// bytes and executable bit of every embedded file, every rule-matched
/// file by reference to the unpacked sibling, and every link's stored
/// target, never dereferenced. Holds with and without verification: the
/// recorded digests are the digests of the packed bytes.
pub proof fn lemma_pack_extract_roundtrip(
    fs: GFsEntry,
    rule: Option<Seq<u8>>,
    integ: bool,
    bs: nat,
    verify: bool,
)
    requires
        fs is Dir,
        pack_ok(fs, rule, integ, bs),
        integ ==> bs <= u32::MAX,
    ensures
        ({
            match fs {
                GFsEntry::Dir { entries } => extract_spec(
                    pack_archive(fs, rule, integ, bs),
                    verify,
                ) == Result::<Seq<GAction>, GErr>::Ok(
                    actions_of_list(entries, Seq::<u8>::empty(), false, rule),
                ),
                _ => false,
            }
        }),
{
    lemma_pack_decode_roundtrip(fs, rule, integ, bs, verify);
    lemma_offset_coverage(fs, rule, integ, bs);
    let co = pack_crawl(fs, rule, integ, bs);
    let body = body_of(co.packed);
    match fs {
        GFsEntry::Dir { entries } => {
            let cl = crawl_list(entries, Seq::<u8>::empty(), 0, false, rule, integ, bs);
            assert(co.packed == cl.1);
            assert(forall|i: int| #![trigger cl.1[i]]
                0 <= i < cl.1.len() ==> cl.1[i].2 + cl.1[i].1.len() <= body.len()
                    && body.subrange(
                    cl.1[i].2 as int,
                    (cl.1[i].2 + cl.1[i].1.len()) as int,
                ) == cl.1[i].1) by {
                assert(forall|i: int|
                    0 <= i < co.packed.len() ==> #[trigger] co.packed[i].2 + co.packed[i].1.len()
                        <= body.len());
            }
            lemma_plan_matches_source_list(
                entries,
                Seq::<u8>::empty(),
                0,
                false,
                rule,
                integ,
                bs,
                body,
                verify,
            );
        },
        _ => {},
    }
}

/// The files of a source subtree that the unpack rule keeps out of the
/// body (those under a matched directory), with their verbatim bytes, in
/// traversal order.
pub open spec fn unpacked_files(
    fs: GFsEntry,
    path: Seq<u8>,
    unpack: bool,
    rule: Option<Seq<u8>>,
) -> Seq<(Seq<u8>, Seq<u8>)>
    decreases fs,
{
    match fs {
        GFsEntry::File { data, executable } => {
            if unpack {
                seq![(path, data)]
            } else {
                Seq::<(Seq<u8>, Seq<u8>)>::empty()
            }
        },
        GFsEntry::Dir { entries } => unpacked_files_list(entries, path, unpack, rule),
        GFsEntry::Link { target } => Seq::<(Seq<u8>, Seq<u8>)>::empty(),
    }
}

pub open spec fn unpacked_files_list(
    es: Seq<(Seq<u8>, GFsEntry)>,
    dir_path: Seq<u8>,
    unpack: bool,
    rule: Option<Seq<u8>>,
) -> Seq<(Seq<u8>, Seq<u8>)>
    decreases es,
{
    if es.len() == 0 {
        Seq::<(Seq<u8>, Seq<u8>)>::empty()
    } else {
        let name = es[0].0;
        let cu = unpack || ((es[0].1 is Dir) && rule_matches(rule, name));
        unpacked_files(es[0].1, child_path(dir_path, name), cu, rule) + unpacked_files_list(
            es.drop_first(),
            dir_path,
            unpack,
            rule,
        )
    }
}

/// The total size of a subtree's files the rule does not match.
pub open spec fn packed_size(fs: GFsEntry, unpack: bool, rule: Option<Seq<u8>>) -> nat
    decreases fs,
{
    match fs {
        GFsEntry::File { data, executable } => if unpack {
            0
        } else {
            data.len()
        },
        GFsEntry::Dir { entries } => packed_size_list(entries, unpack, rule),
        GFsEntry::Link { target } => 0,
    }
}

pub open spec fn packed_size_list(
    es: Seq<(Seq<u8>, GFsEntry)>,
    unpack: bool,
    rule: Option<Seq<u8>>,
) -> nat
    decreases es,
{
    if es.len() == 0 {
        0
    } else {
        let cu = unpack || ((es[0].1 is Dir) && rule_matches(rule, es[0].0));
        packed_size(es[0].1, cu, rule) + packed_size_list(es.drop_first(), unpack, rule)
    }
}

pub proof fn lemma_crawl_unpacked_sel(
    fs: GFsEntry,
    path: Seq<u8>,
    off: nat,
    unpack: bool,
    rule: Option<Seq<u8>>,
    integ: bool,
    bs: nat,
)
    ensures
        ({
            let co = crawl_fs(fs, path, off, unpack, rule, integ, bs);
            &&& co.unpacked == unpacked_files(fs, path, unpack, rule)
            &&& sum_sizes(co.packed) == packed_size(fs, unpack, rule)
        }),
    decreases fs, 1int,
{
    let co = crawl_fs(fs, path, off, unpack, rule, integ, bs);
    match fs {
        GFsEntry::File { data, executable } => {
            if unpack {
                assert(co.packed.len() == 0);
                assert(sum_sizes(co.packed) == 0);
            } else {
                assert(co.unpacked =~= unpacked_files(fs, path, unpack, rule));
                assert(co.packed == seq![(path, data, off)]);
                assert(co.packed.drop_last() =~= Seq::<(Seq<u8>, Seq<u8>, nat)>::empty());
                assert(co.packed.last().1 == data);
                assert(sum_sizes(co.packed) == sum_sizes(co.packed.drop_last())
                    + co.packed.last().1.len());
                assert(sum_sizes(co.packed) == data.len());
            }
        },
        GFsEntry::Dir { entries } => {
            lemma_crawl_unpacked_sel_list(entries, path, off, unpack, rule, integ, bs);
        },
        GFsEntry::Link { target } => {
            assert(co.unpacked =~= unpacked_files(fs, path, unpack, rule));
            assert(sum_sizes(co.packed) == 0);
        },
    }
}

pub proof fn lemma_crawl_unpacked_sel_list(
    es: Seq<(Seq<u8>, GFsEntry)>,
    dir_path: Seq<u8>,
    off: nat,
    unpack: bool,
    rule: Option<Seq<u8>>,
    integ: bool,
    bs: nat,
)
    ensures
        ({
            let cl = crawl_list(es, dir_path, off, unpack, rule, integ, bs);
            &&& cl.2 == unpacked_files_list(es, dir_path, unpack, rule)
            &&& sum_sizes(cl.1) == packed_size_list(es, unpack, rule)
        }),
    decreases es, 0int,
{
    let cl = crawl_list(es, dir_path, off, unpack, rule, integ, bs);
    if es.len() == 0 {
        assert(cl.2 =~= unpacked_files_list(es, dir_path, unpack, rule));
        assert(sum_sizes(cl.1) == 0);
    } else {
        let name = es[0].0;
        let cu = unpack || ((es[0].1 is Dir) && rule_matches(rule, name));
        let cp = child_path(dir_path, name);
        let c = crawl_fs(es[0].1, cp, off, cu, rule, integ, bs);
        let r = crawl_list(es.drop_first(), dir_path, c.end, unpack, rule, integ, bs);
        lemma_crawl_unpacked_sel(es[0].1, cp, off, cu, rule, integ, bs);
        lemma_crawl_unpacked_sel_list(es.drop_first(), dir_path, c.end, unpack, rule, integ, bs);
        lemma_sum_concat(c.packed, r.1);
        assert(cl.2 =~= unpacked_files(es[0].1, cp, cu, rule) + unpacked_files_list(
            es.drop_first(),
            dir_path,
            unpack,
            rule,
        ));
    }
}

/// Unpacked passthrough at the pack call: the pack's unpacked output is
/// exactly the rule-matched files with their verbatim bytes under their
/// relative paths, and the body holds exactly the sizes of the files the
/// rule did not match — matched files contribute no body bytes. That every
/// matched subtree's file nodes are marked unpacked is
/// `lemma_unpacked_passthrough`.
pub proof fn lemma_pack_unpacked_passthrough(
    fs: GFsEntry,
    rule: Option<Seq<u8>>,
    integ: bool,
    bs: nat,
)
    ensures
        pack_unpacked(fs, rule, integ, bs) == unpacked_files(fs, Seq::<u8>::empty(), false, rule),
        body_of(pack_crawl(fs, rule, integ, bs).packed).len() == packed_size(fs, false, rule),
{
    lemma_crawl_unpacked_sel(fs, Seq::<u8>::empty(), 0, false, rule, integ, bs);
    lemma_body_len(pack_crawl(fs, rule, integ, bs).packed);
}

} // verus!
