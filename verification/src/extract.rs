//! The unpacker and the lister. Both decode the two leading pickles and the
//! header text; the unpacker additionally reads body slices and, on request,
//! verifies digests, producing the ordered list of filesystem actions
//! (parent directories before their contents) that materializes the tree.
//! Bytes of unpacked entries live beside the archive and are referenced by
//! path only; they are deliberately not digest-checked.

use vstd::prelude::*;
use crate::error::ArchiveError;
use crate::crawl::child_path;
use crate::integrity::{verify_ok, verify_streaming};
use crate::jsonparse::{p_node, parse_node};
use crate::node::{GNode, Node, entries_view, entry_view, lemma_entries_view_len};
use crate::pickle::{parse_header_frames, read_header_frames};
use crate::util::{copy_range, suffix_from};

verus! {

broadcast use
    vstd::seq::axiom_seq_index_decreases,
    vstd::seq::axiom_seq_subrange_decreases,
    vstd::std_specs::vec::axiom_vec_index_decreases,
    vstd::std_specs::vec::axiom_vec_decreases_to_view;

/// Ghost model of an extraction error.
pub enum GErr {
    Format,
    Integrity { path: Seq<u8> },
}

pub open spec fn err_matches(e: ArchiveError, ge: GErr) -> bool {
    match (e, ge) {
        (ArchiveError::Format, GErr::Format) => true,
        (ArchiveError::Integrity { path }, GErr::Integrity { path: gp }) => path@ == gp,
        _ => false,
    }
}

/// Ghost model of one extraction step.
pub enum GAction {
    Dir { path: Seq<u8> },
    FileData { path: Seq<u8>, data: Seq<u8>, executable: bool },
    UnpackedFile { path: Seq<u8>, executable: bool },
    Symlink { path: Seq<u8>, target: Seq<u8> },
}

/// One extraction step, in order: make a directory, write a file from body
/// bytes, copy an unpacked file from the sibling directory, or create a
/// symbolic link.
#[derive(Debug, PartialEq, Eq)]
pub enum ExtractAction {
    Dir { path: Vec<u8> },
    FileData { path: Vec<u8>, data: Vec<u8>, executable: bool },
    UnpackedFile { path: Vec<u8>, executable: bool },
    Symlink { path: Vec<u8>, target: Vec<u8> },
}

impl View for ExtractAction {
    type V = GAction;

    open spec fn view(&self) -> GAction {
        match *self {
            ExtractAction::Dir { path } => GAction::Dir { path: path@ },
            ExtractAction::FileData { path, data, executable } => GAction::FileData {
                path: path@,
                data: data@,
                executable,
            },
            ExtractAction::UnpackedFile { path, executable } => GAction::UnpackedFile {
                path: path@,
                executable,
            },
            ExtractAction::Symlink { path, target } => GAction::Symlink {
                path: path@,
                target: target@,
            },
        }
    }
}

pub open spec fn actions_view(v: Seq<ExtractAction>) -> Seq<GAction> {
    Seq::new(v.len(), |i: int| v[i]@)
}

/// The extraction steps for one node at `path`.
pub open spec fn plan_node(path: Seq<u8>, n: GNode, body: Seq<u8>, verify: bool) -> Result<
    Seq<GAction>,
    GErr,
>
    decreases n,
{
    match n {
        GNode::File { size, offset, executable, unpacked, integrity } => {
            if unpacked {
                Result::Ok(seq![GAction::UnpackedFile { path, executable }])
            } else if offset + size > body.len() {
                Result::Err(GErr::Format)
            } else {
                let data = body.subrange(offset as int, (offset + size) as int);
                if verify && (match integrity {
                    Option::Some(it) => !verify_ok(data, it),
                    Option::None => false,
                }) {
                    Result::Err(GErr::Integrity { path })
                } else {
                    Result::Ok(seq![GAction::FileData { path, data, executable }])
                }
            }
        },
        GNode::Directory { entries } => {
            match plan_entries(entries, path, body, verify) {
                Result::Ok(acts) => Result::Ok(seq![GAction::Dir { path }] + acts),
                Result::Err(e) => Result::Err(e),
            }
        },
        GNode::Link { target } => Result::Ok(seq![GAction::Symlink { path, target }]),
    }
}

/// The extraction steps for a directory's entries, left to right.
pub open spec fn plan_entries(
    es: Seq<(Seq<u8>, GNode)>,
    dir_path: Seq<u8>,
    body: Seq<u8>,
    verify: bool,
) -> Result<Seq<GAction>, GErr>
    decreases es,
{
    if es.len() == 0 {
        Result::Ok(Seq::<GAction>::empty())
    } else {
        match plan_node(child_path(dir_path, es[0].0), es[0].1, body, verify) {
            Result::Err(e) => Result::Err(e),
            Result::Ok(a) => {
                match plan_entries(es.drop_first(), dir_path, body, verify) {
                    Result::Err(e) => Result::Err(e),
                    Result::Ok(b) => Result::Ok(a + b),
                }
            },
        }
    }
}

/// The whole extraction: decode the framing and the header, check that the
/// header text is fully consumed and that the root is a directory, then
/// plan every node against the body.
pub open spec fn extract_spec(a: Seq<u8>, verify: bool) -> Result<Seq<GAction>, GErr> {
    match parse_header_frames(a) {
        Option::None => Result::Err(GErr::Format),
        Option::Some((json, body_start)) => {
            match p_node(json) {
                Option::None => Result::Err(GErr::Format),
                Option::Some((root, c)) => {
                    if c != json.len() {
                        Result::Err(GErr::Format)
                    } else {
                        let body = a.subrange(body_start as int, a.len() as int);
                        match root {
                            GNode::Directory { entries } => plan_entries(
                                entries,
                                Seq::<u8>::empty(),
                                body,
                                verify,
                            ),
                            _ => Result::Err(GErr::Format),
                        }
                    }
                },
            }
        },
    }
}

fn plan_node_exec(path: Vec<u8>, n: &Node, body: &Vec<u8>, verify: bool) -> (r: Result<
    Vec<ExtractAction>,
    ArchiveError,
>)
    ensures
        ({
            match r {
                Result::Ok(acts) => plan_node(path@, n@, body@, verify) == Result::<
                    Seq<GAction>,
                    GErr,
                >::Ok(actions_view(acts@)),
                Result::Err(e) => plan_node(path@, n@, body@, verify) matches Result::Err(ge)
                    && err_matches(e, ge),
            }
        }),
    decreases n, 1int,
{
    match n {
        Node::File { size, offset, executable, unpacked, integrity } => {
            if *unpacked {
                let mut acts: Vec<ExtractAction> = Vec::new();
                acts.push(ExtractAction::UnpackedFile { path, executable: *executable });
                proof {
                    assert(actions_view(acts@) =~= seq![
                        GAction::UnpackedFile { path: acts@[0]->UnpackedFile_path@, executable:
                        *executable },
                    ]);
                }
                return Result::Ok(acts);
            }
            if *size as u128 + *offset as u128 > body.len() as u128 {
                return Result::Err(ArchiveError::Format);
            }
            let start = *offset as usize;
            let end = (*offset + *size) as usize;
            let data = copy_range(body, start, end);
            if verify {
                match integrity {
                    Option::Some(it) => {
                        if !verify_streaming(&data, it) {
                            let e = ArchiveError::Integrity { path };
                            proof {
                                assert(err_matches(e, GErr::Integrity { path: e->Integrity_path@ }));
                            }
                            return Result::Err(e);
                        }
                    },
                    Option::None => {},
                }
            }
            let mut acts: Vec<ExtractAction> = Vec::new();
            acts.push(ExtractAction::FileData { path, data, executable: *executable });
            proof {
                assert(actions_view(acts@).len() == 1);
                assert(actions_view(acts@)[0] == acts@[0]@);
                assert(actions_view(acts@) =~= seq![acts@[0]@]);
            }
            Result::Ok(acts)
        },
        Node::Directory { entries } => {
            proof {
                lemma_entries_view_len(entries@);
                assert(entries_view(entries@).skip(0) =~= entries_view(entries@));
            }
            match plan_entries_exec(entries, 0, &path, body, verify) {
                Result::Err(e) => Result::Err(e),
                Result::Ok(mut acts) => {
                    let ghost tail_av = actions_view(acts@);
                    acts.insert(0, ExtractAction::Dir { path });
                    proof {
                        assert(acts@.drop_first() =~= acts@.skip(1));
                        assert forall|k: int|
                            0 <= k < acts@.len() implies #[trigger] actions_view(acts@)[k] == (
                        seq![acts@[0]@] + tail_av)[k] by {
                            if k > 0 {
                                assert(acts@[k] == acts@.drop_first()[k - 1]);
                                assert(tail_av[k - 1] == acts@.drop_first()[k - 1]@);
                            }
                        }
                        assert(actions_view(acts@) =~= seq![acts@[0]@] + tail_av);
                    }
                    Result::Ok(acts)
                },
            }
        },
        Node::Link { target } => {
            let t = copy_range(target, 0, target.len());
            proof {
                assert(target@.subrange(0, target@.len() as int) =~= target@);
            }
            let mut acts: Vec<ExtractAction> = Vec::new();
            acts.push(ExtractAction::Symlink { path, target: t });
            proof {
                assert(actions_view(acts@) =~= seq![acts@[0]@]);
            }
            Result::Ok(acts)
        },
    }
}

fn plan_entries_exec(
    es: &Vec<(Vec<u8>, Node)>,
    i: usize,
    dir_path: &Vec<u8>,
    body: &Vec<u8>,
    verify: bool,
) -> (r: Result<Vec<ExtractAction>, ArchiveError>)
    requires
        i <= es@.len(),
    ensures
        ({
            let sv = entries_view(es@).skip(i as int);
            match r {
                Result::Ok(acts) => plan_entries(sv, dir_path@, body@, verify) == Result::<
                    Seq<GAction>,
                    GErr,
                >::Ok(actions_view(acts@)),
                Result::Err(e) => plan_entries(sv, dir_path@, body@, verify) matches Result::Err(
                    ge,
                ) && err_matches(e, ge),
            }
        }),
    decreases es, es@.len() - i,
{
    let ghost ev = entries_view(es@);
    let ghost sv = ev.skip(i as int);
    proof {
        lemma_entries_view_len(es@);
    }
    if i == es.len() {
        let acts: Vec<ExtractAction> = Vec::new();
        proof {
            assert(sv =~= Seq::<(Seq<u8>, GNode)>::empty());
            assert(actions_view(acts@) =~= Seq::<GAction>::empty());
        }
        return Result::Ok(acts);
    }
    proof {
        assert(sv[0] == ev[i as int]);
        assert(ev[i as int] == entry_view(es@[i as int]));
        assert(sv.drop_first() =~= ev.skip(i + 1));
    }
    let pair = &es[i];
    let cp: Vec<u8> = if dir_path.len() == 0 {
        copy_range(&pair.0, 0, pair.0.len())
    } else {
        let mut c = copy_range(dir_path, 0, dir_path.len());
        c.push(47);
        let mut nm = copy_range(&pair.0, 0, pair.0.len());
        c.append(&mut nm);
        c
    };
    proof {
        assert(pair.0@.subrange(0, pair.0@.len() as int) =~= pair.0@);
        assert(dir_path@.subrange(0, dir_path@.len() as int) =~= dir_path@);
        assert(cp@ =~= child_path(dir_path@, sv[0].0));
    }
    match plan_node_exec(cp, &pair.1, body, verify) {
        Result::Err(e) => Result::Err(e),
        Result::Ok(mut acts) => {
            match plan_entries_exec(es, i + 1, dir_path, body, verify) {
                Result::Err(e) => Result::Err(e),
                Result::Ok(mut rest) => {
                    let ghost a_av = actions_view(acts@);
                    let ghost b_av = actions_view(rest@);
                    acts.append(&mut rest);
                    proof {
                        assert(actions_view(acts@) =~= a_av + b_av);
                    }
                    Result::Ok(acts)
                },
            }
        },
    }
}

/// Decodes an archive and plans its extraction: directories before their
/// contents, file bytes from the body, unpacked entries by reference, links
/// by target. With `verify`, every embedded file with a recorded integrity
/// record is digest-checked and the first mismatch aborts with an integrity
/// error naming that file; bytes of unpacked entries are not checked.
/// Returns a format error exactly when the framing, the header text, the
/// root kind or a body range is not as the format prescribes.
pub fn extract_all(archive: &Vec<u8>, verify: bool) -> (r: Result<
    Vec<ExtractAction>,
    ArchiveError,
>)
    ensures
        ({
            match r {
                Result::Ok(acts) => extract_spec(archive@, verify) == Result::<
                    Seq<GAction>,
                    GErr,
                >::Ok(actions_view(acts@)),
                Result::Err(e) => extract_spec(archive@, verify) matches Result::Err(ge)
                    && err_matches(e, ge),
            }
        }),
{
    let (json, body_start) = match read_header_frames(archive) {
        Result::Ok(p) => p,
        Result::Err(e) => {
            return Result::Err(ArchiveError::Format);
        },
    };
    let (root, consumed) = match parse_node(&json, 0) {
        Option::Some(p) => p,
        Option::None => {
            proof {
                assert(suffix_from(json@, 0) =~= json@);
            }
            return Result::Err(ArchiveError::Format);
        },
    };
    proof {
        assert(suffix_from(json@, 0) =~= json@);
    }
    if consumed != json.len() {
        return Result::Err(ArchiveError::Format);
    }
    let body = copy_range(archive, body_start, archive.len());
    match &root {
        Node::Directory { entries } => {
            proof {
                lemma_entries_view_len(entries@);
                assert(entries_view(entries@).skip(0) =~= entries_view(entries@));
                assert(root@ == GNode::Directory { entries: entries_view(entries@) });
            }
            let empty_path: Vec<u8> = Vec::new();
            plan_entries_exec(entries, 0, &empty_path, &body, verify)
        },
        _ => Result::Err(ArchiveError::Format),
    }
}

/// The contained paths in header order, parents before children.
pub open spec fn paths_of_entries(es: Seq<(Seq<u8>, GNode)>, dir_path: Seq<u8>) -> Seq<Seq<u8>>
    decreases es,
{
    if es.len() == 0 {
        Seq::<Seq<u8>>::empty()
    } else {
        seq![child_path(dir_path, es[0].0)] + (match es[0].1 {
            GNode::Directory { entries } => paths_of_entries(
                entries,
                child_path(dir_path, es[0].0),
            ),
            _ => Seq::<Seq<u8>>::empty(),
        }) + paths_of_entries(es.drop_first(), dir_path)
    }
}

/// The lister's whole result: decode framing and header only.
pub open spec fn list_spec(a: Seq<u8>) -> Result<Seq<Seq<u8>>, GErr> {
    match parse_header_frames(a) {
        Option::None => Result::Err(GErr::Format),
        Option::Some((json, body_start)) => {
            match p_node(json) {
                Option::None => Result::Err(GErr::Format),
                Option::Some((root, c)) => {
                    if c != json.len() {
                        Result::Err(GErr::Format)
                    } else {
                        match root {
                            GNode::Directory { entries } => Result::Ok(
                                paths_of_entries(entries, Seq::<u8>::empty()),
                            ),
                            _ => Result::Err(GErr::Format),
                        }
                    }
                },
            }
        },
    }
}

fn paths_exec(es: &Vec<(Vec<u8>, Node)>, i: usize, dir_path: &Vec<u8>) -> (r: Vec<Vec<u8>>)
    requires
        i <= es@.len(),
    ensures
        r.deep_view() == paths_of_entries(entries_view(es@).skip(i as int), dir_path@),
    decreases es, es@.len() - i,
{
    let ghost ev = entries_view(es@);
    let ghost sv = ev.skip(i as int);
    proof {
        lemma_entries_view_len(es@);
    }
    if i == es.len() {
        let r: Vec<Vec<u8>> = Vec::new();
        proof {
            assert(sv =~= Seq::<(Seq<u8>, GNode)>::empty());
            assert(r.deep_view() =~~= paths_of_entries(sv, dir_path@));
        }
        return r;
    }
    proof {
        assert(sv[0] == ev[i as int]);
        assert(ev[i as int] == entry_view(es@[i as int]));
        assert(sv.drop_first() =~= ev.skip(i + 1));
    }
    let pair = &es[i];
    let cp: Vec<u8> = if dir_path.len() == 0 {
        copy_range(&pair.0, 0, pair.0.len())
    } else {
        let mut c = copy_range(dir_path, 0, dir_path.len());
        c.push(47);
        let mut nm = copy_range(&pair.0, 0, pair.0.len());
        c.append(&mut nm);
        c
    };
    proof {
        assert(pair.0@.subrange(0, pair.0@.len() as int) =~= pair.0@);
        assert(dir_path@.subrange(0, dir_path@.len() as int) =~= dir_path@);
        assert(cp@ =~= child_path(dir_path@, sv[0].0));
    }
    let mut out: Vec<Vec<u8>> = Vec::new();
    out.push(copy_range(&cp, 0, cp.len()));
    proof {
        assert(cp@.subrange(0, cp@.len() as int) =~= cp@);
    }
    let ghost head_dv = out.deep_view();
    proof {
        assert(head_dv =~~= seq![cp@]);
    }
    let mut mid: Vec<Vec<u8>> = match &pair.1 {
        Node::Directory { entries } => {
            proof {
                lemma_entries_view_len(entries@);
                assert(entries_view(entries@).skip(0) =~= entries_view(entries@));
                assert(sv[0].1 == GNode::Directory { entries: entries_view(entries@) });
            }
            paths_exec(entries, 0, &cp)
        },
        _ => {
            let e: Vec<Vec<u8>> = Vec::new();
            proof {
                assert(e.deep_view() =~~= Seq::<Seq<u8>>::empty());
            }
            e
        },
    };
    let ghost mid_dv = mid.deep_view();
    let mut rest = paths_exec(es, i + 1, dir_path);
    let ghost rest_dv = rest.deep_view();
    out.append(&mut mid);
    out.append(&mut rest);
    proof {
        assert(out.deep_view() =~~= head_dv + mid_dv + rest_dv);
        assert(paths_of_entries(sv, dir_path@) == seq![child_path(dir_path@, sv[0].0)] + (
        match sv[0].1 {
            GNode::Directory { entries } => paths_of_entries(
                entries,
                child_path(dir_path@, sv[0].0),
            ),
            _ => Seq::<Seq<u8>>::empty(),
        }) + paths_of_entries(sv.drop_first(), dir_path@));
        assert(out.deep_view() =~~= paths_of_entries(sv, dir_path@));
    }
    out
}

/// Lists the paths an archive contains, parents before children, without
/// touching the body. Fails exactly when framing or header are malformed.
pub fn list_package(archive: &Vec<u8>) -> (r: Result<Vec<Vec<u8>>, ArchiveError>)
    ensures
        ({
            match r {
                Result::Ok(v) => list_spec(archive@) == Result::<Seq<Seq<u8>>, GErr>::Ok(
                    v.deep_view(),
                ),
                Result::Err(e) => list_spec(archive@) is Err && e == ArchiveError::Format,
            }
        }),
{
    let (json, body_start) = match read_header_frames(archive) {
        Result::Ok(p) => p,
        Result::Err(e) => {
            return Result::Err(ArchiveError::Format);
        },
    };
    let (root, consumed) = match parse_node(&json, 0) {
        Option::Some(p) => p,
        Option::None => {
            proof {
                assert(suffix_from(json@, 0) =~= json@);
            }
            return Result::Err(ArchiveError::Format);
        },
    };
    proof {
        assert(suffix_from(json@, 0) =~= json@);
    }
    if consumed != json.len() {
        return Result::Err(ArchiveError::Format);
    }
    match &root {
        Node::Directory { entries } => {
            proof {
                lemma_entries_view_len(entries@);
                assert(entries_view(entries@).skip(0) =~= entries_view(entries@));
                assert(root@ == GNode::Directory { entries: entries_view(entries@) });
            }
            let empty_path: Vec<u8> = Vec::new();
            Result::Ok(paths_exec(entries, 0, &empty_path))
        },
        _ => Result::Err(ArchiveError::Format),
    }
}

} // verus!
