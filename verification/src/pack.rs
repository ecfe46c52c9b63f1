//! The packer: crawls a source tree, fixes the body layout by assigning
//! offsets in crawl order, serializes the header, frames it, and appends
//! the embedded file bodies in exactly the offset-assignment order.

use vstd::prelude::*;
use crate::crawl::{FsEntry, GFsEntry, CrawlOut, crawl_fs, crawl_source, check_tree, wf_gfs,
    opt_view, pairs_view, triples_view, lemma_dec_limit_u64};
use crate::error::ArchiveError;
use crate::jsontext::{json_of_node, node_json};
use crate::node::dec_limit;
use crate::pickle::{header_prefix, build_header_prefix, frames_ok};
use crate::util::copy_range;

verus! {

/// Packing options: the unpack rule (a directory name whose contents stay
/// on disk), the integrity block size, and whether to compute digests.
pub struct CreateOptions {
    pub unpack_dir: Option<Vec<u8>>,
    pub block_size: u32,
    pub compute_integrity: bool,
}

impl CreateOptions {
    /// Defaults: no unpack rule, 4 MiB blocks, digests computed.
    pub fn new() -> (r: CreateOptions)
        ensures
            r.unpack_dir is None,
            r.block_size == 4194304,
            r.compute_integrity,
    {
        CreateOptions { unpack_dir: Option::None, block_size: 4194304, compute_integrity: true }
    }
}

/// A packed archive: the single-file image, and the files the unpack rule
/// kept out of it, to be written under the sibling unpacked directory.
pub struct PackOutput {
    pub archive: Vec<u8>,
    pub unpacked: Vec<(Vec<u8>, Vec<u8>)>,
}

/// The body: the bytes of the packed files, concatenated in offset order.
pub open spec fn body_of(packed: Seq<(Seq<u8>, Seq<u8>, nat)>) -> Seq<u8>
    decreases packed.len(),
{
    if packed.len() == 0 {
        Seq::<u8>::empty()
    } else {
        body_of(packed.drop_last()) + packed.last().1
    }
}

/// The crawl a pack starts from: root path, offset counter at zero.
pub open spec fn pack_crawl(
    fs: GFsEntry,
    rule: Option<Seq<u8>>,
    integ: bool,
    bs: nat,
) -> CrawlOut {
    crawl_fs(fs, Seq::<u8>::empty(), 0, false, rule, integ, bs)
}

/// Packing succeeds exactly when the tree is well formed, the block size is
/// usable, the body stays under the decimal cap and the header fits its
/// 32-bit framing.
pub open spec fn pack_ok(fs: GFsEntry, rule: Option<Seq<u8>>, integ: bool, bs: nat) -> bool {
    let co = pack_crawl(fs, rule, integ, bs);
    &&& wf_gfs(fs)
    &&& (integ ==> bs > 0)
    &&& co.end < dec_limit()
    &&& frames_ok(json_of_node(co.node).len())
}

/// The archive image: framing, header text, body.
pub open spec fn pack_archive(
    fs: GFsEntry,
    rule: Option<Seq<u8>>,
    integ: bool,
    bs: nat,
) -> Seq<u8> {
    let co = pack_crawl(fs, rule, integ, bs);
    header_prefix(json_of_node(co.node)) + body_of(co.packed)
}

/// The files the unpack rule kept out of the body, verbatim.
pub open spec fn pack_unpacked(
    fs: GFsEntry,
    rule: Option<Seq<u8>>,
    integ: bool,
    bs: nat,
) -> Seq<(Seq<u8>, Seq<u8>)> {
    pack_crawl(fs, rule, integ, bs).unpacked
}

/// Builds an archive from a source tree: crawl, offset assignment, header
/// serialization and framing, body concatenation, in that order. Returns
/// the archive image and the unpacked files; the embedding application
/// writes them to disk (the archive via a temporary path it moves into
/// place, so partial output never becomes visible).
pub fn create_package_with_options(fs: &FsEntry, options: &CreateOptions) -> (r: Result<
    PackOutput,
    ArchiveError,
>)
    ensures
        ({
            let rule = opt_view(options.unpack_dir);
            let integ = options.compute_integrity;
            let bs = options.block_size as nat;
            match r {
                Ok(out) => {
                    &&& pack_ok(fs@, rule, integ, bs)
                    &&& out.archive@ == pack_archive(fs@, rule, integ, bs)
                    &&& pairs_view(out.unpacked@) == pack_unpacked(fs@, rule, integ, bs)
                },
                Err(e) => !pack_ok(fs@, rule, integ, bs) && e == ArchiveError::Format,
            }
        }),
{
    let ghost rule = opt_view(options.unpack_dir);
    let ghost co = pack_crawl(fs@, rule, options.compute_integrity, options.block_size as nat);
    if options.compute_integrity && options.block_size == 0 {
        return Err(ArchiveError::Format);
    }
    if !check_tree(fs) {
        return Err(ArchiveError::Format);
    }
    proof {
        lemma_dec_limit_u64();
    }
    let root_path: Vec<u8> = Vec::new();
    match crawl_source(
        fs,
        &root_path,
        0,
        false,
        &options.unpack_dir,
        options.compute_integrity,
        options.block_size,
    ) {
        Err(e) => Err(ArchiveError::Format),
        Ok((node, packed, unpacked, _end)) => {
            let json = node_json(&node);
            match build_header_prefix(&json) {
                Err(e2) => Err(ArchiveError::Format),
                Ok(mut archive) => {
                    let ghost tv = triples_view(packed@);
                    let ghost head = archive@;
                    let n = packed.len();
                    let mut i: usize = 0;
                    while i < n
                        invariant
                            n == packed@.len(),
                            i <= n,
                            tv == triples_view(packed@),
                            archive@ == head + body_of(tv.take(i as int)),
                        decreases n - i,
                    {
                        let mut piece = copy_range(&packed[i].1, 0, packed[i].1.len());
                        proof {
                            assert(packed@[i as int].1@.subrange(
                                0,
                                packed@[i as int].1@.len() as int,
                            ) =~= packed@[i as int].1@);
                        }
                        archive.append(&mut piece);
                        proof {
                            assert(tv.take(i + 1).drop_last() =~= tv.take(i as int));
                            assert(tv.take(i + 1).last() == tv[i as int]);
                            assert(tv[i as int].1 == packed@[i as int].1@);
                            assert(archive@ =~= head + body_of(tv.take(i + 1)));
                        }
                        i += 1;
                    }
                    proof {
                        assert(tv.take(tv.len() as int) =~= tv);
                        assert(archive@ =~= pack_archive(
                            fs@,
                            rule,
                            options.compute_integrity,
                            options.block_size as nat,
                        ));
                    }
                    Ok(PackOutput { archive, unpacked })
                },
            }
        },
    }
}

} // verus!
