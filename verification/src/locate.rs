//! Locating the installation that holds an archive, modelled over plain
//! values: the embedding application supplies the candidate directories it
//! knows of and which of them actually hold the archive file; the choice
//! itself — first hit in a fixed precedence order — is verified here.

use vstd::prelude::*;
use crate::error::ArchiveError;
use crate::extract::{list_spec, list_package, GErr};
use crate::util::{trimmed_end, ends_with, trimmed_ends_with, copy_range, suffix_from};

verus! {

/// The first candidate, from index `i` on, whose mark is set.
pub open spec fn first_hit(c: Seq<Seq<u8>>, m: Seq<bool>, i: int) -> Option<Seq<u8>>
    decreases c.len() - i,
    when 0 <= i <= c.len()
{
    if i >= c.len() {
        Option::<Seq<u8>>::None
    } else if m[i] {
        Option::Some(c[i])
    } else {
        first_hit(c, m, i + 1)
    }
}

/// Picks the first candidate directory that was found to hold the archive:
/// `present[i]` says whether the archive file exists under `candidates[i]`,
/// as the embedding application determined.
pub fn find_resources_path(candidates: &Vec<Vec<u8>>, present: &Vec<bool>) -> (r: Option<
    Vec<u8>,
>)
    requires
        candidates@.len() == present@.len(),
    ensures
        ({
            let h = first_hit(candidates.deep_view(), present@, 0);
            match r {
                Option::Some(v) => h == Option::Some(v@),
                Option::None => h is None,
            }
        }),
{
    let ghost cv = candidates.deep_view();
    proof {
        assert(cv.len() == candidates@.len());
    }
    let n = candidates.len();
    let mut i: usize = 0;
    while i < n
        invariant
            cv == candidates.deep_view(),
            cv.len() == candidates@.len() == present@.len() == n,
            i <= n,
            first_hit(cv, present@, 0) == first_hit(cv, present@, i as int),
        decreases n - i,
    {
        if present[i] {
            let v = copy_range(&candidates[i], 0, candidates[i].len());
            proof {
                assert(candidates@[i as int]@.subrange(0, candidates@[i as int]@.len() as int)
                    =~= candidates@[i as int]@);
                assert(cv[i as int] == candidates@[i as int]@);
            }
            return Option::Some(v);
        }
        i += 1;
    }
    Option::None
}

/// The index after the last path separator, or `-1` when there is none.
pub open spec fn last_sep(s: Seq<u8>) -> int
    decreases s.len(),
{
    if s.len() == 0 {
        -1
    } else if s.last() == 47 || s.last() == 92 {
        s.len() - 1
    } else {
        last_sep(s.drop_last())
    }
}

pub open spec fn is_sep(b: u8) -> bool {
    b == 47 || b == 92
}

/// `s` with trailing path separators removed.
pub open spec fn strip_seps(s: Seq<u8>) -> Seq<u8>
    decreases s.len(),
{
    if s.len() > 0 && is_sep(s.last()) {
        strip_seps(s.drop_last())
    } else {
        s
    }
}

/// The directory above a path, as the standard path handling has it:
/// trailing separators are ignored, then the last component and the run of
/// separators before it are removed. A bare name's parent is the empty
/// path; a pure separator run is a root, has no parent, and is kept as it
/// is — together the standard parent, falling back to the path itself.
pub open spec fn parent_path(s: Seq<u8>) -> Seq<u8> {
    let t = strip_seps(s);
    if s.len() > 0 && t.len() == 0 {
        s
    } else if last_sep(t) >= 0 {
        strip_seps(t.subrange(0, last_sep(t)))
    } else {
        Seq::<u8>::empty()
    }
}

/// The directory above a resources directory; see `parent_path` for the
/// exact treatment of separators.
pub fn to_game_root(resources: &Vec<u8>) -> (r: Vec<u8>)
    ensures
        r@ == parent_path(resources@),
{
    let n = resources.len();
    let mut end: usize = n;
    assert(resources@.subrange(0, n as int) =~= resources@);
    while end > 0 && (resources[end - 1] == 47 || resources[end - 1] == 92)
        invariant
            end <= n == resources@.len(),
            strip_seps(resources@) == strip_seps(resources@.subrange(0, end as int)),
        decreases end,
    {
        proof {
            let sub = resources@.subrange(0, end as int);
            assert(sub.last() == resources@[end - 1]);
            assert(sub.drop_last() =~= resources@.subrange(0, end - 1));
        }
        end -= 1;
    }
    let ghost t = strip_seps(resources@);
    proof {
        let sub = resources@.subrange(0, end as int);
        if end > 0 {
            assert(sub.last() == resources@[end - 1]);
            assert(!is_sep(sub.last()));
        } else {
            assert(sub =~= Seq::<u8>::empty());
        }
        assert(strip_seps(sub) == sub);
        assert(t == sub);
        assert(t.len() == end);
        assert(t.subrange(0, end as int) =~= t);
    }
    if end == 0 {
        proof {
            if n > 0 {
                assert(parent_path(resources@) == resources@);
            } else {
                assert(last_sep(t) == -1);
                assert(parent_path(resources@) =~= Seq::<u8>::empty());
            }
            assert(resources@.subrange(0, n as int) =~= resources@);
        }
        return copy_range(resources, 0, n);
    }
    let mut cut: usize = end;
    while cut > 0 && resources[cut - 1] != 47 && resources[cut - 1] != 92
        invariant
            t == strip_seps(resources@),
            t == resources@.subrange(0, end as int),
            t.len() == end <= resources@.len(),
            cut <= end,
            last_sep(t) == last_sep(t.subrange(0, cut as int)),
        decreases cut,
    {
        proof {
            let sub = t.subrange(0, cut as int);
            assert(sub.last() == t[cut - 1]);
            assert(t[cut - 1] == resources@[cut - 1]);
            assert(sub.drop_last() =~= t.subrange(0, cut - 1));
        }
        cut -= 1;
    }
    if cut == 0 {
        proof {
            assert(t.subrange(0, 0) =~= Seq::<u8>::empty());
            assert(last_sep(t) == -1);
            assert(t.len() == end > 0);
            assert(parent_path(resources@) =~= Seq::<u8>::empty());
        }
        let r: Vec<u8> = Vec::new();
        return r;
    }
    proof {
        let sub = t.subrange(0, cut as int);
        assert(sub.last() == t[cut - 1]);
        assert(t[cut - 1] == resources@[cut - 1]);
        assert(is_sep(sub.last()));
        assert(last_sep(sub) == cut - 1);
        assert(last_sep(t) == cut - 1);
        assert(t.subrange(0, cut - 1) =~= resources@.subrange(0, cut - 1));
    }
    let ghost pre = t.subrange(0, cut - 1);
    let mut end2: usize = cut - 1;
    assert(pre =~= resources@.subrange(0, end2 as int));
    while end2 > 0 && (resources[end2 - 1] == 47 || resources[end2 - 1] == 92)
        invariant
            0 < cut <= resources@.len(),
            end2 <= cut - 1,
            pre == resources@.subrange(0, cut - 1),
            strip_seps(pre) == strip_seps(resources@.subrange(0, end2 as int)),
        decreases end2,
    {
        proof {
            let sub = resources@.subrange(0, end2 as int);
            assert(sub.last() == resources@[end2 - 1]);
            assert(sub.drop_last() =~= resources@.subrange(0, end2 - 1));
        }
        end2 -= 1;
    }
    proof {
        let sub = resources@.subrange(0, end2 as int);
        if end2 > 0 {
            assert(sub.last() == resources@[end2 - 1]);
            assert(!is_sep(sub.last()));
        } else {
            assert(sub =~= Seq::<u8>::empty());
        }
        assert(strip_seps(sub) == sub);
        assert(strip_seps(pre) == sub);
        assert(parent_path(resources@) == sub);
    }
    copy_range(resources, 0, end2)
}

/// The file name whose presence in an archive marks it as patched.
pub open spec fn patch_marker() -> Seq<u8> {
    seq![103u8, 104, 111, 115, 116, 103, 117, 101, 115, 115, 114, 46, 117, 115, 101, 114, 46,
        106, 115]  // ghostguessr.user.js
}

fn patch_marker_vec() -> (r: Vec<u8>)
    ensures
        r@ == patch_marker(),
{
    let mut v: Vec<u8> = Vec::new();
    v.push(103);
    v.push(104);
    v.push(111);
    v.push(115);
    v.push(116);
    v.push(103);
    v.push(117);
    v.push(101);
    v.push(115);
    v.push(115);
    v.push(114);
    v.push(46);
    v.push(117);
    v.push(115);
    v.push(101);
    v.push(114);
    v.push(46);
    v.push(106);
    v.push(115);
    assert(v@ =~= patch_marker());
    v
}

/// Whether some listed path, after trailing-whitespace trimming, ends with
/// the patch marker.
pub open spec fn any_patched(paths: Seq<Seq<u8>>) -> bool {
    exists|i: int| 0 <= i < paths.len() && ends_with(trimmed_end(#[trigger] paths[i]), patch_marker())
}

/// Decides whether an archive already contains the injected script: its
/// header lists a path ending in the marker file name. A malformed archive
/// is reported as an error message.
pub fn is_patched(archive: &Vec<u8>) -> (r: Result<bool, String>)
    ensures
        ({
            match list_spec(archive@) {
                Result::Ok(paths) => r matches Ok(b) && b == any_patched(paths),
                Result::Err(ge) => r is Err,
            }
        }),
{
    let paths = match list_package(archive) {
        Result::Ok(p) => p,
        Result::Err(e) => {
            return Result::Err(e.describe());
        },
    };
    let ghost pv = paths.deep_view();
    proof {
        assert(pv.len() == paths@.len());
    }
    let marker = patch_marker_vec();
    let n = paths.len();
    let mut i: usize = 0;
    while i < n
        invariant
            pv == paths.deep_view(),
            pv.len() == paths@.len() == n,
            list_spec(archive@) == Result::<Seq<Seq<u8>>, GErr>::Ok(pv),
            marker@ == patch_marker(),
            i <= n,
            forall|j: int|
                0 <= j < i ==> !ends_with(trimmed_end(#[trigger] pv[j]), patch_marker()),
        decreases n - i,
    {
        if trimmed_ends_with(&paths[i], &marker) {
            proof {
                assert(pv[i as int] == paths@[i as int]@);
                assert(any_patched(pv));
            }
            return Result::Ok(true);
        }
        proof {
            assert(pv[i as int] == paths@[i as int]@);
        }
        i += 1;
    }
    assert(!any_patched(pv));
    Result::Ok(false)
}

} // verus!
