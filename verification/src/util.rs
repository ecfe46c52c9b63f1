//! Small byte-sequence helpers shared by the codec, the header text
//! writer/parser and the packers.

use vstd::prelude::*;

verus! {

/// `p` is a prefix of `s`.
pub open spec fn starts_with(s: Seq<u8>, p: Seq<u8>) -> bool {
    p.len() <= s.len() && s.subrange(0, p.len() as int) == p
}

/// The suffix of `s` after its first `k` bytes; empty when `k` runs past the
/// end. Total, so that recursive parsers can always call it.
pub open spec fn suffix_from(s: Seq<u8>, k: nat) -> Seq<u8> {
    if k <= s.len() {
        s.skip(k as int)
    } else {
        Seq::<u8>::empty()
    }
}

/// Concatenation is associative.
pub proof fn lemma_add_assoc(a: Seq<u8>, b: Seq<u8>, c: Seq<u8>)
    ensures
        (a + b) + c == a + (b + c),
{
    assert((a + b) + c =~= a + (b + c));
}

/// The suffix of a concatenation after its first part.
pub proof fn lemma_suffix_concat(a: Seq<u8>, b: Seq<u8>)
    ensures
        suffix_from(a + b, a.len()) == b,
{
    assert(suffix_from(a + b, a.len()) =~= b);
}

pub proof fn lemma_suffix_of_suffix(s: Seq<u8>, j: nat, k: nat)
    requires
        j + k <= s.len(),
    ensures
        suffix_from(suffix_from(s, j), k) == suffix_from(s, j + k),
{
    assert(suffix_from(suffix_from(s, j), k) =~= suffix_from(s, j + k));
}

/// Exact byte equality of two vectors.
pub fn bytes_eq(a: &Vec<u8>, b: &Vec<u8>) -> (r: bool)
    ensures
        r == (a@ == b@),
{
    if a.len() != b.len() {
        assert(a@ != b@) by {
            assert(a@.len() != b@.len());
        }
        return false;
    }
    let n = a.len();
    let mut i: usize = 0;
    while i < n
        invariant
            n == a.len() == b.len(),
            i <= n,
            forall|j: int| 0 <= j < i ==> a@[j] == b@[j],
        decreases n - i,
    {
        if a[i] != b[i] {
            return false;
        }
        i += 1;
    }
    assert(a@ =~= b@);
    true
}

/// Does `data` hold the bytes of `lit` starting at `pos`?
pub fn matches_at(data: &Vec<u8>, pos: usize, lit: &Vec<u8>) -> (r: bool)
    requires
        pos <= data@.len(),
    ensures
        r == starts_with(suffix_from(data@, pos as nat), lit@),
{
    let n = lit.len();
    if data.len() - pos < n {
        return false;
    }
    let mut i: usize = 0;
    while i < n
        invariant
            n == lit.len(),
            pos + n <= data.len(),
            i <= n,
            forall|j: int| 0 <= j < i ==> data@[pos + j] == lit@[j],
        decreases n - i,
    {
        if data[pos + i] != lit[i] {
            assert(suffix_from(data@, pos as nat)[i as int] == data@[pos + i]);
            return false;
        }
        i += 1;
    }
    assert(suffix_from(data@, pos as nat).subrange(0, n as int) =~= lit@);
    true
}

/// Copies `data[start..end]` into a fresh vector.
pub fn copy_range(data: &Vec<u8>, start: usize, end: usize) -> (r: Vec<u8>)
    requires
        start <= end <= data@.len(),
    ensures
        r@ == data@.subrange(start as int, end as int),
{
    let mut out: Vec<u8> = Vec::new();
    let mut i: usize = start;
    while i < end
        invariant
            start <= i <= end <= data@.len(),
            out@ == data@.subrange(start as int, i as int),
        decreases end - i,
    {
        out.push(data[i]);
        assert(out@ =~= data@.subrange(start as int, i + 1));
        i += 1;
    }
    out
}

/// `b` is ASCII whitespace (space, tab, carriage return, line feed).
pub open spec fn is_ws(b: u8) -> bool {
    b == 32 || b == 9 || b == 13 || b == 10
}

/// `s` with trailing ASCII whitespace removed.
pub open spec fn trimmed_end(s: Seq<u8>) -> Seq<u8>
    decreases s.len(),
{
    if s.len() == 0 {
        s
    } else if is_ws(s.last()) {
        trimmed_end(s.drop_last())
    } else {
        s
    }
}

/// `suf` is a suffix of `s`.
pub open spec fn ends_with(s: Seq<u8>, suf: Seq<u8>) -> bool {
    suf.len() <= s.len() && s.subrange(s.len() - suf.len(), s.len() as int) == suf
}

/// Strips trailing ASCII whitespace, then tests for the given suffix.
pub fn trimmed_ends_with(s: &Vec<u8>, suf: &Vec<u8>) -> (r: bool)
    ensures
        r == ends_with(trimmed_end(s@), suf@),
{
    let mut end: usize = s.len();
    assert(s@.subrange(0, s@.len() as int) =~= s@);
    while end > 0 && (s[end - 1] == 32 || s[end - 1] == 9 || s[end - 1] == 13 || s[end - 1]
        == 10)
        invariant
            end <= s@.len(),
            trimmed_end(s@) == trimmed_end(s@.subrange(0, end as int)),
        decreases end,
    {
        proof {
            let sub = s@.subrange(0, end as int);
            assert(sub.last() == s@[end - 1]);
            assert(sub.drop_last() =~= s@.subrange(0, end - 1));
        }
        end -= 1;
    }
    let ghost t = trimmed_end(s@);
    proof {
        let sub = s@.subrange(0, end as int);
        if end > 0 {
            assert(sub.last() == s@[end - 1]);
            assert(!is_ws(sub.last()));
            assert(trimmed_end(sub) == sub);
        } else {
            assert(sub =~= Seq::<u8>::empty());
            assert(trimmed_end(sub) == sub);
        }
        assert(t == sub);
        assert(t.len() == end);
    }
    if end < suf.len() {
        return false;
    }
    let start = end - suf.len();
    let mut i: usize = 0;
    while i < suf.len()
        invariant
            t == trimmed_end(s@),
            t == s@.subrange(0, end as int),
            t.len() == end,
            suf@.len() <= end <= s@.len(),
            start == end - suf@.len(),
            i <= suf@.len(),
            forall|j: int| 0 <= j < i ==> s@[start + j] == suf@[j],
        decreases suf@.len() - i,
    {
        if s[start + i] != suf[i] {
            proof {
                assert(!ends_with(t, suf@)) by {
                    if ends_with(t, suf@) {
                        assert(t.subrange(t.len() - suf@.len(), t.len() as int) == suf@);
                        assert(t.subrange(t.len() - suf@.len(), t.len() as int)[i as int]
                            == suf@[i as int]);
                        assert(t[start + i] == suf@[i as int]);
                        assert(t[start + i] == s@[start + i]);
                        assert(false);
                    }
                }
            }
            return false;
        }
        i += 1;
    }
    proof {
        assert(t.subrange(t.len() - suf@.len(), t.len() as int) =~= suf@) by {
            assert(forall|j: int|
                0 <= j < suf@.len() ==> #[trigger] t.subrange(
                    t.len() - suf@.len(),
                    t.len() as int,
                )[j] == s@[start + j]);
        }
    }
    true
}

} // verus!
