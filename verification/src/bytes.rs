//! Small verified helpers on byte vectors: equality, suffix tests, and
//! suffix stripping. The rest of the crate treats file contents, variable
//! names and relative paths as plain bytes.
use vstd::prelude::*;

verus! {

/// True when the two byte vectors hold the same bytes.
pub fn bytes_eq(a: &Vec<u8>, b: &Vec<u8>) -> (r: bool)
    ensures
        r == (a@ == b@),
{
    if a.len() != b.len() {
        assert(a@ != b@);
        return false;
    }
    let mut i: usize = 0;
    while i < a.len()
        invariant
            i <= a.len(),
            a.len() == b.len(),
            forall|j: int| 0 <= j < i ==> a@[j] == b@[j],
        decreases a.len() - i,
    {
        if a[i] != b[i] {
            return false;
        }
        i += 1;
    }
    assert(a@ =~= b@);
    true
}

/// True when `a` ends with the bytes of `suffix`.
pub open spec fn spec_ends_with(a: Seq<u8>, suffix: Seq<u8>) -> bool {
    suffix.len() <= a.len() && a.subrange(a.len() - suffix.len(), a.len() as int) == suffix
}

/// True when `a` ends with the bytes of `suffix`.
pub fn ends_with(a: &Vec<u8>, suffix: &Vec<u8>) -> (r: bool)
    ensures
        r == spec_ends_with(a@, suffix@),
{
    if suffix.len() > a.len() {
        return false;
    }
    let off: usize = a.len() - suffix.len();
    let mut i: usize = 0;
    while i < suffix.len()
        invariant
            i <= suffix.len(),
            suffix.len() <= a.len(),
            off == a.len() - suffix.len(),
            forall|j: int| 0 <= j < i ==> a@[off + j] == suffix@[j],
        decreases suffix.len() - i,
    {
        if a[off + i] != suffix[i] {
            assert(a@.subrange(a@.len() - suffix@.len(), a@.len() as int)[i as int]
                != suffix@[i as int]);
            return false;
        }
        i += 1;
    }
    assert(a@.subrange(a@.len() - suffix@.len(), a@.len() as int) =~= suffix@);
    true
}

/// True when `b` is an ASCII whitespace byte (space, tab, carriage return,
/// line feed).
pub open spec fn spec_is_ws(b: u8) -> bool {
    b == 32 || b == 9 || b == 13 || b == 10
}

/// The sequence with leading and trailing ASCII whitespace removed: the
/// subrange from the first non-whitespace byte to the last one, or empty
/// when every byte is whitespace.
pub open spec fn spec_trim(a: Seq<u8>) -> Seq<u8>
    decreases a.len(),
{
    if a.len() == 0 {
        a
    } else if spec_is_ws(a[0]) {
        spec_trim(a.subrange(1, a.len() as int))
    } else if spec_is_ws(a[a.len() - 1]) {
        spec_trim(a.subrange(0, a.len() - 1))
    } else {
        a
    }
}

/// Removes leading and trailing ASCII whitespace from `a`.
pub fn trim_bytes(a: &Vec<u8>) -> (r: Vec<u8>)
    ensures
        r@ == spec_trim(a@),
{
    let mut lo: usize = 0;
    let mut hi: usize = a.len();
    assert(a@.subrange(0, a@.len() as int) =~= a@);
    while lo < hi && is_ws(a[lo])
        invariant
            lo <= hi,
            hi <= a.len(),
            spec_trim(a@) == spec_trim(a@.subrange(lo as int, hi as int)),
        decreases hi - lo,
    {
        proof {
            let cur = a@.subrange(lo as int, hi as int);
            assert(cur.subrange(1, cur.len() as int) =~= a@.subrange(lo + 1, hi as int));
        }
        lo += 1;
    }
    while lo < hi && is_ws(a[hi - 1])
        invariant
            lo <= hi,
            hi <= a.len(),
            spec_trim(a@) == spec_trim(a@.subrange(lo as int, hi as int)),
            lo < hi ==> !spec_is_ws(a@[lo as int]),
        decreases hi - lo,
    {
        proof {
            let cur = a@.subrange(lo as int, hi as int);
            assert(cur.subrange(0, cur.len() - 1) =~= a@.subrange(lo as int, hi - 1));
        }
        hi -= 1;
    }
    let mut out: Vec<u8> = Vec::new();
    let mut i: usize = lo;
    while i < hi
        invariant
            lo <= i <= hi,
            hi <= a.len(),
            out@ == a@.subrange(lo as int, i as int),
        decreases hi - i,
    {
        out.push(a[i]);
        assert(out@ =~= a@.subrange(lo as int, i + 1));
        i += 1;
    }
    proof {
        let cur = a@.subrange(lo as int, hi as int);
        assert(spec_trim(cur) == cur);
    }
    out
}

/// Copies the bytes of `a` between `lo` and `hi`.
pub fn copy_range(a: &Vec<u8>, lo: usize, hi: usize) -> (r: Vec<u8>)
    requires
        lo <= hi <= a@.len(),
    ensures
        r@ == a@.subrange(lo as int, hi as int),
{
    let mut out: Vec<u8> = Vec::new();
    let mut i: usize = lo;
    while i < hi
        invariant
            lo <= i <= hi,
            hi <= a@.len(),
            out@ == a@.subrange(lo as int, i as int),
        decreases hi - i,
    {
        out.push(a[i]);
        assert(out@ =~= a@.subrange(lo as int, i + 1));
        i += 1;
    }
    out
}

/// Appends all bytes of `v` to `out`.
pub fn push_all(out: &mut Vec<u8>, v: &Vec<u8>)
    ensures
        final(out)@ == old(out)@ + v@,
{
    let mut i: usize = 0;
    while i < v.len()
        invariant
            i <= v@.len(),
            out@ == old(out)@ + v@.subrange(0, i as int),
        decreases v@.len() - i,
    {
        out.push(v[i]);
        assert(out@ =~= old(out)@ + v@.subrange(0, i + 1));
        i += 1;
    }
    assert(out@ =~= old(out)@ + v@);
}

/// True when `b` is an ASCII whitespace byte.
fn is_ws(b: u8) -> (r: bool)
    ensures
        r == spec_is_ws(b),
{
    b == 32 || b == 9 || b == 13 || b == 10
}

} // verus!
