//! Bounds-checked byte moves inside the fixed storage: block copies from a
//! slice and overlapping shifts of the tail, each with an exact statement of
//! which positions change.

use vstd::prelude::*;

verus! {

/// Writes `src[s_start..s_end]` into `v` at position `at`; every other
/// position keeps its byte.
pub(crate) fn copy_from_slice_at(
    v: &mut Vec<u8>,
    at: usize,
    src: &[u8],
    s_start: usize,
    s_end: usize,
)
    requires
        s_start <= s_end <= src@.len(),
        at + (s_end - s_start) <= old(v)@.len(),
    ensures
        final(v)@.len() == old(v)@.len(),
        forall|i: int| 0 <= i < at ==> final(v)@[i] == old(v)@[i],
        forall|i: int|
            at <= i < at + (s_end - s_start) ==> final(v)@[i] == src@[s_start + (i - at)],
        forall|i: int|
            at + (s_end - s_start) <= i < old(v)@.len() ==> final(v)@[i] == old(v)@[i],
        final(v)@.subrange(at as int, at + (s_end - s_start)) == src@.subrange(
            s_start as int,
            s_end as int,
        ),
{
    let count: usize = s_end - s_start;
    let vlen: usize = v.len();
    let mut x: usize = 0;
    while x < count
        invariant
            count == s_end - s_start,
            s_start <= s_end <= src@.len(),
            at + count <= vlen,
            v@.len() == vlen,
            x <= count,
            v@.len() == old(v)@.len(),
            forall|i: int| 0 <= i < at ==> v@[i] == old(v)@[i],
            forall|i: int| at <= i < at + x ==> v@[i] == src@[s_start + (i - at)],
            forall|i: int| at + x <= i < old(v)@.len() ==> v@[i] == old(v)@[i],
        decreases count - x,
    {
        v[at + x] = src[s_start + x];
        x = x + 1;
    }
    proof {
        assert(final(v)@.subrange(at as int, at + count) =~= src@.subrange(
            s_start as int,
            s_end as int,
        ));
    }
}

/// Moves `v[src..src + count]` down to position `dst` (`dst <= src`), walking
/// forward so that every read still sees the old byte.
pub(crate) fn shift_left_in(v: &mut Vec<u8>, dst: usize, src: usize, count: usize)
    requires
        dst <= src,
        src + count <= old(v)@.len(),
    ensures
        final(v)@.len() == old(v)@.len(),
        forall|i: int| 0 <= i < dst ==> final(v)@[i] == old(v)@[i],
        forall|i: int| dst <= i < dst + count ==> final(v)@[i] == old(v)@[src + (i - dst)],
        forall|i: int| dst + count <= i < old(v)@.len() ==> final(v)@[i] == old(v)@[i],
{
    let vlen: usize = v.len();
    let mut x: usize = 0;
    while x < count
        invariant
            dst <= src,
            src + count <= vlen,
            x <= count,
            v@.len() == vlen,
            v@.len() == old(v)@.len(),
            forall|i: int| 0 <= i < dst ==> v@[i] == old(v)@[i],
            forall|i: int| dst <= i < dst + x ==> v@[i] == old(v)@[src + (i - dst)],
            forall|i: int| dst + x <= i < old(v)@.len() ==> v@[i] == old(v)@[i],
        decreases count - x,
    {
        let byte: u8 = v[src + x];
        proof {
            assert(byte == old(v)@[src + x]);
        }
        v[dst + x] = byte;
        x = x + 1;
    }
}

/// Moves `v[src..src + count]` up to position `dst` (`src <= dst`), walking
/// backward so that every read still sees the old byte.
pub(crate) fn shift_right_in(v: &mut Vec<u8>, dst: usize, src: usize, count: usize)
    requires
        src <= dst,
        dst + count <= old(v)@.len(),
    ensures
        final(v)@.len() == old(v)@.len(),
        forall|i: int| 0 <= i < src ==> final(v)@[i] == old(v)@[i],
        forall|i: int| dst <= i < dst + count ==> final(v)@[i] == old(v)@[src + (i - dst)],
        forall|i: int| dst + count <= i < old(v)@.len() ==> final(v)@[i] == old(v)@[i],
{
    let vlen: usize = v.len();
    let mut x: usize = count;
    while x > 0
        invariant
            src <= dst,
            dst + count <= vlen,
            x <= count,
            v@.len() == vlen,
            v@.len() == old(v)@.len(),
            forall|i: int| 0 <= i < dst + x ==> v@[i] == old(v)@[i],
            forall|i: int| dst + x <= i < dst + count ==> v@[i] == old(v)@[src + (i - dst)],
            forall|i: int| dst + count <= i < old(v)@.len() ==> v@[i] == old(v)@[i],
        decreases x,
    {
        x = x - 1;
        let byte: u8 = v[src + x];
        proof {
            assert(byte == old(v)@[src + x]);
        }
        v[dst + x] = byte;
    }
}

/// Appends `src[a..b]` to the end of `out`.
pub(crate) fn append_range(out: &mut Vec<u8>, src: &[u8], a: usize, b: usize)
    requires
        a <= b <= src@.len(),
    ensures
        final(out)@ == old(out)@ + src@.subrange(a as int, b as int),
{
    let mut x: usize = a;
    proof {
        assert(out@ + src@.subrange(a as int, a as int) =~= out@);
    }
    while x < b
        invariant
            a <= x <= b <= src@.len(),
            out@ == old(out)@ + src@.subrange(a as int, x as int),
        decreases b - x,
    {
        out.push(src[x]);
        proof {
            assert(old(out)@ + src@.subrange(a as int, x + 1) =~= (old(out)@ + src@.subrange(
                a as int,
                x as int,
            )).push(src@[x as int]));
        }
        x = x + 1;
    }
}

/// Whether `a[at..at + pat.len()]` equals `pat`, byte for byte.
pub(crate) fn eq_range(a: &[u8], at: usize, pat: &[u8]) -> (r: bool)
    requires
        at + pat@.len() <= a@.len(),
    ensures
        r == (a@.subrange(at as int, at + pat@.len()) == pat@),
{
    let n: usize = pat.len();
    let alen: usize = a.len();
    let mut x: usize = 0;
    while x < n
        invariant
            x <= n,
            n == pat@.len(),
            alen == a@.len(),
            at + n <= alen,
            forall|j: int| at <= j < at + x ==> a@[j] == pat@[j - at],
        decreases n - x,
    {
        if a[at + x] != pat[x] {
            proof {
                assert(a@.subrange(at as int, at + pat@.len())[x as int] == a@[at + x]);
            }
            return false;
        }
        x = x + 1;
    }
    proof {
        assert(a@.subrange(at as int, at + pat@.len()) =~= pat@);
    }
    true
}

} // verus!
