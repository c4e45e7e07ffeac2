//! Small verified helpers on slices and vectors.

use vstd::prelude::*;

verus! {

/// Copies a range of a slice into a new vector.
pub fn copy_range<T: Copy>(s: &[T], start: usize, end: usize) -> (v: Vec<T>)
    requires
        start <= end <= s@.len(),
    ensures
        v@ == s@.subrange(start as int, end as int),
{
    let mut v: Vec<T> = Vec::with_capacity(end - start);
    let mut i: usize = start;
    while i < end
        invariant
            start <= i <= end,
            end <= s@.len(),
            v@ == s@.subrange(start as int, i as int),
        decreases end - i,
    {
        v.push(s[i]);
        assert(v@ =~= s@.subrange(start as int, i + 1));
        i = i + 1;
    }
    v
}

/// Copies a slice into a new vector.
pub fn copy_all<T: Copy>(s: &[T]) -> (v: Vec<T>)
    ensures
        v@ == s@,
{
    let v = copy_range(s, 0, s.len());
    assert(s@.subrange(0, s@.len() as int) =~= s@);
    v
}

/// Appends a range of a slice to a vector.
pub fn append_range<T: Copy>(v: &mut Vec<T>, s: &[T], start: usize, end: usize)
    requires
        start <= end <= s@.len(),
    ensures
        final(v)@ == old(v)@ + s@.subrange(start as int, end as int),
{
    let ghost v0 = v@;
    let mut i: usize = start;
    while i < end
        invariant
            start <= i <= end,
            end <= s@.len(),
            v@ == v0 + s@.subrange(start as int, i as int),
        decreases end - i,
    {
        v.push(s[i]);
        assert(v@ =~= v0 + s@.subrange(start as int, i + 1));
        i = i + 1;
    }
}

/// A vector of `n` copies of `x`.
pub fn filled<T: Copy>(x: T, n: usize) -> (v: Vec<T>)
    ensures
        v@ == Seq::new(n as nat, |_i: int| x),
{
    let mut v: Vec<T> = Vec::with_capacity(n);
    let mut i: usize = 0;
    while i < n
        invariant
            i <= n,
            v@ == Seq::new(i as nat, |_i: int| x),
        decreases n - i,
    {
        v.push(x);
        assert(v@ =~= Seq::new((i + 1) as nat, |_i: int| x));
        i = i + 1;
    }
    v
}

/// Whether `a[ai..ai + n]` equals `b[bi..bi + n]`.
pub fn ranges_equal(a: &[i16], ai: usize, b: &[i16], bi: usize, n: usize) -> (r: bool)
    requires
        ai + n <= a@.len(),
        bi + n <= b@.len(),
    ensures
        r == forall|k: int| 0 <= k < n ==> #[trigger] a@[ai + k] == b@[bi + k],
{
    let alen = a.len();
    let blen = b.len();
    let mut k: usize = 0;
    while k < n
        invariant
            k <= n,
            alen == a@.len(),
            blen == b@.len(),
            ai + n <= a@.len(),
            bi + n <= b@.len(),
            forall|j: int| 0 <= j < k ==> #[trigger] a@[ai + j] == b@[bi + j],
        decreases n - k,
    {
        if a[ai + k] != b[bi + k] {
            assert(a@[ai + k as int] != b@[bi + k as int]);
            return false;
        }
        k = k + 1;
    }
    true
}

/// Whether two slices hold the same samples.
pub fn slices_equal(a: &[i16], b: &[i16]) -> (r: bool)
    ensures
        r == (a@ == b@),
{
    if a.len() != b.len() {
        return false;
    }
    let r = ranges_equal(a, 0, b, 0, a.len());
    proof {
        if r {
            assert forall|k: int| 0 <= k < a@.len() implies a@[k] == b@[k] by {
                assert(a@[0 + k] == b@[0 + k]);
            }
            assert(a@ =~= b@);
        }
    }
    r
}

} // verus!
