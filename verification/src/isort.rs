//! Fast sample value lookup through a bucket index.
//!
//! The index has one bucket per possible 16-bit sample value. Each bucket is
//! a chain through the positions holding that value, newest first, so the
//! positions of a value come out in decreasing order without a scan of the
//! whole vector.

use vstd::prelude::*;
use crate::gap::{in_seq, diff_fits};
use crate::seqs::copy_all;

verus! {

/// Number of buckets in the index (one per possible 16-bit value).
pub const NUM_BUCKETS: usize = 65536;

/// A link in a bucket chain.
#[derive(Debug, Clone, Copy)]
pub struct SortLink {
    /// Index into the vector being indexed
    pub index: usize,
    /// Next link in chain (`SortLink::NONE` = end of chain)
    pub next: usize,
}

impl SortLink {
    /// End of a chain.
    pub const NONE: usize = usize::MAX;
}

/// The bucket of a sample value.
pub open spec fn bucket_of(v: i16) -> int {
    v + 32768
}

/// Convert a 16-bit sample value to its bucket index (0-65535).
pub fn sample_to_bucket(sample: i16) -> (r: usize)
    ensures
        r == bucket_of(sample),
        r < NUM_BUCKETS,
{
    (sample as i32 + 32768) as usize
}

/// The largest index `j < below` with `vec[j] == v`, or -1.
pub open spec fn last_with(vec: Seq<i16>, v: i16, below: int) -> int
    decreases below,
{
    if below <= 0 {
        -1
    } else if vec[below - 1] == v {
        below - 1
    } else {
        last_with(vec, v, below - 1)
    }
}

/// A chain link value for an index, with -1 standing for the end.
pub open spec fn link_of(j: int) -> usize {
    if j < 0 {
        usize::MAX
    } else {
        j as usize
    }
}

/// The absolute positions `off + j` (for `j < below`, in decreasing order of
/// `j`) where `vec[j] == v` and the position lies in `lo..hi`.
pub open spec fn positions_desc(vec: Seq<i16>, v: i16, below: int, off: i64, lo: i64, hi: i64) -> Seq<i64>
    decreases below,
{
    if below <= 0 {
        Seq::empty()
    } else {
        let j = below - 1;
        let rest = positions_desc(vec, v, j, off, lo, hi);
        if vec[j] == v && lo <= off + j < hi {
            seq![(off + j) as i64].add(rest)
        } else {
            rest
        }
    }
}

proof fn lemma_last_with_range(vec: Seq<i16>, v: i16, below: int)
    ensures
        -1 <= last_with(vec, v, below) < below || (below <= 0 && last_with(vec, v, below) == -1),
        last_with(vec, v, below) >= 0 ==> vec[last_with(vec, v, below)] == v,
    decreases below,
{
    if below > 0 && vec[below - 1] != v {
        lemma_last_with_range(vec, v, below - 1);
    }
}

/// Walking from the last match below `below` skips nothing: the positions
/// below `below` are that match (if in range) followed by those below it.
proof fn lemma_positions_desc_step(vec: Seq<i16>, v: i16, below: int, off: i64, lo: i64, hi: i64)
    requires
        below >= 0,
    ensures
        ({
            let j = last_with(vec, v, below);
            if j < 0 {
                positions_desc(vec, v, below, off, lo, hi) == Seq::<i64>::empty()
            } else if lo <= off + j < hi {
                positions_desc(vec, v, below, off, lo, hi) == seq![(off + j) as i64].add(
                    positions_desc(vec, v, j, off, lo, hi),
                )
            } else {
                positions_desc(vec, v, below, off, lo, hi) == positions_desc(vec, v, j, off, lo, hi)
            }
        }),
    decreases below,
{
    if below > 0 && vec[below - 1] != v {
        lemma_positions_desc_step(vec, v, below - 1, off, lo, hi);
    }
}

/// Fast sample value lookup structure.
///
/// Indexes a vector of 16-bit samples placed at absolute position
/// `abs_offset`; lookups report positions inside `search_lo..search_hi`.
#[derive(Debug)]
pub struct SortInfo {
    /// The vector being indexed
    vector: Vec<i16>,
    /// Absolute position offset for the vector
    pub abs_offset: i64,
    /// Head index for each bucket
    heads: Vec<usize>,
    /// Bucket chain links, one per position
    links: Vec<SortLink>,
    /// Buckets that hold at least one position, in order of first use
    used_buckets: Vec<usize>,
    /// Start of the current search range
    pub search_lo: i64,
    /// End (exclusive) of the current search range
    pub search_hi: i64,
}

impl SortInfo {
    /// The indexed samples.
    pub closed spec fn samples(&self) -> Seq<i16> {
        self.vector@
    }

    /// The absolute position of the first sample.
    pub closed spec fn spec_abs_offset(&self) -> i64 {
        self.abs_offset
    }

    /// The start of the search range.
    pub closed spec fn spec_search_lo(&self) -> i64 {
        self.search_lo
    }

    /// The end (exclusive) of the search range.
    pub closed spec fn spec_search_hi(&self) -> i64 {
        self.search_hi
    }

    /// The bucket chains describe `samples()` exactly: every head is the last
    /// position holding its value, every link the previous one.
    pub closed spec fn wf(&self) -> bool {
        &&& self.vector@.len() <= usize::MAX
        &&& self.heads@.len() == NUM_BUCKETS
        &&& self.links@.len() == self.vector@.len()
        &&& forall|i: int|
            0 <= i < self.links@.len() ==> (#[trigger] self.links@[i]).index == i
                && self.links@[i].next == link_of(last_with(self.vector@, self.vector@[i], i))
        &&& forall|v: i16|
            #[trigger] self.heads@[bucket_of(v)] == link_of(
                last_with(self.vector@, v, self.vector@.len() as int),
            )
    }

    /// Every absolute position of the indexed samples is an `i64`.
    pub open spec fn offset_ok(&self) -> bool {
        &&& self.spec_abs_offset() + self.samples().len() <= i64::MAX
        &&& self.samples().len() <= i64::MAX
    }

    /// The sample at an absolute position, if the vector covers it.
    pub open spec fn spec_get(&self, abs_pos: int) -> Option<i16> {
        if in_seq(self.samples(), abs_pos - self.spec_abs_offset()) {
            Some(self.samples()[abs_pos - self.spec_abs_offset()])
        } else {
            None
        }
    }

    /// The positions holding `value` inside the search range, in decreasing order.
    pub open spec fn spec_find_all(&self, value: i16) -> Seq<i64> {
        positions_desc(
            self.samples(),
            value,
            self.samples().len() as int,
            self.spec_abs_offset(),
            self.spec_search_lo(),
            self.spec_search_hi(),
        )
    }

    /// Create a new empty sort index.
    pub fn new() -> (r: Self)
        ensures
            r.wf(),
            r.samples() == Seq::<i16>::empty(),
            r.spec_abs_offset() == 0,
            r.spec_search_lo() == 0,
            r.spec_search_hi() == 0,
    {
        let heads = vec![SortLink::NONE; NUM_BUCKETS];
        let r = SortInfo {
            vector: Vec::new(),
            abs_offset: 0,
            heads,
            links: Vec::new(),
            used_buckets: Vec::new(),
            search_lo: 0,
            search_hi: 0,
        };
        assert forall|v: i16| #[trigger] r.heads@[bucket_of(v)] == link_of(
            last_with(r.vector@, v, r.vector@.len() as int),
        ) by {
            assert(0 <= bucket_of(v) < NUM_BUCKETS);
        }
        r
    }

    /// Create a sort index from a vector of samples placed at `abs_offset`;
    /// the search range is the whole vector.
    pub fn from_vector(vector: &[i16], abs_offset: i64) -> (r: Self)
        requires
            abs_offset + vector@.len() <= i64::MAX,
            vector@.len() <= i64::MAX,
        ensures
            r.wf(),
            r.samples() == vector@,
            r.spec_abs_offset() == abs_offset,
            r.spec_search_lo() == abs_offset,
            r.spec_search_hi() == abs_offset + vector@.len(),
    {
        let mut info = SortInfo::new();
        info.rebuild(vector, abs_offset);
        info
    }

    /// Rebuild the bucket chains for the current vector.
    fn build_index(&mut self)
        requires
            old(self).heads@.len() == NUM_BUCKETS,
        ensures
            final(self).wf(),
            final(self).vector@ == old(self).vector@,
            final(self).spec_abs_offset() == old(self).spec_abs_offset(),
            final(self).spec_search_lo() == old(self).spec_search_lo(),
            final(self).spec_search_hi() == old(self).spec_search_hi(),
    {
        self.links.clear();
        self.used_buckets.clear();
        let mut b: usize = 0;
        while b < NUM_BUCKETS
            invariant
                self.heads@.len() == NUM_BUCKETS,
                self.links@.len() == 0,
                self.vector@ == old(self).vector@,
                self.abs_offset == old(self).abs_offset,
                self.search_lo == old(self).search_lo,
                self.search_hi == old(self).search_hi,
                b <= NUM_BUCKETS,
                forall|k: int| 0 <= k < b ==> self.heads@[k] == SortLink::NONE,
            decreases NUM_BUCKETS - b,
        {
            self.heads.set(b, SortLink::NONE);
            b = b + 1;
        }
        let n = self.vector.len();
        let mut idx: usize = 0;
        while idx < n
            invariant
                n == self.vector@.len(),
                idx <= n,
                self.heads@.len() == NUM_BUCKETS,
                self.links@.len() == idx,
                self.vector@ == old(self).vector@,
                self.abs_offset == old(self).abs_offset,
                self.search_lo == old(self).search_lo,
                self.search_hi == old(self).search_hi,
                forall|i: int|
                    0 <= i < idx ==> (#[trigger] self.links@[i]).index == i && self.links@[i].next
                        == link_of(last_with(self.vector@, self.vector@[i], i)),
                forall|v: i16|
                    #[trigger] self.heads@[bucket_of(v)] == link_of(
                        last_with(self.vector@, v, idx as int),
                    ),
            decreases n - idx,
        {
            let sample = self.vector[idx];
            let bucket = sample_to_bucket(sample);
            if self.heads[bucket] == SortLink::NONE {
                self.used_buckets.push(bucket);
            }
            let link = SortLink { index: idx, next: self.heads[bucket] };
            assert(self.heads@[bucket_of(sample)] == link_of(last_with(self.vector@, sample, idx as int)));
            self.links.push(link);
            self.heads.set(bucket, idx);
            proof {
                assert forall|v: i16| #[trigger] self.heads@[bucket_of(v)] == link_of(
                    last_with(self.vector@, v, idx + 1),
                ) by {
                    if v != sample {
                        assert(bucket_of(v) != bucket_of(sample));
                    }
                }
            }
            idx = idx + 1;
        }
        proof {
            assert(forall|v: i16| 0 <= #[trigger] bucket_of(v) < NUM_BUCKETS);
        }
    }

    /// Get the size of the indexed vector.
    pub fn len(&self) -> (r: usize)
        ensures
            r == self.samples().len(),
    {
        self.vector.len()
    }

    /// Check if empty.
    pub fn is_empty(&self) -> (r: bool)
        ensures
            r == (self.samples().len() == 0),
    {
        self.vector.len() == 0
    }

    /// Set the search range, clipped to the positions of the vector.
    pub fn set_search_range(&mut self, lo: i64, hi: i64)
        requires
            old(self).offset_ok(),
        ensures
            final(self).wf() == old(self).wf(),
            final(self).samples() == old(self).samples(),
            final(self).spec_abs_offset() == old(self).spec_abs_offset(),
            final(self).spec_search_lo() == if lo < final(self).spec_abs_offset() { final(self).spec_abs_offset() } else { lo },
            final(self).spec_search_hi() == if hi < final(self).spec_abs_offset() + final(self).samples().len() {
                hi as int
            } else {
                final(self).spec_abs_offset() + final(self).samples().len()
            },
    {
        let end = self.abs_offset + self.vector.len() as i64;
        self.search_lo = if lo < self.abs_offset { self.abs_offset } else { lo };
        self.search_hi = if hi < end { hi } else { end };
    }

    /// The first position (the highest) holding `value` in the search
    /// range, or `None`.
    pub fn find_first(&self, value: i16) -> (r: Option<i64>)
        requires
            self.wf(),
            self.offset_ok(),
        ensures
            r == if self.spec_find_all(value).len() == 0 {
                None
            } else {
                Some(self.spec_find_all(value)[0])
            },
    {
        let mut it = self.iter_matches(value);
        it.next()
    }

    /// All positions holding `value` in the search range, highest first.
    pub fn find_all(&self, value: i16) -> (r: Vec<i64>)
        requires
            self.wf(),
            self.offset_ok(),
        ensures
            r@ == self.spec_find_all(value),
    {
        let mut results: Vec<i64> = Vec::new();
        let mut it = self.iter_matches(value);
        loop
            invariant
                it.wf(),
                it.info() == self,
                results@.add(it.remaining()) == self.spec_find_all(value),
            ensures
                results@ == self.spec_find_all(value),
            decreases it.remaining().len(),
        {
            let ghost before = it.remaining();
            match it.next() {
                Some(p) => {
                    results.push(p);
                    assert(results@.add(it.remaining()) =~= self.spec_find_all(value)) by {
                        assert(before == seq![p].add(it.remaining()));
                    }
                },
                None => {
                    assert(results@ =~= self.spec_find_all(value));
                    break;
                },
            }
        }
        results
    }

    /// The positions holding `value` in the search range, highest first,
    /// handed out one at a time.
    pub fn iter_matches(&self, value: i16) -> (r: MatchIterator<'_>)
        requires
            self.wf(),
            self.offset_ok(),
        ensures
            r.wf(),
            r.info() == self,
            r.remaining() == self.spec_find_all(value),
    {
        let bucket = sample_to_bucket(value);
        MatchIterator {
            info: self,
            current: self.heads[bucket],
            value: Ghost(value),
            below: Ghost(self.vector@.len() as int),
        }
    }

    /// Get a sample at an absolute position.
    pub fn get(&self, abs_pos: i64) -> (r: Option<i16>)
        requires
            diff_fits(abs_pos, self.spec_abs_offset()),
        ensures
            r == self.spec_get(abs_pos as int),
    {
        let idx = abs_pos - self.abs_offset;
        if idx >= 0 && (idx as u128) < (self.vector.len() as u128) {
            Some(self.vector[idx as usize])
        } else {
            None
        }
    }

    /// The underlying vector.
    pub fn vector(&self) -> (r: &[i16])
        ensures
            r@ == self.samples(),
    {
        self.vector.as_slice()
    }

    /// Replace the indexed data; the search range becomes the whole vector.
    pub fn rebuild(&mut self, vector: &[i16], abs_offset: i64)
        requires
            old(self).wf(),
            abs_offset + vector@.len() <= i64::MAX,
            vector@.len() <= i64::MAX,
        ensures
            final(self).wf(),
            final(self).samples() == vector@,
            final(self).spec_abs_offset() == abs_offset,
            final(self).spec_search_lo() == abs_offset,
            final(self).spec_search_hi() == abs_offset + vector@.len(),
    {
        self.vector = copy_all(vector);
        self.abs_offset = abs_offset;
        self.search_lo = abs_offset;
        self.search_hi = abs_offset + vector.len() as i64;
        self.build_index();
    }

    /// Clear the index.
    pub fn clear(&mut self)
        requires
            old(self).wf(),
        ensures
            final(self).wf(),
            final(self).samples() == Seq::<i16>::empty(),
            final(self).spec_abs_offset() == 0,
            final(self).spec_search_lo() == 0,
            final(self).spec_search_hi() == 0,
    {
        self.vector.clear();
        self.abs_offset = 0;
        self.search_lo = 0;
        self.search_hi = 0;
        self.build_index();
    }
}

impl Default for SortInfo {
    fn default() -> (r: Self)
        ensures
            r.wf(),
            r.samples() == Seq::<i16>::empty(),
            r.spec_abs_offset() == 0,
            r.spec_search_lo() == 0,
            r.spec_search_hi() == 0,
    {
        SortInfo::new()
    }
}

/// The positions of one value in a sort index, handed out highest first.
pub struct MatchIterator<'a> {
    info: &'a SortInfo,
    current: usize,
    value: Ghost<i16>,
    below: Ghost<int>,
}

impl<'a> MatchIterator<'a> {
    /// The index being walked.
    pub closed spec fn info(&self) -> &'a SortInfo {
        self.info
    }

    /// The positions not handed out yet, in the order they will come.
    pub closed spec fn remaining(&self) -> Seq<i64> {
        positions_desc(
            self.info.vector@,
            self.value@,
            self.below@,
            self.info.abs_offset,
            self.info.search_lo,
            self.info.search_hi,
        )
    }

    /// The walk position is the last match below `below`.
    pub closed spec fn wf(&self) -> bool {
        &&& self.info.wf()
        &&& self.info.offset_ok()
        &&& 0 <= self.below@ <= self.info.vector@.len()
        &&& self.current == link_of(last_with(self.info.vector@, self.value@, self.below@))
    }

    /// The next position, or `None` when all have been handed out.
    pub fn next(&mut self) -> (r: Option<i64>)
        requires
            old(self).wf(),
        ensures
            final(self).wf(),
            final(self).info() == old(self).info(),
            r matches Some(p) ==> old(self).info().spec_abs_offset() <= p < old(self).info().spec_abs_offset()
                + old(self).info().samples().len(),
            r == if old(self).remaining().len() == 0 {
                None::<i64>
            } else {
                Some(old(self).remaining()[0])
            },
            final(self).remaining() == if old(self).remaining().len() == 0 {
                old(self).remaining()
            } else {
                old(self).remaining().drop_first()
            },
    {
        let ghost v = self.value@;
        let ghost vec = self.info.vector@;
        loop
            invariant
                self.wf(),
                self.info == old(self).info,
                self.value == old(self).value,
                v == self.value@,
                vec == self.info.vector@,
                self.remaining() == old(self).remaining(),
            decreases self.below@,
        {
            proof {
                lemma_last_with_range(vec, v, self.below@);
                lemma_positions_desc_step(
                    vec,
                    v,
                    self.below@,
                    self.info.abs_offset,
                    self.info.search_lo,
                    self.info.search_hi,
                );
            }
            if self.current == SortLink::NONE {
                return None;
            }
            let link = self.info.links[self.current];
            let abs_pos = self.info.abs_offset + link.index as i64;
            let ghost j = self.current as int;
            self.current = link.next;
            self.below = Ghost(j);
            if abs_pos >= self.info.search_lo && abs_pos < self.info.search_hi {
                return Some(abs_pos);
            }
        }
    }
}

/// Whether `n - 1` samples after index `ia` of `a` agree with the samples
/// after position `pb` of the vector `bvec` placed at `boff`.
pub open spec fn run_matches(a: Seq<i16>, ia: int, bvec: Seq<i16>, boff: i64, pb: i64, n: int) -> bool {
    forall|k: int| 1 <= k < n ==> #[trigger] agree_at(a, ia, bvec, boff, pb, k)
}

/// Sample `ia + k` of `a` exists and equals the sample of `bvec` (placed at
/// `boff`) at position `pb + k`.
pub open spec fn agree_at(a: Seq<i16>, ia: int, bvec: Seq<i16>, boff: i64, pb: i64, k: int) -> bool {
    ia + k < a.len() && in_seq(bvec, pb + k - boff) && bvec[pb + k - boff] == a[ia + k]
}

/// The first candidate in `cands` that starts an agreeing run of `n` samples.
pub open spec fn first_run_match(cands: Seq<i64>, a: Seq<i16>, ia: int, bvec: Seq<i16>, boff: i64, n: int) -> Option<i64>
    decreases cands.len(),
{
    if cands.len() == 0 {
        None
    } else if run_matches(a, ia, bvec, boff, cands[0], n) {
        Some(cands[0])
    } else {
        first_run_match(cands.drop_first(), a, ia, bvec, boff, n)
    }
}

/// The candidate position in B that `find_match` settles on, if any.
pub open spec fn spec_match_candidate(
    block_a: Seq<i16>,
    pos_a: i64,
    block_a_offset: i64,
    sort_b: &SortInfo,
    min_match: usize,
) -> Option<i64> {
    let ia = pos_a - block_a_offset;
    if !in_seq(block_a, ia) {
        None
    } else {
        first_run_match(
            sort_b.spec_find_all(block_a[ia]),
            block_a,
            ia,
            sort_b.samples(),
            sort_b.spec_abs_offset(),
            min_match as int,
        )
    }
}

proof fn lemma_first_run_match_member(cands: Seq<i64>, a: Seq<i16>, ia: int, bvec: Seq<i16>, boff: i64, n: int)
    ensures
        first_run_match(cands, a, ia, bvec, boff, n) matches Some(p) ==> cands.contains(p),
    decreases cands.len(),
{
    if cands.len() > 0 && !run_matches(a, ia, bvec, boff, cands[0], n) {
        lemma_first_run_match_member(cands.drop_first(), a, ia, bvec, boff, n);
        match first_run_match(cands, a, ia, bvec, boff, n) {
            Some(p) => {
                let k = choose|k: int| 0 <= k < cands.drop_first().len() && cands.drop_first()[k] == p;
                assert(cands[k + 1] == p);
            },
            None => {},
        }
    }
}

/// Every position that `find_all` reports lies among the indexed samples.
pub proof fn lemma_find_all_in_block(sort: &SortInfo, value: i16)
    ensures
        forall|k: int|
            0 <= k < sort.spec_find_all(value).len() ==> sort.spec_abs_offset() <= #[trigger] sort.spec_find_all(
                value,
            )[k] < sort.spec_abs_offset() + sort.samples().len(),
{
    lemma_positions_desc_bounds(
        sort.samples(),
        value,
        sort.samples().len() as int,
        sort.spec_abs_offset(),
        sort.spec_search_lo(),
        sort.spec_search_hi(),
    );
}

proof fn lemma_positions_desc_exact(vec: Seq<i16>, v: i16, below: int, off: i64, lo: i64, hi: i64)
    requires
        0 <= below <= vec.len(),
        off + below <= i64::MAX,
    ensures
        forall|k: int|
            0 <= k < positions_desc(vec, v, below, off, lo, hi).len() ==> {
                let p = #[trigger] positions_desc(vec, v, below, off, lo, hi)[k];
                &&& off <= p < off + below
                &&& vec[p - off] == v
                &&& lo <= p < hi
            },
        forall|j: int|
            0 <= j < below && vec[j] == v && lo <= off + j < hi ==> #[trigger] positions_desc(
                vec,
                v,
                below,
                off,
                lo,
                hi,
            ).contains((off + j) as i64),
        forall|a: int, b: int|
            0 <= a < b < positions_desc(vec, v, below, off, lo, hi).len() ==> #[trigger] positions_desc(
                vec,
                v,
                below,
                off,
                lo,
                hi,
            )[a] > #[trigger] positions_desc(vec, v, below, off, lo, hi)[b],
    decreases below,
{
    if below > 0 {
        let j = below - 1;
        lemma_positions_desc_exact(vec, v, j, off, lo, hi);
        let rest = positions_desc(vec, v, j, off, lo, hi);
        let s = positions_desc(vec, v, below, off, lo, hi);
        if vec[j] == v && lo <= off + j < hi {
            assert(s == seq![(off + j) as i64].add(rest));
            assert forall|k: int| 0 <= k < s.len() implies {
                let p = #[trigger] s[k];
                &&& off <= p < off + below
                &&& vec[p - off] == v
                &&& lo <= p < hi
            } by {
                if k > 0 {
                    assert(s[k] == rest[k - 1]);
                }
            }
            assert forall|i: int| 0 <= i < below && vec[i] == v && lo <= off + i < hi implies #[trigger] s.contains(
                (off + i) as i64,
            ) by {
                if i == j {
                    assert(s[0] == (off + j) as i64);
                } else {
                    assert(rest.contains((off + i) as i64));
                    let k = choose|k: int| 0 <= k < rest.len() && rest[k] == (off + i) as i64;
                    assert(s[k + 1] == rest[k]);
                }
            }
            assert forall|a: int, b: int| 0 <= a < b < s.len() implies #[trigger] s[a] > #[trigger] s[b] by {
                if a == 0 {
                    assert(s[b] == rest[b - 1]);
                } else {
                    assert(s[a] == rest[a - 1] && s[b] == rest[b - 1]);
                }
            }
        } else {
            assert(s == rest);
        }
    }
}

/// `find_all` reports exactly the positions of the search range that hold
/// the value, each once, highest first.
pub proof fn lemma_find_all_exact(sort: &SortInfo, value: i16)
    requires
        sort.offset_ok(),
    ensures
        forall|k: int|
            0 <= k < sort.spec_find_all(value).len() ==> {
                let p = #[trigger] sort.spec_find_all(value)[k];
                &&& sort.spec_get(p as int) == Some(value)
                &&& sort.spec_search_lo() <= p < sort.spec_search_hi()
            },
        forall|p: i64|
            sort.spec_search_lo() <= p < sort.spec_search_hi() && sort.spec_get(p as int) == Some(value)
                ==> #[trigger] sort.spec_find_all(value).contains(p),
        forall|a: int, b: int|
            0 <= a < b < sort.spec_find_all(value).len() ==> #[trigger] sort.spec_find_all(value)[a]
                > #[trigger] sort.spec_find_all(value)[b],
{
    let vec = sort.samples();
    let off = sort.spec_abs_offset();
    lemma_positions_desc_exact(vec, value, vec.len() as int, off, sort.spec_search_lo(), sort.spec_search_hi());
    assert forall|p: i64|
        sort.spec_search_lo() <= p < sort.spec_search_hi() && sort.spec_get(p as int) == Some(value)
            implies #[trigger] sort.spec_find_all(value).contains(p) by {
        let j = p - off;
        assert(in_seq(vec, j));
        assert(vec[j] == value);
        assert((off + j) as i64 == p);
    }
}

/// The position that `find_match` settles on is a position of block B's
/// samples.
pub proof fn lemma_match_candidate_in_block(
    block_a: Seq<i16>,
    pos_a: i64,
    block_a_offset: i64,
    sort_b: &SortInfo,
    min_match: usize,
)
    ensures
        spec_match_candidate(block_a, pos_a, block_a_offset, sort_b, min_match) matches Some(pb)
            ==> sort_b.spec_abs_offset() <= pb < sort_b.spec_abs_offset() + sort_b.samples().len(),
{
    let ia = pos_a - block_a_offset;
    if in_seq(block_a, ia) {
        let cands = sort_b.spec_find_all(block_a[ia]);
        lemma_first_run_match_member(
            cands,
            block_a,
            ia,
            sort_b.samples(),
            sort_b.spec_abs_offset(),
            min_match as int,
        );
        lemma_positions_desc_bounds(
            sort_b.samples(),
            block_a[ia],
            sort_b.samples().len() as int,
            sort_b.spec_abs_offset(),
            sort_b.spec_search_lo(),
            sort_b.spec_search_hi(),
        );
        match spec_match_candidate(block_a, pos_a, block_a_offset, sort_b, min_match) {
            Some(pb) => {
                let k = choose|k: int| 0 <= k < cands.len() && cands[k] == pb;
                assert(cands[k] == pb);
            },
            None => {},
        }
    }
}

/// Find matching consecutive samples between two blocks.
///
/// Looks for a run of `min_match` samples of block A, starting at `pos_a`,
/// among the positions of block B's index that hold the value at `pos_a`
/// (highest first). Returns the offset `pos_b - pos_a` of the first match.
pub fn find_match(
    block_a: &[i16],
    pos_a: i64,
    block_a_offset: i64,
    sort_b: &SortInfo,
    min_match: usize,
) -> (r: Option<i64>)
    requires
        diff_fits(pos_a, block_a_offset),
        sort_b.wf(),
        sort_b.offset_ok(),
        spec_match_candidate(block_a@, pos_a, block_a_offset, sort_b, min_match) matches Some(pb)
            ==> diff_fits(pb, pos_a),
    ensures
        r == match spec_match_candidate(block_a@, pos_a, block_a_offset, sort_b, min_match) {
            Some(pb) => Some((pb - pos_a) as i64),
            None => None,
        },
{
    let ia = pos_a - block_a_offset;
    if !(ia >= 0 && (ia as u128) < (block_a.len() as u128)) {
        return None;
    }
    let idx_a = ia as usize;
    let value = block_a[idx_a];
    let ghost a = block_a@;
    let ghost bvec = sort_b.samples();
    let ghost boff = sort_b.abs_offset;
    let ghost n = min_match as int;
    let mut it = sort_b.iter_matches(value);
    loop
        invariant
            it.wf(),
            it.info() == sort_b,
            0 <= idx_a < a.len(),
            a == block_a@,
            ia == idx_a,
            n == min_match,
            bvec == sort_b.samples(),
            boff == sort_b.abs_offset,
            sort_b.offset_ok(),
            spec_match_candidate(block_a@, pos_a, block_a_offset, sort_b, min_match) matches Some(pb)
                ==> diff_fits(pb, pos_a),
            first_run_match(it.remaining(), a, ia as int, bvec, boff, n) == spec_match_candidate(
                block_a@,
                pos_a,
                block_a_offset,
                sort_b,
                min_match,
            ),
        decreases it.remaining().len(),
    {
        let ghost rem = it.remaining();
        let next = it.next();
        match next {
            None => {
                return None;
            },
            Some(pos_b) => {
                assert(rem[0] == pos_b);
                let ok = check_run(block_a, idx_a, sort_b, pos_b, min_match);
                if ok {
                    assert(first_run_match(rem, a, ia as int, bvec, boff, n) == Some(pos_b));
                    return Some(pos_b - pos_a);
                }
                assert(rem.drop_first() == it.remaining());
            },
        }
    }
}

/// Every reported position lies among the positions of the vector.
proof fn lemma_positions_desc_bounds(vec: Seq<i16>, v: i16, below: int, off: i64, lo: i64, hi: i64)
    ensures
        forall|k: int|
            0 <= k < positions_desc(vec, v, below, off, lo, hi).len() ==> off <= #[trigger] positions_desc(
                vec,
                v,
                below,
                off,
                lo,
                hi,
            )[k] < off + below,
    decreases below,
{
    if below > 0 {
        let j = below - 1;
        lemma_positions_desc_bounds(vec, v, j, off, lo, hi);
        let rest = positions_desc(vec, v, j, off, lo, hi);
        let s = positions_desc(vec, v, below, off, lo, hi);
        if vec[j] == v && lo <= off + j < hi {
            assert forall|k: int| 0 <= k < s.len() implies off <= #[trigger] s[k] < off + below by {
                if k > 0 {
                    assert(s[k] == rest[k - 1]);
                }
            }
        }
    }
}

/// Whether samples `1..min_match` after `idx_a` in A agree with those after
/// `pos_b` in B.
fn check_run(block_a: &[i16], idx_a: usize, sort_b: &SortInfo, pos_b: i64, min_match: usize) -> (r: bool)
    requires
        idx_a < block_a@.len(),
        sort_b.offset_ok(),
        sort_b.spec_abs_offset() <= pos_b < sort_b.spec_abs_offset() + sort_b.samples().len(),
    ensures
        r == run_matches(block_a@, idx_a as int, sort_b.samples(), sort_b.spec_abs_offset(), pos_b, min_match as int),
{
    let mut i: usize = 1;
    let mut b_pos: i64 = pos_b;
    while i < min_match
        invariant
            1 <= i,
            idx_a < block_a@.len(),
            b_pos == pos_b + i - 1,
            b_pos < sort_b.spec_abs_offset() + sort_b.samples().len(),
            sort_b.spec_abs_offset() <= pos_b,
            sort_b.offset_ok(),
            forall|k: int|
                1 <= k < i ==> #[trigger] agree_at(
                    block_a@,
                    idx_a as int,
                    sort_b.samples(),
                    sort_b.spec_abs_offset(),
                    pos_b,
                    k,
                ),
        decreases min_match - i,
    {
        if i >= block_a.len() - idx_a {
            assert(!run_matches(block_a@, idx_a as int, sort_b.samples(), sort_b.spec_abs_offset(), pos_b, min_match as int)) by {
                assert(!agree_at(block_a@, idx_a as int, sort_b.samples(), sort_b.spec_abs_offset(), pos_b, i as int));
            }
            return false;
        }
        let a_idx = idx_a + i;
        b_pos = b_pos + 1;
        match sort_b.get(b_pos) {
            Some(b_val) => {
                if b_val != block_a[a_idx] {
                    assert(!run_matches(block_a@, idx_a as int, sort_b.samples(), sort_b.spec_abs_offset(), pos_b, min_match as int)) by {
                        assert(!agree_at(block_a@, idx_a as int, sort_b.samples(), sort_b.spec_abs_offset(), pos_b, i as int));
                    }
                    return false;
                }
            },
            None => {
                assert(!run_matches(block_a@, idx_a as int, sort_b.samples(), sort_b.spec_abs_offset(), pos_b, min_match as int)) by {
                    assert(!agree_at(block_a@, idx_a as int, sort_b.samples(), sort_b.spec_abs_offset(), pos_b, i as int));
                }
                return false;
            },
        }
        i = i + 1;
    }
    true
}

} // verus!
