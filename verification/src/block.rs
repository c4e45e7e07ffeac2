//! Data blocks for caching reads and tracking verified audio.
//!
//! A block is a run of samples placed at an absolute sample position
//! (`begin`), with one flag byte per sample recording whether it was
//! verified, lies at an edge, or was blanked.

use vstd::prelude::*;
use crate::constants::CD_FRAMEWORDS;
use crate::types::{SampleFlags, SAMPLE_EDGE_BIT, SAMPLE_VERIFIED_BIT};
use crate::seqs::{copy_all, copy_range, append_range, filled, ranges_equal};

verus! {

/// The end of a block: `begin + len` (with `len` capped at `i64::MAX`),
/// saturating at `i64::MAX`.
pub open spec fn sat_end(begin: i64, len: nat) -> i64 {
    let n = if len > i64::MAX { i64::MAX as int } else { len as int };
    if begin + n > i64::MAX {
        i64::MAX
    } else {
        (begin + n) as i64
    }
}

/// `i64::try_from(len).unwrap_or(i64::MAX)` followed by `saturating_add`.
fn block_end(begin: i64, len: usize) -> (r: i64)
    ensures
        r == sat_end(begin, len as nat),
{
    let n: i64 = if (len as u128) <= (i64::MAX as u128) { len as i64 } else { i64::MAX };
    if begin > i64::MAX - n {
        i64::MAX
    } else {
        begin + n
    }
}

/// The index of position `pos` in a block starting at `begin`, if `pos` is
/// not before it (and the difference fits).
pub open spec fn spec_offset_index(begin: i64, pos: i64) -> Option<usize> {
    let d = pos - begin;
    if i64::MIN <= d && 0 <= d <= i64::MAX && d <= usize::MAX {
        Some(d as usize)
    } else {
        None
    }
}

fn offset_index(begin: i64, pos: i64) -> (r: Option<usize>)
    ensures
        r == spec_offset_index(begin, pos),
{
    let d = pos.checked_sub(begin);
    match d {
        Some(d) => {
            if d >= 0 && (d as u128) <= (usize::MAX as u128) {
                Some(d as usize)
            } else {
                None
            }
        },
        None => None,
    }
}

/// `x` clipped to `0..=n`.
pub open spec fn clip_index(x: int, n: int) -> int {
    if x < 0 {
        0
    } else if x > n {
        n
    } else {
        x
    }
}

/// The index range `[lo, hi)` of the positions `start..end` inside a block
/// at `begin` with `n` samples; empty when the range is empty, reversed or
/// outside the block.
pub open spec fn mark_range(begin: i64, n: nat, start: i64, end: i64) -> (int, int) {
    let si = clip_index(start - begin, n as int);
    let ei = clip_index(end - begin, n as int);
    (si, if ei < si { si } else { ei })
}

/// A flag with the verified bit set.
pub open spec fn with_verified(f: SampleFlags) -> SampleFlags {
    SampleFlags(f.0 | SAMPLE_VERIFIED_BIT)
}

/// A flag with the edge bit set and the verified bit cleared.
pub open spec fn as_edge(f: SampleFlags) -> SampleFlags {
    SampleFlags((f.0 | SAMPLE_EDGE_BIT) & !SAMPLE_VERIFIED_BIT)
}

/// Flags with the verified bit set on the indices `lo..hi`.
pub open spec fn verified_on(flags: Seq<SampleFlags>, lo: int, hi: int) -> Seq<SampleFlags> {
    Seq::new(flags.len(), |k: int| if lo <= k < hi { with_verified(flags[k]) } else { flags[k] })
}

fn set_verified(f: SampleFlags) -> (r: SampleFlags)
    ensures
        r == with_verified(f),
{
    SampleFlags(f.0 | SAMPLE_VERIFIED_BIT)
}

/// Set the verified bit on `flags[lo..hi]`.
fn mark_verified_range(flags: &mut Vec<SampleFlags>, lo: usize, hi: usize)
    requires
        lo <= hi <= old(flags)@.len(),
    ensures
        final(flags)@ == verified_on(old(flags)@, lo as int, hi as int),
{
    let ghost f0 = flags@;
    let mut k = lo;
    while k < hi
        invariant
            lo <= k <= hi,
            hi <= f0.len(),
            flags@.len() == f0.len(),
            forall|j: int| 0 <= j < f0.len() ==> #[trigger] flags@[j] == if lo <= j < k {
                with_verified(f0[j])
            } else {
                f0[j]
            },
        decreases hi - k,
    {
        let f = set_verified(flags[k]);
        flags.set(k, f);
        k = k + 1;
    }
    assert(flags@ =~= verified_on(f0, lo as int, hi as int));
}

/// The index range of the positions `start..end` inside a block at
/// `begin` with `n` samples.
fn mark_bounds(begin: i64, n: usize, start: i64, end: i64) -> (r: (usize, usize))
    ensures
        r.0 == mark_range(begin, n as nat, start, end).0,
        r.1 == mark_range(begin, n as nat, start, end).1,
        r.0 <= r.1 <= n,
{
    let so: i128 = start as i128 - begin as i128;
    let eo: i128 = end as i128 - begin as i128;
    let si: usize = if so < 0 { 0 } else if so > n as i128 { n } else { so as usize };
    let ei: usize = if eo < 0 { 0 } else if eo > n as i128 { n } else { eo as usize };
    (si, if ei < si { si } else { ei })
}

/// Raw CD read cache block.
///
/// Audio samples read from the CD with per-sample verification flags.
#[derive(Debug)]
pub struct CBlock {
    /// Raw 16-bit audio samples
    pub vector: Vec<i16>,
    /// Absolute position in samples (from disc start)
    pub begin: i64,
    /// Per-sample flags (edge, blanked, verified)
    pub flags: Vec<SampleFlags>,
    /// Last sector number covered by this block
    pub lastsector: i64,
}

impl CBlock {
    /// The end (exclusive) of the block.
    pub open spec fn spec_end(&self) -> i64 {
        sat_end(self.begin, self.vector@.len())
    }

    /// Whether the block covers position `pos`.
    pub open spec fn spec_contains(&self, pos: i64) -> bool {
        self.begin <= pos < self.spec_end()
    }

    /// Create a new empty cache block.
    pub fn new() -> (r: Self)
        ensures
            r.vector@ == Seq::<i16>::empty(),
            r.flags@ == Seq::<SampleFlags>::empty(),
            r.begin == 0,
            r.lastsector == 0,
    {
        CBlock { vector: Vec::new(), begin: 0, flags: Vec::new(), lastsector: 0 }
    }

    /// Create a cache block with room for `samples` samples.
    pub fn with_capacity(samples: usize) -> (r: Self)
        ensures
            r.vector@ == Seq::<i16>::empty(),
            r.flags@ == Seq::<SampleFlags>::empty(),
            r.begin == 0,
            r.lastsector == 0,
    {
        CBlock {
            vector: Vec::with_capacity(samples),
            begin: 0,
            flags: Vec::with_capacity(samples),
            lastsector: 0,
        }
    }

    /// Create a cache block from raw sector data; no sample is flagged.
    pub fn from_sectors(data: &[i16], begin: i64, lastsector: i64) -> (r: Self)
        ensures
            r.vector@ == data@,
            r.flags@ == Seq::new(data@.len(), |_i: int| SampleFlags(0)),
            r.begin == begin,
            r.lastsector == lastsector,
    {
        let len = data.len();
        CBlock { vector: copy_all(data), begin, flags: filled(SampleFlags(0), len), lastsector }
    }

    /// The number of samples in this block.
    pub fn len(&self) -> (r: usize)
        ensures
            r == self.vector@.len(),
    {
        self.vector.len()
    }

    /// Whether the block is empty.
    pub fn is_empty(&self) -> (r: bool)
        ensures
            r == (self.vector@.len() == 0),
    {
        self.vector.len() == 0
    }

    /// The ending position (exclusive) of this block, saturating at `i64::MAX`.
    pub fn end(&self) -> (r: i64)
        ensures
            r == self.spec_end(),
            self.vector@.len() <= usize::MAX,
    {
        block_end(self.begin, self.vector.len())
    }

    /// Whether a position falls within this block.
    pub fn contains(&self, pos: i64) -> (r: bool)
        ensures
            r == self.spec_contains(pos),
            self.vector@.len() <= usize::MAX,
    {
        let e = self.end();
        pos >= self.begin && pos < e
    }

    /// The sample at an absolute position.
    pub fn get(&self, pos: i64) -> (r: Option<i16>)
        ensures
            r == if self.spec_contains(pos) {
                Some(self.vector@[pos - self.begin])
            } else {
                None
            },
    {
        if self.contains(pos) {
            match offset_index(self.begin, pos) {
                Some(idx) => {
                    if idx < self.vector.len() {
                        Some(self.vector[idx])
                    } else {
                        None
                    }
                },
                None => None,
            }
        } else {
            None
        }
    }

    /// The flags at an absolute position.
    pub fn get_flags(&self, pos: i64) -> (r: Option<SampleFlags>)
        ensures
            r == if self.spec_contains(pos) && pos - self.begin < self.flags@.len() {
                Some(self.flags@[pos - self.begin])
            } else {
                None
            },
    {
        if self.contains(pos) {
            match offset_index(self.begin, pos) {
                Some(idx) => {
                    if idx < self.flags.len() {
                        Some(self.flags[idx])
                    } else {
                        None
                    }
                },
                None => None,
            }
        } else {
            None
        }
    }

    /// Set the flags at an absolute position the block covers.
    pub fn set_flags(&mut self, pos: i64, flags: SampleFlags)
        requires
            old(self).spec_contains(pos) ==> pos - old(self).begin < old(self).flags@.len(),
        ensures
            final(self).vector@ == old(self).vector@,
            final(self).begin == old(self).begin,
            final(self).lastsector == old(self).lastsector,
            final(self).flags@ == if old(self).spec_contains(pos) {
                old(self).flags@.update(pos - old(self).begin, flags)
            } else {
                old(self).flags@
            },
    {
        if self.contains(pos) {
            match offset_index(self.begin, pos) {
                Some(idx) => {
                    self.flags.set(idx, flags);
                },
                None => {},
            }
        }
    }

    /// Mark the positions `start..end` inside the block as verified; an
    /// empty or reversed range, or one outside the block, marks nothing.
    pub fn mark_verified(&mut self, start: i64, end: i64)
        ensures
            final(self).vector@ == old(self).vector@,
            final(self).begin == old(self).begin,
            final(self).lastsector == old(self).lastsector,
            final(self).flags@ == verified_on(
                old(self).flags@,
                mark_range(old(self).begin, old(self).flags@.len(), start, end).0,
                mark_range(old(self).begin, old(self).flags@.len(), start, end).1,
            ),
    {
        let (lo, hi) = mark_bounds(self.begin, self.flags.len(), start, end);
        mark_verified_range(&mut self.flags, lo, hi);
    }

    /// Clear the block.
    pub fn clear(&mut self)
        ensures
            final(self).vector@ == Seq::<i16>::empty(),
            final(self).flags@ == Seq::<SampleFlags>::empty(),
            final(self).begin == 0,
            final(self).lastsector == 0,
    {
        self.vector.clear();
        self.flags.clear();
        self.begin = 0;
        self.lastsector = 0;
    }
}

impl Default for CBlock {
    fn default() -> (r: Self)
        ensures
            r.vector@ == Seq::<i16>::empty(),
            r.flags@ == Seq::<SampleFlags>::empty(),
            r.begin == 0,
            r.lastsector == 0,
    {
        Self::new()
    }
}

/// Number of verified flags in a sequence.
pub open spec fn count_verified(flags: Seq<SampleFlags>) -> nat
    decreases flags.len(),
{
    if flags.len() == 0 {
        0
    } else {
        count_verified(flags.drop_last()) + if flags.last().spec_verified() { 1nat } else { 0nat }
    }
}

/// Whether the fragment covers position `pos` with a verified sample: what
/// `VFragment::is_verified` answers.
pub open spec fn verified_at(f: VFragment, pos: i64) -> bool {
    match f.spec_get_flags(pos) {
        Some(fl) => fl.spec_verified(),
        None => false,
    }
}

/// The number of positions among the first `k` of the fragment that hold
/// a verified sample.
pub open spec fn verified_positions(f: VFragment, k: int) -> nat
    decreases k,
{
    if k <= 0 {
        0
    } else {
        verified_positions(f, k - 1) + if verified_at(f, (f.begin + k - 1) as i64) { 1nat } else { 0nat }
    }
}

proof fn lemma_verified_prefix(f: VFragment, k: int)
    requires
        f.wf(),
        0 <= k <= f.flags@.len(),
    ensures
        count_verified(f.flags@.take(k)) == verified_positions(f, k),
    decreases k,
{
    if k > 0 {
        lemma_verified_prefix(f, k - 1);
        assert(f.flags@.take(k).drop_last() =~= f.flags@.take(k - 1));
        assert(f.spec_contains((f.begin + k - 1) as i64));
    }
}

/// The verified count of a fragment is the number of its positions that
/// `is_verified` holds for.
pub proof fn lemma_verified_count_positions(f: VFragment)
    requires
        f.wf(),
    ensures
        count_verified(f.flags@) == verified_positions(f, f.flags@.len() as int),
        count_verified(f.flags@) <= f.flags@.len(),
{
    lemma_verified_prefix(f, f.flags@.len() as int);
    assert(f.flags@.take(f.flags@.len() as int) =~= f.flags@);
    lemma_verified_positions_bound(f, f.flags@.len() as int);
}

proof fn lemma_verified_positions_bound(f: VFragment, k: int)
    ensures
        verified_positions(f, k) <= if k < 0 { 0 } else { k },
    decreases k,
{
    if k > 0 {
        lemma_verified_positions_bound(f, k - 1);
    }
}

/// Flags with the edge bit set and the verified bit cleared on the first
/// `e` and (when there are more than `e`) the last `e` entries.
pub open spec fn edges_marked(flags: Seq<SampleFlags>, e: int) -> Seq<SampleFlags> {
    let n = flags.len() as int;
    Seq::new(
        flags.len(),
        |k: int|
            if k < e || (n > e && k >= n - e) {
                as_edge(flags[k])
            } else {
                flags[k]
            },
    )
}

proof fn lemma_as_edge_idempotent(f: SampleFlags)
    ensures
        as_edge(as_edge(f)) == as_edge(f),
{
    let x = f.0;
    assert(((((x | 1u8) & !4u8) | 1u8) & !4u8) == ((x | 1u8) & !4u8)) by (bit_vector);
}

fn set_edge(f: SampleFlags) -> (r: SampleFlags)
    ensures
        r == as_edge(f),
{
    SampleFlags((f.0 | SAMPLE_EDGE_BIT) & !SAMPLE_VERIFIED_BIT)
}

/// Verified data fragment.
///
/// A contiguous run of audio samples with per-sample verification flags,
/// to be merged into the final output.
#[derive(Debug, Clone)]
pub struct VFragment {
    /// Verified 16-bit audio samples
    pub vector: Vec<i16>,
    /// Absolute position in samples
    pub begin: i64,
    /// Last sector covered by this fragment
    pub lastsector: i64,
    /// Per-sample verification flags
    pub flags: Vec<SampleFlags>,
}

impl VFragment {
    /// One flag per sample, and every position fits in `i64`.
    pub open spec fn wf(&self) -> bool {
        &&& self.flags@.len() == self.vector@.len()
        &&& self.vector@.len() <= i64::MAX
        &&& self.begin + self.vector@.len() <= i64::MAX
    }

    /// The end (exclusive) of the fragment.
    pub open spec fn spec_end(&self) -> i64 {
        sat_end(self.begin, self.vector@.len())
    }

    /// Whether the fragment covers position `pos`.
    pub open spec fn spec_contains(&self, pos: i64) -> bool {
        self.begin <= pos < self.spec_end()
    }

    /// The flags at a position, if covered.
    pub open spec fn spec_get_flags(&self, pos: i64) -> Option<SampleFlags> {
        if self.spec_contains(pos) && pos - self.begin < self.flags@.len() {
            Some(self.flags@[pos - self.begin])
        } else {
            None
        }
    }

    /// Create a new empty fragment.
    pub fn new() -> (r: Self)
        ensures
            r.wf(),
            r.vector@ == Seq::<i16>::empty(),
            r.flags@ == Seq::<SampleFlags>::empty(),
            r.begin == 0,
            r.lastsector == 0,
    {
        VFragment { vector: Vec::new(), begin: 0, lastsector: 0, flags: Vec::new() }
    }

    /// Create a fragment from samples, none of them verified.
    pub fn from_samples(data: &[i16], begin: i64, lastsector: i64) -> (r: Self)
        ensures
            r.vector@ == data@,
            r.flags@ == Seq::new(data@.len(), |_i: int| SampleFlags(0)),
            r.begin == begin,
            r.lastsector == lastsector,
    {
        let len = data.len();
        VFragment { vector: copy_all(data), begin, lastsector, flags: filled(SampleFlags(0), len) }
    }

    /// Create a fragment from samples, all of them verified.
    pub fn from_samples_verified(data: &[i16], begin: i64, lastsector: i64) -> (r: Self)
        ensures
            r.vector@ == data@,
            r.flags@ == Seq::new(data@.len(), |_i: int| SampleFlags(SAMPLE_VERIFIED_BIT)),
            r.begin == begin,
            r.lastsector == lastsector,
    {
        let len = data.len();
        VFragment {
            vector: copy_all(data),
            begin,
            lastsector,
            flags: filled(SampleFlags(SAMPLE_VERIFIED_BIT), len),
        }
    }

    /// Create a fragment from the positions `start..end` of a cache block
    /// that lie inside it (none for an empty, reversed or outside range).
    pub fn from_cblock(block: &CBlock, start: i64, end: i64) -> (r: Self)
        requires
            mark_range(block.begin, block.vector@.len(), start, end).1 <= block.flags@.len(),
        ensures
            ({
                let (lo, hi) = mark_range(block.begin, block.vector@.len(), start, end);
                &&& r.vector@ == block.vector@.subrange(lo, hi)
                &&& r.flags@ == block.flags@.subrange(lo, hi)
                &&& r.begin == if start > block.begin { start } else { block.begin }
                &&& r.lastsector == block.lastsector
            }),
    {
        let (lo, hi) = mark_bounds(block.begin, block.vector.len(), start, end);
        VFragment {
            vector: copy_range(block.vector.as_slice(), lo, hi),
            begin: if start > block.begin { start } else { block.begin },
            lastsector: block.lastsector,
            flags: copy_range(block.flags.as_slice(), lo, hi),
        }
    }

    /// The number of samples.
    pub fn len(&self) -> (r: usize)
        ensures
            r == self.vector@.len(),
    {
        self.vector.len()
    }

    /// Whether the fragment is empty.
    pub fn is_empty(&self) -> (r: bool)
        ensures
            r == (self.vector@.len() == 0),
    {
        self.vector.len() == 0
    }

    /// The ending position (exclusive), saturating at `i64::MAX`.
    pub fn end(&self) -> (r: i64)
        ensures
            r == self.spec_end(),
            self.vector@.len() <= usize::MAX,
    {
        block_end(self.begin, self.vector.len())
    }

    /// Whether a position falls within this fragment.
    pub fn contains(&self, pos: i64) -> (r: bool)
        ensures
            r == self.spec_contains(pos),
            self.vector@.len() <= usize::MAX,
    {
        let e = self.end();
        pos >= self.begin && pos < e
    }

    /// The sample at an absolute position.
    pub fn get(&self, pos: i64) -> (r: Option<i16>)
        ensures
            r == if self.spec_contains(pos) {
                Some(self.vector@[pos - self.begin])
            } else {
                None
            },
    {
        if self.contains(pos) {
            match offset_index(self.begin, pos) {
                Some(idx) => {
                    if idx < self.vector.len() {
                        Some(self.vector[idx])
                    } else {
                        None
                    }
                },
                None => None,
            }
        } else {
            None
        }
    }

    /// The flags at an absolute position.
    pub fn get_flags(&self, pos: i64) -> (r: Option<SampleFlags>)
        ensures
            r == self.spec_get_flags(pos),
    {
        if self.contains(pos) {
            match offset_index(self.begin, pos) {
                Some(idx) => {
                    if idx < self.flags.len() {
                        Some(self.flags[idx])
                    } else {
                        None
                    }
                },
                None => None,
            }
        } else {
            None
        }
    }

    /// Whether the sample at a position is covered and verified.
    pub fn is_verified(&self, pos: i64) -> (r: bool)
        ensures
            r == match self.spec_get_flags(pos) {
                Some(f) => f.spec_verified(),
                None => false,
            },
            r == verified_at(*self, pos),
    {
        match self.get_flags(pos) {
            Some(f) => f.is_verified(),
            None => false,
        }
    }

    /// Whether every sample's flags say verified.
    pub fn all_verified(&self) -> (r: bool)
        ensures
            r == forall|k: int| 0 <= k < self.flags@.len() ==> (#[trigger] self.flags@[k]).spec_verified(),
    {
        let mut k: usize = 0;
        while k < self.flags.len()
            invariant
                k <= self.flags@.len(),
                forall|j: int| 0 <= j < k ==> (#[trigger] self.flags@[j]).spec_verified(),
            decreases self.flags@.len() - k,
        {
            if !self.flags[k].is_verified() {
                return false;
            }
            k = k + 1;
        }
        true
    }

    /// The number of verified samples.
    pub fn verified_count(&self) -> (r: usize)
        ensures
            r == count_verified(self.flags@),
    {
        let mut n: usize = 0;
        let mut k: usize = 0;
        while k < self.flags.len()
            invariant
                k <= self.flags@.len(),
                n <= k,
                n == count_verified(self.flags@.take(k as int)),
            decreases self.flags@.len() - k,
        {
            proof {
                assert(self.flags@.take(k + 1).drop_last() =~= self.flags@.take(k as int));
            }
            if self.flags[k].is_verified() {
                n = n + 1;
            }
            k = k + 1;
        }
        proof {
            assert(self.flags@.take(self.flags@.len() as int) =~= self.flags@);
        }
        n
    }

    /// Mark the positions `start..end` inside the fragment as verified; an
    /// empty or reversed range, or one outside the fragment, marks nothing.
    pub fn mark_verified(&mut self, start: i64, end: i64)
        ensures
            final(self).vector@ == old(self).vector@,
            final(self).begin == old(self).begin,
            final(self).lastsector == old(self).lastsector,
            final(self).flags@ == verified_on(
                old(self).flags@,
                mark_range(old(self).begin, old(self).flags@.len(), start, end).0,
                mark_range(old(self).begin, old(self).flags@.len(), start, end).1,
            ),
    {
        let (lo, hi) = mark_bounds(self.begin, self.flags.len(), start, end);
        mark_verified_range(&mut self.flags, lo, hi);
    }

    /// Mark the first and last `edge_size` samples as edges needing extra
    /// verification: the edge bit is set and the verified bit cleared.
    pub fn mark_edges(&mut self, edge_size: usize)
        ensures
            final(self).vector@ == old(self).vector@,
            final(self).begin == old(self).begin,
            final(self).lastsector == old(self).lastsector,
            final(self).flags@ == edges_marked(old(self).flags@, edge_size as int),
    {
        let ghost f0 = self.flags@;
        let len = self.flags.len();
        let lead = if edge_size < len { edge_size } else { len };
        let mut k: usize = 0;
        while k < lead
            invariant
                lead <= len,
                len == f0.len(),
                k <= lead,
                self.flags@.len() == len,
                self.vector@ == old(self).vector@,
                self.begin == old(self).begin,
                self.lastsector == old(self).lastsector,
                forall|j: int| 0 <= j < len ==> #[trigger] self.flags@[j] == if j < k {
                    as_edge(f0[j])
                } else {
                    f0[j]
                },
            decreases lead - k,
        {
            let f = set_edge(self.flags[k]);
            self.flags.set(k, f);
            k = k + 1;
        }
        if len > edge_size {
            let mut k: usize = len - edge_size;
            while k < len
                invariant
                    len - edge_size <= k <= len,
                    len > edge_size,
                    lead == edge_size,
                    len == f0.len(),
                    self.flags@.len() == len,
                    self.vector@ == old(self).vector@,
                    self.begin == old(self).begin,
                    self.lastsector == old(self).lastsector,
                    forall|j: int| 0 <= j < len ==> #[trigger] self.flags@[j] == if j < lead || (len
                        - edge_size <= j < k) {
                        as_edge(f0[j])
                    } else {
                        f0[j]
                    },
                decreases len - k,
            {
                proof {
                    lemma_as_edge_idempotent(f0[k as int]);
                }
                let f = set_edge(self.flags[k]);
                self.flags.set(k, f);
                k = k + 1;
            }
        }
        assert(self.flags@ =~= edges_marked(f0, edge_size as int));
    }
}

/// Two fragments agree where they overlap, or one ends where the other
/// begins: the condition under which `try_merge` succeeds.
pub open spec fn mergeable(s: VFragment, o: VFragment) -> bool {
    let sb = s.begin as int;
    let se = s.begin + s.vector@.len();
    let ob = o.begin as int;
    let oe = o.begin + o.vector@.len();
    let lo = if sb > ob { sb } else { ob };
    let hi = if se < oe { se } else { oe };
    if lo >= hi {
        se == ob || oe == sb
    } else {
        forall|p: int| lo <= p < hi ==> #[trigger] same_sample(s, o, p)
    }
}

/// The two fragments hold the same sample at position `p`.
pub open spec fn same_sample(s: VFragment, o: VFragment, p: int) -> bool {
    s.vector@[p - s.begin] == o.vector@[p - o.begin]
}

/// The first position covered by either fragment.
pub open spec fn union_begin(s: VFragment, o: VFragment) -> int {
    if s.begin < o.begin { s.begin as int } else { o.begin as int }
}

/// The end of the positions covered by either fragment.
pub open spec fn union_end(s: VFragment, o: VFragment) -> int {
    let se = s.begin + s.vector@.len();
    let oe = o.begin + o.vector@.len();
    if se > oe { se } else { oe }
}

/// Whether fragment `f` covers position `p`.
pub open spec fn covers(f: VFragment, p: int) -> bool {
    f.begin <= p < f.begin + f.vector@.len()
}

/// The samples of a merge: `s`'s where it covers a position, else `o`'s.
pub open spec fn merged_samples(s: VFragment, o: VFragment) -> Seq<i16> {
    let b = union_begin(s, o);
    Seq::new(
        (union_end(s, o) - b) as nat,
        |i: int|
            if covers(s, b + i) {
                s.vector@[b + i - s.begin]
            } else {
                o.vector@[b + i - o.begin]
            },
    )
}

/// The flags of a merge: `s`'s where it covers a position (with the
/// verified bit set where both cover it), else `o`'s.
pub open spec fn merged_flags(s: VFragment, o: VFragment) -> Seq<SampleFlags> {
    let b = union_begin(s, o);
    Seq::new(
        (union_end(s, o) - b) as nat,
        |i: int|
            if covers(s, b + i) && covers(o, b + i) {
                with_verified(s.flags@[b + i - s.begin])
            } else if covers(s, b + i) {
                s.flags@[b + i - s.begin]
            } else {
                o.flags@[b + i - o.begin]
            },
    )
}

/// The last sector after a successful merge: the larger of the two, except
/// when `o` is prepended without overlap, which keeps `s`'s.
pub open spec fn merged_lastsector(s: VFragment, o: VFragment) -> i64 {
    let se = s.begin + s.vector@.len();
    let oe = o.begin + o.vector@.len();
    let lo = if s.begin > o.begin { s.begin as int } else { o.begin as int };
    let hi = if se < oe { se } else { oe };
    if lo >= hi && se != o.begin {
        s.lastsector
    } else if s.lastsector > o.lastsector {
        s.lastsector
    } else {
        o.lastsector
    }
}

impl VFragment {
    /// Merge another fragment into this one if they overlap and agree there,
    /// or are contiguous. On success the fragment covers both, keeps its own
    /// samples where it has them, and marks the overlap verified; on failure
    /// it is unchanged.
    pub fn try_merge(&mut self, other: &VFragment) -> (r: bool)
        requires
            old(self).wf(),
            other.wf(),
            union_end(*old(self), *other) - union_begin(*old(self), *other) <= i64::MAX,
        ensures
            r == mergeable(*old(self), *other),
            r ==> {
                &&& final(self).wf()
                &&& final(self).begin == union_begin(*old(self), *other)
                &&& final(self).vector@ == merged_samples(*old(self), *other)
                &&& final(self).flags@ == merged_flags(*old(self), *other)
                &&& final(self).lastsector == merged_lastsector(*old(self), *other)
            },
            !r ==> *final(self) == *old(self),
    {
        let ghost s0 = *self;
        let self_end = self.end();
        let other_end = other.end();
        let overlap_start = if self.begin > other.begin { self.begin } else { other.begin };
        let overlap_end = if self_end < other_end { self_end } else { other_end };
        if overlap_start >= overlap_end {
            if self_end == other.begin {
                append_range(&mut self.vector, other.vector.as_slice(), 0, other.vector.len());
                append_range(&mut self.flags, other.flags.as_slice(), 0, other.flags.len());
                self.lastsector = if self.lastsector > other.lastsector { self.lastsector } else { other.lastsector };
                proof {
                    assert(other.vector@.subrange(0, other.vector@.len() as int) =~= other.vector@);
                    assert(other.flags@.subrange(0, other.flags@.len() as int) =~= other.flags@);
                    assert(self.vector@.len() == merged_samples(s0, *other).len());
                    assert forall|i: int| 0 <= i < self.vector@.len() implies #[trigger] self.vector@[i]
                        == merged_samples(s0, *other)[i] by {
                        if i < s0.vector@.len() {
                        } else {
                        }
                    }
                    assert(self.vector@ =~= merged_samples(s0, *other));
                    assert(self.flags@ =~= merged_flags(s0, *other));
                }
                return true;
            } else if other_end == self.begin {
                let mut new_vec = copy_all(other.vector.as_slice());
                append_range(&mut new_vec, self.vector.as_slice(), 0, self.vector.len());
                let mut new_flags = copy_all(other.flags.as_slice());
                append_range(&mut new_flags, self.flags.as_slice(), 0, self.flags.len());
                self.vector = new_vec;
                self.flags = new_flags;
                self.begin = other.begin;
                proof {
                    assert(s0.vector@.subrange(0, s0.vector@.len() as int) =~= s0.vector@);
                    assert(s0.flags@.subrange(0, s0.flags@.len() as int) =~= s0.flags@);
                    assert(self.vector@.len() == merged_samples(s0, *other).len());
                    assert forall|i: int| 0 <= i < self.vector@.len() implies #[trigger] self.vector@[i]
                        == merged_samples(s0, *other)[i] by {
                        if i < other.vector@.len() {
                        } else {
                        }
                    }
                    assert(self.vector@ =~= merged_samples(s0, *other));
                    assert(self.flags@ =~= merged_flags(s0, *other));
                }
                return true;
            }
            return false;
        }
        let self_start = (overlap_start - self.begin) as usize;
        let other_start = (overlap_start - other.begin) as usize;
        let overlap_len = (overlap_end - overlap_start) as usize;
        if !ranges_equal(self.vector.as_slice(), self_start, other.vector.as_slice(), other_start, overlap_len) {
            proof {
                assert(!mergeable(s0, *other)) by {
                    let k = choose|k: int|
                        0 <= k < overlap_len && !(#[trigger] s0.vector@[self_start + k] == other.vector@[other_start + k]);
                    let p = overlap_start + k;
                    assert(!same_sample(s0, *other, p));
                }
            }
            return false;
        }
        proof {
            assert forall|p: int| overlap_start <= p < overlap_end implies #[trigger] same_sample(s0, *other, p) by {
                let k = p - overlap_start;
                assert(s0.vector@[self_start + k] == other.vector@[other_start + k]);
            }
        }
        mark_verified_range(&mut self.flags, self_start, self_start + overlap_len);
        let ghost s1 = *self;
        if other.begin < self.begin {
            let prepend_len = (self.begin - other.begin) as usize;
            let mut new_vec = copy_range(other.vector.as_slice(), 0, prepend_len);
            append_range(&mut new_vec, self.vector.as_slice(), 0, self.vector.len());
            let mut new_flags = copy_range(other.flags.as_slice(), 0, prepend_len);
            append_range(&mut new_flags, self.flags.as_slice(), 0, self.flags.len());
            self.vector = new_vec;
            self.flags = new_flags;
            self.begin = other.begin;
            proof {
                assert(s1.vector@.subrange(0, s1.vector@.len() as int) =~= s1.vector@);
                assert(s1.flags@.subrange(0, s1.flags@.len() as int) =~= s1.flags@);
            }
        }
        let ghost s2 = *self;
        let cur_end = self.end();
        if other_end > cur_end {
            let append_start = (cur_end - other.begin) as usize;
            append_range(&mut self.vector, other.vector.as_slice(), append_start, other.vector.len());
            append_range(&mut self.flags, other.flags.as_slice(), append_start, other.flags.len());
        }
        self.lastsector = if self.lastsector > other.lastsector { self.lastsector } else { other.lastsector };
        proof {
            let b = union_begin(s0, *other);
            assert(self.begin == b);
            assert forall|i: int| 0 <= i < self.vector@.len() implies #[trigger] self.vector@[i]
                == merged_samples(s0, *other)[i] by {
                let p = b + i;
                if covers(s0, p) {
                } else if p < s0.begin {
                } else {
                }
            }
            assert(self.vector@ =~= merged_samples(s0, *other));
            assert forall|i: int| 0 <= i < self.flags@.len() implies #[trigger] self.flags@[i]
                == merged_flags(s0, *other)[i] by {
                let p = b + i;
                if covers(s0, p) {
                } else if p < s0.begin {
                } else {
                }
            }
            assert(self.flags@ =~= merged_flags(s0, *other));
        }
        true
    }
}

impl Default for VFragment {
    fn default() -> (r: Self)
        ensures
            r.wf(),
            r.vector@ == Seq::<i16>::empty(),
            r.flags@ == Seq::<SampleFlags>::empty(),
            r.begin == 0,
            r.lastsector == 0,
    {
        Self::new()
    }
}

/// Root block containing the verified output data.
///
/// The final destination for verified audio samples returned to the
/// caller, with per-sample verification and silence flags.
#[derive(Debug)]
pub struct RootBlock {
    /// Verified audio samples ready for output
    pub vector: Vec<i16>,
    /// Starting position in samples
    pub begin: i64,
    /// Position of last returned data
    pub returnedlimit: i64,
    /// Last sector covered
    pub lastsector: i64,
    /// Per-sample verification flags
    pub flags: Vec<SampleFlags>,
    /// Silence flags for each sample
    pub silenceflag: Vec<bool>,
}

/// The whole frame at `pos` lies inside the root, every sample verified:
/// what `RootBlock::is_frame_verified` answers.
pub open spec fn frame_all_verified(r: RootBlock, pos: i64) -> bool {
    match spec_offset_index(r.begin, pos) {
        Some(st) => st + CD_FRAMEWORDS <= r.flags@.len() && forall|k: int|
            st <= k < st + CD_FRAMEWORDS ==> (#[trigger] r.flags@[k]).spec_verified(),
        None => false,
    }
}

/// Flags that are all verified count in full.
proof fn lemma_count_all_verified(flags: Seq<SampleFlags>)
    requires
        forall|k: int| 0 <= k < flags.len() ==> (#[trigger] flags[k]).spec_verified(),
    ensures
        count_verified(flags) == flags.len(),
    decreases flags.len(),
{
    if flags.len() > 0 {
        assert forall|k: int| 0 <= k < flags.drop_last().len() implies (#[trigger] flags.drop_last()[k]).spec_verified() by {
            assert(flags.drop_last()[k] == flags[k]);
        }
        lemma_count_all_verified(flags.drop_last());
        assert(flags.last().spec_verified());
    }
}

/// A verified frame is a whole frame of the root: `extract_frame` gives it,
/// and `frame_verified_count` counts all of its samples.
pub proof fn lemma_verified_frame_complete(r: RootBlock, pos: i64)
    requires
        r.wf(),
        frame_all_verified(r, pos),
    ensures
        r.frame_at(pos) is Some,
        ({
            let st = spec_offset_index(r.begin, pos).unwrap() as int;
            count_verified(r.flags@.subrange(st, st + CD_FRAMEWORDS)) == CD_FRAMEWORDS
        }),
{
    let st = spec_offset_index(r.begin, pos).unwrap() as int;
    let sub = r.flags@.subrange(st, st + CD_FRAMEWORDS);
    assert forall|k: int| 0 <= k < sub.len() implies (#[trigger] sub[k]).spec_verified() by {
        assert(sub[k] == r.flags@[st + k]);
    }
    lemma_count_all_verified(sub);
}

/// Whether the root block covers position `p`.
pub open spec fn root_covers(r: RootBlock, p: int) -> bool {
    r.begin <= p < r.begin + r.vector@.len()
}

/// The first position covered by the root or the fragment.
pub open spec fn root_union_begin(r: RootBlock, f: VFragment) -> int {
    if r.begin < f.begin { r.begin as int } else { f.begin as int }
}

/// The end of the positions covered by the root or the fragment.
pub open spec fn root_union_end(r: RootBlock, f: VFragment) -> int {
    let re = r.begin + r.vector@.len();
    let fe = f.begin + f.vector@.len();
    if re > fe { re } else { fe }
}

/// The fragment's sample at `p` is verified.
pub open spec fn frag_verified_at(f: VFragment, p: int) -> bool {
    covers(f, p) && f.flags@[p - f.begin].spec_verified()
}

/// Samples after merging a fragment into a non-empty root: the root's,
/// except where the fragment is verified and the root is not, and the
/// fragment's outside the root.
pub open spec fn root_merged_samples(r: RootBlock, f: VFragment) -> Seq<i16> {
    let b = root_union_begin(r, f);
    Seq::new(
        (root_union_end(r, f) - b) as nat,
        |i: int|
            if root_covers(r, b + i) {
                if frag_verified_at(f, b + i) && !r.flags@[b + i - r.begin].spec_verified() {
                    f.vector@[b + i - f.begin]
                } else {
                    r.vector@[b + i - r.begin]
                }
            } else {
                f.vector@[b + i - f.begin]
            },
    )
}

/// Flags after merging a fragment into a non-empty root: the root's (made
/// verified where the fragment is verified), and the fragment's outside
/// the root.
pub open spec fn root_merged_flags(r: RootBlock, f: VFragment) -> Seq<SampleFlags> {
    let b = root_union_begin(r, f);
    Seq::new(
        (root_union_end(r, f) - b) as nat,
        |i: int|
            if root_covers(r, b + i) {
                if frag_verified_at(f, b + i) {
                    with_verified(r.flags@[b + i - r.begin])
                } else {
                    r.flags@[b + i - r.begin]
                }
            } else {
                f.flags@[b + i - f.begin]
            },
    )
}

/// Silence flags after merging into a non-empty root: the root's, and
/// `false` outside the root.
pub open spec fn root_merged_silence(r: RootBlock, f: VFragment) -> Seq<bool> {
    let b = root_union_begin(r, f);
    Seq::new(
        (root_union_end(r, f) - b) as nat,
        |i: int| if root_covers(r, b + i) { r.silenceflag@[b + i - r.begin] } else { false },
    )
}

impl RootBlock {
    /// One flag and one silence flag per sample, and every position fits.
    pub open spec fn wf(&self) -> bool {
        &&& self.flags@.len() == self.vector@.len()
        &&& self.silenceflag@.len() == self.vector@.len()
        &&& self.vector@.len() <= i64::MAX
        &&& self.begin + self.vector@.len() <= i64::MAX
    }

    /// The end (exclusive) of the root block.
    pub open spec fn spec_end(&self) -> i64 {
        sat_end(self.begin, self.vector@.len())
    }

    /// The index range of the frame at `pos`, if it lies inside the root.
    pub open spec fn frame_at(&self, pos: i64) -> Option<(int, int)> {
        match spec_offset_index(self.begin, pos) {
            Some(st) => if st + CD_FRAMEWORDS <= self.vector@.len() {
                Some((st as int, st + CD_FRAMEWORDS))
            } else {
                None
            },
            None => None,
        }
    }

    /// Create a new root block.
    pub fn new() -> (r: Self)
        ensures
            r.wf(),
            r.vector@ == Seq::<i16>::empty(),
            r.flags@ == Seq::<SampleFlags>::empty(),
            r.silenceflag@ == Seq::<bool>::empty(),
            r.begin == 0,
            r.returnedlimit == 0,
            r.lastsector == 0,
    {
        RootBlock {
            vector: Vec::new(),
            begin: 0,
            returnedlimit: 0,
            lastsector: 0,
            flags: Vec::new(),
            silenceflag: Vec::new(),
        }
    }

    /// Create a root block with room for `samples` samples.
    pub fn with_capacity(samples: usize) -> (r: Self)
        ensures
            r.wf(),
            r.vector@ == Seq::<i16>::empty(),
            r.flags@ == Seq::<SampleFlags>::empty(),
            r.silenceflag@ == Seq::<bool>::empty(),
            r.begin == 0,
            r.returnedlimit == 0,
            r.lastsector == 0,
    {
        RootBlock {
            vector: Vec::with_capacity(samples),
            begin: 0,
            returnedlimit: 0,
            lastsector: 0,
            flags: Vec::with_capacity(samples),
            silenceflag: Vec::with_capacity(samples),
        }
    }

    /// The number of samples.
    pub fn len(&self) -> (r: usize)
        ensures
            r == self.vector@.len(),
    {
        self.vector.len()
    }

    /// Whether the root block is empty.
    pub fn is_empty(&self) -> (r: bool)
        ensures
            r == (self.vector@.len() == 0),
    {
        self.vector.len() == 0
    }

    /// The ending position (exclusive), saturating at `i64::MAX`.
    pub fn end(&self) -> (r: i64)
        ensures
            r == self.spec_end(),
            self.vector@.len() <= usize::MAX,
    {
        block_end(self.begin, self.vector.len())
    }

    /// Clear the root block.
    pub fn clear(&mut self)
        ensures
            final(self).wf(),
            final(self).vector@ == Seq::<i16>::empty(),
            final(self).flags@ == Seq::<SampleFlags>::empty(),
            final(self).silenceflag@ == Seq::<bool>::empty(),
            final(self).begin == 0,
            final(self).returnedlimit == 0,
            final(self).lastsector == 0,
    {
        self.vector.clear();
        self.flags.clear();
        self.silenceflag.clear();
        self.begin = 0;
        self.returnedlimit = 0;
        self.lastsector = 0;
    }

    /// The `CD_FRAMEWORDS` samples starting at position `pos`, if the root
    /// holds them all.
    pub fn extract_frame(&self, pos: i64) -> (r: Option<&[i16]>)
        ensures
            r.is_some() == self.frame_at(pos).is_some(),
            r matches Some(fr) ==> fr@ == self.vector@.subrange(
                self.frame_at(pos).unwrap().0,
                self.frame_at(pos).unwrap().1,
            ),
    {
        let start = match offset_index(self.begin, pos) {
            Some(s) => s,
            None => return None,
        };
        let n = self.vector.len();
        if start > n || n - start < CD_FRAMEWORDS {
            return None;
        }
        Some(vstd::slice::slice_subrange(self.vector.as_slice(), start, start + CD_FRAMEWORDS))
    }

    /// Whether the whole frame at `pos` lies inside the root and is verified.
    pub fn is_frame_verified(&self, pos: i64) -> (r: bool)
        requires
            spec_offset_index(self.begin, pos) matches Some(st) ==> st + CD_FRAMEWORDS <= usize::MAX,
        ensures
            r == match spec_offset_index(self.begin, pos) {
                Some(st) => st + CD_FRAMEWORDS <= self.flags@.len() && forall|k: int|
                    st <= k < st + CD_FRAMEWORDS ==> (#[trigger] self.flags@[k]).spec_verified(),
                None => false,
            },
            r == frame_all_verified(*self, pos),
    {
        let start = match offset_index(self.begin, pos) {
            Some(s) => s,
            None => return false,
        };
        let end = start + CD_FRAMEWORDS;
        if end > self.flags.len() {
            return false;
        }
        let mut k = start;
        while k < end
            invariant
                start <= k <= end,
                spec_offset_index(self.begin, pos) == Some(start),
                end == start + CD_FRAMEWORDS,
                end <= self.flags@.len(),
                forall|j: int| start <= j < k ==> (#[trigger] self.flags@[j]).spec_verified(),
            decreases end - k,
        {
            if !self.flags[k].is_verified() {
                assert(!self.flags@[k as int].spec_verified());
                return false;
            }
            k = k + 1;
        }
        true
    }

    /// The number of verified samples in the frame at `pos` (clipped to the
    /// root).
    pub fn frame_verified_count(&self, pos: i64) -> (r: usize)
        requires
            spec_offset_index(self.begin, pos) matches Some(st) ==> st + CD_FRAMEWORDS <= usize::MAX,
        ensures
            r == match spec_offset_index(self.begin, pos) {
                Some(st) => if st >= self.flags@.len() {
                    0
                } else {
                    count_verified(
                        self.flags@.subrange(
                            st as int,
                            if st + CD_FRAMEWORDS < self.flags@.len() {
                                st + CD_FRAMEWORDS
                            } else {
                                self.flags@.len() as int
                            },
                        ),
                    )
                },
                None => 0,
            },
    {
        let start = match offset_index(self.begin, pos) {
            Some(s) => s,
            None => return 0,
        };
        let end0 = start + CD_FRAMEWORDS;
        let end = if end0 < self.flags.len() { end0 } else { self.flags.len() };
        if start >= self.flags.len() {
            return 0;
        }
        let ghost sub = self.flags@.subrange(start as int, end as int);
        let mut n: usize = 0;
        let mut k = start;
        while k < end
            invariant
                start <= k <= end,
                end <= self.flags@.len(),
                sub == self.flags@.subrange(start as int, end as int),
                n <= k - start,
                n == count_verified(sub.take(k - start)),
            decreases end - k,
        {
            proof {
                assert(sub.take(k - start + 1).drop_last() =~= sub.take(k - start));
                assert(sub[k - start] == self.flags@[k as int]);
            }
            if self.flags[k].is_verified() {
                n = n + 1;
            }
            k = k + 1;
        }
        proof {
            assert(sub.take(end - start) =~= sub);
        }
        n
    }
}

impl RootBlock {
    /// Merge a fragment into the root block. An empty root takes the
    /// fragment as it is; otherwise the root grows to cover the fragment,
    /// takes the fragment's samples outside itself, and inside it takes
    /// verified fragment samples where its own are unverified, marking every
    /// position where the fragment is verified as verified. The fragment
    /// must not leave a gap before or after the root.
    pub fn merge_fragment(&mut self, fragment: &VFragment)
        requires
            old(self).wf(),
            fragment.wf(),
            old(self).vector@.len() > 0 && fragment.vector@.len() > 0 ==> fragment.begin <= old(self).begin
                + old(self).vector@.len() && old(self).begin <= fragment.begin + fragment.vector@.len(),
            old(self).vector@.len() > 0 && fragment.vector@.len() > 0 ==> root_union_end(*old(self), *fragment)
                - root_union_begin(*old(self), *fragment) <= i64::MAX,
        ensures
            final(self).wf(),
            final(self).returnedlimit == old(self).returnedlimit,
            fragment.vector@.len() == 0 ==> *final(self) == *old(self),
            fragment.vector@.len() > 0 && old(self).vector@.len() == 0 ==> {
                &&& final(self).vector@ == fragment.vector@
                &&& final(self).flags@ == fragment.flags@
                &&& final(self).silenceflag@ == Seq::new(fragment.vector@.len(), |_i: int| false)
                &&& final(self).begin == fragment.begin
                &&& final(self).lastsector == fragment.lastsector
            },
            fragment.vector@.len() > 0 && old(self).vector@.len() > 0 ==> {
                &&& final(self).vector@ == root_merged_samples(*old(self), *fragment)
                &&& final(self).flags@ == root_merged_flags(*old(self), *fragment)
                &&& final(self).silenceflag@ == root_merged_silence(*old(self), *fragment)
                &&& final(self).begin == root_union_begin(*old(self), *fragment)
                &&& final(self).lastsector == if old(self).lastsector > fragment.lastsector {
                    old(self).lastsector
                } else {
                    fragment.lastsector
                }
            },
    {
        if fragment.is_empty() {
            return;
        }
        if self.is_empty() {
            self.vector = copy_all(fragment.vector.as_slice());
            self.flags = copy_all(fragment.flags.as_slice());
            self.begin = fragment.begin;
            self.lastsector = fragment.lastsector;
            self.silenceflag = filled(false, fragment.vector.len());
            return;
        }
        let ghost r0 = *self;
        let ghost f = *fragment;
        let self_end = self.end();
        let frag_end = fragment.end();
        let overlap_start = if self.begin > fragment.begin { self.begin } else { fragment.begin };
        let overlap_end = if self_end < frag_end { self_end } else { frag_end };
        if fragment.begin < self.begin {
            let prepend_len = (self.begin - fragment.begin) as usize;
            let mut new_vec = copy_range(fragment.vector.as_slice(), 0, prepend_len);
            append_range(&mut new_vec, self.vector.as_slice(), 0, self.vector.len());
            let mut new_flags = copy_range(fragment.flags.as_slice(), 0, prepend_len);
            append_range(&mut new_flags, self.flags.as_slice(), 0, self.flags.len());
            let mut new_silence = filled(false, prepend_len);
            append_range(&mut new_silence, self.silenceflag.as_slice(), 0, self.silenceflag.len());
            self.vector = new_vec;
            self.flags = new_flags;
            self.silenceflag = new_silence;
            self.begin = fragment.begin;
            proof {
                assert(r0.vector@.subrange(0, r0.vector@.len() as int) =~= r0.vector@);
                assert(r0.flags@.subrange(0, r0.flags@.len() as int) =~= r0.flags@);
                assert(r0.silenceflag@.subrange(0, r0.silenceflag@.len() as int) =~= r0.silenceflag@);
            }
        }
        let cur_end = self.end();
        if frag_end > cur_end {
            let append_start = (cur_end - fragment.begin) as usize;
            let extra = fragment.vector.len() - append_start;
            append_range(&mut self.vector, fragment.vector.as_slice(), append_start, fragment.vector.len());
            append_range(&mut self.flags, fragment.flags.as_slice(), append_start, fragment.flags.len());
            let tail = filled(false, extra);
            append_range(&mut self.silenceflag, tail.as_slice(), 0, extra);
            proof {
                assert(tail@.subrange(0, extra as int) =~= tail@);
            }
        }
        let ghost b = root_union_begin(r0, f);
        let ghost vt = root_merged_samples(r0, f);
        let ghost ft = root_merged_flags(r0, f);
        let ghost st = root_merged_silence(r0, f);
        let ghost ov_lo = overlap_start - b;
        let ghost ov_hi = overlap_end - b;
        proof {
            assert(self.begin == b);
            assert(self.vector@.len() == vt.len());
            assert forall|j: int| 0 <= j < vt.len() implies #[trigger] self.vector@[j] == if ov_lo <= j < ov_hi {
                r0.vector@[b + j - r0.begin]
            } else {
                vt[j]
            } by {
                let p = b + j;
                if p < r0.begin {
                } else if p < r0.begin + r0.vector@.len() {
                } else {
                }
            }
            assert forall|j: int| 0 <= j < vt.len() implies #[trigger] self.flags@[j] == if ov_lo <= j < ov_hi {
                r0.flags@[b + j - r0.begin]
            } else {
                ft[j]
            } by {
                let p = b + j;
                if p < r0.begin {
                } else if p < r0.begin + r0.vector@.len() {
                } else {
                }
            }
            assert forall|j: int| 0 <= j < vt.len() implies #[trigger] self.silenceflag@[j] == st[j] by {
                let p = b + j;
                if p < r0.begin {
                } else if p < r0.begin + r0.vector@.len() {
                } else {
                }
            }
            assert(self.silenceflag@ =~= st);
        }
        if overlap_start < overlap_end {
            let root_start = (overlap_start - self.begin) as usize;
            let frag_start = (overlap_start - fragment.begin) as usize;
            let overlap_len = (overlap_end - overlap_start) as usize;
            let mut i: usize = 0;
            while i < overlap_len
                invariant
                    i <= overlap_len,
                    root_start == ov_lo,
                    root_start + overlap_len == ov_hi,
                    frag_start == overlap_start - f.begin,
                    ov_lo == overlap_start - b,
                    b == root_union_begin(r0, f),
                    overlap_start >= r0.begin,
                    overlap_start >= f.begin,
                    overlap_end <= r0.begin + r0.vector@.len(),
                    overlap_end <= f.begin + f.vector@.len(),
                    overlap_end == overlap_start + overlap_len,
                    *fragment == f,
                    f.wf(),
                    r0.wf(),
                    vt == root_merged_samples(r0, f),
                    ft == root_merged_flags(r0, f),
                    self.vector.len() == vt.len(),
                    self.flags@.len() == vt.len(),
                    self.returnedlimit == r0.returnedlimit,
                    self.lastsector == r0.lastsector,
                    self.begin == b,
                    self.silenceflag@ == root_merged_silence(r0, f),
                    forall|j: int| 0 <= j < vt.len() ==> #[trigger] self.vector@[j] == if ov_lo + i <= j < ov_hi {
                        r0.vector@[b + j - r0.begin]
                    } else {
                        vt[j]
                    },
                    forall|j: int| 0 <= j < vt.len() ==> #[trigger] self.flags@[j] == if ov_lo + i <= j < ov_hi {
                        r0.flags@[b + j - r0.begin]
                    } else {
                        ft[j]
                    },
                decreases overlap_len - i,
            {
                let root_idx = root_start + i;
                let frag_idx = frag_start + i;
                if fragment.flags[frag_idx].is_verified() {
                    if !self.flags[root_idx].is_verified() {
                        self.vector.set(root_idx, fragment.vector[frag_idx]);
                    }
                    let nf = set_verified(self.flags[root_idx]);
                    self.flags.set(root_idx, nf);
                }
                i = i + 1;
            }
        }
        proof {
            assert(self.vector@ =~= vt);
            assert(self.flags@ =~= ft);
        }
        self.lastsector = if self.lastsector > fragment.lastsector { self.lastsector } else { fragment.lastsector };
    }
}

impl Default for RootBlock {
    fn default() -> (r: Self)
        ensures
            r.wf(),
            r.vector@ == Seq::<i16>::empty(),
            r.begin == 0,
            r.returnedlimit == 0,
            r.lastsector == 0,
    {
        Self::new()
    }
}

} // verus!
