//! The paranoia reader: verified reading of CD audio with two-stage
//! verification, jitter correction and rift repair.
//!
//! The drive is not held here. A read is a sequence of steps: each step
//! tells the caller which drive operation to perform next, and the caller
//! hands the outcome back, until the read completes.

use vstd::prelude::*;
use crate::backoff::{BackoffAction, BackoffStrategy, determine_backoff_action, millis_duration, BackoffView, fresh_view, DEFAULT_ERROR_THRESHOLD, DEFAULT_BACKOFF_SECTORS,
    DEFAULT_BACKOFF_DELAY_MS, MAX_BACKOFF_SECTORS, MAX_BACKOFF_DELAY_MS};
use crate::block::{
    CBlock, RootBlock, VFragment, count_verified, edges_marked, root_merged_flags, root_merged_samples,
    root_merged_silence, root_union_begin,
};
use crate::constants::{CACHEMODEL_SECTORS, CD_FRAMEWORDS, MIN_WORDS_OVERLAP, MIN_WORDS_SEARCH};
use crate::gap::{RiftType, is_loud, spec_rift_forward, analyze_rift_forward};
use crate::isort::{
    SortInfo, find_match, lemma_match_candidate_in_block, spec_match_candidate, first_run_match, run_matches,
    lemma_find_all_exact,
};
use crate::overlap::{DynamicOverlap, find_overlap, spec_find_overlap, lemma_find_overlap_range, MAX_OVERLAP_WORDS, RECALIBRATE_INTERVAL, slots_bounded, trunc_div, trunc_div_i64};
use crate::seqs::{copy_all, filled, ranges_equal, slices_equal};
use crate::types::{Lsn, ParanoiaCallback, ParanoiaMode, SampleFlags, SAMPLE_VERIFIED_BIT};
use crate::consensus::{ConsensusBuilder, ReadResult, MIN_READS_FOR_CONSENSUS};
use crate::error::{Error, Result};
use std::time::Duration;

verus! {

/// Samples with a magnitude of at most this are silence.
pub const SILENCE_THRESHOLD: i16 = 5;

/// How far rift analysis searches for the reads to fall back into step.
pub const RIFT_SEARCH: i64 = 256;

/// The most reads consensus voting takes into account: the two reads that
/// disagreed and the further reads.
pub const MAX_CONSENSUS_READS: usize = 5;

/// The number of further reads consensus voting may ask for.
pub const CONSENSUS_ROUNDS: usize = 3;

/// Whether `test`, from index `pos`, holds the `MIN_WORDS_OVERLAP` samples
/// of `reference` that start at index `cp`.
pub open spec fn window_matches(reference: Seq<i16>, test: Seq<i16>, cp: int, pos: int) -> bool {
    &&& 0 <= cp
    &&& cp + MIN_WORDS_OVERLAP <= reference.len()
    &&& 0 <= pos
    &&& pos + MIN_WORDS_OVERLAP <= test.len()
    &&& test.subrange(pos, pos + MIN_WORDS_OVERLAP) == reference.subrange(cp, cp + MIN_WORDS_OVERLAP)
}

/// The first offset, trying `+offset` before `-offset` and growing from
/// `offset` up to `range`, at which `test` holds the reference window.
pub open spec fn jitter_scan(reference: Seq<i16>, test: Seq<i16>, cp: int, offset: int, range: int) -> Option<int>
    decreases range + 1 - offset,
{
    if offset > range || offset < 0 {
        None
    } else if window_matches(reference, test, cp, cp + offset) {
        Some(offset)
    } else if window_matches(reference, test, cp, cp - offset) {
        Some(-offset)
    } else {
        jitter_scan(reference, test, cp, offset + 1, range)
    }
}

/// The scan from `offset` ends before it would probe a negative index of
/// `test`.
pub open spec fn jitter_scan_safe(reference: Seq<i16>, test: Seq<i16>, cp: int, offset: int, range: int) -> bool
    decreases range + 1 - offset,
{
    if offset > range || offset < 0 {
        true
    } else if window_matches(reference, test, cp, cp + offset) {
        true
    } else if cp - offset < 0 {
        false
    } else if window_matches(reference, test, cp, cp - offset) {
        true
    } else {
        jitter_scan_safe(reference, test, cp, offset + 1, range)
    }
}

/// Jitter detection scans: the reads differ, both hold a full window, and
/// the window from the middle of the reference fits.
pub open spec fn jitter_scan_reached(reference: Seq<i16>, test: Seq<i16>) -> bool {
    &&& reference != test
    &&& reference.len() >= MIN_WORDS_OVERLAP
    &&& test.len() >= MIN_WORDS_OVERLAP
    &&& reference.len() / 2 + MIN_WORDS_OVERLAP <= reference.len()
}

/// The jitter offset between two reads: 0 for identical or short reads,
/// else the offset at which `test` holds the window from the middle of
/// `reference` (0 if it holds it nowhere within `range`).
pub open spec fn spec_jitter_offset(reference: Seq<i16>, test: Seq<i16>, range: i64) -> i64 {
    if !jitter_scan_reached(reference, test) {
        0
    } else {
        match jitter_scan(reference, test, (reference.len() / 2) as int, 0, range as int) {
            Some(o) => o as i64,
            None => 0,
        }
    }
}

/// Jitter detection never probes before the start of `test`.
pub open spec fn jitter_detection_safe(reference: Seq<i16>, test: Seq<i16>, range: i64) -> bool {
    jitter_scan_reached(reference, test) ==> jitter_scan_safe(
        reference,
        test,
        (reference.len() / 2) as int,
        0,
        range as int,
    )
}

proof fn lemma_window(reference: Seq<i16>, test: Seq<i16>, cp: int, pos: int)
    requires
        0 <= cp,
        cp + MIN_WORDS_OVERLAP <= reference.len(),
        0 <= pos,
        pos + MIN_WORDS_OVERLAP <= test.len(),
    ensures
        window_matches(reference, test, cp, pos) <==> forall|k: int|
            0 <= k < MIN_WORDS_OVERLAP ==> #[trigger] reference[cp + k] == test[pos + k],
{
    if forall|k: int| 0 <= k < MIN_WORDS_OVERLAP ==> #[trigger] reference[cp + k] == test[pos + k] {
        assert(test.subrange(pos, pos + MIN_WORDS_OVERLAP) =~= reference.subrange(cp, cp + MIN_WORDS_OVERLAP)) by {
            assert forall|k: int| 0 <= k < MIN_WORDS_OVERLAP implies #[trigger] test.subrange(pos, pos + MIN_WORDS_OVERLAP)[k]
                == reference.subrange(cp, cp + MIN_WORDS_OVERLAP)[k] by {
                assert(reference[cp + k] == test[pos + k]);
            }
        }
    }
    if window_matches(reference, test, cp, pos) {
        assert forall|k: int| 0 <= k < MIN_WORDS_OVERLAP implies #[trigger] reference[cp + k] == test[pos + k] by {
            assert(test.subrange(pos, pos + MIN_WORDS_OVERLAP)[k] == test[pos + k]);
            assert(reference.subrange(cp, cp + MIN_WORDS_OVERLAP)[k] == reference[cp + k]);
        }
    }
}

/// Whether `test` holds the reference window at index `pos`.
fn window_at(reference: &[i16], cp: usize, test: &[i16], pos: usize) -> (r: bool)
    requires
        cp + MIN_WORDS_OVERLAP <= reference@.len(),
    ensures
        r == window_matches(reference@, test@, cp as int, pos as int),
{
    let n: usize = 64;
    if pos > test.len() || test.len() - pos < n {
        return false;
    }
    let r = ranges_equal(reference, cp, test, pos, n);
    proof {
        lemma_window(reference@, test@, cp as int, pos as int);
        if r {
            assert forall|k: int| 0 <= k < MIN_WORDS_OVERLAP implies #[trigger] reference@[cp + k] == test@[pos
                + k] by {
                assert(reference@[cp + k] == test@[pos + k]);
            }
        } else {
            let k = choose|k: int| 0 <= k < n && !(#[trigger] reference@[cp + k] == test@[pos + k]);
            assert(!(reference@[cp + k] == test@[pos + k]));
        }
    }
    r
}

/// Jitter detection, or `None` where the scan would probe before the start
/// of `test`.
fn jitter_offset_checked(reference: &[i16], test: &[i16], search_range: i64) -> (r: Option<i64>)
    ensures
        r == if jitter_detection_safe(reference@, test@, search_range) {
            Some(spec_jitter_offset(reference@, test@, search_range))
        } else {
            None
        },
{
    if slices_equal(reference, test) {
        return Some(0);
    }
    let match_len: usize = 64;
    if reference.len() < match_len || test.len() < match_len {
        return Some(0);
    }
    let check_pos = reference.len() / 2;
    if check_pos > reference.len() - match_len {
        return Some(0);
    }
    let rlen = reference.len();
    let ghost rs = reference@;
    let ghost ts = test@;
    let ghost cp = check_pos as int;
    let mut offset: usize = 0;
    while (offset as i128) <= (search_range as i128)
        invariant
            rs == reference@,
            ts == test@,
            cp == check_pos,
            rlen == reference@.len(),
            check_pos == rlen / 2,
            check_pos + MIN_WORDS_OVERLAP <= reference@.len(),
            offset <= check_pos + 1,
            jitter_scan_reached(rs, ts),
            cp == rs.len() / 2,
            jitter_scan(rs, ts, cp, 0, search_range as int) == jitter_scan(
                rs,
                ts,
                cp,
                offset as int,
                search_range as int,
            ),
            jitter_scan_safe(rs, ts, cp, 0, search_range as int) == jitter_scan_safe(
                rs,
                ts,
                cp,
                offset as int,
                search_range as int,
            ),
        decreases search_range as int + 1 - offset,
    {
        if window_at(reference, check_pos, test, check_pos + offset) {
            return Some(offset as i64);
        }
        if offset > check_pos {
            return None;
        }
        if window_at(reference, check_pos, test, check_pos - offset) {
            return Some(-(offset as i64));
        }
        offset = offset + 1;
    }
    Some(0)
}

/// Detect the jitter offset between a reference read and a test read: 0
/// if they are identical or too short, else the offset (trying `+k` before
/// `-k`, for `k` from 0 up to `search_range`) at which the test read holds
/// the `MIN_WORDS_OVERLAP` samples from the middle of the reference, or 0
/// if there is none.
pub fn detect_jitter_offset_static(reference: &[i16], test: &[i16], search_range: i64) -> (r: i64)
    requires
        jitter_detection_safe(reference@, test@, search_range),
    ensures
        r == spec_jitter_offset(reference@, test@, search_range),
{
    match jitter_offset_checked(reference, test, search_range) {
        Some(o) => o,
        None => 0,
    }
}

/// The samples from `start` for `len` lie inside `data` and are all silent.
pub open spec fn region_silent(data: Seq<i16>, start: int, len: int) -> bool {
    &&& 0 <= start
    &&& 0 <= len
    &&& start + len <= data.len()
    &&& forall|k: int| start <= k < start + len ==> !is_loud(#[trigger] data[k], SILENCE_THRESHOLD)
}

/// Whether the region of `len` samples from `start` lies inside `data` and
/// is silent. Silent regions cannot locate jitter: all silence looks alike.
fn is_region_silent(data: &[i16], start: usize, len: usize) -> (r: bool)
    ensures
        r == region_silent(data@, start as int, len as int),
{
    if start > data.len() || len > data.len() - start {
        return false;
    }
    let end = start + len;
    let mut k = start;
    while k < end
        invariant
            start <= k <= end,
            end == start + len,
            end <= data@.len(),
            forall|j: int| start <= j < k ==> !is_loud(#[trigger] data@[j], SILENCE_THRESHOLD),
        decreases end - k,
    {
        let v = data[k] as i32;
        let a = if v < 0 { -v } else { v };
        if a > 5 {
            assert(is_loud(data@[k as int], SILENCE_THRESHOLD));
            return false;
        }
        k = k + 1;
    }
    true
}

/// The index of the first sample where two reads differ, within the
/// shorter one.
pub open spec fn is_first_mismatch(a: Seq<i16>, b: Seq<i16>, i: int) -> bool {
    &&& 0 <= i < a.len()
    &&& i < b.len()
    &&& a[i] != b[i]
    &&& forall|j: int| 0 <= j < i ==> #[trigger] a[j] == b[j]
}

/// Find the first position where two reads differ.
pub fn find_mismatch_position(read1: &[i16], read2: &[i16]) -> (r: Option<usize>)
    ensures
        r matches Some(i) ==> is_first_mismatch(read1@, read2@, i as int),
        r is None ==> forall|j: int| 0 <= j < read1@.len() && j < read2@.len() ==> #[trigger] read1@[j] == read2@[j],
{
    let len = if read1.len() < read2.len() { read1.len() } else { read2.len() };
    let mut i: usize = 0;
    while i < len
        invariant
            i <= len,
            len <= read1@.len(),
            len <= read2@.len(),
            len == read1@.len() || len == read2@.len(),
            forall|j: int| 0 <= j < i ==> #[trigger] read1@[j] == read2@[j],
        decreases len - i,
    {
        if read1[i] != read2[i] {
            return Some(i);
        }
        i = i + 1;
    }
    None
}

/// The rift that `analyze_rift` reports: none where both reads are silent
/// at the mismatch, else the forward rift analysis from the mismatch.
pub open spec fn spec_analyze_rift(read1: Seq<i16>, read2: Seq<i16>, mismatch_pos: int) -> RiftType {
    if region_silent(read1, mismatch_pos, MIN_WORDS_OVERLAP as int) && region_silent(
        read2,
        mismatch_pos,
        MIN_WORDS_OVERLAP as int,
    ) {
        RiftType::NoRift
    } else {
        spec_rift_forward(
            read1,
            0,
            mismatch_pos as i64,
            read2,
            0,
            mismatch_pos as i64,
            RIFT_SEARCH,
        )
    }
}

/// Analyze the rift between two reads at the position where they first
/// differ: a silent mismatch is no rift, otherwise the forward analysis
/// says which read stutters or where both fall back into step.
pub fn analyze_rift(read1: &[i16], read2: &[i16], mismatch_pos: usize) -> (r: RiftType)
    requires
        read1@.len() <= i64::MAX,
        read2@.len() <= i64::MAX,
        mismatch_pos <= i64::MAX,
    ensures
        r == spec_analyze_rift(read1@, read2@, mismatch_pos as int),
{
    let check_len: usize = 64;
    if mismatch_pos <= read1.len() && read1.len() - mismatch_pos >= check_len && is_region_silent(
        read1,
        mismatch_pos,
        check_len,
    ) && is_region_silent(read2, mismatch_pos, check_len) {
        return RiftType::NoRift;
    }
    analyze_rift_forward(read1, 0, mismatch_pos as i64, read2, 0, mismatch_pos as i64, RIFT_SEARCH)
}

/// Every sample position the reader handles lies within this bound.
pub const POS_BOUND: i64 = 0x1000_0000_0000;

/// The largest overlap, in samples, whose sector count is computable.
pub const OVERLAP_LIMIT: i64 = 0x7fff_ffff_ffff_fb68;

/// A block of `len` samples from `begin` lies within `POS_BOUND`.
pub open spec fn span_ok(begin: i64, len: nat) -> bool {
    -POS_BOUND <= begin && begin + len <= POS_BOUND
}

/// A raw read kept in the cache, with its sample index.
#[derive(Debug)]
pub struct CachedBlock {
    /// The raw audio data
    pub block: CBlock,
    /// Index of the data for fast matching
    pub sort: SortInfo,
}

/// The index describes the block's samples at the block's position, and
/// the block lies within bounds.
pub open spec fn cached_ok(c: CachedBlock) -> bool {
    &&& c.sort.wf()
    &&& c.sort.offset_ok()
    &&& c.sort.samples() == c.block.vector@
    &&& c.sort.spec_abs_offset() == c.block.begin
    &&& span_ok(c.block.begin, c.block.vector@.len())
}

/// A consistent fragment within bounds.
pub open spec fn frag_ok(f: VFragment) -> bool {
    f.wf() && span_ok(f.begin, f.vector@.len())
}

/// A consistent root block within bounds.
pub open spec fn root_ok(r: RootBlock) -> bool {
    r.wf() && span_ok(r.begin, r.vector@.len())
}

/// The backoff distance and delay stay at their positive, capped values.
pub open spec fn backoff_ok(v: BackoffView) -> bool {
    &&& 1 <= v.base_backoff_sectors <= MAX_BACKOFF_SECTORS
    &&& 1 <= v.backoff_sectors <= MAX_BACKOFF_SECTORS
    &&& v.base_delay_ms <= MAX_BACKOFF_DELAY_MS
    &&& v.delay_ms <= MAX_BACKOFF_DELAY_MS
}

/// A progress report for the caller's callback: a sample position and
/// what happened there.
#[derive(Debug, Clone, Copy, PartialEq, Eq, Structural)]
pub struct Report {
    /// Sample position the report concerns
    pub position: i64,
    /// What happened
    pub event: ParanoiaCallback,
}

/// Where a seek counts from.
#[derive(Debug, Clone, Copy, PartialEq, Eq, Structural)]
pub enum SeekWhence {
    /// From the first sector of the range
    Start,
    /// From the current position
    Current,
    /// From the last sector of the range
    End,
}

/// The sector of a sample position (Rust's division, then the cast).
pub open spec fn sector_of(pos: i64) -> Lsn {
    trunc_div(pos as int, CD_FRAMEWORDS as int) as Lsn
}

/// The sectors a verified read fetches for a target sector, fixed when the
/// read starts.
#[derive(Debug, Clone, Copy, PartialEq, Eq, Structural)]
pub struct ReadPlan {
    /// The sector to return
    pub target: Lsn,
    /// Its first sample position
    pub target_begin: i64,
    /// First sector of each batch read
    pub read_start: Lsn,
    /// End (exclusive) of each batch read
    pub read_end: i64,
    /// Number of sectors of each batch read
    pub read_count: i64,
    /// How many batch reads may be tried
    pub max_retries: i32,
}

/// Where an unfinished read stands: which drive reply it waits for.
#[derive(Debug)]
pub enum ReadPhase {
    /// No read in progress
    Idle,
    /// An unverified read of the target sector
    Direct { target: Lsn, max_retries: i32 },
    /// The first batch read of a try
    First { plan: ReadPlan, retry: i32 },
    /// The second batch read of a try, to compare with the first
    Second { plan: ReadPlan, retry: i32, first: Vec<i16> },
    /// A further batch read for consensus voting
    Consensus { plan: ReadPlan, retry: i32, first: Vec<i16>, builder: ConsensusBuilder, round: usize },
    /// A backoff: seek away and wait; `report` says whether to report it
    Settle { plan: ReadPlan, retry: i32, report: bool },
    /// The last resort after the tries ran out: the target sector alone
    Fallback { plan: ReadPlan },
}

/// A drive operation the reader asks for, or the end of the read.
#[derive(Debug)]
pub enum ReadAction {
    /// Read `sectors` sectors of audio from sector `begin`, and hand back
    /// the samples or the failure
    ReadAudio { begin: Lsn, sectors: i64 },
    /// Read the one sector `sector` (ignoring the outcome) to move the
    /// drive away, wait `delay`, then hand back `Settled`
    Backoff { sector: Lsn, delay: Duration },
    /// The read is complete; on success the frame is in the output buffer
    Done(Result<()>),
}

/// What the drive answered.
#[derive(Debug)]
pub enum DriveReply {
    /// The samples read
    Samples(Vec<i16>),
    /// The read failed
    Failed,
    /// The backoff was carried out
    Settled,
}

/// Main paranoia state.
///
/// Holds everything the reader decides with: the mode, the read position,
/// the cache of raw reads, the verified fragments, the root block of
/// verified output, the dynamic overlap, the backoff state and the reports
/// waiting for the caller's callback.
#[derive(Debug)]
pub struct Paranoia {
    /// Current paranoia mode flags
    pub mode: ParanoiaMode,
    /// Current read position (in samples)
    pub cursor: i64,
    /// First sector of the reading range
    pub first_sector: Lsn,
    /// Last sector of the reading range
    pub last_sector: Lsn,
    /// Cache of raw read blocks with sort indices
    pub cache: Vec<CachedBlock>,
    /// Verified fragments
    pub fragments: Vec<VFragment>,
    /// Root block with verified output
    pub root: RootBlock,
    /// Dynamic overlap settings
    pub dynoverlap: DynamicOverlap,
    /// Jitter measurement
    pub jitter: i64,
    /// Cache model size in sectors
    pub cache_model_sectors: i32,
    /// Maximum retries for failed reads
    pub max_retries: i32,
    /// Enable skipping on failure
    pub enable_skip: bool,
    /// Output buffer for the current frame
    pub output_buffer: Vec<i16>,
    /// Backoff strategy for handling persistent errors
    pub backoff: BackoffStrategy,
    /// Reports not yet handed to the callback
    pub reports: Vec<Report>,
    /// The read in progress
    pub phase: ReadPhase,
}

/// The plan fits the reader: it reads from the range's first sector on,
/// up to the target, a positive number of sectors within bounds.
pub open spec fn plan_ok(p: Paranoia, plan: ReadPlan) -> bool {
    &&& plan.target == p.cursor as int / CD_FRAMEWORDS as int
    &&& plan.target <= p.last_sector
    &&& plan.target_begin == plan.target * CD_FRAMEWORDS
    &&& p.first_sector <= plan.read_start <= plan.target
    &&& 1 <= plan.read_count <= 0x2_0000_0000
    &&& plan.read_end == plan.read_start + plan.read_count
    &&& span_ok((plan.read_start * CD_FRAMEWORDS) as i64, (plan.read_count * CD_FRAMEWORDS) as nat)
}

/// The number of samples of a batch read.
pub open spec fn batch_len(plan: ReadPlan) -> int {
    plan.read_count * CD_FRAMEWORDS
}

/// The first sample position of a batch read.
pub open spec fn batch_begin(plan: ReadPlan) -> i64 {
    (plan.read_start * CD_FRAMEWORDS) as i64
}

/// The first sample position of a sector.
fn sample_start(sector: i32) -> (r: i64)
    ensures
        r == sector * CD_FRAMEWORDS,
{
    let start: i64 = sector as i64;
    assert(-0x8000_0000 * 1176 <= start * 1176 <= 0x7fff_ffff * 1176) by (nonlinear_arith)
        requires
            -0x8000_0000 <= start < 0x8000_0000,
    ;
    start * 1176
}

proof fn lemma_batch_len(plan: ReadPlan)
    requires
        1 <= plan.read_count <= 0x2_0000_0000,
    ensures
        CD_FRAMEWORDS <= batch_len(plan) <= POS_BOUND,
{
    assert(1176 <= plan.read_count * 1176 <= 0x1000_0000_0000) by (nonlinear_arith)
        requires
            1 <= plan.read_count <= 0x2_0000_0000,
    ;
}

/// The consensus builder collects whole batch reads of the plan's region,
/// each shifted by a jitter within bounds.
pub open spec fn builder_ok(b: ConsensusBuilder, plan: ReadPlan) -> bool {
    &&& b.spec_region_begin() == batch_begin(plan)
    &&& b.spec_region_end() == batch_begin(plan) + batch_len(plan)
    &&& forall|i: int|
        0 <= i < b.spec_reads().len() ==> {
            &&& (#[trigger] b.spec_reads()[i]).begin == batch_begin(plan)
            &&& -POS_BOUND <= b.spec_reads()[i].jitter <= POS_BOUND
        }
}

/// The read in progress fits the reader.
pub open spec fn phase_ok(p: Paranoia) -> bool {
    match p.phase {
        ReadPhase::Idle => true,
        ReadPhase::Direct { target, max_retries } => target == p.cursor as int / CD_FRAMEWORDS as int
            && target <= p.last_sector,
        ReadPhase::First { plan, retry } => plan_ok(p, plan) && 0 <= retry < plan.max_retries,
        ReadPhase::Second { plan, retry, first } => {
            &&& plan_ok(p, plan)
            &&& 0 <= retry < plan.max_retries
            &&& first@.len() == batch_len(plan)
        },
        ReadPhase::Consensus { plan, retry, first, builder, round } => {
            &&& plan_ok(p, plan)
            &&& 0 <= retry < plan.max_retries
            &&& first@.len() == batch_len(plan)
            &&& builder_ok(builder, plan)
            &&& round < CONSENSUS_ROUNDS
            &&& builder.spec_reads().len() <= 2 + round
        },
        ReadPhase::Settle { plan, retry, report } => plan_ok(p, plan) && 0 <= retry < plan.max_retries,
        ReadPhase::Fallback { plan } => plan_ok(p, plan),
    }
}

impl Paranoia {
    /// The reader's invariant.
    pub open spec fn wf(&self) -> bool {
        &&& self.output_buffer@.len() == CD_FRAMEWORDS
        &&& root_ok(self.root)
        &&& forall|i: int| 0 <= i < self.cache@.len() ==> cached_ok(#[trigger] self.cache@[i])
        &&& forall|i: int| 0 <= i < self.fragments@.len() ==> frag_ok(#[trigger] self.fragments@[i])
        &&& separated(self.fragments@)
        &&& self.dynoverlap.wf()
        &&& slots_bounded(self.dynoverlap.stats1())
        &&& slots_bounded(self.dynoverlap.stats2())
        &&& MIN_WORDS_OVERLAP <= self.dynoverlap.spec_overlap() <= OVERLAP_LIMIT
        &&& MIN_WORDS_SEARCH <= self.dynoverlap.spec_search() <= MAX_OVERLAP_WORDS
        &&& backoff_ok(self.backoff@)
        &&& 0 <= self.cache_model_sectors
        &&& self.cursor as int % CD_FRAMEWORDS as int == 0
        &&& self.first_sector <= self.cursor as int / CD_FRAMEWORDS as int <= i32::MAX + 1
        &&& phase_ok(*self)
    }

    /// A reader for a disc whose audio runs from `disc_first_sector` to
    /// `disc_last_sector`: full paranoia (which includes never skipping a
    /// failed read), positioned at the first sector, nothing cached, 20
    /// retries.
    pub fn new(disc_first_sector: Lsn, disc_last_sector: Lsn) -> (r: Self)
        ensures
            r.wf(),
            r.mode.spec_bits() == 0xFF,
            r.cursor == disc_first_sector * CD_FRAMEWORDS,
            r.first_sector == disc_first_sector,
            r.last_sector == disc_last_sector,
            r.cache@.len() == 0,
            r.fragments@.len() == 0,
            r.root.vector@.len() == 0,
            r.jitter == 0,
            r.cache_model_sectors == CACHEMODEL_SECTORS,
            r.max_retries == 20,
            r.enable_skip == !(r.mode.spec_bits() & 0x20 == 0x20),
            !r.enable_skip,
            r.output_buffer@ == Seq::new(CD_FRAMEWORDS as nat, |_i: int| 0i16),
            r.backoff@ == fresh_view(DEFAULT_ERROR_THRESHOLD, DEFAULT_BACKOFF_SECTORS, DEFAULT_BACKOFF_DELAY_MS),
            r.reports@.len() == 0,
            r.dynoverlap.spec_overlap() == MIN_WORDS_OVERLAP,
            r.dynoverlap.spec_search() == MIN_WORDS_SEARCH,
            r.phase is Idle,
    {
        let dynoverlap = DynamicOverlap::new();
        proof {
            dynoverlap.lemma_stats_wf();
        }
        let mode = ParanoiaMode::full();
        let enable_skip = !mode.contains(ParanoiaMode::neverskip());
        assert(0xFFi32 & 0x20i32 == 0x20i32) by (bit_vector);
        Paranoia {
            mode,
            cursor: disc_first_sector as i64 * 1176,
            first_sector: disc_first_sector,
            last_sector: disc_last_sector,
            cache: Vec::new(),
            fragments: Vec::new(),
            root: RootBlock::new(),
            dynoverlap,
            jitter: 0,
            cache_model_sectors: CACHEMODEL_SECTORS,
            max_retries: 20,
            enable_skip,
            output_buffer: filled(0i16, CD_FRAMEWORDS),
            backoff: BackoffStrategy::new(),
            reports: Vec::new(),
            phase: ReadPhase::Idle,
        }
    }

    /// Set the paranoia mode; skipping is allowed unless the mode holds
    /// `NEVERSKIP`.
    pub fn set_mode(&mut self, mode: ParanoiaMode)
        ensures
            *final(self) == (Paranoia {
                mode,
                enable_skip: !(mode.spec_bits() & 0x20 == 0x20),
                ..*old(self)
            }),
    {
        self.mode = mode;
        self.enable_skip = !mode.contains(ParanoiaMode::neverskip());
    }

    /// The current paranoia mode.
    pub fn mode(&self) -> (r: ParanoiaMode)
        ensures
            r == self.mode,
    {
        self.mode
    }
}

/// The sum of the verified counts of the fragments.
pub open spec fn total_verified(frags: Seq<VFragment>) -> int
    decreases frags.len(),
{
    if frags.len() == 0 {
        0
    } else {
        total_verified(frags.drop_last()) + count_verified(frags.last().flags@)
    }
}

/// The sector a seek aims at, before clamping to the range.
pub open spec fn seek_target(p: Paranoia, seek: i32, whence: SeekWhence) -> int {
    match whence {
        SeekWhence::Start => p.first_sector + seek,
        SeekWhence::Current => sector_of(p.cursor) + seek,
        SeekWhence::End => p.last_sector + seek,
    }
}

/// `x` clamped to `lo..=hi`.
pub open spec fn clamp(x: int, lo: int, hi: int) -> int {
    if x < lo {
        lo
    } else if x > hi {
        hi
    } else {
        x
    }
}

/// Everything but the cache, fragments, root and cursor is as before.
pub open spec fn same_settings(a: Paranoia, b: Paranoia) -> bool {
    &&& a.mode == b.mode
    &&& a.first_sector == b.first_sector
    &&& a.last_sector == b.last_sector
    &&& a.dynoverlap == b.dynoverlap
    &&& a.jitter == b.jitter
    &&& a.cache_model_sectors == b.cache_model_sectors
    &&& a.max_retries == b.max_retries
    &&& a.enable_skip == b.enable_skip
    &&& a.output_buffer@ == b.output_buffer@
    &&& a.backoff@ == b.backoff@
    &&& a.reports@ == b.reports@
}

/// The read position is a whole number of frames within the sector range.
pub proof fn lemma_cursor_bounds(p: Paranoia)
    requires
        p.wf(),
    ensures
        p.cursor == (p.cursor as int / CD_FRAMEWORDS as int) * CD_FRAMEWORDS,
        -0x400_0000_0000 < p.cursor < 0x400_0000_0000,
{
    let c = p.cursor as int;
    let q = c / 1176;
    vstd::arithmetic::div_mod::lemma_fundamental_div_mod(c, 1176);
    assert(c == 1176 * q);
    assert(-0x400_0000_0000 < c < 0x400_0000_0000) by (nonlinear_arith)
        requires
            c == 1176 * q,
            i32::MIN <= q <= i32::MAX + 1,
    ;
}

/// The fragments a reader keeps are in order and never meet: each ends
/// before the next begins.
pub proof fn lemma_fragments_ordered(p: Paranoia)
    requires
        p.wf(),
    ensures
        separated(p.fragments@),
        sorted_by_begin(p.fragments@),
{
    assert forall|j: int, k: int| 0 <= j < k < p.fragments@.len() implies #[trigger] p.fragments@[j].begin
        <= #[trigger] p.fragments@[k].begin by {
        assert(p.fragments@[j].begin + p.fragments@[j].vector@.len() < p.fragments@[k].begin);
    }
}

/// Consensus voting waits for its next read with fewer than
/// `MAX_CONSENSUS_READS` reads collected, so it never votes on more.
pub proof fn lemma_consensus_reads_bounded(p: Paranoia)
    requires
        p.wf(),
    ensures
        p.phase matches ReadPhase::Consensus { builder, .. } ==> builder.spec_reads().len() + 1
            <= MAX_CONSENSUS_READS,
{
}

/// A position at the start of sector `t` is a whole number of frames.
proof fn lemma_sector_start(t: int)
    ensures
        (t * CD_FRAMEWORDS) % CD_FRAMEWORDS as int == 0,
        (t * CD_FRAMEWORDS) / CD_FRAMEWORDS as int == t,
{
    assert((t * 1176) % 1176 == 0 && (t * 1176) / 1176 == t) by (nonlinear_arith);
}

/// The sector of the first sample of sector `t` is `t`.
proof fn lemma_sector_of_start(t: int)
    requires
        i32::MIN <= t <= i32::MAX,
    ensures
        sector_of((t * CD_FRAMEWORDS) as i64) == t,
{
    lemma_sector_start(t);
    lemma_sector_start(-t);
    assert(-(t * 1176) == (-t) * 1176) by (nonlinear_arith);
    assert(i64::MIN <= t * 1176 <= i64::MAX) by (nonlinear_arith)
        requires
            i32::MIN <= t <= i32::MAX,
    ;
}

/// A seek from the current position is relative to where the reader is: a
/// reader at sector `s` (its position `s` frames in) that seeks by `k` from
/// the current position targets `s + k`.
pub proof fn lemma_seek_current_from_position(p: Paranoia, s: int, k: i32)
    requires
        i32::MIN <= s <= i32::MAX,
        p.cursor == s * CD_FRAMEWORDS,
    ensures
        seek_target(p, k, SeekWhence::Current) == s + k,
{
    lemma_sector_of_start(s);
}

/// Seeks compose: after a seek that reached sector `r`, a seek by `k` from
/// the current position targets `r + k`, and a seek by 0 from there stays
/// at `r`.
pub proof fn lemma_seeks_compose(p: Paranoia, q: Paranoia, seek: i32, whence: SeekWhence, k: i32)
    requires
        p.first_sector <= p.last_sector,
        q.cursor == clamp(seek_target(p, seek, whence), p.first_sector as int, p.last_sector as int) * CD_FRAMEWORDS,
        same_settings(q, p),
    ensures
        ({
            let r = clamp(seek_target(p, seek, whence), p.first_sector as int, p.last_sector as int);
            &&& seek_target(q, k, SeekWhence::Current) == r + k
            &&& clamp(seek_target(q, 0, SeekWhence::Current), q.first_sector as int, q.last_sector as int) == r
        }),
{
    let r = clamp(seek_target(p, seek, whence), p.first_sector as int, p.last_sector as int);
    assert(p.first_sector <= r <= p.last_sector);
    lemma_seek_current_from_position(q, r, k);
    lemma_seek_current_from_position(q, r, 0);
}

impl Paranoia {
    /// Seek to a sector, counted from the start or end of the range or from
    /// the current position, clamped to the range. The cache, fragments and
    /// root are cleared. Returns the sector reached.
    pub fn seek(&mut self, seek: i32, whence: SeekWhence) -> (r: Lsn)
        requires
            old(self).wf(),
            i32::MIN <= seek_target(*old(self), seek, whence) <= i32::MAX,
            old(self).first_sector <= old(self).last_sector,
        ensures
            final(self).wf(),
            r == clamp(seek_target(*old(self), seek, whence), old(self).first_sector as int, old(self).last_sector as int),
            final(self).cursor == r * CD_FRAMEWORDS,
            final(self).cache@.len() == 0,
            final(self).fragments@.len() == 0,
            final(self).root.vector@.len() == 0,
            final(self).root.begin == 0,
            final(self).phase is Idle,
            same_settings(*final(self), *old(self)),
    {
        let target = match whence {
            SeekWhence::Start => self.first_sector + seek,
            SeekWhence::Current => self.cursor_sector() + seek,
            SeekWhence::End => self.last_sector + seek,
        };
        let target = if target < self.first_sector {
            self.first_sector
        } else if target > self.last_sector {
            self.last_sector
        } else {
            target
        };
        self.cursor = target as i64 * 1176;
        proof {
            lemma_sector_start(target as int);
        }
        self.cache.clear();
        self.fragments.clear();
        self.root.clear();
        self.phase = ReadPhase::Idle;
        target
    }

    /// Set the reading range to `start..=end` within the disc's audio range
    /// `disc_first_sector..=disc_last_sector`; a position outside the new
    /// range moves to its first sector.
    pub fn set_range(&mut self, start: Lsn, end: Lsn, disc_first_sector: Lsn, disc_last_sector: Lsn)
        requires
            old(self).wf(),
        ensures
            final(self).wf(),
            final(self).first_sector == if start > disc_first_sector { start } else { disc_first_sector },
            final(self).last_sector == if end < disc_last_sector { end } else { disc_last_sector },
            final(self).cursor == if sector_of(old(self).cursor) < final(self).first_sector || sector_of(
                old(self).cursor,
            ) > final(self).last_sector {
                final(self).first_sector * CD_FRAMEWORDS
            } else {
                old(self).cursor as int
            },
            final(self).cache@ == old(self).cache@,
            final(self).fragments@ == old(self).fragments@,
            final(self).root == old(self).root,
            final(self).mode == old(self).mode,
            final(self).output_buffer@ == old(self).output_buffer@,
            final(self).enable_skip == old(self).enable_skip,
            final(self).phase is Idle,
    {
        self.first_sector = if start > disc_first_sector { start } else { disc_first_sector };
        self.last_sector = if end < disc_last_sector { end } else { disc_last_sector };
        let cursor_sector = self.cursor_sector();
        proof {
            lemma_cursor_bounds(*old(self));
            lemma_sector_start(self.first_sector as int);
        }
        if cursor_sector < self.first_sector || cursor_sector > self.last_sector {
            self.cursor = self.first_sector as i64 * 1176;
        }
        self.phase = ReadPhase::Idle;
    }

    /// Set the overlap amount (at least `MIN_WORDS_OVERLAP`).
    pub fn set_overlap(&mut self, overlap: i64)
        requires
            old(self).wf(),
            overlap <= OVERLAP_LIMIT,
        ensures
            final(self).wf(),
            final(self).dynoverlap.spec_overlap() == if overlap < MIN_WORDS_OVERLAP {
                MIN_WORDS_OVERLAP
            } else {
                overlap
            },
            final(self).dynoverlap.spec_search() == old(self).dynoverlap.spec_search(),
            final(self).cursor == old(self).cursor,
            final(self).mode == old(self).mode,
    {
        let o = if overlap < MIN_WORDS_OVERLAP { MIN_WORDS_OVERLAP } else { overlap };
        self.dynoverlap.set_overlap(o);
    }

    /// Set the cache model size unless `sectors` is negative (a query);
    /// returns the previous size.
    pub fn cache_model_size(&mut self, sectors: i32) -> (r: i32)
        requires
            old(self).wf(),
        ensures
            final(self).wf(),
            r == old(self).cache_model_sectors,
            final(self).cache_model_sectors == if sectors >= 0 { sectors } else { old(self).cache_model_sectors },
            final(self).cursor == old(self).cursor,
            final(self).cache@ == old(self).cache@,
    {
        let old_size = self.cache_model_sectors;
        if sectors >= 0 {
            self.cache_model_sectors = sectors;
        }
        old_size
    }

    /// The current read position in samples.
    pub fn cursor(&self) -> (r: i64)
        ensures
            r == self.cursor,
    {
        self.cursor
    }

    /// The current read position in sectors.
    pub fn cursor_sector(&self) -> (r: Lsn)
        ensures
            r == sector_of(self.cursor),
    {
        let s = trunc_div_i64(self.cursor, 1176);
        s as Lsn
    }

    /// The most recently returned frame.
    pub fn output_buffer(&self) -> (r: &[i16])
        ensures
            r@ == self.output_buffer@,
    {
        self.output_buffer.as_slice()
    }

    /// The number of fragments currently tracked.
    pub fn fragment_count(&self) -> (r: usize)
        ensures
            r == self.fragments@.len(),
    {
        self.fragments.len()
    }

    /// The verified samples of all fragments together.
    pub fn total_verified_samples(&self) -> (r: usize)
        requires
            total_verified(self.fragments@) <= usize::MAX,
        ensures
            r == total_verified(self.fragments@),
    {
        let mut total: usize = 0;
        let mut i: usize = 0;
        while i < self.fragments.len()
            invariant
                i <= self.fragments@.len(),
                total == total_verified(self.fragments@.take(i as int)),
                total_verified(self.fragments@) <= usize::MAX,
            decreases self.fragments@.len() - i,
        {
            proof {
                assert(self.fragments@.take(i + 1).drop_last() =~= self.fragments@.take(i as int));
                lemma_total_verified_prefix(self.fragments@, i + 1);
            }
            total = total + self.fragments[i].verified_count();
            i = i + 1;
        }
        proof {
            assert(self.fragments@.take(i as int) =~= self.fragments@);
        }
        total
    }

    /// Whether the frame before the read position (the last one returned)
    /// lies in the root and is verified throughout.
    pub fn last_frame_verified(&self) -> (r: bool)
        requires
            self.wf(),
            crate::block::spec_offset_index(self.root.begin, (self.cursor - CD_FRAMEWORDS) as i64) matches Some(st)
                ==> st + CD_FRAMEWORDS <= usize::MAX,
        ensures
            r == match crate::block::spec_offset_index(self.root.begin, (self.cursor - CD_FRAMEWORDS) as i64) {
                Some(st) => st + CD_FRAMEWORDS <= self.root.flags@.len() && forall|k: int|
                    st <= k < st + CD_FRAMEWORDS ==> (#[trigger] self.root.flags@[k]).spec_verified(),
                None => false,
            },
    {
        proof {
            lemma_cursor_bounds(*self);
        }
        self.root.is_frame_verified(self.cursor - 1176)
    }

    /// The number of verified samples in the frame before the read
    /// position.
    pub fn last_frame_verified_count(&self) -> (r: usize)
        requires
            self.wf(),
            crate::block::spec_offset_index(self.root.begin, (self.cursor - CD_FRAMEWORDS) as i64) matches Some(st)
                ==> st + CD_FRAMEWORDS <= usize::MAX,
        ensures
            r == match crate::block::spec_offset_index(self.root.begin, (self.cursor - CD_FRAMEWORDS) as i64) {
                Some(st) => if st >= self.root.flags@.len() {
                    0
                } else {
                    count_verified(
                        self.root.flags@.subrange(
                            st as int,
                            if st + CD_FRAMEWORDS < self.root.flags@.len() {
                                st + CD_FRAMEWORDS
                            } else {
                                self.root.flags@.len() as int
                            },
                        ),
                    )
                },
                None => 0,
            },
    {
        proof {
            lemma_cursor_bounds(*self);
        }
        self.root.frame_verified_count(self.cursor - 1176)
    }

    /// Queue a report for the callback.
    fn report(&mut self, position: i64, event: ParanoiaCallback)
        ensures
            *final(self) == (Paranoia { reports: final(self).reports, ..*old(self) }),
            final(self).reports@ == old(self).reports@.push(Report { position, event }),
    {
        self.reports.push(Report { position, event });
    }

    /// Hand the queued reports to the caller, oldest first.
    pub fn take_reports(&mut self) -> (r: Vec<Report>)
        ensures
            r@ == old(self).reports@,
            final(self).reports@.len() == 0,
            *final(self) == (Paranoia { reports: final(self).reports, ..*old(self) }),
    {
        let mut out: Vec<Report> = Vec::new();
        std::mem::swap(&mut out, &mut self.reports);
        out
    }
}

proof fn lemma_total_verified_prefix(frags: Seq<VFragment>, n: int)
    requires
        0 <= n <= frags.len(),
    ensures
        total_verified(frags.take(n)) <= total_verified(frags),
        n > 0 ==> total_verified(frags.take(n)) == total_verified(frags.take(n - 1)) + count_verified(
            frags[n - 1].flags@,
        ),
    decreases frags.len() - n,
{
    if n > 0 {
        assert(frags.take(n).drop_last() =~= frags.take(n - 1));
    }
    if n < frags.len() {
        lemma_total_verified_prefix(frags, n + 1);
        assert(frags.take(n + 1).drop_last() =~= frags.take(n));
    } else {
        assert(frags.take(n) =~= frags);
    }
}

/// The fragments are in order of their first position.
pub open spec fn sorted_by_begin(frags: Seq<VFragment>) -> bool {
    forall|j: int, k: int| 0 <= j < k < frags.len() ==> #[trigger] frags[j].begin <= #[trigger] frags[k].begin
}

/// Every fragment ends before any later one begins.
pub open spec fn separated(frags: Seq<VFragment>) -> bool {
    forall|j: int, k: int|
        0 <= j < k < frags.len() ==> #[trigger] frags[j].begin + frags[j].vector@.len() < #[trigger] frags[k].begin
}

/// Every fragment is consistent and within bounds.
pub open spec fn all_frags_ok(frags: Seq<VFragment>) -> bool {
    forall|i: int| 0 <= i < frags.len() ==> frag_ok(#[trigger] frags[i])
}

/// A copy of a fragment.
fn clone_fragment(f: &VFragment) -> (r: VFragment)
    ensures
        r.vector@ == f.vector@,
        r.flags@ == f.flags@,
        r.begin == f.begin,
        r.lastsector == f.lastsector,
{
    let r = VFragment {
        vector: copy_all(f.vector.as_slice()),
        begin: f.begin,
        lastsector: f.lastsector,
        flags: copy_all(f.flags.as_slice()),
    };
    assert(r.vector@ =~= f.vector@);
    assert(r.flags@ =~= f.flags@);
    r
}

/// The fragments in order of their first position (equal positions keep
/// their order).
fn sort_by_begin(v: Vec<VFragment>) -> (r: Vec<VFragment>)
    requires
        all_frags_ok(v@),
    ensures
        r@.len() == v@.len(),
        all_frags_ok(r@),
        sorted_by_begin(r@),
{
    let ghost n = v@.len();
    let mut src = v;
    let mut out: Vec<VFragment> = Vec::new();
    while src.len() > 0
        invariant
            all_frags_ok(src@),
            all_frags_ok(out@),
            sorted_by_begin(out@),
            out@.len() + src@.len() == n,
        decreases src@.len(),
    {
        let ghost src0 = src@;
        let f = src.remove(0);
        assert(frag_ok(src0[0]));
        let mut k: usize = 0;
        while k < out.len() && out[k].begin <= f.begin
            invariant
                k <= out@.len(),
                forall|m: int| 0 <= m < k ==> #[trigger] out@[m].begin <= f.begin,
            decreases out@.len() - k,
        {
            k = k + 1;
        }
        let ghost before = out@;
        out.insert(k, f);
        assert forall|j: int, m: int| 0 <= j < m < out@.len() implies #[trigger] out@[j].begin
            <= #[trigger] out@[m].begin by {
            if m < k {
                assert(out@[j] == before[j] && out@[m] == before[m]);
            } else if m == k {
                assert(out@[j] == before[j]);
            } else if j == k {
                assert(out@[m] == before[m - 1]);
                assert(before[k as int].begin > f.begin);
                if m - 1 > k {
                    assert(before[k as int].begin <= before[m - 1].begin);
                }
            } else if j < k {
                assert(out@[j] == before[j] && out@[m] == before[m - 1]);
            } else {
                assert(out@[j] == before[j - 1] && out@[m] == before[m - 1]);
            }
        }
        assert forall|i: int| 0 <= i < out@.len() implies frag_ok(#[trigger] out@[i]) by {
            if i < k {
                assert(out@[i] == before[i]);
            } else if i > k {
                assert(out@[i] == before[i - 1]);
            }
        }
        assert forall|i: int| 0 <= i < src@.len() implies frag_ok(#[trigger] src@[i]) by {
            assert(src@[i] == src0[i + 1]);
        }
    }
    out
}

/// Fragments `j < k <= i` are separated.
spec fn separated_upto(frags: Seq<VFragment>, i: int) -> bool {
    forall|j: int, k: int|
        0 <= j < k <= i && k < frags.len() ==> #[trigger] frags[j].begin + frags[j].vector@.len()
            < #[trigger] frags[k].begin
}

/// Merge fragment `next` into `cur` when they agree, as `try_merge` does
/// (whether it merges, and the merged samples, flags and extent); the
/// merged fragment stays consistent and within bounds.
fn merge_into(cur: &mut VFragment, next: &VFragment) -> (r: bool)
    requires
        frag_ok(*old(cur)),
        frag_ok(*next),
    ensures
        frag_ok(*final(cur)),
        r == crate::block::mergeable(*old(cur), *next),
        r ==> final(cur).vector@ == crate::block::merged_samples(*old(cur), *next),
        r ==> final(cur).flags@ == crate::block::merged_flags(*old(cur), *next),
        r ==> final(cur).lastsector == crate::block::merged_lastsector(*old(cur), *next),
        r ==> final(cur).begin == crate::block::union_begin(*old(cur), *next),
        r ==> final(cur).begin + final(cur).vector@.len() == crate::block::union_end(*old(cur), *next),
        !r ==> *final(cur) == *old(cur),
{
    cur.try_merge(next)
}

impl Paranoia {
    /// Merge overlapping or touching fragments: sort them by position, then
    /// merge each into its predecessor when they meet; a fragment that
    /// meets its predecessor but disagrees with it is dropped.
    fn consolidate_fragments(&mut self)
        requires
            all_frags_ok(old(self).fragments@),
        ensures
            all_frags_ok(final(self).fragments@),
            old(self).fragments@.len() >= 2 ==> sorted_by_begin(final(self).fragments@) && separated(
                final(self).fragments@,
            ),
            old(self).fragments@.len() < 2 ==> final(self).fragments@ == old(self).fragments@,
            final(self).fragments@.len() <= old(self).fragments@.len(),
            *final(self) == (Paranoia { fragments: final(self).fragments, ..*old(self) }),
    {
        if self.fragments.len() < 2 {
            return;
        }
        let mut taken: Vec<VFragment> = Vec::new();
        std::mem::swap(&mut taken, &mut self.fragments);
        let ghost n0 = taken@.len();
        let mut frags = sort_by_begin(taken);
        let mut i: usize = 0;
        while frags.len() - i > 1
            invariant
                all_frags_ok(frags@),
                sorted_by_begin(frags@),
                separated_upto(frags@, i as int),
                i < frags@.len(),
                frags@.len() <= n0,
            decreases frags@.len() - i,
        {
            let should_merge = frags[i].end() >= frags[i + 1].begin;
            if should_merge {
                let ghost before = frags@;
                let next = frags.remove(i + 1);
                let mut cur = frags.remove(i);
                assert(next == before[i + 1]);
                assert(cur == before[i as int]);
                assert(frag_ok(before[i + 1]));
                assert(frag_ok(before[i as int]));
                let merged = merge_into(&mut cur, &next);
                let ghost mid = frags@;
                frags.insert(i, cur);
                proof {
                    assert(before[i as int].begin <= before[i + 1].begin);
                    assert(frags@[i as int].begin == before[i as int].begin);
                    assert forall|m: int| 0 <= m < frags@.len() implies #[trigger] frags@[m] == if m == i {
                        frags@[i as int]
                    } else if m < i {
                        before[m]
                    } else {
                        before[m + 1]
                    } by {
                        if m < i {
                            assert(mid[m] == before[m]);
                        } else if m > i {
                            assert(mid[m - 1] == before[m + 1]);
                        }
                    }
                    assert forall|m: int| 0 <= m < frags@.len() implies frag_ok(#[trigger] frags@[m]) by {
                        if m < i {
                            assert(frags@[m] == before[m]);
                        } else if m > i {
                            assert(frags@[m] == before[m + 1]);
                        }
                    }
                    assert forall|j: int, k: int| 0 <= j < k < frags@.len() implies #[trigger] frags@[j].begin
                        <= #[trigger] frags@[k].begin by {
                        let bj = if j == i { i as int } else if j < i { j } else { j + 1 };
                        let bk = if k == i { i as int } else if k < i { k } else { k + 1 };
                        assert(frags@[j].begin == before[bj].begin);
                        assert(frags@[k].begin == before[bk].begin);
                    }
                    assert forall|j: int, k: int| 0 <= j < k <= i && k < frags@.len() implies #[trigger] frags@[j].begin
                        + frags@[j].vector@.len() < #[trigger] frags@[k].begin by {
                        assert(frags@[j] == before[j]);
                        if k < i {
                            assert(frags@[k] == before[k]);
                        } else {
                            assert(frags@[k].begin == before[k].begin);
                        }
                    }
                }
            } else {
                proof {
                    assert forall|j: int, k: int| 0 <= j < k <= i + 1 && k < frags@.len() implies #[trigger] frags@[j].begin
                        + frags@[j].vector@.len() < #[trigger] frags@[k].begin by {
                        if k == i + 1 {
                            if j < i {
                                assert(frags@[j].begin + frags@[j].vector@.len() < frags@[i as int].begin);
                                assert(frags@[i as int].begin <= frags@[i as int].begin + frags@[i as int].vector@.len());
                            }
                        }
                    }
                }
                i = i + 1;
            }
        }
        std::mem::swap(&mut frags, &mut self.fragments);
    }

    /// Merge a new fragment into the first existing one it agrees with (or
    /// keep it as a new fragment), consolidate, and drop fragments that end
    /// more than ten frames before the read position.
    fn try_merge_fragment(&mut self, new_fragment: &VFragment)
        requires
            old(self).wf(),
            frag_ok(*new_fragment),
        ensures
            final(self).wf(),
            forall|k: int| 0 <= k < final(self).fragments@.len() ==> final(self).cursor - 10 * CD_FRAMEWORDS
                < #[trigger] final(self).fragments@[k].begin + final(self).fragments@[k].vector@.len(),
            reports_extend(old(self).reports@, final(self).reports@),
            *final(self) == (Paranoia { fragments: final(self).fragments, reports: final(self).reports, ..*old(self) }),
    {
        let mut merged = false;
        let mut i: usize = 0;
        while i < self.fragments.len() && !merged
            invariant
                old(self).wf(),
                all_frags_ok(self.fragments@),
                frag_ok(*new_fragment),
                i <= self.fragments@.len(),
                reports_extend(old(self).reports@, self.reports@),
                *self == (Paranoia { fragments: self.fragments, reports: self.reports, ..*old(self) }),
            decreases self.fragments@.len() - i,
        {
            let ghost before = self.fragments@;
            let mut f = self.fragments.remove(i);
            assert(f == before[i as int]);
            let ok = merge_into(&mut f, new_fragment);
            let ghost mid = self.fragments@;
            self.fragments.insert(i, f);
            assert forall|m: int| 0 <= m < self.fragments@.len() implies frag_ok(#[trigger] self.fragments@[m]) by {
                if m < i {
                    assert(self.fragments@[m] == before[m]);
                } else if m > i {
                    assert(self.fragments@[m] == mid[m - 1]);
                    assert(mid[m - 1] == before[m]);
                }
            }
            if ok {
                merged = true;
                self.report(new_fragment.begin, ParanoiaCallback::FixupEdge);
            }
            i = i + 1;
        }
        if !merged {
            let c = clone_fragment(new_fragment);
            self.fragments.push(c);
        }
        self.consolidate_fragments();
        proof {
            lemma_cursor_bounds(*old(self));
        }
        let limit = self.cursor - 11760;
        let mut old_frags: Vec<VFragment> = Vec::new();
        std::mem::swap(&mut old_frags, &mut self.fragments);
        let ghost of0 = old_frags@;
        assert(separated(of0)) by {
            if of0.len() >= 2 {
                assert forall|a: int, b: int| 0 <= a < b < of0.len() implies #[trigger] of0[a].begin
                    + of0[a].vector@.len() < #[trigger] of0[b].begin by {
                }
            }
        }
        let mut kept: Vec<VFragment> = Vec::new();
        let mut j: usize = 0;
        let ghost mut idx: Seq<int> = Seq::empty();
        while j < old_frags.len()
            invariant
                all_frags_ok(of0),
                separated(of0),
                old_frags@ == of0,
                j <= of0.len(),
                all_frags_ok(kept@),
                forall|k: int| 0 <= k < kept@.len() ==> limit < #[trigger] kept@[k].begin + kept@[k].vector@.len(),
                idx.len() == kept@.len(),
                forall|k: int| 0 <= k < idx.len() ==> 0 <= #[trigger] idx[k] < j,
                forall|a: int, b: int| 0 <= a < b < idx.len() ==> #[trigger] idx[a] < #[trigger] idx[b],
                forall|k: int|
                    0 <= k < kept@.len() ==> (#[trigger] kept@[k]).begin == of0[idx[k]].begin
                        && kept@[k].vector@.len() == of0[idx[k]].vector@.len(),
            decreases of0.len() - j,
        {
            let f = &old_frags[j];
            if f.end() > limit {
                kept.push(clone_fragment(f));
                proof {
                    idx = idx.push(j as int);
                }
            }
            j = j + 1;
        }
        assert forall|a: int, b: int| 0 <= a < b < kept@.len() implies #[trigger] kept@[a].begin
            + kept@[a].vector@.len() < #[trigger] kept@[b].begin by {
            assert(idx[a] < idx[b]);
            assert(of0[idx[a]].begin + of0[idx[a]].vector@.len() < of0[idx[b]].begin);
        }
        std::mem::swap(&mut kept, &mut self.fragments);
    }
}

/// The dynamic overlap after recording `offset` for `stage`: the
/// statistics take the offset, and every `RECALIBRATE_INTERVAL`-th
/// measurement recalibrates overlap, search and drift.
pub open spec fn jitter_recorded(old_d: DynamicOverlap, new_d: DynamicOverlap, offset: i64, stage: u8) -> bool {
    &&& (new_d.stats1(), new_d.stats2()) == old_d.stats_after(offset, stage)
    &&& old_d.recalibrates_next() ==> {
        let (s1, s2) = old_d.stats_after(offset, stage);
        &&& new_d.spec_measurements() == 0
        &&& new_d.spec_overlap() == crate::overlap::recalibrated_overlap(s1, s2)
        &&& new_d.spec_search() == new_d.spec_overlap()
        &&& new_d.spec_drift() == crate::overlap::midpoint(old_d.spec_drift(), s1.mean() as i64)
    }
    &&& !old_d.recalibrates_next() ==> {
        &&& new_d.spec_measurements() == old_d.spec_measurements() + 1
        &&& new_d.spec_overlap() == old_d.spec_overlap()
        &&& new_d.spec_search() == old_d.spec_search()
        &&& new_d.spec_drift() == old_d.spec_drift()
    }
}

/// The report a rift repair makes, if any.
pub open spec fn rift_report(rift: RiftType) -> Option<ParanoiaCallback> {
    match rift {
        RiftType::NoRift => None,
        RiftType::StutterInA(_) => Some(ParanoiaCallback::FixupDuped),
        RiftType::StutterInB(_) => Some(ParanoiaCallback::FixupDuped),
        RiftType::DroppedFromA(_) => Some(ParanoiaCallback::FixupDropped),
        RiftType::DroppedFromB(_) => Some(ParanoiaCallback::FixupDropped),
        RiftType::Garbage { .. } => Some(ParanoiaCallback::Scratch),
        RiftType::Unknown => None,
    }
}

/// The read a rift repair keeps: the first for no rift or where the second
/// read stutters or dropped samples, the second where the first did; none
/// for garbage or an unknown rift.
pub open spec fn rift_choice(rift: RiftType, read1: Seq<i16>, read2: Seq<i16>) -> Option<Seq<i16>> {
    match rift {
        RiftType::NoRift => Some(read1),
        RiftType::StutterInA(_) => Some(read2),
        RiftType::StutterInB(_) => Some(read1),
        RiftType::DroppedFromA(_) => Some(read2),
        RiftType::DroppedFromB(_) => Some(read1),
        RiftType::Garbage { .. } => None,
        RiftType::Unknown => None,
    }
}

impl Paranoia {
    /// Drop the oldest cache blocks beyond the cache model size (at least
    /// ten blocks are kept).
    fn trim_cache(&mut self)
        requires
            old(self).wf(),
        ensures
            final(self).wf(),
            ({
                let max = if old(self).cache_model_sectors < 10 { 10int } else { old(self).cache_model_sectors as int };
                final(self).cache@ == if old(self).cache@.len() > max {
                    old(self).cache@.skip(old(self).cache@.len() - max)
                } else {
                    old(self).cache@
                }
            }),
            *final(self) == (Paranoia { cache: final(self).cache, ..*old(self) }),
    {
        let m = self.cache_model_sectors as usize;
        let max_cache: usize = if m < 10 { 10 } else { m };
        let ghost c0 = self.cache@;
        let ghost mut dropped: int = 0;
        while self.cache.len() > max_cache
            invariant
                old(self).wf(),
                max_cache == if old(self).cache_model_sectors < 10 { 10int } else { old(self).cache_model_sectors as int },
                c0 == old(self).cache@,
                0 <= dropped <= c0.len(),
                self.cache@ == c0.skip(dropped),
                c0.len() > max_cache ==> dropped <= c0.len() - max_cache,
                c0.len() <= max_cache ==> dropped == 0,
                *self == (Paranoia { cache: self.cache, ..*old(self) }),
            decreases self.cache@.len(),
        {
            self.cache.remove(0);
            proof {
                dropped = dropped + 1;
                assert(self.cache@ =~= c0.skip(dropped));
            }
        }
        assert forall|i: int| 0 <= i < self.cache@.len() implies cached_ok(#[trigger] self.cache@[i]) by {
            assert(self.cache@[i] == c0[i + dropped]);
        }
    }

    /// Record a jitter measurement, reporting `Overlap` at `position` when
    /// the overlap changes.
    fn record_jitter_with_report(&mut self, offset: i64, stage: u8, position: i64)
        requires
            old(self).wf(),
            -crate::overlap::JITTER_BOUND <= offset <= crate::overlap::JITTER_BOUND,
        ensures
            final(self).wf(),
            jitter_recorded(old(self).dynoverlap, final(self).dynoverlap, offset, stage),
            final(self).reports@ == if final(self).dynoverlap.spec_overlap() != old(self).dynoverlap.spec_overlap() {
                old(self).reports@.push(Report { position, event: ParanoiaCallback::Overlap })
            } else {
                old(self).reports@
            },
            *final(self) == (Paranoia { dynoverlap: final(self).dynoverlap, reports: final(self).reports, ..*old(self) }),
    {
        let old_overlap = self.dynoverlap.overlap();
        proof {
            self.dynoverlap.lemma_stats_wf();
            let (s1, s2) = self.dynoverlap.stats_after(offset, stage);
            assert(slots_bounded(s1) && slots_bounded(s2)) by {
                let o1 = self.dynoverlap.stats1();
                let o2 = self.dynoverlap.stats2();
                if stage == 1 {
                    assert forall|k: int| 0 <= k < s1.slots.len() implies -crate::overlap::JITTER_BOUND
                        <= #[trigger] s1.slots[k] <= crate::overlap::JITTER_BOUND by {
                        if k != o1.next {
                            assert(s1.slots[k] == o1.slots[k]);
                        }
                    }
                } else if stage == 2 {
                    assert forall|k: int| 0 <= k < s2.slots.len() implies -crate::overlap::JITTER_BOUND
                        <= #[trigger] s2.slots[k] <= crate::overlap::JITTER_BOUND by {
                        if k != o2.next {
                            assert(s2.slots[k] == o2.slots[k]);
                        }
                    }
                }
            }
            crate::overlap::lemma_bounded_recalibration(s1, s2);
        }
        self.dynoverlap.record_jitter(offset, stage);
        proof {
            self.dynoverlap.lemma_stats_wf();
        }
        if self.dynoverlap.overlap() != old_overlap {
            self.report(position, ParanoiaCallback::Overlap);
        }
    }

    /// Repair a rift between two reads: keep the read that `rift_choice`
    /// names, reporting the repair.
    fn handle_rift(&mut self, read1: &[i16], read2: &[i16], rift: RiftType) -> (r: Option<Vec<i16>>)
        ensures
            r matches Some(v) ==> rift_choice(rift, read1@, read2@) == Some(v@),
            r is None <==> rift_choice(rift, read1@, read2@) is None,
            final(self).reports@ == match rift_report(rift) {
                Some(e) => old(self).reports@.push(Report { position: 0, event: e }),
                None => old(self).reports@,
            },
            *final(self) == (Paranoia { reports: final(self).reports, ..*old(self) }),
    {
        match rift {
            RiftType::NoRift => Some(copy_all(read1)),
            RiftType::StutterInA(_) => {
                self.report(0, ParanoiaCallback::FixupDuped);
                Some(copy_all(read2))
            },
            RiftType::StutterInB(_) => {
                self.report(0, ParanoiaCallback::FixupDuped);
                Some(copy_all(read1))
            },
            RiftType::DroppedFromA(_) => {
                self.report(0, ParanoiaCallback::FixupDropped);
                Some(copy_all(read2))
            },
            RiftType::DroppedFromB(_) => {
                self.report(0, ParanoiaCallback::FixupDropped);
                Some(copy_all(read1))
            },
            RiftType::Garbage { .. } => {
                self.report(0, ParanoiaCallback::Scratch);
                None
            },
            RiftType::Unknown => None,
        }
    }
}

/// The `k`-th of the positions where batch matching looks: the start, a
/// quarter, half and three quarters into a read of `len` samples.
pub open spec fn check_position(len: int, k: int) -> int {
    if k == 0 {
        0
    } else if k == 1 {
        len / 4
    } else if k == 2 {
        len / 2
    } else {
        (3 * len) / 4
    }
}

fn check_position_exec(len: usize, k: usize) -> (r: usize)
    requires
        k < 4,
    ensures
        r == check_position(len as int, k as int),
        r <= len,
{
    if k == 0 {
        0
    } else if k == 1 {
        len / 4
    } else if k == 2 {
        len / 2
    } else {
        (((len as u128) * 3) / 4) as usize
    }
}

/// The `n` samples of `read1` from `pos` appear in `read2` shifted by
/// `shift`.
pub open spec fn probe_matches(read1: Seq<i16>, read2: Seq<i16>, pos: int, n: int, shift: int) -> bool {
    &&& 0 <= pos + shift
    &&& pos + shift + n <= read2.len()
    &&& forall|k: int| 0 <= k < n ==> #[trigger] read1[pos + k] == read2[pos + shift + k]
}

/// The frame compared at the `k`-th check position of a batch read.
pub open spec fn probe_len(read1: Seq<i16>) -> int {
    if CD_FRAMEWORDS < read1.len() { CD_FRAMEWORDS as int } else { read1.len() as int }
}

/// At the `k`-th check position of `read1`, where a whole frame fits and is
/// not silent, the frame appears in `read2` shifted by `off` either way.
pub open spec fn probe_hit(read1: Seq<i16>, read2: Seq<i16>, k: int, off: int) -> bool {
    let pos = check_position(read1.len() as int, k);
    let n = probe_len(read1);
    &&& pos + n <= read1.len()
    &&& !region_silent(read1, pos, n)
    &&& (probe_matches(read1, read2, pos, n, off) || probe_matches(read1, read2, pos, n, -off))
}

/// The batch jitter search finds a frame of `read1` in `read2` within
/// `range` samples either way.
pub open spec fn batch_probe_found(read1: Seq<i16>, read2: Seq<i16>, range: int) -> bool {
    exists|k: int, off: int| 0 <= k < 4 && 0 <= off <= range && #[trigger] probe_hit(read1, read2, k, off)
}

/// The reads differ, and the rift at their first difference can be
/// repaired.
pub open spec fn rift_repairable(read1: Seq<i16>, read2: Seq<i16>) -> bool {
    exists|m: int| #[trigger] is_first_mismatch(read1, read2, m) && rift_choice(
        spec_analyze_rift(read1, read2, m),
        read1,
        read2,
    ) is Some
}

/// The search range of the batch jitter search: the dynamic search range,
/// at least 32 samples.
pub open spec fn batch_search_range(d: DynamicOverlap) -> int {
    if d.spec_search() < 32 { 32 } else { d.spec_search() as int }
}

/// Consensus voting can stop: enough reads, and at least 90% of the
/// consensus verified.
pub open spec fn consensus_settles(b: ConsensusBuilder) -> bool {
    &&& b.spec_reads().len() >= MIN_READS_FOR_CONSENSUS
    &&& b.spec_samples().len() > 0
    &&& 10 * count_verified(b.spec_flags()) >= 9 * b.spec_samples().len()
}

/// The jitter a consensus read is taken at: its offset against the first
/// read, or 0 where the scan would probe before its start.
pub open spec fn consensus_jitter(first: Seq<i16>, read: Seq<i16>, search: i64) -> i64 {
    if jitter_detection_safe(first, read, search) {
        spec_jitter_offset(first, read, search)
    } else {
        0
    }
}

/// `b` is `builder` with the reply's read added (at the batch start,
/// shifted by its jitter against the first read), where the reply brought
/// one.
pub open spec fn builder_after(
    b: ConsensusBuilder,
    builder: ConsensusBuilder,
    reply: DriveReply,
    first: Seq<i16>,
    plan: ReadPlan,
    search: i64,
) -> bool {
    &&& b.spec_region_begin() == builder.spec_region_begin()
    &&& b.spec_region_end() == builder.spec_region_end()
    &&& forall|i: int| 0 <= i < builder.spec_reads().len() ==> #[trigger] b.spec_reads()[i] == builder.spec_reads()[i]
    &&& match reply {
        DriveReply::Samples(d) => {
            &&& b.spec_reads().len() == builder.spec_reads().len() + 1
            &&& b.spec_reads()[builder.spec_reads().len() as int].samples@ == d@
            &&& b.spec_reads()[builder.spec_reads().len() as int].begin == batch_begin(plan)
            &&& b.spec_reads()[builder.spec_reads().len() as int].jitter == consensus_jitter(first, d@, search)
        },
        _ => b.spec_reads().len() == builder.spec_reads().len(),
    }
}

/// The backoff state once a consensus read's reply is noted: a failed read
/// counts an error (where the counters can still count it).
pub open spec fn backoff_noted(v: BackoffView, reply: DriveReply, sector: Lsn) -> BackoffView {
    if !(reply is Samples) && v.can_record_error() {
        v.after_error(sector)
    } else {
        v
    }
}

/// What a round of consensus voting with the reads of `b` leaves, from the
/// backoff state `v`: another read while voting goes on, else the
/// consensus merged into the cache and the root (when there are reads
/// enough to vote), and the read ended exactly when the root now holds the
/// target frame, else tried again.
pub open spec fn consensus_outcome(
    old_p: Paranoia,
    new_p: Paranoia,
    r: ReadAction,
    plan: ReadPlan,
    retry: i32,
    first: Seq<i16>,
    round: int,
    b: ConsensusBuilder,
    v: BackoffView,
) -> bool {
    let goes_on = round < CONSENSUS_ROUNDS && !consensus_settles(b);
    &&& goes_on ==> {
        &&& r == (ReadAction::ReadAudio { begin: plan.read_start, sectors: plan.read_count })
        &&& consensus_phase(new_p.phase, plan, retry, first, round, b.spec_reads().len() as int)
        &&& new_p.root == old_p.root
        &&& new_p.cache@ == old_p.cache@
        &&& new_p.backoff@ == v
    }
    &&& !goes_on ==> (r is Done || new_p.phase == retry_phase(plan, retry))
    &&& !goes_on ==> (r is Done <==> (b.spec_reads().len() >= MIN_READS_FOR_CONSENSUS && new_p.root.frame_at(
        plan.target_begin,
    ) is Some))
    &&& !goes_on ==> new_p.backoff@ == backoff_after_try(v, r is Done, plan, retry)
    &&& !goes_on && b.spec_reads().len() >= MIN_READS_FOR_CONSENSUS ==> {
        &&& exists|f: VFragment| #[trigger] consensus_fragment(f, b, plan) && root_after_merge(old_p.root, f, new_p.root)
        &&& exists|c: CachedBlock| #[trigger] batch_cached(c, b.spec_samples(), plan) && new_p.cache@ == trimmed(
            old_p.cache@.push(c),
            old_p.cache_model_sectors,
        )
    }
    &&& !goes_on && b.spec_reads().len() < MIN_READS_FOR_CONSENSUS ==> new_p.root == old_p.root && new_p.cache@
        == old_p.cache@
}

/// Two batch reads verify each other: they are identical, or agree
/// allowing for jitter, or differ by a repairable rift.
pub open spec fn reads_agree(p: Paranoia, read1: Seq<i16>, read2: Seq<i16>) -> bool {
    ||| read1 == read2
    ||| batch_probe_found(read1, read2, batch_search_range(p.dynoverlap))
    ||| rift_repairable(read1, read2)
}

/// Double reads verify: a second batch read identical to the first always
/// agrees with it.
pub proof fn lemma_identical_reads_agree(p: Paranoia, data: Seq<i16>)
    ensures
        reads_agree(p, data, data),
{
}

/// Jitter is corrected: a second read that holds the first frame of the
/// first read (where it is not silent) shifted by up to the search range
/// agrees with it.
pub proof fn lemma_shifted_reads_agree(p: Paranoia, read1: Seq<i16>, read2: Seq<i16>, shift: int)
    requires
        0 <= shift <= batch_search_range(p.dynoverlap),
        !region_silent(read1, 0, probe_len(read1)),
        shift + probe_len(read1) <= read2.len(),
        forall|k: int| 0 <= k < probe_len(read1) ==> #[trigger] read2[shift + k] == read1[k],
    ensures
        reads_agree(p, read1, read2),
{
    assert(check_position(read1.len() as int, 0) == 0);
    assert forall|k: int| 0 <= k < probe_len(read1) implies #[trigger] read1[0 + k] == read2[0 + shift + k] by {
        assert(read2[shift + k] == read1[k]);
    }
    assert(probe_matches(read1, read2, 0, probe_len(read1), shift));
    assert(probe_hit(read1, read2, 0, shift));
}

/// The cached block may hold part of the `len` samples from `begin`.
pub open spec fn cache_overlaps(c: CachedBlock, begin: i64, len: int) -> bool {
    !(begin >= c.block.spec_end() || begin + len <= c.block.begin)
}

/// The offset of the first run found through the index of a cached block,
/// trying the check positions of the new data from the `k`-th on.
pub open spec fn isort_match_from(data: Seq<i16>, begin: i64, c: CachedBlock, k: int) -> Option<i64>
    decreases 4 - k,
{
    if k >= 4 || k < 0 {
        None
    } else {
        let rel = check_position(data.len() as int, k);
        let pos = (begin + rel) as i64;
        let found = if rel < data.len() {
            match spec_match_candidate(data, pos, begin, &c.sort, MIN_WORDS_SEARCH as usize) {
                Some(pb) => Some((pb - pos) as i64),
                None => None,
            }
        } else {
            None
        };
        if found is Some {
            found
        } else {
            isort_match_from(data, begin, c, k + 1)
        }
    }
}

/// The offset at which the new data is first found through the indexes of
/// the cached blocks from the `i`-th on that overlap it.
pub open spec fn isort_match_cache(cache: Seq<CachedBlock>, data: Seq<i16>, begin: i64, i: int) -> Option<i64>
    decreases cache.len() - i,
{
    if i >= cache.len() || i < 0 {
        None
    } else if cache_overlaps(cache[i], begin, data.len() as int) && isort_match_from(data, begin, cache[i], 0) is Some {
        isort_match_from(data, begin, cache[i], 0)
    } else {
        isort_match_cache(cache, data, begin, i + 1)
    }
}

/// The shift at which the overlap search first finds the new data in the
/// cached blocks from the `i`-th on that overlap it.
pub open spec fn overlap_match_cache(cache: Seq<CachedBlock>, data: Seq<i16>, begin: i64, i: int) -> Option<i64>
    decreases cache.len() - i,
{
    if i >= cache.len() || i < 0 {
        None
    } else if cache_overlaps(cache[i], begin, data.len() as int) && spec_find_overlap(
        data,
        begin,
        &cache[i].sort,
        MIN_WORDS_SEARCH as int,
    ) is Some {
        spec_find_overlap(data, begin, &cache[i].sort, MIN_WORDS_SEARCH as int)
    } else {
        overlap_match_cache(cache, data, begin, i + 1)
    }
}

/// The offset at which the cached blocks verify a batch: through their
/// indexes or, failing that, with the overlap search.
pub open spec fn cache_offset(p: Paranoia, data: Seq<i16>, begin: i64) -> Option<i64> {
    match isort_match_cache(p.cache@, data, begin, 0) {
        Some(o) => Some(o),
        None => overlap_match_cache(p.cache@, data, begin, 0),
    }
}

/// The cached blocks verify a batch.
pub open spec fn cache_verifies(p: Paranoia, data: Seq<i16>, begin: i64) -> bool {
    cache_offset(p, data, begin) is Some
}

/// The jitter statistics after a batch was found at `offset`: a non-zero
/// offset is recorded as a first-stage measurement.
pub open spec fn jitter_noted(old_d: DynamicOverlap, new_d: DynamicOverlap, offset: i64) -> bool {
    if offset == 0 {
        new_d == old_d
    } else {
        jitter_recorded(old_d, new_d, offset, 1)
    }
}

/// As a pair of found and offset (0 when not found).
pub open spec fn found_pair(o: Option<i64>) -> (bool, i64) {
    match o {
        Some(x) => (true, x),
        None => (false, 0),
    }
}

impl Paranoia {
    /// Look for the new data in the cached blocks that overlap it: from
    /// four positions of the new data, a run of `MIN_WORDS_SEARCH` samples
    /// found through a block's index verifies the data. Returns whether it
    /// was verified and the offset at which the run was found.
    fn verify_with_isort(&self, new_data: &[i16], new_begin: i64) -> (r: (bool, i64))
        requires
            self.wf(),
            span_ok(new_begin, new_data@.len()),
        ensures
            r.0 ==> -2 * POS_BOUND <= r.1 <= 2 * POS_BOUND,
            r == found_pair(isort_match_cache(self.cache@, new_data@, new_begin, 0)),
    {
        if self.cache.len() == 0 {
            return (false, 0);
        }
        let len = new_data.len();
        let mut ci: usize = 0;
        while ci < self.cache.len()
            invariant
                self.wf(),
                span_ok(new_begin, new_data@.len()),
                len == new_data@.len(),
                ci <= self.cache@.len(),
                isort_match_cache(self.cache@, new_data@, new_begin, 0) == isort_match_cache(
                    self.cache@,
                    new_data@,
                    new_begin,
                    ci as int,
                ),
            decreases self.cache@.len() - ci,
        {
            let cached = &self.cache[ci];
            assert(cached_ok(self.cache@[ci as int]));
            let cached_end = cached.block.end();
            if !(new_begin >= cached_end || new_begin + len as i64 <= cached.block.begin) {
                let mut pi: usize = 0;
                while pi < 4
                    invariant
                        cached_ok(*cached),
                        span_ok(new_begin, new_data@.len()),
                        len == new_data@.len(),
                        pi <= 4,
                        isort_match_from(new_data@, new_begin, *cached, 0) == isort_match_from(
                            new_data@,
                            new_begin,
                            *cached,
                            pi as int,
                        ),
                        isort_match_from(new_data@, new_begin, *cached, 0) is Some ==> isort_match_cache(
                            self.cache@,
                            new_data@,
                            new_begin,
                            0,
                        ) == isort_match_from(new_data@, new_begin, *cached, 0),
                        isort_match_from(new_data@, new_begin, *cached, 0) is None ==> isort_match_cache(
                            self.cache@,
                            new_data@,
                            new_begin,
                            0,
                        ) == isort_match_cache(self.cache@, new_data@, new_begin, ci + 1),
                    decreases 4 - pi,
                {
                    let rel = check_position_exec(len, pi);
                    if rel < len {
                        let abs_pos = new_begin + rel as i64;
                        proof {
                            lemma_match_candidate_in_block(new_data@, abs_pos, new_begin, &cached.sort, 64);
                        }
                        match find_match(new_data, abs_pos, new_begin, &cached.sort, 64) {
                            Some(offset) => {
                                return (true, offset);
                            },
                            None => {},
                        }
                    }
                    pi = pi + 1;
                }
            }
            ci = ci + 1;
        }
        (false, 0)
    }

    /// Look for the new data in the cached blocks that overlap it with the
    /// overlap search. Returns whether it was found and the shift.
    fn find_overlap_with_cache(&self, new_data: &[i16], new_begin: i64) -> (r: (bool, i64))
        requires
            self.wf(),
            span_ok(new_begin, new_data@.len()),
        ensures
            r.0 ==> -2 * POS_BOUND <= r.1 <= 2 * POS_BOUND,
            r == found_pair(overlap_match_cache(self.cache@, new_data@, new_begin, 0)),
    {
        let len = new_data.len();
        let mut ci: usize = 0;
        while ci < self.cache.len()
            invariant
                self.wf(),
                span_ok(new_begin, new_data@.len()),
                len == new_data@.len(),
                ci <= self.cache@.len(),
                overlap_match_cache(self.cache@, new_data@, new_begin, 0) == overlap_match_cache(
                    self.cache@,
                    new_data@,
                    new_begin,
                    ci as int,
                ),
            decreases self.cache@.len() - ci,
        {
            let cached = &self.cache[ci];
            assert(cached_ok(self.cache@[ci as int]));
            let cached_end = cached.block.end();
            if !(new_begin >= cached_end || new_begin + len as i64 <= cached.block.begin) {
                proof {
                    lemma_find_overlap_range(new_data@, new_begin, &cached.sort, 64);
                }
                match find_overlap(new_data, new_begin, &cached.sort, 64, self.dynoverlap.search()) {
                    Some(offset) => {
                        return (true, offset);
                    },
                    None => {},
                }
            }
            ci = ci + 1;
        }
        (false, 0)
    }

    /// Whether two batch reads agree allowing for jitter: at one of four
    /// positions of the first read that is not silent, a frame of it is
    /// found in the second read within the search range (recording the
    /// jitter); failing that, whether the rift at the first difference can
    /// be repaired. A probe before the start of the second read is skipped.
    fn find_batch_jitter_match(&mut self, read1: &[i16], read2: &[i16]) -> (r: bool)
        requires
            old(self).wf(),
            read1@.len() <= POS_BOUND,
            read2@.len() <= POS_BOUND,
        ensures
            final(self).wf(),
            reports_extend(old(self).reports@, final(self).reports@),
            r == (batch_probe_found(read1@, read2@, batch_search_range(old(self).dynoverlap)) || rift_repairable(
                read1@,
                read2@,
            )),
            *final(self) == (Paranoia {
                dynoverlap: final(self).dynoverlap,
                jitter: final(self).jitter,
                reports: final(self).reports,
                ..*old(self)
            }),
    {
        let len1 = read1.len();
        let len2 = read2.len();
        let match_len: usize = if 1176 < len1 { 1176 } else { len1 };
        let s = self.dynoverlap.search();
        let search_range: usize = if s < 32 { 32 } else { s as usize };
        let ghost a = read1@;
        let ghost b = read2@;
        assert(search_range == batch_search_range(old(self).dynoverlap));
        assert(match_len == probe_len(a));
        let mut pi: usize = 0;
        while pi < 4
            invariant
                self.wf(),
                *self == *old(self),
                a == read1@,
                b == read2@,
                len1 == read1@.len(),
                len2 == read2@.len(),
                len1 <= POS_BOUND,
                match_len <= len1,
                match_len == probe_len(a),
                search_range <= MAX_OVERLAP_WORDS,
                search_range == batch_search_range(old(self).dynoverlap),
                pi <= 4,
                forall|k: int, off: int| 0 <= k < pi && 0 <= off <= search_range ==> !#[trigger] probe_hit(a, b, k, off),
            decreases 4 - pi,
        {
            let pos = check_position_exec(len1, pi);
            if match_len <= len1 - pos && !is_region_silent(read1, pos, match_len) {
                let mut offset: usize = 0;
                while offset <= search_range
                    invariant
                        self.wf(),
                        *self == *old(self),
                        a == read1@,
                        b == read2@,
                        len1 == read1@.len(),
                        len2 == read2@.len(),
                        len1 <= POS_BOUND,
                        pos <= len1,
                        pos == check_position(len1 as int, pi as int),
                        pi < 4,
                        match_len <= len1 - pos,
                        match_len == probe_len(a),
                        !region_silent(a, pos as int, match_len as int),
                        search_range <= MAX_OVERLAP_WORDS,
                        search_range == batch_search_range(old(self).dynoverlap),
                        forall|k: int, off: int| 0 <= k < pi && 0 <= off <= search_range ==> !#[trigger] probe_hit(a, b, k, off),
                        forall|off: int| 0 <= off < offset ==> !#[trigger] probe_hit(a, b, pi as int, off),
                    decreases search_range + 1 - offset,
                {
                    let mut si: usize = 0;
                    while si < 3
                        invariant
                            self.wf(),
                            *self == *old(self),
                            a == read1@,
                            b == read2@,
                            len1 == read1@.len(),
                            len2 == read2@.len(),
                            len1 <= POS_BOUND,
                            pos <= len1,
                            pos == check_position(len1 as int, pi as int),
                            pi < 4,
                            match_len <= len1 - pos,
                            match_len == probe_len(a),
                            !region_silent(a, pos as int, match_len as int),
                            offset <= search_range,
                            search_range <= MAX_OVERLAP_WORDS,
                            search_range == batch_search_range(old(self).dynoverlap),
                            si <= 3,
                            si >= 1 ==> !probe_matches(a, b, pos as int, match_len as int, 0),
                            si >= 2 ==> !probe_matches(a, b, pos as int, match_len as int, offset as int),
                            si >= 3 ==> !probe_matches(a, b, pos as int, match_len as int, -offset),
                        decreases 3 - si,
                    {
                        let actual: i64 = if si == 0 {
                            0
                        } else if si == 1 {
                            offset as i64
                        } else {
                            -(offset as i64)
                        };
                        let p2 = pos as i64 + actual;
                        if p2 >= 0 {
                            let pos2 = p2 as usize;
                            if pos2 <= len2 && match_len <= len2 - pos2 && ranges_equal(
                                read1,
                                pos,
                                read2,
                                pos2,
                                match_len,
                            ) {
                                proof {
                                    assert(probe_matches(a, b, pos as int, match_len as int, actual as int));
                                    if si == 0 {
                                        assert(probe_hit(a, b, pi as int, 0));
                                    } else {
                                        assert(probe_hit(a, b, pi as int, offset as int));
                                    }
                                }
                                if actual != 0 {
                                    self.jitter = if actual < 0 { -actual } else { actual };
                                    self.record_jitter_with_report(actual, 1, 0);
                                    self.report(0, ParanoiaCallback::FixupEdge);
                                }
                                return true;
                            }
                        }
                        assert(!probe_matches(a, b, pos as int, match_len as int, actual as int));
                        si = si + 1;
                    }
                    offset = offset + 1;
                }
            } else {
                proof {
                    assert forall|off: int| 0 <= off <= search_range implies !#[trigger] probe_hit(a, b, pi as int, off) by {
                    }
                }
            }
            pi = pi + 1;
        }
        assert(!batch_probe_found(a, b, search_range as int));
        match find_mismatch_position(read1, read2) {
            Some(mismatch_pos) => {
                let rift = analyze_rift(read1, read2, mismatch_pos);
                let repaired = self.handle_rift(read1, read2, rift);
                repaired.is_some()
            },
            None => false,
        }
    }
}

/// The request an action makes fits the read in progress, and a finished
/// read leaves none.
pub open spec fn action_fits(p: Paranoia, a: ReadAction) -> bool {
    match a {
        ReadAction::Done(_) => p.phase is Idle,
        ReadAction::ReadAudio { begin, sectors } => match p.phase {
            ReadPhase::Direct { target, .. } => begin == target && sectors == 1,
            ReadPhase::Fallback { plan } => begin == plan.target && sectors == 1,
            ReadPhase::First { plan, .. } => begin == plan.read_start && sectors == plan.read_count,
            ReadPhase::Second { plan, .. } => begin == plan.read_start && sectors == plan.read_count,
            ReadPhase::Consensus { plan, .. } => begin == plan.read_start && sectors == plan.read_count,
            _ => false,
        },
        ReadAction::Backoff { .. } => p.phase is Settle,
    }
}

/// The reply answers the request of the read in progress: a batch read
/// brings a whole batch, a backoff is settled.
pub open spec fn reply_fits(p: Paranoia, r: DriveReply) -> bool {
    match p.phase {
        ReadPhase::Idle => false,
        ReadPhase::Direct { .. } => !(r is Settled),
        ReadPhase::Fallback { .. } => !(r is Settled),
        ReadPhase::First { plan, .. } => r is Failed || (r matches DriveReply::Samples(d) && d@.len() == batch_len(plan)),
        ReadPhase::Second { plan, .. } => r is Failed || (r matches DriveReply::Samples(d) && d@.len() == batch_len(
            plan,
        )),
        ReadPhase::Consensus { plan, .. } => r is Failed || (r matches DriveReply::Samples(d) && d@.len()
            == batch_len(plan)),
        ReadPhase::Settle { .. } => r is Settled,
    }
}

/// The sector and retry limit of the read in progress.
pub open spec fn phase_target(ph: ReadPhase) -> (Lsn, i32) {
    match ph {
        ReadPhase::Idle => (0, 0),
        ReadPhase::Direct { target, max_retries } => (target, max_retries),
        ReadPhase::First { plan, .. } => (plan.target, plan.max_retries),
        ReadPhase::Second { plan, .. } => (plan.target, plan.max_retries),
        ReadPhase::Consensus { plan, .. } => (plan.target, plan.max_retries),
        ReadPhase::Settle { plan, .. } => (plan.target, plan.max_retries),
        ReadPhase::Fallback { plan } => (plan.target, plan.max_retries),
    }
}

/// How a read that ends ends: with the frame, with silence in its place
/// when skipping is allowed, or with `SectorSkip`. The position moves on
/// one frame unless the read fails.
pub open spec fn finished(old_p: Paranoia, new_p: Paranoia, a: ReadAction, success: bool, target: Lsn, max_retries: i32) -> bool {
    &&& new_p.phase is Idle
    &&& success ==> {
        &&& a == ReadAction::Done(Ok(()))
        &&& new_p.cursor == old_p.cursor + CD_FRAMEWORDS
        &&& new_p.output_buffer@ == old_p.output_buffer@
        &&& new_p.reports@ == old_p.reports@.push(
            Report { position: (old_p.cursor + CD_FRAMEWORDS) as i64, event: ParanoiaCallback::Finished },
        )
    }
    &&& !success && old_p.enable_skip ==> {
        &&& a == ReadAction::Done(Ok(()))
        &&& new_p.cursor == old_p.cursor + CD_FRAMEWORDS
        &&& new_p.output_buffer@ == Seq::new(CD_FRAMEWORDS as nat, |_i: int| 0i16)
        &&& new_p.reports@ == old_p.reports@.push(Report { position: old_p.cursor, event: ParanoiaCallback::Skip })
    }
    &&& !success && !old_p.enable_skip ==> {
        &&& a == ReadAction::Done(Err(Error::SectorSkip(target, max_retries)))
        &&& new_p.cursor == old_p.cursor
        &&& new_p.output_buffer@ == old_p.output_buffer@
        &&& new_p.reports@ == old_p.reports@
    }
}

/// Copy the start of `data` over the start of `buf` (as much as both hold).
fn copy_prefix(buf: &mut Vec<i16>, data: &[i16])
    ensures
        final(buf)@.len() == old(buf)@.len(),
        ({
            let n = if data@.len() < old(buf)@.len() { data@.len() } else { old(buf)@.len() };
            final(buf)@ == data@.take(n as int) + old(buf)@.skip(n as int)
        }),
{
    let n = if data.len() < buf.len() { data.len() } else { buf.len() };
    let ghost b0 = buf@;
    let mut i: usize = 0;
    while i < n
        invariant
            n <= data@.len(),
            n <= b0.len(),
            n == if data@.len() < b0.len() { data@.len() } else { b0.len() },
            i <= n,
            buf@.len() == b0.len(),
            forall|k: int| 0 <= k < i ==> #[trigger] buf@[k] == data@[k],
            forall|k: int| i <= k < b0.len() ==> #[trigger] buf@[k] == b0[k],
        decreases n - i,
    {
        buf.set(i, data[i]);
        i = i + 1;
    }
    assert(buf@ =~= data@.take(n as int) + b0.skip(n as int));
}

impl Paranoia {
    /// End the read of `target`.
    #[verifier::spinoff_prover]
    fn finish(&mut self, success: bool, target: Lsn, max_retries: i32) -> (r: ReadAction)
        requires
            old(self).wf(),
            target == old(self).cursor as int / CD_FRAMEWORDS as int,
            target <= old(self).last_sector,
        ensures
            final(self).wf(),
            finished(*old(self), *final(self), r, success, target, max_retries),
            final(self).cache@ == old(self).cache@,
            final(self).fragments@ == old(self).fragments@,
            final(self).root == old(self).root,
            final(self).backoff@ == old(self).backoff@,
            final(self).mode == old(self).mode,
            final(self).first_sector == old(self).first_sector,
            final(self).last_sector == old(self).last_sector,
            final(self).enable_skip == old(self).enable_skip,
            final(self).dynoverlap == old(self).dynoverlap,
            final(self).cache_model_sectors == old(self).cache_model_sectors,
            final(self).jitter == old(self).jitter,
    {
        proof {
            lemma_cursor_bounds(*old(self));
        }
        self.phase = ReadPhase::Idle;
        if success {
            self.cursor = self.cursor + 1176;
            proof {
                lemma_sector_start(target + 1);
            }
            let c = self.cursor;
            self.report(c, ParanoiaCallback::Finished);
            assert(self.cursor as int % CD_FRAMEWORDS as int == 0);
            assert(self.cursor as int / CD_FRAMEWORDS as int == target + 1);
            ReadAction::Done(Ok(()))
        } else if self.enable_skip {
            let c = self.cursor;
            self.report(c, ParanoiaCallback::Skip);
            self.output_buffer = filled(0i16, 1176);
            self.cursor = self.cursor + 1176;
            proof {
                lemma_sector_start(target + 1);
            }
            assert(self.cursor as int % CD_FRAMEWORDS as int == 0);
            assert(self.cursor as int / CD_FRAMEWORDS as int == target + 1);
            ReadAction::Done(Ok(()))
        } else {
            ReadAction::Done(Err(Error::SectorSkip(target, max_retries)))
        }
    }

    /// Record a read error at `sector` (unless the counters are exhausted);
    /// whether to back off now.
    fn note_read_error(&mut self, sector: Lsn) -> (r: bool)
        requires
            old(self).wf(),
        ensures
            final(self).wf(),
            old(self).backoff@.can_record_error() ==> final(self).backoff@ == old(self).backoff@.after_error(sector)
                && r == old(self).backoff@.error_triggers(sector),
            !old(self).backoff@.can_record_error() ==> final(self).backoff@ == old(self).backoff@ && !r,
            *final(self) == (Paranoia { backoff: final(self).backoff, ..*old(self) }),
    {
        if self.backoff.total_errors() < u64::MAX && self.backoff.error_count() < u32::MAX {
            self.backoff.record_error(sector)
        } else {
            false
        }
    }

    /// Record a backoff (unless the counters are exhausted).
    fn note_backoff(&mut self)
        requires
            old(self).wf(),
        ensures
            final(self).wf(),
            old(self).backoff@.can_record_backoff() ==> final(self).backoff@ == old(self).backoff@.after_backoff(),
            !old(self).backoff@.can_record_backoff() ==> final(self).backoff@ == old(self).backoff@,
            *final(self) == (Paranoia { backoff: final(self).backoff, ..*old(self) }),
    {
        if self.backoff.total_backoffs() < u64::MAX && self.backoff.backoff_count() < u32::MAX {
            self.backoff.record_backoff();
        }
    }

    /// Reset the backoff error state.
    fn reset_backoff(&mut self)
        requires
            old(self).wf(),
        ensures
            final(self).wf(),
            final(self).backoff@ == old(self).backoff@.reset(),
            *final(self) == (Paranoia { backoff: final(self).backoff, ..*old(self) }),
    {
        self.backoff.reset_error_state();
    }

    /// Go on to the next try of a verified read, or, when the tries are
    /// used up, reset the backoff state and fall back to reading the
    /// target sector alone.
    fn next_retry(&mut self, plan: ReadPlan, retry: i32) -> (r: ReadAction)
        requires
            old(self).wf(),
            plan_ok(*old(self), plan),
            0 <= retry < plan.max_retries,
        ensures
            !(r is Backoff),
            final(self).wf(),
            action_fits(*final(self), r),
            final(self).phase == retry_phase(plan, retry),
            retry + 1 < plan.max_retries ==> {
                &&& final(self).phase == (ReadPhase::First { plan, retry: (retry + 1) as i32 })
                &&& final(self).backoff@ == old(self).backoff@
            },
            retry + 1 >= plan.max_retries ==> {
                &&& final(self).phase == (ReadPhase::Fallback { plan })
                &&& final(self).backoff@ == old(self).backoff@.reset()
            },
            *final(self) == (Paranoia { phase: final(self).phase, backoff: final(self).backoff, ..*old(self) }),
    {
        if retry + 1 < plan.max_retries {
            self.phase = ReadPhase::First { plan, retry: retry + 1 };
            ReadAction::ReadAudio { begin: plan.read_start, sectors: plan.read_count }
        } else {
            self.reset_backoff();
            self.phase = ReadPhase::Fallback { plan };
            ReadAction::ReadAudio { begin: plan.target, sectors: 1 }
        }
    }
}

/// The phase after a try that did not settle the read: the next try, or,
/// when the tries are used up, the read of the target sector alone.
pub open spec fn retry_phase(plan: ReadPlan, retry: i32) -> ReadPhase {
    if retry + 1 < plan.max_retries {
        ReadPhase::First { plan, retry: (retry + 1) as i32 }
    } else {
        ReadPhase::Fallback { plan }
    }
}

/// The phase of the second read of a try, with the first read kept.
pub open spec fn second_phase(ph: ReadPhase, plan: ReadPlan, retry: i32, first: Seq<i16>) -> bool {
    match ph {
        ReadPhase::Second { plan: p, retry: q, first: f } => p == plan && q == retry && f@ == first,
        _ => false,
    }
}

/// The phase of a consensus read of a try, in the given round, with the
/// first read kept and the given number of reads collected.
pub open spec fn consensus_phase(ph: ReadPhase, plan: ReadPlan, retry: i32, first: Seq<i16>, round: int, reads: int) -> bool {
    match ph {
        ReadPhase::Consensus { plan: p, retry: q, first: f, builder: b, round: k } => {
            &&& p == plan
            &&& q == retry
            &&& f@ == first
            &&& k == round
            &&& b.spec_reads().len() == reads
        },
        _ => false,
    }
}

/// The frame of the root block at `pos` (when the root holds it).
pub open spec fn root_frame(root: RootBlock, pos: i64) -> Seq<i16> {
    root.vector@.subrange(root.frame_at(pos).unwrap().0, root.frame_at(pos).unwrap().1)
}

proof fn lemma_jitter_scan_bound(reference: Seq<i16>, test: Seq<i16>, cp: int, offset: int, range: int)
    requires
        0 <= offset,
    ensures
        jitter_scan(reference, test, cp, offset, range) matches Some(o) ==> -cp <= o <= test.len(),
    decreases range + 1 - offset,
{
    if offset <= range && !window_matches(reference, test, cp, cp + offset) && !window_matches(
        reference,
        test,
        cp,
        cp - offset,
    ) {
        lemma_jitter_scan_bound(reference, test, cp, offset + 1, range);
    }
}

/// A non-empty fragment would leave a gap before or after a non-empty root.
pub open spec fn root_gap(r: RootBlock, f: VFragment) -> bool {
    &&& r.vector@.len() > 0
    &&& f.vector@.len() > 0
    &&& (f.begin > r.begin + r.vector@.len() || r.begin > f.begin + f.vector@.len())
}

/// The root `new_r` is `old_r` with fragment `f` merged in: unchanged by an
/// empty fragment; the fragment itself where the root was empty or the
/// fragment would leave a gap (which also clears the returned limit);
/// otherwise the union of both, verified samples preferred.
pub open spec fn root_after_merge(old_r: RootBlock, f: VFragment, new_r: RootBlock) -> bool {
    if f.vector@.len() == 0 {
        new_r == old_r
    } else if old_r.vector@.len() == 0 || root_gap(old_r, f) {
        &&& new_r.vector@ == f.vector@
        &&& new_r.flags@ == f.flags@
        &&& new_r.silenceflag@ == Seq::new(f.vector@.len(), |_i: int| false)
        &&& new_r.begin == f.begin
        &&& new_r.lastsector == f.lastsector
        &&& new_r.returnedlimit == if root_gap(old_r, f) { 0 } else { old_r.returnedlimit }
    } else {
        &&& new_r.vector@ == root_merged_samples(old_r, f)
        &&& new_r.flags@ == root_merged_flags(old_r, f)
        &&& new_r.silenceflag@ == root_merged_silence(old_r, f)
        &&& new_r.begin == root_union_begin(old_r, f)
        &&& new_r.lastsector == if old_r.lastsector > f.lastsector { old_r.lastsector } else { f.lastsector }
        &&& new_r.returnedlimit == old_r.returnedlimit
    }
}

/// The fragment a verified batch makes: its samples all verified, the
/// first and last 588 of them flagged as edges.
pub open spec fn batch_fragment(f: VFragment, data: Seq<i16>, plan: ReadPlan) -> bool {
    &&& f.vector@ == data
    &&& f.flags@ == edges_marked(Seq::new(data.len(), |_i: int| SampleFlags(SAMPLE_VERIFIED_BIT)), 588)
    &&& f.begin == batch_begin(plan)
    &&& f.lastsector == plan.read_end
}

/// The cache entry a batch of `data` makes: the block and its index.
pub open spec fn batch_cached(c: CachedBlock, data: Seq<i16>, plan: ReadPlan) -> bool {
    &&& c.block.vector@ == data
    &&& c.block.flags@ == Seq::new(data.len(), |_i: int| SampleFlags(0))
    &&& c.block.begin == batch_begin(plan)
    &&& c.block.lastsector == plan.read_end
    &&& c.sort.wf()
    &&& c.sort.samples() == data
    &&& c.sort.spec_abs_offset() == batch_begin(plan)
    &&& c.sort.spec_search_lo() == batch_begin(plan)
    &&& c.sort.spec_search_hi() == batch_begin(plan) + data.len()
}

/// The cache with only its newest blocks kept: as many as the cache model
/// size says, at least ten.
pub open spec fn trimmed(cache: Seq<CachedBlock>, model_sectors: i32) -> Seq<CachedBlock> {
    let max = if model_sectors < 10 { 10int } else { model_sectors as int };
    if cache.len() > max {
        cache.skip(cache.len() - max)
    } else {
        cache
    }
}

/// A candidate that starts an agreeing run makes the run search succeed.
proof fn lemma_first_run_match_found(cands: Seq<i64>, a: Seq<i16>, ia: int, bvec: Seq<i16>, boff: i64, n: int, p: i64)
    requires
        cands.contains(p),
        run_matches(a, ia, bvec, boff, p, n),
    ensures
        first_run_match(cands, a, ia, bvec, boff, n) is Some,
    decreases cands.len(),
{
    if !run_matches(a, ia, bvec, boff, cands[0], n) {
        let k = choose|k: int| 0 <= k < cands.len() && cands[k] == p;
        assert(k > 0);
        assert(cands.drop_first()[k - 1] == p);
        lemma_first_run_match_found(cands.drop_first(), a, ia, bvec, boff, n, p);
    }
}

/// Some cache entry from the `i`-th on that overlaps the data and finds it
/// makes the cache lookup succeed.
proof fn lemma_isort_cache_found(cache: Seq<CachedBlock>, data: Seq<i16>, begin: i64, i: int, j: int)
    requires
        0 <= i <= j < cache.len(),
        cache_overlaps(cache[j], begin, data.len() as int),
        isort_match_from(data, begin, cache[j], 0) is Some,
    ensures
        isort_match_cache(cache, data, begin, i) is Some,
    decreases j - i,
{
    if i < j {
        lemma_isort_cache_found(cache, data, begin, i + 1, j);
    }
}

/// The newest block survives trimming the cache.
pub proof fn lemma_newest_block_cached(cache: Seq<CachedBlock>, c: CachedBlock, model_sectors: i32)
    ensures
        trimmed(cache.push(c), model_sectors).contains(c),
{
    let full = cache.push(c);
    let t = trimmed(full, model_sectors);
    assert(t[t.len() - 1] == c);
}

/// Stage one verifies from the cache: once a batch is cached, reading the
/// same samples for the same batch again is verified by the cache, with
/// no second read.
pub proof fn lemma_cached_batch_verifies(p: Paranoia, c: CachedBlock, data: Seq<i16>, plan: ReadPlan)
    requires
        p.wf(),
        p.cache@.contains(c),
        batch_cached(c, data, plan),
        data.len() >= MIN_WORDS_SEARCH,
    ensures
        cache_verifies(p, data, batch_begin(plan)),
{
    let begin = batch_begin(plan);
    let j = choose|j: int| 0 <= j < p.cache@.len() && p.cache@[j] == c;
    assert(cached_ok(p.cache@[j]));
    lemma_find_all_exact(&c.sort, data[0]);
    assert(c.sort.spec_get(begin as int) == Some(data[0]));
    assert(c.sort.spec_find_all(data[0]).contains(begin));
    assert(run_matches(data, 0, data, begin, begin, MIN_WORDS_SEARCH as int));
    lemma_first_run_match_found(
        c.sort.spec_find_all(data[0]),
        data,
        0,
        data,
        begin,
        MIN_WORDS_SEARCH as int,
        begin,
    );
    assert(spec_match_candidate(data, begin, begin, &c.sort, MIN_WORDS_SEARCH as usize) is Some);
    assert(check_position(data.len() as int, 0) == 0);
    assert(isort_match_from(data, begin, c, 0) is Some);
    assert(cache_overlaps(c, begin, data.len() as int));
    lemma_isort_cache_found(p.cache@, data, begin, 0, j);
}

/// The backoff state after a try of a verified read: reset when the read
/// ends with its frame or the tries are used up, unchanged when another
/// try follows.
pub open spec fn backoff_after_try(v: BackoffView, done: bool, plan: ReadPlan, retry: i32) -> BackoffView {
    if done || retry + 1 >= plan.max_retries {
        v.reset()
    } else {
        v
    }
}

/// The fragment a consensus makes: its samples and flags.
pub open spec fn consensus_fragment(f: VFragment, b: ConsensusBuilder, plan: ReadPlan) -> bool {
    &&& f.vector@ == b.spec_samples()
    &&& f.flags@ == b.spec_flags()
    &&& f.begin == batch_begin(plan)
    &&& f.lastsector == plan.read_end
}

impl Paranoia {
    /// Merge a fragment into the root block. A fragment that would leave a
    /// gap before or after a non-empty root starts the root afresh.
    fn root_merge(&mut self, fragment: &VFragment)
        requires
            old(self).wf(),
            frag_ok(*fragment),
        ensures
            final(self).wf(),
            root_after_merge(old(self).root, *fragment, final(self).root),
            *final(self) == (Paranoia { root: final(self).root, ..*old(self) }),
    {
        let rlen = self.root.len();
        let flen = fragment.len();
        if rlen > 0 && flen > 0 && (fragment.begin > self.root.begin + rlen as i64 || self.root.begin
            > fragment.begin + flen as i64) {
            self.root.clear();
        }
        self.root.merge_fragment(fragment);
    }

    /// Stage two of a verified batch: cache it, merge it as a verified
    /// fragment (edges flagged) into the fragments and the root, and return
    /// the target frame if the root now holds it; otherwise try again.
    #[verifier::spinoff_prover]
    fn commit(&mut self, plan: ReadPlan, retry: i32, data: &[i16]) -> (r: ReadAction)
        requires
            old(self).wf(),
            plan_ok(*old(self), plan),
            0 <= retry < plan.max_retries,
            data@.len() == batch_len(plan),
            plan.target <= old(self).last_sector,
        ensures
            !(r is Backoff),
            final(self).wf(),
            action_fits(*final(self), r),
            r is Done ==> {
                &&& r == ReadAction::Done(Ok(()))
                &&& final(self).cursor == old(self).cursor + CD_FRAMEWORDS
                &&& final(self).output_buffer@ == root_frame(final(self).root, plan.target_begin)
            },
            !(r is Done) ==> final(self).cursor == old(self).cursor,
            !(r is Done) ==> final(self).phase == retry_phase(plan, retry),
            exists|f: VFragment| #[trigger] batch_fragment(f, data@, plan) && root_after_merge(
                old(self).root,
                f,
                final(self).root,
            ),
            exists|c: CachedBlock| #[trigger] batch_cached(c, data@, plan) && final(self).cache@ == trimmed(
                old(self).cache@.push(c),
                old(self).cache_model_sectors,
            ),
            final(self).dynoverlap == old(self).dynoverlap,
            final(self).jitter == old(self).jitter,
            r is Done <==> final(self).root.frame_at(plan.target_begin) is Some,
            final(self).backoff@ == backoff_after_try(old(self).backoff@, r is Done, plan, retry),
            final(self).mode == old(self).mode,
            final(self).first_sector == old(self).first_sector,
            final(self).last_sector == old(self).last_sector,
            final(self).enable_skip == old(self).enable_skip,
            reports_extend(old(self).reports@, final(self).reports@),
    {
        let new_begin = sample_start(plan.read_start);
        let block = CBlock::from_sectors(data, new_begin, plan.read_end);
        let sort = SortInfo::from_vector(data, new_begin);
        let entry = CachedBlock { block, sort };
        let ghost entry_g = entry;
        self.cache.push(entry);
        assert forall|i: int| 0 <= i < self.cache@.len() implies cached_ok(#[trigger] self.cache@[i]) by {
            if i < old(self).cache@.len() {
                assert(self.cache@[i] == old(self).cache@[i]);
            }
        }
        self.trim_cache();
        assert(batch_cached(entry_g, data@, plan) && self.cache@ == trimmed(
            old(self).cache@.push(entry_g),
            old(self).cache_model_sectors,
        ));
        let mut fragment = VFragment::from_samples_verified(data, new_begin, plan.read_end);
        fragment.mark_edges(588);
        self.try_merge_fragment(&fragment);
        let ghost root0 = self.root;
        self.root_merge(&fragment);
        assert(batch_fragment(fragment, data@, plan) && root_after_merge(root0, fragment, self.root));
        let frame = self.root.extract_frame(plan.target_begin);
        match frame {
            Some(fr) => {
                self.output_buffer = copy_all(fr);
                self.reset_backoff();
                if retry > 0 {
                    self.report(plan.target_begin, ParanoiaCallback::FixupEdge);
                }
                self.finish(true, plan.target, plan.max_retries)
            },
            None => {
                self.report(plan.target_begin, ParanoiaCallback::Verify);
                self.next_retry(plan, retry)
            },
        }
    }
}

/// The builder's reads can be asked for every position of its region.
proof fn lemma_builder_positions(b: ConsensusBuilder, plan: ReadPlan, batch: usize)
    requires
        builder_ok(b, plan),
        span_ok(batch_begin(plan), batch_len(plan) as nat),
        batch == batch_len(plan),
        1 <= plan.read_count,
    ensures
        b.positions_ok(),
{
    assert(batch_len(plan) >= 1) by (nonlinear_arith)
        requires
            batch_len(plan) == plan.read_count * 1176,
            1 <= plan.read_count,
    ;
    assert forall|i: int, pos: int|
        0 <= i < b.spec_reads().len() && b.spec_region_begin() <= pos < b.spec_region_end() implies #[trigger] b.spec_reads()[i].get_defined(
        pos,
    ) by {
        assert(-POS_BOUND <= b.spec_reads()[i].jitter <= POS_BOUND);
    }
}

impl Paranoia {
    /// The end of consensus voting: merge the consensus of the reads into
    /// the cache, the fragments and the root (reporting `FixupAtom` when at
    /// least 90% of it is verified, else `Scratch`), and return the target
    /// frame if the root now holds it; otherwise try again.
    #[verifier::spinoff_prover]
    fn consensus_final(&mut self, plan: ReadPlan, retry: i32, builder: ConsensusBuilder, batch: usize) -> (r: ReadAction)
        requires
            old(self).wf(),
            plan_ok(*old(self), plan),
            0 <= retry < plan.max_retries,
            builder_ok(builder, plan),
            batch == batch_len(plan),
            plan.target <= old(self).last_sector,
        ensures
            !(r is Backoff),
            final(self).wf(),
            action_fits(*final(self), r),
            r is Done ==> {
                &&& r == ReadAction::Done(Ok(()))
                &&& final(self).cursor == old(self).cursor + CD_FRAMEWORDS
                &&& final(self).output_buffer@ == root_frame(final(self).root, plan.target_begin)
            },
            !(r is Done) ==> final(self).cursor == old(self).cursor,
            !(r is Done) ==> final(self).phase == retry_phase(plan, retry),
            final(self).mode == old(self).mode,
            final(self).first_sector == old(self).first_sector,
            final(self).last_sector == old(self).last_sector,
            final(self).enable_skip == old(self).enable_skip,
            reports_extend(old(self).reports@, final(self).reports@),
            builder.spec_reads().len() >= MIN_READS_FOR_CONSENSUS ==> exists|f: VFragment|
                #[trigger] consensus_fragment(f, builder, plan) && root_after_merge(old(self).root, f, final(self).root),
            builder.spec_reads().len() < MIN_READS_FOR_CONSENSUS ==> final(self).root == old(self).root,
            builder.spec_reads().len() >= MIN_READS_FOR_CONSENSUS ==> exists|c: CachedBlock|
                #[trigger] batch_cached(c, builder.spec_samples(), plan) && final(self).cache@ == trimmed(
                    old(self).cache@.push(c),
                    old(self).cache_model_sectors,
                ),
            builder.spec_reads().len() < MIN_READS_FOR_CONSENSUS ==> final(self).cache@ == old(self).cache@,
            r is Done <==> (builder.spec_reads().len() >= MIN_READS_FOR_CONSENSUS && final(self).root.frame_at(
                plan.target_begin,
            ) is Some),
            final(self).backoff@ == backoff_after_try(old(self).backoff@, r is Done, plan, retry),
    {
        proof {
            lemma_builder_positions(builder, plan, batch);
        }
        let built = builder.build_with_stats();
        match built {
            Some(result) => {
                let acceptable = result.is_acceptable();
                let new_begin = sample_start(plan.read_start);
                let block = CBlock::from_sectors(result.samples.as_slice(), new_begin, plan.read_end);
                let sort = SortInfo::from_vector(result.samples.as_slice(), new_begin);
                let entry = CachedBlock { block, sort };
                let ghost entry_g = entry;
                self.cache.push(entry);
                assert forall|i: int| 0 <= i < self.cache@.len() implies cached_ok(#[trigger] self.cache@[i]) by {
                    if i < old(self).cache@.len() {
                        assert(self.cache@[i] == old(self).cache@[i]);
                    }
                }
                self.trim_cache();
                assert(batch_cached(entry_g, builder.spec_samples(), plan) && self.cache@ == trimmed(
                    old(self).cache@.push(entry_g),
                    old(self).cache_model_sectors,
                ));
                let mut fragment = VFragment::from_samples(result.samples.as_slice(), new_begin, plan.read_end);
                fragment.flags = result.flags;
                self.try_merge_fragment(&fragment);
                let ghost root0 = self.root;
                self.root_merge(&fragment);
                assert(consensus_fragment(fragment, builder, plan) && root_after_merge(root0, fragment, self.root));
                if acceptable {
                    self.report(plan.target_begin, ParanoiaCallback::FixupAtom);
                } else {
                    self.report(plan.target_begin, ParanoiaCallback::Scratch);
                }
                let frame = self.root.extract_frame(plan.target_begin);
                match frame {
                    Some(fr) => {
                        self.output_buffer = copy_all(fr);
                        self.reset_backoff();
                        return self.finish(true, plan.target, plan.max_retries);
                    },
                    None => {},
                }
            },
            None => {},
        }
        self.next_retry(plan, retry)
    }

    /// Consensus voting: read again until enough reads agree well enough
    /// or the extra reads are used up, then settle on the consensus.
    fn consensus_next(
        &mut self,
        plan: ReadPlan,
        retry: i32,
        first: Vec<i16>,
        builder: ConsensusBuilder,
        round: usize,
    ) -> (r: ReadAction)
        requires
            old(self).wf(),
            plan_ok(*old(self), plan),
            0 <= retry < plan.max_retries,
            builder_ok(builder, plan),
            first@.len() == batch_len(plan),
            round <= CONSENSUS_ROUNDS,
            builder.spec_reads().len() <= 2 + round,
            plan.target <= old(self).last_sector,
        ensures
            !(r is Backoff),
            final(self).wf(),
            action_fits(*final(self), r),
            r is Done ==> {
                &&& r == ReadAction::Done(Ok(()))
                &&& final(self).cursor == old(self).cursor + CD_FRAMEWORDS
                &&& final(self).output_buffer@ == root_frame(final(self).root, plan.target_begin)
            },
            !(r is Done) ==> final(self).cursor == old(self).cursor,
            !(r is Done) ==> final(self).phase == retry_phase(plan, retry) || (round < CONSENSUS_ROUNDS
                && consensus_phase(final(self).phase, plan, retry, first@, round as int, builder.spec_reads().len() as int)),
            round < CONSENSUS_ROUNDS && !consensus_settles(builder) ==> r == (ReadAction::ReadAudio {
                begin: plan.read_start,
                sectors: plan.read_count,
            }) && consensus_phase(final(self).phase, plan, retry, first@, round as int, builder.spec_reads().len() as int)
                && final(self).root == old(self).root && final(self).cache@ == old(self).cache@
                && final(self).reports@ == old(self).reports@,
            round >= CONSENSUS_ROUNDS || consensus_settles(builder) ==> (r is Done || final(self).phase
                == retry_phase(plan, retry)),
            consensus_outcome(
                *old(self),
                *final(self),
                r,
                plan,
                retry,
                first@,
                round as int,
                builder,
                old(self).backoff@,
            ),
            final(self).mode == old(self).mode,
            final(self).first_sector == old(self).first_sector,
            final(self).last_sector == old(self).last_sector,
            final(self).enable_skip == old(self).enable_skip,
            reports_extend(old(self).reports@, final(self).reports@),
    {
        let batch = first.len();
        if round < CONSENSUS_ROUNDS {
            let mut done = false;
            if builder.has_enough_reads() {
                proof {
                    lemma_builder_positions(builder, plan, batch);
                }
                let built = builder.build_with_stats();
                match built {
                    Some(result) => {
                        if result.is_acceptable() {
                            done = true;
                        }
                    },
                    None => {},
                }
            }
            if !done {
                self.phase = ReadPhase::Consensus { plan, retry, first, builder, round };
                return ReadAction::ReadAudio { begin: plan.read_start, sectors: plan.read_count };
            }
        }
        self.consensus_final(plan, retry, builder, batch)
    }

    /// Stage one of a verified batch: look for it in the cache, through the
    /// sample indexes and then with the overlap search (recording any
    /// jitter found). Verified data goes to stage two; otherwise the batch
    /// is read a second time.
    fn process_first(&mut self, plan: ReadPlan, retry: i32, data: Vec<i16>) -> (r: ReadAction)
        requires
            old(self).wf(),
            plan_ok(*old(self), plan),
            0 <= retry < plan.max_retries,
            data@.len() == batch_len(plan),
            plan.target <= old(self).last_sector,
        ensures
            !(r is Backoff),
            final(self).wf(),
            action_fits(*final(self), r),
            r is Done ==> {
                &&& r == ReadAction::Done(Ok(()))
                &&& final(self).cursor == old(self).cursor + CD_FRAMEWORDS
                &&& final(self).output_buffer@ == root_frame(final(self).root, plan.target_begin)
            },
            !(r is Done) ==> final(self).cursor == old(self).cursor,
            cache_verifies(*old(self), data@, batch_begin(plan)) ==> (r is Done || final(self).phase == retry_phase(
                plan,
                retry,
            )),
            !cache_verifies(*old(self), data@, batch_begin(plan)) ==> second_phase(final(self).phase, plan, retry, data@),
            cache_verifies(*old(self), data@, batch_begin(plan)) ==> exists|f: VFragment|
                #[trigger] batch_fragment(f, data@, plan) && root_after_merge(old(self).root, f, final(self).root),
            !cache_verifies(*old(self), data@, batch_begin(plan)) ==> final(self).root == old(self).root
                && final(self).cache@ == old(self).cache@ && final(self).reports@ == old(self).reports@,
            cache_verifies(*old(self), data@, batch_begin(plan)) ==> exists|c: CachedBlock|
                #[trigger] batch_cached(c, data@, plan) && final(self).cache@ == trimmed(
                    old(self).cache@.push(c),
                    old(self).cache_model_sectors,
                ),
            cache_offset(*old(self), data@, batch_begin(plan)) matches Some(o) ==> jitter_noted(
                old(self).dynoverlap,
                final(self).dynoverlap,
                o,
            ) && (o != 0 ==> final(self).jitter == if o < 0 { -o } else { o as int }),
            cache_offset(*old(self), data@, batch_begin(plan)) is None ==> final(self).dynoverlap == old(
                self,
            ).dynoverlap,
            cache_verifies(*old(self), data@, batch_begin(plan)) ==> (r is Done <==> final(self).root.frame_at(
                plan.target_begin,
            ) is Some),
            cache_verifies(*old(self), data@, batch_begin(plan)) ==> final(self).backoff@ == backoff_after_try(
                old(self).backoff@,
                r is Done,
                plan,
                retry,
            ),
            !cache_verifies(*old(self), data@, batch_begin(plan)) ==> final(self).backoff@ == old(self).backoff@,
            final(self).mode == old(self).mode,
            final(self).first_sector == old(self).first_sector,
            final(self).last_sector == old(self).last_sector,
            final(self).enable_skip == old(self).enable_skip,
            reports_extend(old(self).reports@, final(self).reports@),
    {
        let new_begin = sample_start(plan.read_start);
        let (mut verified, jitter_offset) = self.verify_with_isort(data.as_slice(), new_begin);
        if verified {
            if jitter_offset != 0 {
                self.jitter = if jitter_offset < 0 { -jitter_offset } else { jitter_offset };
                self.record_jitter_with_report(jitter_offset, 1, new_begin);
                self.report(new_begin, ParanoiaCallback::FixupEdge);
            }
        } else if self.cache.len() > 0 {
            let (found, overlap_offset) = self.find_overlap_with_cache(data.as_slice(), new_begin);
            if found {
                verified = true;
                if overlap_offset != 0 {
                    self.jitter = if overlap_offset < 0 { -overlap_offset } else { overlap_offset };
                    self.record_jitter_with_report(overlap_offset, 1, new_begin);
                    self.report(new_begin, ParanoiaCallback::FixupEdge);
                }
            }
        }
        if verified {
            self.commit(plan, retry, data.as_slice())
        } else {
            self.phase = ReadPhase::Second { plan, retry, first: data };
            ReadAction::ReadAudio { begin: plan.read_start, sectors: plan.read_count }
        }
    }
}

/// The first report queued after `before` is `first`.
pub open spec fn reports_next(before: Seq<Report>, after: Seq<Report>, first: Report) -> bool {
    &&& after.len() > before.len()
    &&& after[before.len() as int] == first
}

/// The last report queued, after `before`, is `last`.
pub open spec fn reports_last(before: Seq<Report>, after: Seq<Report>, last: Report) -> bool {
    &&& after.len() > before.len()
    &&& after.last() == last
}

/// The reports queued before stay, in order, at the front.
pub open spec fn reports_extend(before: Seq<Report>, after: Seq<Report>) -> bool {
    &&& before.len() <= after.len()
    &&& forall|k: int| 0 <= k < before.len() ==> #[trigger] after[k] == before[k]
}

/// A failed batch read of `sector` gives up on it: the error (where the
/// counters can still count it) calls for a backoff, and the backoffs
/// there are used up.
pub open spec fn batch_gives_up(v: BackoffView, sector: Lsn) -> bool {
    let counted = v.can_record_error();
    let after = if counted { v.after_error(sector) } else { v };
    &&& counted && v.error_triggers(sector)
    &&& after.backoff_count >= MAX_BACKOFFS
}

/// Backoffs at one sector before a verified read gives up on it.
pub const MAX_BACKOFFS: u32 = 3;

/// Facts every step of a read keeps: the reader stays consistent, the
/// request fits the new phase, the settings stay, and the position moves
/// on one frame exactly when the read completes successfully.
pub open spec fn step_ok(old_p: Paranoia, new_p: Paranoia, r: ReadAction) -> bool {
    &&& new_p.wf()
    &&& action_fits(new_p, r)
    &&& new_p.mode == old_p.mode
    &&& new_p.first_sector == old_p.first_sector
    &&& new_p.last_sector == old_p.last_sector
    &&& new_p.enable_skip == old_p.enable_skip
    &&& reports_extend(old_p.reports@, new_p.reports@)
    &&& r matches ReadAction::Done(Ok(_)) ==> new_p.cursor == old_p.cursor + CD_FRAMEWORDS
    &&& !(r matches ReadAction::Done(Ok(_))) ==> new_p.cursor == old_p.cursor
}

impl Paranoia {
    /// A failed first read of a try: report it, count the error, and go on
    /// as the backoff policy says: try again, back off (moving back by the
    /// backoff distance, not before the range), or give up on the sector.
    fn first_failed(&mut self, plan: ReadPlan, retry: i32) -> (r: ReadAction)
        requires
            old(self).wf(),
            plan_ok(*old(self), plan),
            0 <= retry < plan.max_retries,
            plan.target <= old(self).last_sector,
        ensures
            step_ok(*old(self), *final(self), r),
            r matches ReadAction::Done(Err(e)) ==> !old(self).enable_skip && e == Error::SectorSkip(
                plan.target,
                plan.max_retries,
            ),
            r matches ReadAction::Done(Ok(_)) ==> final(self).output_buffer@ == Seq::new(
                CD_FRAMEWORDS as nat,
                |_i: int| 0i16,
            ),
            r matches ReadAction::Backoff { sector, delay } ==> {
                let v = final(self).backoff@;
                &&& sector == if plan.target - v.backoff_sectors < old(self).first_sector {
                    old(self).first_sector as int
                } else {
                    plan.target - v.backoff_sectors
                }
                &&& delay == millis_duration(v.delay_ms)
                &&& final(self).phase == (ReadPhase::Settle { plan, retry, report: true })
            },
            r is ReadAudio ==> final(self).phase == retry_phase(plan, retry),
            reports_next(
                old(self).reports@,
                final(self).reports@,
                Report { position: plan.target_begin, event: ParanoiaCallback::ReadError },
            ),
            r is Done <==> batch_gives_up(old(self).backoff@, plan.target),
            r is Done && old(self).enable_skip ==> r == ReadAction::Done(Ok(())) && reports_last(
                old(self).reports@,
                final(self).reports@,
                Report { position: old(self).cursor, event: ParanoiaCallback::Skip },
            ),
            r is Done && !old(self).enable_skip ==> r == ReadAction::Done(
                Err(Error::SectorSkip(plan.target, plan.max_retries)),
            ),
    {
        self.report(plan.target_begin, ParanoiaCallback::ReadError);
        let needs_backoff = self.note_read_error(plan.target);
        let action = determine_backoff_action(&self.backoff, needs_backoff, MAX_BACKOFFS);
        match action {
            BackoffAction::Continue => self.next_retry(plan, retry),
            BackoffAction::Backoff { sectors, delay } => {
                let t = plan.target as i64 - sectors as i64;
                let sector: i32 = if t < self.first_sector as i64 { self.first_sector } else { t as i32 };
                self.phase = ReadPhase::Settle { plan, retry, report: true };
                ReadAction::Backoff { sector, delay }
            },
            BackoffAction::GiveUp => {
                self.reset_backoff();
                self.finish(false, plan.target, plan.max_retries)
            },
        }
    }

    /// A failed second read of a try: report it, count the error, and back
    /// off (by the backoff distance, not before the range) if that is due
    /// and allowed, else try again.
    fn second_failed(&mut self, plan: ReadPlan, retry: i32) -> (r: ReadAction)
        requires
            old(self).wf(),
            plan_ok(*old(self), plan),
            0 <= retry < plan.max_retries,
            plan.target <= old(self).last_sector,
        ensures
            step_ok(*old(self), *final(self), r),
            !(r is Done),
            r matches ReadAction::Backoff { sector, delay } ==> {
                let v = final(self).backoff@;
                &&& sector == if plan.target - v.backoff_sectors < old(self).first_sector {
                    old(self).first_sector as int
                } else {
                    plan.target - v.backoff_sectors
                }
                &&& delay == millis_duration(v.delay_ms)
                &&& final(self).phase == (ReadPhase::Settle { plan, retry, report: false })
            },
            r is ReadAudio ==> final(self).phase == retry_phase(plan, retry),
            reports_next(
                old(self).reports@,
                final(self).reports@,
                Report { position: plan.target_begin, event: ParanoiaCallback::ReadError },
            ),
    {
        self.report(plan.target_begin, ParanoiaCallback::ReadError);
        let needs_backoff = self.note_read_error(plan.target);
        if needs_backoff && !self.backoff.should_give_up(MAX_BACKOFFS) {
            let (sectors, delay) = self.backoff.get_backoff_params();
            let t = plan.target as i64 + sectors as i64;
            let sector: i32 = if t < self.first_sector as i64 { self.first_sector } else { t as i32 };
            self.phase = ReadPhase::Settle { plan, retry, report: false };
            ReadAction::Backoff { sector, delay }
        } else {
            self.next_retry(plan, retry)
        }
    }

    /// The second read of a try arrived: identical reads, or reads that
    /// match allowing for jitter or a repairable rift, verify the batch;
    /// otherwise consensus voting starts with both reads.
    #[verifier::spinoff_prover]
    fn second_arrived(&mut self, plan: ReadPlan, retry: i32, first: Vec<i16>, read2: Vec<i16>) -> (r: ReadAction)
        requires
            old(self).wf(),
            plan_ok(*old(self), plan),
            0 <= retry < plan.max_retries,
            first@.len() == batch_len(plan),
            read2@.len() == batch_len(plan),
            plan.target <= old(self).last_sector,
        ensures
            !(r is Backoff),
            step_ok(*old(self), *final(self), r),
            r is Done ==> {
                &&& r == ReadAction::Done(Ok(()))
                &&& final(self).output_buffer@ == root_frame(final(self).root, plan.target_begin)
            },
            reads_agree(*old(self), first@, read2@) ==> (r is Done || final(self).phase == retry_phase(plan, retry)),
            !reads_agree(*old(self), first@, read2@) ==> consensus_phase(final(self).phase, plan, retry, first@, 0, 2),
            reads_agree(*old(self), first@, read2@) ==> exists|f: VFragment|
                #[trigger] batch_fragment(f, first@, plan) && root_after_merge(old(self).root, f, final(self).root),
            !reads_agree(*old(self), first@, read2@) ==> final(self).root == old(self).root
                && final(self).cache@ == old(self).cache@ && reports_last(
                old(self).reports@,
                final(self).reports@,
                Report { position: plan.target_begin, event: ParanoiaCallback::Verify },
            ),
            reads_agree(*old(self), first@, read2@) ==> (r is Done <==> final(self).root.frame_at(
                plan.target_begin,
            ) is Some),
            reads_agree(*old(self), first@, read2@) ==> final(self).backoff@ == backoff_after_try(
                old(self).backoff@,
                r is Done,
                plan,
                retry,
            ),
            !reads_agree(*old(self), first@, read2@) ==> final(self).backoff@ == old(self).backoff@,
            reads_agree(*old(self), first@, read2@) ==> exists|c: CachedBlock|
                #[trigger] batch_cached(c, first@, plan) && final(self).cache@ == trimmed(
                    old(self).cache@.push(c),
                    old(self).cache_model_sectors,
                ),
    {
        proof {
            lemma_batch_len(plan);
        }
        if slices_equal(first.as_slice(), read2.as_slice()) {
            return self.commit(plan, retry, first.as_slice());
        }
        if self.find_batch_jitter_match(first.as_slice(), read2.as_slice()) {
            return self.commit(plan, retry, first.as_slice());
        }
        self.report(plan.target_begin, ParanoiaCallback::Verify);
        let new_begin = sample_start(plan.read_start);
        let new_end = new_begin + first.len() as i64;
        let mut builder = ConsensusBuilder::new(new_begin, new_end);
        builder.add_read(ReadResult::new(copy_all(first.as_slice()), new_begin, 0));
        builder.add_read(ReadResult::new(read2, new_begin, 0));
        self.consensus_next(plan, retry, first, builder, 0)
    }

    /// A consensus read arrived (or failed): add it, shifted by its jitter
    /// against the first read, and go on voting.
    #[verifier::spinoff_prover]
    fn consensus_arrived(
        &mut self,
        plan: ReadPlan,
        retry: i32,
        first: Vec<i16>,
        builder: ConsensusBuilder,
        round: usize,
        reply: DriveReply,
    ) -> (r: ReadAction)
        requires
            old(self).wf(),
            plan_ok(*old(self), plan),
            0 <= retry < plan.max_retries,
            builder_ok(builder, plan),
            first@.len() == batch_len(plan),
            round < CONSENSUS_ROUNDS,
            builder.spec_reads().len() <= 2 + round,
            plan.target <= old(self).last_sector,
            reply is Failed || (reply matches DriveReply::Samples(d) && d@.len() == batch_len(plan)),
        ensures
            !(r is Backoff),
            step_ok(*old(self), *final(self), r),
            r is Done ==> {
                &&& r == ReadAction::Done(Ok(()))
                &&& final(self).output_buffer@ == root_frame(final(self).root, plan.target_begin)
            },
            !(r is Done) ==> final(self).phase == retry_phase(plan, retry) || (round + 1 < CONSENSUS_ROUNDS
                && consensus_phase(
                final(self).phase,
                plan,
                retry,
                first@,
                round + 1,
                builder.spec_reads().len() + if reply is Samples { 1int } else { 0int },
            )),
            exists|b: ConsensusBuilder|
                #[trigger] builder_after(b, builder, reply, first@, plan, old(self).dynoverlap.spec_search())
                    && consensus_outcome(
                *old(self),
                *final(self),
                r,
                plan,
                retry,
                first@,
                round + 1,
                b,
                backoff_noted(old(self).backoff@, reply, plan.target),
            ),
            !(reply is Samples) ==> reports_next(
                old(self).reports@,
                final(self).reports@,
                Report { position: batch_begin(plan), event: ParanoiaCallback::ReadError },
            ),
            reply is Samples && round == 0 ==> reports_next(
                old(self).reports@,
                final(self).reports@,
                Report { position: batch_begin(plan), event: ParanoiaCallback::Verify },
            ),
    {
        proof {
            lemma_batch_len(plan);
        }
        let ghost b0 = builder;
        let ghost reply0 = reply;
        let new_begin = sample_start(plan.read_start);
        let mut builder = builder;
        match reply {
            DriveReply::Samples(additional) => {
                let search = self.dynoverlap.search();
                let jitter = match jitter_offset_checked(first.as_slice(), additional.as_slice(), search) {
                    Some(j) => j,
                    None => 0,
                };
                proof {
                    lemma_jitter_scan_bound(
                        first@,
                        additional@,
                        (first@.len() / 2) as int,
                        0,
                        search as int,
                    );
                }
                builder.add_read(ReadResult::new(additional, new_begin, jitter));
                if round == 0 {
                    self.report(new_begin, ParanoiaCallback::Verify);
                }
            },
            _ => {
                self.report(new_begin, ParanoiaCallback::ReadError);
                let _ = self.note_read_error(plan.target);
            },
        }
        let ghost b1 = builder;
        let ghost mid = *self;
        assert(builder_after(b1, b0, reply0, first@, plan, old(self).dynoverlap.spec_search()));
        let r = self.consensus_next(plan, retry, first, builder, round + 1);
        assert(mid.backoff@ == backoff_noted(old(self).backoff@, reply0, plan.target));
        assert(consensus_outcome(mid, *self, r, plan, retry, first@, round + 1, b1, mid.backoff@));
        assert(consensus_outcome(
            *old(self),
            *self,
            r,
            plan,
            retry,
            first@,
            round + 1,
            b1,
            backoff_noted(old(self).backoff@, reply0, plan.target),
        ));
        r
    }
}

/// The root holds the whole frame at `pos`.
pub open spec fn root_holds_frame(root: RootBlock, pos: i64) -> bool {
    &&& root.vector@.len() > 0
    &&& root.begin <= pos
    &&& root.spec_end() >= pos + CD_FRAMEWORDS
    &&& root.frame_at(pos) is Some
}

/// How a read of the sector at the read position begins, with at most
/// `max_retries` tries: past the range's last sector it fails with
/// `UnaddressableSector`; otherwise `Read` is reported, and the read is
/// direct (paranoia disabled) or verified: the frame at once where the
/// root holds it, else the first batch of the plan (or, with no tries
/// allowed, the target sector alone).
pub open spec fn read_started(old_p: Paranoia, new_p: Paranoia, r: ReadAction, max_retries: i32) -> bool {
    let t = old_p.cursor as int / CD_FRAMEWORDS as int;
    &&& t > old_p.last_sector ==> {
        &&& r == ReadAction::Done(Err(Error::UnaddressableSector(t as i32)))
        &&& new_p.reports@ == old_p.reports@
    }
    &&& t <= old_p.last_sector ==> {
        let target = t as Lsn;
        let tb = (target * CD_FRAMEWORDS) as i64;
        &&& new_p.reports@.len() >= old_p.reports@.len() + 1
        &&& new_p.reports@[old_p.reports@.len() as int] == (Report {
            position: old_p.cursor,
            event: ParanoiaCallback::Read,
        })
        &&& old_p.mode.spec_bits() == 0 ==> new_p.phase == (ReadPhase::Direct { target, max_retries }) && r == (
        ReadAction::ReadAudio { begin: target, sectors: 1 })
        &&& old_p.mode.spec_bits() != 0 ==> (r is Done <==> root_holds_frame(old_p.root, tb))
        &&& old_p.mode.spec_bits() != 0 && r is Done ==> r == ReadAction::Done(Ok(()))
            && new_p.output_buffer@ == root_frame(old_p.root, tb)
        &&& old_p.mode.spec_bits() != 0 && !(r is Done) && max_retries > 0 ==> new_p.phase == (ReadPhase::First {
            plan: plan_for(old_p, target, max_retries),
            retry: 0,
        }) && r == (ReadAction::ReadAudio {
            begin: plan_for(old_p, target, max_retries).read_start,
            sectors: plan_for(old_p, target, max_retries).read_count,
        })
        &&& old_p.mode.spec_bits() != 0 && !(r is Done) && max_retries <= 0 ==> new_p.phase == (ReadPhase::Fallback {
            plan: plan_for(old_p, target, max_retries),
        }) && r == (ReadAction::ReadAudio { begin: target, sectors: 1 })
    }
}

/// The number of sectors a batch reaches back before the target: the
/// overlap in sectors (as the reader's 32-bit sector arithmetic has it),
/// at least 2.
pub open spec fn overlap_back(p: Paranoia) -> int {
    let ov = trunc_div(p.dynoverlap.spec_overlap() + CD_FRAMEWORDS - 1, CD_FRAMEWORDS as int) as i32;
    if ov < 2 { 2 } else { ov as int }
}

/// The batch a verified read of `target` fetches on every try: from the
/// overlap before the target (not before the range) for 26 sectors plus
/// the overlap (not past the range).
pub open spec fn plan_for(p: Paranoia, target: Lsn, max_retries: i32) -> ReadPlan {
    let ov = overlap_back(p);
    let rs = if target - ov < p.first_sector { p.first_sector as int } else { target - ov };
    let re = if rs + 26 + ov < p.last_sector + 1 { rs + 26 + ov } else { p.last_sector + 1 };
    ReadPlan {
        target,
        target_begin: (target * CD_FRAMEWORDS) as i64,
        read_start: rs as i32,
        read_end: re as i64,
        read_count: (re - rs) as i64,
        max_retries,
    }
}

impl Paranoia {
    /// Begin a verified read of `target`: return the frame at once if the
    /// root holds it, else ask for the first batch of the plan (or, with
    /// no tries allowed, for the target sector alone).
    #[verifier::spinoff_prover]
    fn start_verified(&mut self, target: Lsn, max_retries: i32) -> (r: ReadAction)
        requires
            old(self).wf(),
            target == old(self).cursor as int / CD_FRAMEWORDS as int,
            target <= old(self).last_sector,
        ensures
            step_ok(*old(self), *final(self), r),
            r is Done ==> {
                &&& r == ReadAction::Done(Ok(()))
                &&& final(self).output_buffer@ == root_frame(old(self).root, (target * CD_FRAMEWORDS) as i64)
            },
            r is Done <==> root_holds_frame(old(self).root, (target * CD_FRAMEWORDS) as i64),
            !(r is Done) && max_retries > 0 ==> final(self).phase == (ReadPhase::First {
                plan: plan_for(*old(self), target, max_retries),
                retry: 0,
            }),
            !(r is Done) && max_retries <= 0 ==> final(self).phase == (ReadPhase::Fallback {
                plan: plan_for(*old(self), target, max_retries),
            }),
            final(self).reports@.len() >= old(self).reports@.len(),
            forall|k: int| 0 <= k < old(self).reports@.len() ==> #[trigger] final(self).reports@[k] == old(self).reports@[k],
    {
        proof {
            lemma_cursor_bounds(*old(self));
        }
        let target_begin = target as i64 * 1176;
        let target_end = target_begin + 1176;
        if !self.root.is_empty() && self.root.begin <= target_begin && self.root.end() >= target_end {
            let frame = self.root.extract_frame(target_begin);
            match frame {
                Some(fr) => {
                    self.output_buffer = copy_all(fr);
                    return self.finish(true, target, max_retries);
                },
                None => {},
            }
        }
        let ov_sectors = self.dynoverlap.overlap_sectors();
        let ov32 = ov_sectors as i32;
        let ov: i64 = if ov32 < 2 { 2 } else { ov32 as i64 };
        let rs0 = target as i64 - ov;
        let read_start: i64 = if rs0 < self.first_sector as i64 { self.first_sector as i64 } else { rs0 };
        let re0 = read_start + 26 + ov;
        let last1 = self.last_sector as i64 + 1;
        let read_end: i64 = if re0 < last1 { re0 } else { last1 };
        let read_count = read_end - read_start;
        let plan = ReadPlan {
            target,
            target_begin,
            read_start: read_start as i32,
            read_end,
            read_count,
            max_retries,
        };
        assert(plan == plan_for(*old(self), target, max_retries));
        assert(span_ok((plan.read_start * CD_FRAMEWORDS) as i64, (plan.read_count * CD_FRAMEWORDS) as nat))
            by (nonlinear_arith)
            requires
                i32::MIN <= plan.read_start,
                plan.read_start + plan.read_count <= i32::MAX + 1,
                1 <= plan.read_count,
                CD_FRAMEWORDS == 1176,
        ;
        if max_retries <= 0 {
            self.reset_backoff();
            self.phase = ReadPhase::Fallback { plan };
            return ReadAction::ReadAudio { begin: target, sectors: 1 };
        }
        self.phase = ReadPhase::First { plan, retry: 0 };
        ReadAction::ReadAudio { begin: plan.read_start, sectors: plan.read_count }
    }

    /// Begin reading the sector at the read position with at most
    /// `max_retries` tries. Past the range's last sector the read fails
    /// with `UnaddressableSector`; otherwise `Read` is reported and the read
    /// is direct (paranoia disabled: one sector, unverified) or verified.
    pub fn start_read_limited(&mut self, max_retries: i32) -> (r: ReadAction)
        requires
            old(self).wf(),
        ensures
            step_ok(*old(self), *final(self), r),
            read_started(*old(self), *final(self), r, max_retries),
    {
        proof {
            lemma_cursor_bounds(*old(self));
        }
        let t = trunc_div_i64(self.cursor, 1176);
        if t > self.last_sector as i64 {
            self.phase = ReadPhase::Idle;
            return ReadAction::Done(Err(Error::UnaddressableSector(t as i32)));
        }
        let target = t as i32;
        let c = self.cursor;
        self.report(c, ParanoiaCallback::Read);
        if self.mode.bits() == 0 {
            self.phase = ReadPhase::Direct { target, max_retries };
            ReadAction::ReadAudio { begin: target, sectors: 1 }
        } else {
            self.start_verified(target, max_retries)
        }
    }

    /// Begin reading the sector at the read position with the default
    /// number of tries.
    pub fn start_read(&mut self) -> (r: ReadAction)
        requires
            old(self).wf(),
        ensures
            step_ok(*old(self), *final(self), r),
            read_started(*old(self), *final(self), r, old(self).max_retries),
    {
        let max_retries = self.max_retries;
        self.start_read_limited(max_retries)
    }
}

/// The output buffer after copying the start of `data` over it.
pub open spec fn copied_over(buf: Seq<i16>, data: Seq<i16>) -> Seq<i16> {
    let n = if data.len() < buf.len() { data.len() } else { buf.len() };
    data.take(n as int) + buf.skip(n as int)
}

impl Paranoia {
    /// Continue the read in progress with the drive's reply to its last
    /// request. Returns the next request, or the end of the read.
    ///
    /// A direct or fallback read returns the sectors' samples (copied over
    /// the start of the output buffer) or, failing, ends as a failed read:
    /// silence when skipping is allowed, else `SectorSkip`. A settled
    /// backoff is recorded and the next try begins. Batch replies go
    /// through verification: a first batch that the cache verifies is
    /// merged, otherwise it is read a second time; two batches that agree
    /// are merged, otherwise consensus voting reads again. A merge that
    /// yields the target frame ends the read with it in the output buffer;
    /// otherwise the next try (or, the tries used up, the target sector
    /// alone) is read. A failed batch read counts an error and may back
    /// off.
    #[verifier::spinoff_prover]
    pub fn resume(&mut self, reply: DriveReply) -> (r: ReadAction)
        requires
            old(self).wf(),
            reply_fits(*old(self), reply),
        ensures
            step_ok(*old(self), *final(self), r),
            r matches ReadAction::Done(Err(e)) ==> !old(self).enable_skip && e == Error::SectorSkip(
                phase_target(old(self).phase).0,
                phase_target(old(self).phase).1,
            ),
            r matches ReadAction::Backoff { sector, delay } ==> {
                let t = phase_target(old(self).phase).0;
                let v = final(self).backoff@;
                &&& sector == if t - v.backoff_sectors < old(self).first_sector {
                    old(self).first_sector as int
                } else {
                    t - v.backoff_sectors
                }
                &&& delay == millis_duration(v.delay_ms)
            },
            (old(self).phase is Direct || old(self).phase is Fallback) ==> match reply {
                DriveReply::Samples(d) => {
                    &&& r == ReadAction::Done(Ok(()))
                    &&& final(self).output_buffer@ == copied_over(old(self).output_buffer@, d@)
                    &&& final(self).reports@ == old(self).reports@.push(
                        Report { position: (old(self).cursor + CD_FRAMEWORDS) as i64, event: ParanoiaCallback::Finished },
                    )
                },
                _ => {
                    &&& r is Done
                    &&& old(self).enable_skip ==> {
                        &&& r == ReadAction::Done(Ok(()))
                        &&& final(self).output_buffer@ == Seq::new(CD_FRAMEWORDS as nat, |_i: int| 0i16)
                        &&& final(self).reports@ == old(self).reports@.push(
                            Report { position: old(self).cursor, event: ParanoiaCallback::Skip },
                        )
                    }
                    &&& !old(self).enable_skip ==> final(self).reports@ == old(self).reports@
                        && final(self).output_buffer@ == old(self).output_buffer@ && r == ReadAction::Done(
                        Err(Error::SectorSkip(phase_target(old(self).phase).0, phase_target(old(self).phase).1)),
                    ) && final(self).cursor == old(self).cursor
                },
            },
            old(self).phase matches ReadPhase::Settle { plan, retry, report } ==> {
                let b = if old(self).backoff@.can_record_backoff() {
                    old(self).backoff@.after_backoff()
                } else {
                    old(self).backoff@
                };
                &&& retry + 1 < plan.max_retries ==> final(self).phase == (ReadPhase::First {
                    plan,
                    retry: (retry + 1) as i32,
                }) && final(self).backoff@ == b
                &&& retry + 1 >= plan.max_retries ==> final(self).phase == (ReadPhase::Fallback { plan })
                    && final(self).backoff@ == b.reset()
                &&& final(self).reports@ == if report {
                    old(self).reports@.push(Report { position: plan.target_begin, event: ParanoiaCallback::Overlap })
                } else {
                    old(self).reports@
                }
            },
            old(self).phase matches ReadPhase::First { plan, .. } ==> (reply is Samples && r is Done
                ==> final(self).output_buffer@ == root_frame(final(self).root, plan.target_begin)),
            old(self).phase matches ReadPhase::Second { plan, .. } ==> (reply is Samples && r is Done
                ==> final(self).output_buffer@ == root_frame(final(self).root, plan.target_begin)),
            old(self).phase matches ReadPhase::Consensus { plan, .. } ==> (r is Done
                ==> final(self).output_buffer@ == root_frame(final(self).root, plan.target_begin)),
            old(self).phase matches ReadPhase::First { plan, retry } ==> match reply {
                DriveReply::Samples(d) => {
                    &&& cache_verifies(*old(self), d@, batch_begin(plan)) ==> (r is Done || final(self).phase
                        == retry_phase(plan, retry))
                    &&& !cache_verifies(*old(self), d@, batch_begin(plan)) ==> second_phase(
                        final(self).phase,
                        plan,
                        retry,
                        d@,
                    ) && final(self).root == old(self).root && final(self).cache@ == old(self).cache@
                        && final(self).reports@ == old(self).reports@
                    &&& cache_verifies(*old(self), d@, batch_begin(plan)) ==> exists|f: VFragment|
                        #[trigger] batch_fragment(f, d@, plan) && root_after_merge(old(self).root, f, final(self).root)
                    &&& cache_verifies(*old(self), d@, batch_begin(plan)) ==> exists|c: CachedBlock|
                        #[trigger] batch_cached(c, d@, plan) && final(self).cache@ == trimmed(
                            old(self).cache@.push(c),
                            old(self).cache_model_sectors,
                        )
                    &&& cache_offset(*old(self), d@, batch_begin(plan)) matches Some(o) ==> jitter_noted(
                        old(self).dynoverlap,
                        final(self).dynoverlap,
                        o,
                    )
                    &&& cache_offset(*old(self), d@, batch_begin(plan)) is None ==> final(self).dynoverlap == old(
                        self,
                    ).dynoverlap
                    &&& cache_verifies(*old(self), d@, batch_begin(plan)) ==> (r is Done <==> final(self).root.frame_at(
                        plan.target_begin,
                    ) is Some)
                    &&& cache_verifies(*old(self), d@, batch_begin(plan)) ==> final(self).backoff@ == backoff_after_try(
                        old(self).backoff@.after_success(plan.target),
                        r is Done,
                        plan,
                        retry,
                    )
                    &&& !cache_verifies(*old(self), d@, batch_begin(plan)) ==> final(self).backoff@ == old(
                        self,
                    ).backoff@.after_success(plan.target)
                },
                _ => {
                    &&& r is Done <==> batch_gives_up(old(self).backoff@, plan.target)
                    &&& r is Done && old(self).enable_skip ==> r == ReadAction::Done(Ok(())) && reports_last(
                        old(self).reports@,
                        final(self).reports@,
                        Report { position: old(self).cursor, event: ParanoiaCallback::Skip },
                    ) && final(self).output_buffer@ == Seq::new(CD_FRAMEWORDS as nat, |_i: int| 0i16)
                        && final(self).cursor == old(self).cursor + CD_FRAMEWORDS
                    &&& r is Done && !old(self).enable_skip ==> r == ReadAction::Done(
                        Err(Error::SectorSkip(plan.target, plan.max_retries)),
                    ) && final(self).cursor == old(self).cursor
                    &&& r is ReadAudio ==> final(self).phase == retry_phase(plan, retry)
                    &&& r is Backoff ==> final(self).phase == (ReadPhase::Settle { plan, retry, report: true })
                    &&& reports_next(
                        old(self).reports@,
                        final(self).reports@,
                        Report { position: plan.target_begin, event: ParanoiaCallback::ReadError },
                    )
                },
            },
            old(self).phase matches ReadPhase::Second { plan, retry, first } ==> match reply {
                DriveReply::Samples(d) => {
                    &&& reads_agree(*old(self), first@, d@) ==> (r is Done || final(self).phase == retry_phase(
                        plan,
                        retry,
                    ))
                    &&& !reads_agree(*old(self), first@, d@) ==> consensus_phase(final(self).phase, plan, retry, first@, 0, 2)
                        && final(self).root == old(self).root && final(self).cache@ == old(self).cache@
                        && reports_last(
                        old(self).reports@,
                        final(self).reports@,
                        Report { position: plan.target_begin, event: ParanoiaCallback::Verify },
                    )
                    &&& reads_agree(*old(self), first@, d@) ==> exists|f: VFragment|
                        #[trigger] batch_fragment(f, first@, plan) && root_after_merge(old(self).root, f, final(self).root)
                    &&& reads_agree(*old(self), first@, d@) ==> (r is Done <==> final(self).root.frame_at(
                        plan.target_begin,
                    ) is Some)
                    &&& reads_agree(*old(self), first@, d@) ==> final(self).backoff@ == backoff_after_try(
                        old(self).backoff@,
                        r is Done,
                        plan,
                        retry,
                    )
                    &&& !reads_agree(*old(self), first@, d@) ==> final(self).backoff@ == old(self).backoff@
                    &&& reads_agree(*old(self), first@, d@) ==> exists|c: CachedBlock|
                        #[trigger] batch_cached(c, first@, plan) && final(self).cache@ == trimmed(
                            old(self).cache@.push(c),
                            old(self).cache_model_sectors,
                        )
                },
                _ => {
                    &&& r is ReadAudio ==> final(self).phase == retry_phase(plan, retry)
                    &&& r is Backoff ==> final(self).phase == (ReadPhase::Settle { plan, retry, report: false })
                    &&& reports_next(
                        old(self).reports@,
                        final(self).reports@,
                        Report { position: plan.target_begin, event: ParanoiaCallback::ReadError },
                    )
                },
            },
            old(self).phase matches ReadPhase::Consensus { plan, retry, first, builder, round } ==> exists|b: ConsensusBuilder|
                #[trigger] builder_after(b, builder, reply, first@, plan, old(self).dynoverlap.spec_search())
                    && consensus_outcome(
                *old(self),
                *final(self),
                r,
                plan,
                retry,
                first@,
                round + 1,
                b,
                backoff_noted(old(self).backoff@, reply, plan.target),
            ),
            old(self).phase matches ReadPhase::Consensus { plan, .. } ==> (!(reply is Samples) ==> reports_next(
                old(self).reports@,
                final(self).reports@,
                Report { position: batch_begin(plan), event: ParanoiaCallback::ReadError },
            )),
            old(self).phase matches ReadPhase::Consensus { plan, round, .. } ==> (reply is Samples && round == 0
                ==> reports_next(
                old(self).reports@,
                final(self).reports@,
                Report { position: batch_begin(plan), event: ParanoiaCallback::Verify },
            )),
            old(self).phase matches ReadPhase::Consensus { plan, retry, first, builder, round } ==> (!(r is Done)
                ==> final(self).phase == retry_phase(plan, retry) || (round + 1 < CONSENSUS_ROUNDS && consensus_phase(
                final(self).phase,
                plan,
                retry,
                first@,
                round + 1,
                builder.spec_reads().len() + if reply is Samples { 1int } else { 0int },
            ))),
    {
        proof {
            lemma_cursor_bounds(*old(self));
        }
        let mut phase = ReadPhase::Idle;
        std::mem::swap(&mut phase, &mut self.phase);
        match phase {
            ReadPhase::Idle => ReadAction::Done(Ok(())),
            ReadPhase::Direct { target, max_retries } => match reply {
                DriveReply::Samples(data) => {
                    copy_prefix(&mut self.output_buffer, data.as_slice());
                    self.finish(true, target, max_retries)
                },
                _ => self.finish(false, target, max_retries),
            },
            ReadPhase::Fallback { plan } => match reply {
                DriveReply::Samples(data) => {
                    copy_prefix(&mut self.output_buffer, data.as_slice());
                    self.finish(true, plan.target, plan.max_retries)
                },
                _ => self.finish(false, plan.target, plan.max_retries),
            },
            ReadPhase::Settle { plan, retry, report } => {
                self.note_backoff();
                if report {
                    self.report(plan.target_begin, ParanoiaCallback::Overlap);
                }
                self.next_retry(plan, retry)
            },
            ReadPhase::First { plan, retry } => match reply {
                DriveReply::Samples(data) => {
                    self.backoff.record_success(plan.target);
                    self.process_first(plan, retry, data)
                },
                _ => self.first_failed(plan, retry),
            },
            ReadPhase::Second { plan, retry, first } => match reply {
                DriveReply::Samples(read2) => self.second_arrived(plan, retry, first, read2),
                _ => self.second_failed(plan, retry),
            },
            ReadPhase::Consensus { plan, retry, first, builder, round } => {
                self.consensus_arrived(plan, retry, first, builder, round, reply)
            },
        }
    }
}

} // verus!
